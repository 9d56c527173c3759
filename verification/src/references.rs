//! References from a text file to media files.
//!
//! A text file refers to media files if its first line starts with `ref=`;
//! the ids of the media files follow, separated by commas, up to the end of
//! the line or to the next `=`.

use vstd::prelude::*;

verus! {

/// The first position from `from` on, and before `end`, at which `bytes`
/// holds `b`; `end` where it holds it at none.
pub open spec fn first_at(bytes: Seq<u8>, b: u8, from: int, end: int) -> int
    decreases end - from,
{
    if from >= end {
        end
    } else if bytes[from] == b {
        from
    } else {
        first_at(bytes, b, from + 1, end)
    }
}

/// Where the first line of `bytes` ends: before the first line feed, and
/// before the carriage return that comes right before that line feed.
pub open spec fn first_line_end(bytes: Seq<u8>) -> int {
    let feed = first_at(bytes, 10, 0, bytes.len() as int);
    if feed < bytes.len() && feed > 0 && bytes[feed - 1] == 13 {
        feed - 1
    } else {
        feed
    }
}

/// The first line starts with `ref=`.
pub open spec fn has_references(bytes: Seq<u8>) -> bool {
    &&& first_line_end(bytes) >= 4
    &&& bytes[0] == 114
    &&& bytes[1] == 101
    &&& bytes[2] == 102
    &&& bytes[3] == 61
}

/// The number that a string of decimal digits writes.
pub open spec fn digits_value(digits: Seq<u8>) -> int
    decreases digits.len(),
{
    if digits.len() == 0 {
        0
    } else {
        digits_value(digits.drop_last()) * 10 + (digits.last() - 48)
    }
}

pub open spec fn all_digits(bytes: Seq<u8>) -> bool {
    forall|i: int| 0 <= i < bytes.len() ==> 48 <= #[trigger] bytes[i] <= 57
}

/// The id that `digits` writes: decimal digits, at least one, for a number
/// up to 255.
pub open spec fn digits_id(digits: Seq<u8>) -> Option<u8> {
    if digits.len() > 0 && all_digits(digits) && digits_value(digits) <= 255 {
        Some(digits_value(digits) as u8)
    } else {
        None
    }
}

/// The id that `token` writes: digits, after at most one `+`.
pub open spec fn parse_id(token: Seq<u8>) -> Option<u8> {
    if token.len() > 0 && token[0] == 43 {
        digits_id(token.subrange(1, token.len() as int))
    } else {
        digits_id(token)
    }
}

/// The ids written between `from` and `end`, separated by commas, in order;
/// what is no id is left out.
pub open spec fn ids_between(bytes: Seq<u8>, from: int, end: int) -> Seq<u8>
    decreases end - from,
    via ids_between_decreases
{
    if from > end {
        Seq::empty()
    } else {
        let stop = first_at(bytes, 44, from, end);
        let rest = if stop < end {
            ids_between(bytes, stop + 1, end)
        } else {
            Seq::empty()
        };
        match parse_id(bytes.subrange(from, stop)) {
            Some(id) => seq![id] + rest,
            None => rest,
        }
    }
}

#[via_fn]
proof fn ids_between_decreases(bytes: Seq<u8>, from: int, end: int) {
    if from <= end {
        lemma_first_at_within(bytes, 44, from, end);
    }
}

proof fn lemma_first_at_within(bytes: Seq<u8>, b: u8, from: int, end: int)
    requires
        from <= end,
    ensures
        from <= first_at(bytes, b, from, end) <= end,
    decreases end - from,
{
    if from < end && bytes[from] != b {
        lemma_first_at_within(bytes, b, from + 1, end);
    }
}

/// The ids of the media files that a text refers to, in the order in which
/// it names them.
pub open spec fn references_of(bytes: Seq<u8>) -> Seq<u8> {
    ids_between(bytes, 4, first_at(bytes, 61, 4, first_line_end(bytes)))
}

proof fn lemma_digits_grow(digits: Seq<u8>)
    requires
        digits.len() > 0,
        all_digits(digits),
    ensures
        digits_value(digits) >= digits_value(digits.drop_last()) >= 0,
    decreases digits.len(),
{
    let init = digits.drop_last();
    assert forall|i: int| 0 <= i < init.len() implies 48 <= #[trigger] init[i] <= 57 by {
        assert(init[i] == digits[i]);
    }
    if init.len() > 0 {
        lemma_digits_grow(init);
    }
    assert(48 <= digits[digits.len() - 1] <= 57);
}

/// The first position from `from` on, and before `end`, at which `bytes`
/// holds `b`.
fn find(bytes: &[u8], b: u8, from: usize, end: usize) -> (at: usize)
    requires
        from <= end <= bytes@.len(),
    ensures
        at == first_at(bytes@, b, from as int, end as int),
        from <= at <= end,
{
    let mut i: usize = from;
    while i < end && bytes[i] != b
        invariant
            from <= i <= end <= bytes@.len(),
            first_at(bytes@, b, from as int, end as int) == first_at(bytes@, b, i as int, end as int),
        decreases end - i,
    {
        i += 1;
    }
    i
}

/// The id that the bytes between `from` and `to` write, if they write one.
fn id_between(bytes: &[u8], from: usize, to: usize) -> (id: Option<u8>)
    requires
        from <= to <= bytes@.len(),
    ensures
        id == parse_id(bytes@.subrange(from as int, to as int)),
{
    let ghost token = bytes@.subrange(from as int, to as int);
    let start: usize = if from < to && bytes[from] == 43 {
        from + 1
    } else {
        from
    };
    let ghost digits = bytes@.subrange(start as int, to as int);
    proof {
        if from < to && bytes@[from as int] == 43 {
            assert(token[0] == 43);
            assert(token.subrange(1, token.len() as int) =~= digits);
        } else {
            if token.len() > 0 {
                assert(token[0] == bytes@[from as int]);
            }
            assert(token =~= digits);
        }
    }
    if start == to {
        return None;
    }
    assert(parse_id(token) == digits_id(digits));
    let mut value: u32 = 0;
    let mut i: usize = start;
    while i < to
        invariant
            start <= i <= to <= bytes@.len(),
            digits == bytes@.subrange(start as int, to as int),
            digits.len() > 0,
            parse_id(bytes@.subrange(from as int, to as int)) == digits_id(digits),
            all_digits(digits.subrange(0, i - start)),
            value <= 255,
            value == digits_value(digits.subrange(0, i - start)),
        decreases to - i,
    {
        let b = bytes[i];
        let ghost shorter = digits.subrange(0, i - start);
        let ghost longer = digits.subrange(0, i - start + 1);
        proof {
            assert(longer.drop_last() =~= shorter);
            assert(longer.last() == b);
        }
        if b < 48 || b > 57 {
            proof {
                assert(digits[i - start] == b);
                assert(!all_digits(digits));
            }
            return None;
        }
        proof {
            assert forall|k: int| 0 <= k < longer.len() implies 48 <= #[trigger] longer[k] <= 57 by {
                if k < shorter.len() {
                    assert(shorter[k] == longer[k]);
                }
            }
        }
        let next: u32 = value * 10 + (b - 48) as u32;
        if next > 255 {
            proof {
                lemma_too_big(digits, i - start + 1);
            }
            return None;
        }
        value = next;
        i += 1;
    }
    proof {
        assert(digits.subrange(0, to - start) =~= digits);
    }
    Some(value as u8)
}

/// A string of digits whose start writes more than 255 writes more than
/// 255, or holds something that is no digit.
proof fn lemma_too_big(digits: Seq<u8>, n: int)
    requires
        0 < n <= digits.len(),
        all_digits(digits.subrange(0, n)),
        digits_value(digits.subrange(0, n)) > 255,
    ensures
        !(all_digits(digits) && digits_value(digits) <= 255),
    decreases digits.len() - n,
{
    if n < digits.len() {
        if all_digits(digits) {
            let longer = digits.subrange(0, n + 1);
            assert forall|k: int| 0 <= k < longer.len() implies 48 <= #[trigger] longer[k] <= 57 by {
                assert(longer[k] == digits[k]);
            }
            assert(longer.drop_last() =~= digits.subrange(0, n));
            lemma_digits_grow(longer);
            lemma_too_big(digits, n + 1);
        }
    } else {
        assert(digits.subrange(0, n) =~= digits);
    }
}

/// What a text file refers to: `None` where its first line does not start
/// with `ref=`, else the ids of the media files it names, in order.
pub fn parse_references(text: &[u8]) -> (references: Option<Vec<u8>>)
    ensures
        match references {
            Some(ids) => has_references(text@) && ids@ == references_of(text@),
            None => !has_references(text@),
        },
{
    let len: usize = text.len();
    let feed: usize = find(text, 10, 0, len);
    let line_end: usize = if feed < len && feed > 0 && text[feed - 1] == 13 {
        feed - 1
    } else {
        feed
    };
    if line_end < 4 || text[0] != 114 || text[1] != 101 || text[2] != 102 || text[3] != 61 {
        return None;
    }
    let end: usize = find(text, 61, 4, line_end);
    let mut ids: Vec<u8> = Vec::new();
    let mut from: usize = 4;
    let mut done = false;
    while !done
        invariant
            4 <= from,
            !done ==> from <= end,
            end <= text@.len(),
            ids@ + (if done {
                Seq::<u8>::empty()
            } else {
                ids_between(text@, from as int, end as int)
            }) == ids_between(text@, 4, end as int),
        decreases end + 1 - from + if done { 0int } else { 1int },
    {
        let stop: usize = find(text, 44, from, end);
        let ghost before = ids@;
        let ghost rest = if stop < end {
            ids_between(text@, stop + 1, end as int)
        } else {
            Seq::<u8>::empty()
        };
        match id_between(text, from, stop) {
            Some(id) => {
                ids.push(id);
                proof {
                    assert(ids@ + rest =~= before + (seq![id] + rest));
                }
            },
            None => {},
        }
        if stop < end {
            from = stop + 1;
        } else {
            done = true;
            proof {
                assert(ids@ + Seq::<u8>::empty() =~= ids@ + rest);
            }
        }
    }
    proof {
        assert(ids@ + Seq::<u8>::empty() =~= ids@);
    }
    Some(ids)
}

} // verus!
