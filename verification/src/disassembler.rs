//! Cutting a payload into fragments.

use crate::packet::Fragment;
use vstd::prelude::*;

verus! {

/// Number of fragments a payload of `len` bytes is cut into: one per started
/// block of 128 bytes, and one for an empty payload.
pub open spec fn fragment_count(len: nat) -> nat {
    if len == 0 {
        1
    } else {
        (len + 127) / 128
    }
}

/// Number of payload bytes in fragment `i` of a payload of `len` bytes.
pub open spec fn chunk_len(len: nat, i: nat) -> nat {
    if 128 * (i + 1) <= len {
        128
    } else if 128 * i <= len {
        (len - 128 * i) as nat
    } else {
        0
    }
}

/// `f` is fragment `i` of `payload`: it is numbered `i` out of the payload's
/// fragment count, holds the payload's bytes from `128 * i` on, and is padded
/// with zeros.
pub open spec fn is_fragment_of(f: Fragment, payload: Seq<u8>, i: nat) -> bool {
    &&& f.fragment_index == i
    &&& f.total_n_fragments == fragment_count(payload.len())
    &&& f.length == chunk_len(payload.len(), i)
    &&& forall|j: int|
        0 <= j < 128 ==> #[trigger] f.data@[j] == (if j < f.length {
            payload[128 * i + j]
        } else {
            0u8
        })
}

/// `fragments` is `payload` cut into fragments, in order.
pub open spec fn are_fragments_of(fragments: Seq<Fragment>, payload: Seq<u8>) -> bool {
    &&& fragments.len() == fragment_count(payload.len())
    &&& forall|i: int|
        0 <= i < fragments.len() ==> is_fragment_of(#[trigger] fragments[i], payload, i as nat)
}

/// The payload bytes a fragment carries: the first `length` bytes of its
/// data, all 128 where `length` claims more.
pub open spec fn chunk(f: Fragment) -> Seq<u8> {
    if f.length < 128 {
        f.data@.subrange(0, f.length as int)
    } else {
        f.data@
    }
}

/// The chunks of a list of fragments, one after the other.
pub open spec fn concat_chunks(fragments: Seq<Fragment>) -> Seq<u8>
    decreases fragments.len(),
{
    if fragments.len() == 0 {
        Seq::empty()
    } else {
        concat_chunks(fragments.drop_last()) + chunk(fragments.last())
    }
}

/// The chunks of the first `n` fragments of a payload make up its first
/// `128 * n` bytes, or all of it where it is shorter.
pub proof fn lemma_concat_prefix(fragments: Seq<Fragment>, payload: Seq<u8>, n: nat)
    requires
        n <= fragments.len(),
        forall|i: int| 0 <= i < n ==> is_fragment_of(#[trigger] fragments[i], payload, i as nat),
    ensures
        concat_chunks(fragments.subrange(0, n as int)) == payload.subrange(
            0,
            if 128 * n <= payload.len() {
                128 * n as int
            } else {
                payload.len() as int
            },
        ),
    decreases n,
{
    let prefix = fragments.subrange(0, n as int);
    if n == 0 {
        assert(concat_chunks(prefix) =~= payload.subrange(0, 0));
    } else {
        let m = (n - 1) as nat;
        lemma_concat_prefix(fragments, payload, m);
        assert(prefix.drop_last() =~= fragments.subrange(0, m as int));
        let f = fragments[m as int];
        assert(prefix.last() == f);
        assert(is_fragment_of(f, payload, m));
        let len = payload.len();
        let start: int = if 128 * m <= len { 128 * m as int } else { len as int };
        let end: int = if 128 * n <= len { 128 * n as int } else { len as int };
        assert(chunk(f).len() == end - start);
        assert forall|j: int| 0 <= j < chunk(f).len() implies chunk(f)[j] == payload[start + j] by {
            assert(f.data@[j] == payload[128 * m + j]);
        }
        assert(concat_chunks(prefix) =~= payload.subrange(0, end));
    }
}

/// Cutting a payload into fragments and joining their chunks gives the
/// payload back, whatever the payload, the empty one included.
pub proof fn lemma_fragments_round_trip(fragments: Seq<Fragment>, payload: Seq<u8>)
    requires
        are_fragments_of(fragments, payload),
    ensures
        concat_chunks(fragments) == payload,
{
    let n = fragments.len();
    lemma_concat_prefix(fragments, payload, n);
    assert(fragments.subrange(0, n as int) =~= fragments);
    assert(payload.subrange(0, payload.len() as int) =~= payload);
}

/// An empty payload is cut into exactly one fragment, of length 0 out of 1.
pub proof fn lemma_empty_payload(fragments: Seq<Fragment>)
    requires
        are_fragments_of(fragments, Seq::<u8>::empty()),
    ensures
        fragments.len() == 1,
        fragments[0].length == 0,
        fragments[0].total_n_fragments == 1,
        fragments[0].fragment_index == 0,
{
    assert(is_fragment_of(fragments[0], Seq::<u8>::empty(), 0));
}

/// A payload of exactly `128 * n` bytes, `n` at least 1, is cut into `n`
/// fragments of length 128 each.
pub proof fn lemma_whole_blocks(fragments: Seq<Fragment>, payload: Seq<u8>, n: nat)
    requires
        are_fragments_of(fragments, payload),
        payload.len() == 128 * n,
        n >= 1,
    ensures
        fragments.len() == n,
        forall|i: int| 0 <= i < n ==> (#[trigger] fragments[i]).length == 128,
{
    assert forall|i: int| 0 <= i < n implies (#[trigger] fragments[i]).length == 128 by {
        assert(is_fragment_of(fragments[i], payload, i as nat));
    }
}

/// Cuts payloads into fragments.
pub struct Disassembler {}

impl Disassembler {
    pub fn new() -> (disassembler: Disassembler) {
        Disassembler {  }
    }

    /// Fragment `index` of `message`, numbered out of `total`.
    fn cut(message: &Vec<u8>, index: usize, total: u64) -> (f: Fragment)
        requires
            total == fragment_count(message@.len()),
            index < total,
        ensures
            is_fragment_of(f, message@, index as nat),
    {
        let len: usize = message.len();
        let start: usize = index * 128;
        let length: usize = if len - start >= 128 {
            128
        } else {
            len - start
        };
        let mut data: [u8; 128] = [0u8; 128];
        let mut j: usize = 0;
        while j < length
            invariant
                j <= length <= 128,
                start + length <= len,
                len == message@.len(),
                forall|k: int| 0 <= k < j ==> #[trigger] data@[k] == message@[start + k],
                forall|k: int| j <= k < 128 ==> #[trigger] data@[k] == 0u8,
            decreases length - j,
        {
            data[j] = message[start + j];
            j += 1;
        }
        Fragment {
            fragment_index: index as u64,
            total_n_fragments: total,
            length: length as u8,
            data,
        }
    }

    /// Cuts `message` into fragments of 128 bytes, the last one shorter where
    /// the length is no multiple of 128. `session_id` names the session the
    /// fragments travel under; the packet carries it, the fragments do not.
    pub fn disassemble_message(&mut self, message: Vec<u8>, session_id: u64) -> (fragments: Vec<
        Fragment,
    >)
        ensures
            are_fragments_of(fragments@, message@),
    {
        let len: usize = message.len();
        let total: usize = if len == 0 {
            1
        } else if len % 128 == 0 {
            len / 128
        } else {
            len / 128 + 1
        };
        let mut fragments: Vec<Fragment> = Vec::new();
        let mut i: usize = 0;
        while i < total
            invariant
                i <= total,
                total == fragment_count(message@.len()),
                fragments@.len() == i,
                forall|k: int|
                    0 <= k < i ==> is_fragment_of(#[trigger] fragments@[k], message@, k as nat),
            decreases total - i,
        {
            let f = Self::cut(&message, i, total as u64);
            fragments.push(f);
            i += 1;
        }
        fragments
    }
}

} // verus!
