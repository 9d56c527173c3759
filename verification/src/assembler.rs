//! Joining inbound fragments back into payloads, one buffer per session.

use crate::disassembler::{are_fragments_of, chunk, concat_chunks, is_fragment_of, fragment_count, lemma_fragments_round_trip};
use crate::packet::Fragment;
use std::collections::{HashMap, HashSet};
use vstd::prelude::*;

verus! {

broadcast use vstd::std_specs::hash::group_hash_axioms;

/// The fragments of `fragments` are in strictly ascending order of their
/// fragment index, so no index occurs twice.
pub open spec fn strictly_ascending(fragments: Seq<Fragment>) -> bool {
    forall|i: int, j: int|
        0 <= i < j < fragments.len() ==> (#[trigger] fragments[i]).fragment_index < (
        #[trigger] fragments[j]).fragment_index
}

/// `fragments` with `f` put in at its place in ascending order of fragment
/// index. Where a fragment of that index is already there, nothing changes.
pub open spec fn insert_fragment(fragments: Seq<Fragment>, f: Fragment) -> Seq<Fragment>
    decreases fragments.len(),
{
    if fragments.len() == 0 {
        seq![f]
    } else if fragments.last().fragment_index < f.fragment_index {
        fragments.push(f)
    } else if fragments.last().fragment_index == f.fragment_index {
        fragments
    } else {
        insert_fragment(fragments.drop_last(), f).push(fragments.last())
    }
}

/// What one session has received so far.
pub struct BufferView {
    /// Number of fragments the session expects, as its first fragment said.
    pub total: u64,
    /// The fragments received, in ascending order of fragment index.
    pub fragments: Seq<Fragment>,
}

impl BufferView {
    pub open spec fn wf(self) -> bool {
        strictly_ascending(self.fragments)
    }

    /// The buffer a session starts with when fragment `f` is its first.
    pub open spec fn opened_by(f: Fragment) -> BufferView {
        BufferView { total: f.total_n_fragments, fragments: Seq::empty() }
    }

    pub open spec fn with(self, f: Fragment) -> BufferView {
        BufferView { total: self.total, fragments: insert_fragment(self.fragments, f) }
    }

    pub open spec fn complete(self) -> bool {
        self.fragments.len() == self.total
    }
}

/// Mathematical value of an [`Assembler`].
#[verifier::ext_equal]
pub struct AssemblerView {
    /// The buffers of the sessions that are still incomplete, by session id.
    pub buffers: Map<u64, BufferView>,
    /// The sessions whose payload has been handed out.
    pub completed: Set<u64>,
}

impl AssemblerView {
    pub open spec fn empty() -> AssemblerView {
        AssemblerView { buffers: Map::empty(), completed: Set::empty() }
    }

    /// Every buffer keeps its fragments in strictly ascending order.
    pub open spec fn wf(self) -> bool {
        forall|session_id: u64| #[trigger]
            self.buffers.contains_key(session_id) ==> self.buffers[session_id].wf()
    }
}

/// The buffer of session `session_id` after `f` has arrived for it.
pub open spec fn buffer_after(a: AssemblerView, f: Fragment, session_id: u64) -> BufferView {
    if a.buffers.contains_key(session_id) {
        a.buffers[session_id].with(f)
    } else {
        BufferView::opened_by(f).with(f)
    }
}

/// The assembler after fragment `f` has arrived for session `session_id`.
/// A fragment of a session that is complete is discarded. Else the
/// session's buffer takes the fragment in; if that completes the session,
/// the buffer is released and the session is marked complete.
pub open spec fn assembler_after(a: AssemblerView, f: Fragment, session_id: u64) -> AssemblerView {
    let buffer = buffer_after(a, f, session_id);
    if a.completed.contains(session_id) {
        a
    } else if buffer.complete() {
        AssemblerView {
            buffers: a.buffers.remove(session_id),
            completed: a.completed.insert(session_id),
        }
    } else {
        AssemblerView { buffers: a.buffers.insert(session_id, buffer), ..a }
    }
}

/// The payload that fragment `f` completes for session `session_id`, if it
/// completes one: the chunks of the session's fragments in ascending order
/// of fragment index.
pub open spec fn payload_completed(a: AssemblerView, f: Fragment, session_id: u64) -> Option<
    Seq<u8>,
> {
    let buffer = buffer_after(a, f, session_id);
    if !a.completed.contains(session_id) && buffer.complete() {
        Some(concat_chunks(buffer.fragments))
    } else {
        None
    }
}

/// Fragments that arrive for a session after it was completed are
/// discarded: they change nothing and complete nothing.
pub proof fn lemma_late_fragment_discarded(a: AssemblerView, f: Fragment, session_id: u64)
    requires
        a.completed.contains(session_id),
    ensures
        assembler_after(a, f, session_id) == a,
        payload_completed(a, f, session_id).is_none(),
{
}

/// A session whose payload is handed out is complete from then on, and its
/// buffer is released.
pub proof fn lemma_completion_is_final(a: AssemblerView, f: Fragment, g: Fragment, session_id: u64)
    requires
        payload_completed(a, f, session_id).is_some(),
    ensures
        assembler_after(a, f, session_id).completed.contains(session_id),
        !assembler_after(a, f, session_id).buffers.contains_key(session_id),
        payload_completed(assembler_after(a, f, session_id), g, session_id).is_none(),
{
}

/// Inserting keeps the order strict, and every fragment of the result is
/// `f` or was there before.
pub proof fn lemma_insert_fragment(fragments: Seq<Fragment>, f: Fragment)
    requires
        strictly_ascending(fragments),
    ensures
        strictly_ascending(insert_fragment(fragments, f)),
        forall|i: int|
            0 <= i < insert_fragment(fragments, f).len() ==> {
                let g = #[trigger] insert_fragment(fragments, f)[i];
                g == f || fragments.contains(g)
            },
        fragments.len() <= insert_fragment(fragments, f).len() <= fragments.len() + 1,
        insert_fragment(fragments, f).len() > 0,
    decreases fragments.len(),
{
    let out = insert_fragment(fragments, f);
    if fragments.len() == 0 {
    } else if fragments.last().fragment_index < f.fragment_index {
        assert forall|i: int| 0 <= i < out.len() implies {
            let g = #[trigger] out[i];
            g == f || fragments.contains(g)
        } by {
            if i < fragments.len() {
                assert(out[i] == fragments[i]);
            }
        }
    } else if fragments.last().fragment_index == f.fragment_index {
        assert forall|i: int| 0 <= i < out.len() implies {
            let g = #[trigger] out[i];
            g == f || fragments.contains(g)
        } by {
            assert(out[i] == fragments[i]);
        }
    } else {
        let init = fragments.drop_last();
        let last = fragments.last();
        assert(strictly_ascending(init)) by {
            assert forall|i: int, j: int| 0 <= i < j < init.len() implies (#[trigger] init[i]).fragment_index
                < (#[trigger] init[j]).fragment_index by {
                assert(init[i] == fragments[i]);
                assert(init[j] == fragments[j]);
            }
        }
        lemma_insert_fragment(init, f);
        let mid = insert_fragment(init, f);
        assert forall|i: int| 0 <= i < mid.len() implies (#[trigger] mid[i]).fragment_index
            < last.fragment_index by {
            let g = mid[i];
            if g != f {
                assert(init.contains(g));
                let k = choose|k: int| 0 <= k < init.len() && init[k] == g;
                assert(fragments[k] == g);
                assert(fragments[fragments.len() - 1] == last);
            }
        }
        assert forall|i: int| 0 <= i < out.len() implies {
            let g = #[trigger] out[i];
            g == f || fragments.contains(g)
        } by {
            if i < mid.len() {
                let g = mid[i];
                assert(out[i] == g);
                if g != f {
                    let k = choose|k: int| 0 <= k < init.len() && init[k] == g;
                    assert(fragments[k] == g);
                }
            } else {
                assert(out[i] == fragments[fragments.len() - 1]);
            }
        }
    }
}

/// Where `f` goes: with `pos` the first position whose fragment index is not
/// below that of `f`, inserting puts `f` at `pos`, or changes nothing where
/// the fragment at `pos` has the same index.
pub proof fn lemma_insert_at(fragments: Seq<Fragment>, f: Fragment, pos: int)
    requires
        strictly_ascending(fragments),
        0 <= pos <= fragments.len(),
        forall|i: int| 0 <= i < pos ==> (#[trigger] fragments[i]).fragment_index < f.fragment_index,
        pos < fragments.len() ==> fragments[pos].fragment_index >= f.fragment_index,
    ensures
        insert_fragment(fragments, f) == if pos < fragments.len() && fragments[pos].fragment_index
            == f.fragment_index {
            fragments
        } else {
            fragments.insert(pos, f)
        },
    decreases fragments.len(),
{
    if fragments.len() == 0 {
        assert(seq![f] =~= fragments.insert(pos, f));
    } else if fragments.last().fragment_index < f.fragment_index {
        if pos < fragments.len() {
            assert(fragments[pos].fragment_index <= fragments[fragments.len() - 1].fragment_index);
        }
        assert(fragments.push(f) =~= fragments.insert(pos, f));
    } else if fragments.last().fragment_index == f.fragment_index {
        if pos < fragments.len() - 1 {
            assert(fragments[pos].fragment_index < fragments[fragments.len() - 1].fragment_index);
        }
    } else {
        let init = fragments.drop_last();
        assert(pos < fragments.len());
        assert(strictly_ascending(init)) by {
            assert forall|i: int, j: int| 0 <= i < j < init.len() implies (#[trigger] init[i]).fragment_index
                < (#[trigger] init[j]).fragment_index by {
                assert(init[i] == fragments[i]);
                assert(init[j] == fragments[j]);
            }
        }
        assert forall|i: int| 0 <= i < pos implies (#[trigger] init[i]).fragment_index
            < f.fragment_index by {
            assert(init[i] == fragments[i]);
        }
        if pos < init.len() {
            assert(init[pos] == fragments[pos]);
        }
        lemma_insert_at(init, f, pos);
        if pos < init.len() && init[pos].fragment_index == f.fragment_index {
            assert(init.push(fragments.last()) =~= fragments);
        } else {
            assert(init.insert(pos, f).push(fragments.last()) =~= fragments.insert(pos, f));
        }
    }
}

/// In a strictly ascending list, a fragment sits no lower than its index.
pub proof fn lemma_ascending_index_bound(fragments: Seq<Fragment>, i: int)
    requires
        strictly_ascending(fragments),
        0 <= i < fragments.len(),
    ensures
        fragments[i].fragment_index >= i,
    decreases i,
{
    if i > 0 {
        lemma_ascending_index_bound(fragments, i - 1);
        assert(fragments[i - 1].fragment_index < fragments[i].fragment_index);
    }
}

/// A strictly ascending list of `n` fragments whose indices are all below
/// `n` holds exactly the indices `0..n`, each at its own position.
pub proof fn lemma_ascending_full(fragments: Seq<Fragment>, i: int)
    requires
        strictly_ascending(fragments),
        forall|k: int|
            0 <= k < fragments.len() ==> (#[trigger] fragments[k]).fragment_index < fragments.len(),
        0 <= i < fragments.len(),
    ensures
        fragments[i].fragment_index == i,
    decreases fragments.len() - i,
{
    lemma_ascending_index_bound(fragments, i);
    if i + 1 < fragments.len() {
        lemma_ascending_full(fragments, i + 1);
        assert(fragments[i].fragment_index < fragments[i + 1].fragment_index);
    }
}

/// A buffer that holds only fragments of one payload, and as many of them as
/// the payload has, joins to that payload: in whatever order the fragments
/// came, and however often each came.
pub proof fn lemma_complete_buffer_is_payload(fragments: Seq<Fragment>, payload: Seq<u8>)
    requires
        strictly_ascending(fragments),
        fragments.len() == fragment_count(payload.len()),
        forall|k: int|
            0 <= k < fragments.len() ==> {
                &&& (#[trigger] fragments[k]).fragment_index < fragment_count(payload.len())
                &&& is_fragment_of(fragments[k], payload, fragments[k].fragment_index as nat)
            },
    ensures
        concat_chunks(fragments) == payload,
{
    assert forall|i: int| 0 <= i < fragments.len() implies is_fragment_of(
        #[trigger] fragments[i],
        payload,
        i as nat,
    ) by {
        lemma_ascending_full(fragments, i);
    }
    lemma_fragments_round_trip(fragments, payload);
}

/// The fragments a session has received, and how many it expects.
pub struct ReassemblyBuffer {
    total: u64,
    fragments: Vec<Fragment>,
}

impl View for ReassemblyBuffer {
    type V = BufferView;

    closed spec fn view(&self) -> BufferView {
        BufferView { total: self.total, fragments: self.fragments@ }
    }
}

impl ReassemblyBuffer {
    fn insert(&mut self, f: Fragment)
        requires
            old(self)@.wf(),
        ensures
            final(self)@ == old(self)@.with(f),
            final(self)@.wf(),
    {
        let n: usize = self.fragments.len();
        let mut pos: usize = 0;
        while pos < n && self.fragments[pos].fragment_index < f.fragment_index
            invariant
                n == self.fragments.len(),
                pos <= n,
                self.fragments == old(self).fragments,
                self.total == old(self).total,
                forall|i: int|
                    0 <= i < pos ==> (#[trigger] self.fragments@[i]).fragment_index
                        < f.fragment_index,
            decreases n - pos,
        {
            pos += 1;
        }
        proof {
            lemma_insert_at(self.fragments@, f, pos as int);
            lemma_insert_fragment(self.fragments@, f);
        }
        if pos < n && self.fragments[pos].fragment_index == f.fragment_index {
        } else {
            self.fragments.insert(pos, f);
        }
    }

    fn join(&self) -> (payload: Vec<u8>)
        ensures
            payload@ == concat_chunks(self@.fragments),
    {
        let mut payload: Vec<u8> = Vec::new();
        let n: usize = self.fragments.len();
        let mut i: usize = 0;
        while i < n
            invariant
                n == self.fragments.len(),
                i <= n,
                payload@ == concat_chunks(self.fragments@.subrange(0, i as int)),
            decreases n - i,
        {
            let f = self.fragments[i];
            let len: usize = if f.length < 128 {
                f.length as usize
            } else {
                128
            };
            let ghost before = payload@;
            let mut j: usize = 0;
            while j < len
                invariant
                    j <= len <= 128,
                    len == chunk(f).len(),
                    payload@ == before + chunk(f).subrange(0, j as int),
                decreases len - j,
            {
                payload.push(f.data[j]);
                j += 1;
                assert(payload@ =~= before + chunk(f).subrange(0, j as int));
            }
            proof {
                let prefix = self.fragments@.subrange(0, i + 1);
                assert(prefix.drop_last() =~= self.fragments@.subrange(0, i as int));
                assert(prefix.last() == f);
                assert(chunk(f).subrange(0, len as int) =~= chunk(f));
            }
            i += 1;
        }
        assert(self.fragments@.subrange(0, n as int) =~= self.fragments@);
        payload
    }
}

/// Collects the fragments of inbound sessions until each is complete.
pub struct Assembler {
    buffers: HashMap<u64, ReassemblyBuffer>,
    completed: HashSet<u64>,
}

impl View for Assembler {
    type V = AssemblerView;

    closed spec fn view(&self) -> AssemblerView {
        AssemblerView {
            buffers: self.buffers@.map_values(|b: ReassemblyBuffer| b@),
            completed: self.completed@,
        }
    }
}

impl Assembler {
    pub open spec fn wf(self) -> bool {
        self@.wf()
    }

    pub fn new() -> (assembler: Assembler)
        ensures
            assembler.wf(),
            assembler@ == AssemblerView::empty(),
    {
        let assembler = Assembler { buffers: HashMap::new(), completed: HashSet::new() };
        assert(assembler@.buffers =~= Map::<u64, BufferView>::empty());
        assembler
    }

    /// Takes in a fragment of session `session_id`. Returns the session's
    /// payload if the fragment completes it, and releases the buffer then.
    /// A fragment whose index the session has already seen changes nothing,
    /// nor does one of a session that is complete.
    pub fn add_fragment(&mut self, fragment: Fragment, session_id: u64) -> (payload: Option<
        Vec<u8>,
    >)
        requires
            old(self).wf(),
        ensures
            final(self).wf(),
            final(self)@ == assembler_after(old(self)@, fragment, session_id),
            match payload {
                Some(bytes) => payload_completed(old(self)@, fragment, session_id) == Some(bytes@),
                None => payload_completed(old(self)@, fragment, session_id).is_none(),
            },
    {
        if self.completed.contains(&session_id) {
            return None;
        }
        let mut buffer = match self.buffers.remove(&session_id) {
            Some(buffer) => buffer,
            None => ReassemblyBuffer { total: fragment.total_n_fragments, fragments: Vec::new() },
        };
        assert(old(self)@.buffers.contains_key(session_id) ==> old(self)@.buffers[session_id]
            == buffer@);
        assert(!old(self)@.buffers.contains_key(session_id) ==> buffer@ == BufferView::opened_by(
            fragment,
        ));
        assert(buffer@.wf());
        buffer.insert(fragment);
        assert(buffer@ == buffer_after(old(self)@, fragment, session_id));
        if buffer.fragments.len() as u64 == buffer.total {
            let payload = buffer.join();
            self.completed.insert(session_id);
            assert(self@.buffers =~= old(self)@.buffers.remove(session_id));
            Some(payload)
        } else {
            let ghost view = buffer@;
            self.buffers.insert(session_id, buffer);
            assert(self@.buffers =~= old(self)@.buffers.insert(session_id, view));
            None
        }
    }

    /// Whether a buffer is open for session `session_id`.
    pub fn is_receiving(&self, session_id: u64) -> (open: bool)
        ensures
            open == self@.buffers.contains_key(session_id),
    {
        self.buffers.contains_key(&session_id)
    }

    /// Whether the payload of session `session_id` has been handed out.
    pub fn has_completed(&self, session_id: u64) -> (done: bool)
        ensures
            done == self@.completed.contains(session_id),
    {
        self.completed.contains(&session_id)
    }
}

/// Feeding fragments, in order, to a session: the assembler afterwards, and
/// the payload handed out by the last fragment fed, `None` where nothing was
/// fed.
pub open spec fn feed(
    a: AssemblerView,
    fragments: Seq<Fragment>,
    session_id: u64,
) -> (AssemblerView, Option<Seq<u8>>)
    decreases fragments.len(),
{
    if fragments.len() == 0 {
        (a, None)
    } else {
        let before = feed(a, fragments.drop_last(), session_id).0;
        (
            assembler_after(before, fragments.last(), session_id),
            payload_completed(before, fragments.last(), session_id),
        )
    }
}

/// While a payload's fragments are fed in order to a fresh session, the
/// session's buffer holds exactly the fragments fed so far.
pub proof fn lemma_feed_prefix(
    a: AssemblerView,
    fragments: Seq<Fragment>,
    payload: Seq<u8>,
    session_id: u64,
    n: nat,
)
    requires
        !a.buffers.contains_key(session_id),
        !a.completed.contains(session_id),
        are_fragments_of(fragments, payload),
        n < fragments.len(),
    ensures
        ({
            let fed = feed(a, fragments.subrange(0, n as int), session_id);
            if n == 0 {
                fed.0 == a
            } else {
                &&& fed.0 == (AssemblerView {
                    buffers: a.buffers.insert(
                        session_id,
                        BufferView {
                            total: fragments.len() as u64,
                            fragments: fragments.subrange(0, n as int),
                        },
                    ),
                    ..a
                })
                &&& fed.1.is_none()
            }
        }),
    decreases n,
{
    let prefix = fragments.subrange(0, n as int);
    if n > 0 {
        let m = (n - 1) as nat;
        lemma_feed_prefix(a, fragments, payload, session_id, m);
        assert(prefix.drop_last() =~= fragments.subrange(0, m as int));
        let f = fragments[m as int];
        assert(prefix.last() == f);
        assert(is_fragment_of(f, payload, m));
        let before = feed(a, fragments.subrange(0, m as int), session_id).0;
        let earlier = fragments.subrange(0, m as int);
        if m > 0 {
            assert(earlier.last() == fragments[m - 1]);
            assert(is_fragment_of(fragments[m - 1], payload, (m - 1) as nat));
            assert(insert_fragment(earlier, f) == earlier.push(f));
        }
        assert(earlier.push(f) =~= prefix);
        assert(buffer_after(before, f, session_id).fragments == prefix);
        assert(before.buffers.insert(session_id, buffer_after(before, f, session_id))
            =~= a.buffers.insert(session_id, buffer_after(before, f, session_id)));
    }
}

/// Feeding all fragments of a payload, in order, to a session that is new
/// hands out the payload at the last fragment, marks the session complete,
/// and leaves the buffers as they were before the first.
pub proof fn lemma_feed_round_trip(
    a: AssemblerView,
    fragments: Seq<Fragment>,
    payload: Seq<u8>,
    session_id: u64,
)
    requires
        !a.buffers.contains_key(session_id),
        !a.completed.contains(session_id),
        are_fragments_of(fragments, payload),
        fragments.len() <= u64::MAX,
    ensures
        feed(a, fragments, session_id) == (
            AssemblerView { completed: a.completed.insert(session_id), ..a },
            Some(payload),
        ),
{
    let n = fragments.len();
    let m = (n - 1) as nat;
    lemma_feed_prefix(a, fragments, payload, session_id, m);
    let earlier = fragments.subrange(0, m as int);
    assert(fragments.drop_last() =~= earlier);
    let f = fragments.last();
    assert(f == fragments[m as int]);
    assert(is_fragment_of(f, payload, m));
    let before = feed(a, earlier, session_id).0;
    if m > 0 {
        assert(earlier.last() == fragments[m - 1]);
        assert(is_fragment_of(fragments[m - 1], payload, (m - 1) as nat));
        assert(insert_fragment(earlier, f) == earlier.push(f));
    }
    assert(earlier.push(f) =~= fragments);
    assert(buffer_after(before, f, session_id).fragments == fragments);
    lemma_fragments_round_trip(fragments, payload);
    assert(before.buffers.remove(session_id) =~= a.buffers);
}

} // verus!
