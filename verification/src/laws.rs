//! Laws of the container, stated over its abstract model and proved once
//! and for all.

use vstd::prelude::*;

use crate::runs::Run;
use crate::runs::chain;
use crate::runs::expand;
use crate::runs::lemma_chain_mono_start;
use crate::runs::lemma_chain_ordered;
use crate::runs::lemma_expand_index_at;
use crate::runs::lemma_push_step_chain;
use crate::runs::lemma_push_step_expand;
use crate::runs::lemma_run_exists;
use crate::tree::lemma_wf_len;
use crate::runs::push_step;
use crate::runs::rle;
use crate::tree::ChthollyTree;

verus! {

/// Run `i` of `t` covers index `j`: `j` lies in its interval and the
/// element at `j` is its value.
pub open spec fn covers(t: ChthollyTree, i: int, j: int) -> bool {
    0 <= i < t.runs_seq().len() && t.runs_seq()[i].start <= j < t.runs_seq()[i].end && t@[j]
        == t.runs_seq()[i].val
}

/// The index of a run of `t` that covers index `j`, when one exists.
pub open spec fn covering_run(t: ChthollyTree, j: int) -> int {
    choose|i: int| covers(t, i, j)
}

/// Partition law: in a well-formed sequence the runs cover every logical
/// index exactly once — each run lies inside `[0, len)`, every index below
/// `len` lies inside some run (which holds its value), and distinct runs
/// are disjoint.
pub proof fn lemma_partition(t: ChthollyTree)
    requires
        t.wf(),
    ensures
        forall|i: int|
            0 <= i < t.runs_seq().len() ==> 0 <= (#[trigger] t.runs_seq()[i]).start
                < t.runs_seq()[i].end <= t.spec_len(),
        t@.len() == t.spec_len(),
        forall|j: int|
            0 <= j < t.spec_len() ==> #[trigger] covers(t, covering_run(t, j), j),
        forall|i1: int, i2: int|
            #![trigger t.runs_seq()[i1], t.runs_seq()[i2]]
            0 <= i1 < i2 < t.runs_seq().len() ==> t.runs_seq()[i1].end <= t.runs_seq()[i2].start,
{
    let rs = t.runs_seq();
    assert forall|i: int|
        0 <= i < rs.len() implies 0 <= (#[trigger] rs[i]).start < rs[i].end <= t.spec_len() by {
        lemma_chain_mono_start(rs, 0, t.spec_len(), i);
    }
    lemma_wf_len(t);
    assert forall|j: int| 0 <= j < t.spec_len() implies #[trigger] covers(
        t,
        covering_run(t, j),
        j,
    ) by {
        lemma_run_exists(rs, 0, t.spec_len(), j);
        let i = choose|i: int| 0 <= i < rs.len() && (#[trigger] rs[i]).start <= j < rs[i].end;
        lemma_expand_index_at(rs, 0, t.spec_len(), i, j);
        assert(covers(t, i, j));
        assert(covers(t, covering_run(t, j), j));
    }
    assert forall|i1: int, i2: int|
        #![trigger rs[i1], rs[i2]]
        0 <= i1 < i2 < rs.len() implies rs[i1].end <= rs[i2].start by {
        lemma_chain_ordered(rs, 0, t.spec_len(), i1, i2);
    }
}

/// Split idempotence law: a second split at the same index changes neither
/// the elements, nor the length, nor the run boundaries that the first
/// split produced. The hypotheses are exactly what `split`'s contract
/// guarantees for each of the two calls.
pub proof fn lemma_split_idempotent(
    t0: ChthollyTree,
    t1: ChthollyTree,
    t2: ChthollyTree,
    k: int,
)
    requires
        t1.starts() == t0.starts().insert(k),
        t1@ == t0@,
        t1.spec_len() == t0.spec_len(),
        t2.starts() == t1.starts().insert(k),
        t2@ == t1@,
        t2.spec_len() == t1.spec_len(),
    ensures
        t2.starts() == t1.starts(),
        t2@ == t1@,
        t2.spec_len() == t1.spec_len(),
{
    assert(t0.starts().insert(k).insert(k) =~= t0.starts().insert(k));
}

/// Round-trip law: the run sequence built from an element sequence is a
/// partition of its indices, and expanding it reproduces the elements
/// exactly — so iterating a bulk-built sequence yields its input back.
pub proof fn lemma_round_trip(e: Seq<i64>)
    requires
        e.len() <= usize::MAX,
    ensures
        chain(rle(e), 0, e.len() as int),
        expand(rle(e)) == e,
    decreases e.len(),
{
    if e.len() == 0 {
    } else {
        lemma_round_trip(e.drop_last());
        lemma_push_step_chain(rle(e.drop_last()), e.len() - 1, e.last());
        lemma_push_step_expand(rle(e.drop_last()), e.len() - 1, e.last());
        assert(e.drop_last().push(e.last()) =~= e);
    }
}

/// Bulk-build equivalence law: the run sequence that bulk construction
/// yields for an element sequence is exactly the one that appending those
/// elements one by one to an empty sequence yields — `rle` iterates the
/// very step that `push`'s contract states.
pub proof fn lemma_bulk_build_equivalence(e: Seq<i64>)
    ensures
        e.len() == 0 ==> rle(e) == Seq::<Run>::empty(),
        e.len() > 0 ==> rle(e) == push_step(rle(e.drop_last()), e.last()),
{
}

} // verus!
