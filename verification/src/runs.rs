//! The mathematical model of a run-compressed sequence: runs, the partition
//! predicate `chain`, the expansion of runs into the element sequence, and the
//! lemmas that relate them.

use vstd::prelude::*;

verus! {

/// One run: every logical index in `[start, end)` holds the value `val`.
#[derive(Clone, Copy)]
pub struct Run {
    pub start: usize,
    pub end: usize,
    pub val: i64,
}

/// `n` copies of `v` (empty when `n < 0`).
pub open spec fn repeat_val(v: i64, n: int) -> Seq<i64> {
    Seq::new(if n >= 0 { n as nat } else { 0 }, |j: int| v)
}

/// The element sequence that a run sequence stands for: each run expanded
/// into `end - start` copies of its value, in order.
pub open spec fn expand(rs: Seq<Run>) -> Seq<i64>
    decreases rs.len(),
{
    if rs.len() == 0 {
        Seq::empty()
    } else {
        repeat_val(rs[0].val, rs[0].end - rs[0].start) + expand(rs.drop_first())
    }
}

/// The runs partition `[lo, hi)`: each run is non-empty, the first starts at
/// `lo`, each next run starts where the previous one ends, and the last ends
/// at `hi`.
pub open spec fn chain(rs: Seq<Run>, lo: int, hi: int) -> bool {
    &&& lo <= hi
    &&& (rs.len() == 0 ==> lo == hi)
    &&& (rs.len() > 0 ==> rs[0].start == lo && rs[rs.len() - 1].end == hi)
    &&& (forall|i: int| 0 <= i < rs.len() ==> (#[trigger] rs[i]).start < rs[i].end)
    &&& (forall|i: int, j: int|
        #![trigger rs[i], rs[j]]
        0 <= i && i + 1 == j && j < rs.len() ==> rs[j].start == rs[i].end)
}

/// The logical length that a run sequence ends at (`0` when there are no runs).
pub open spec fn last_end(rs: Seq<Run>) -> int {
    if rs.len() == 0 {
        0
    } else {
        rs[rs.len() - 1].end as int
    }
}

/// How appending one element `v` changes the run sequence: extend the last
/// run when it already holds `v`, otherwise add a new singleton run.
pub open spec fn push_step(rs: Seq<Run>, v: i64) -> Seq<Run> {
    if rs.len() > 0 && rs[rs.len() - 1].val == v {
        rs.update(
            rs.len() - 1,
            Run {
                start: rs[rs.len() - 1].start,
                end: (rs[rs.len() - 1].end + 1) as usize,
                val: v,
            },
        )
    } else {
        rs.push(Run { start: last_end(rs) as usize, end: (last_end(rs) + 1) as usize, val: v })
    }
}

/// The run sequence that repeated appends of the elements of `s` build up,
/// one `push_step` per element. Bulk construction is specified against this,
/// which makes it structurally equal to repeated appending by definition.
pub open spec fn rle(s: Seq<i64>) -> Seq<Run>
    decreases s.len(),
{
    if s.len() == 0 {
        Seq::empty()
    } else {
        push_step(rle(s.drop_last()), s.last())
    }
}

/// The plain (mathematical) sum of an element sequence.
pub open spec fn seq_sum(s: Seq<i64>) -> int
    decreases s.len(),
{
    if s.len() == 0 {
        0
    } else {
        s[0] + seq_sum(s.drop_first())
    }
}

/// Two adjacent blocks of the same value expand to one block.
pub proof fn lemma_repeat_concat(v: i64, a: int, b: int)
    requires
        a >= 0,
        b >= 0,
    ensures
        repeat_val(v, a) + repeat_val(v, b) == repeat_val(v, a + b),
{
    assert(repeat_val(v, a) + repeat_val(v, b) =~= repeat_val(v, a + b));
}

/// Expansion distributes over concatenation of run sequences.
pub proof fn lemma_expand_concat(a: Seq<Run>, b: Seq<Run>)
    ensures
        expand(a + b) == expand(a) + expand(b),
    decreases a.len(),
{
    if a.len() == 0 {
        assert(a + b =~= b);
        assert(expand(a) + expand(b) =~= expand(b));
    } else {
        assert((a + b).drop_first() =~= a.drop_first() + b);
        lemma_expand_concat(a.drop_first(), b);
        assert(expand(a) + expand(b) =~= repeat_val(a[0].val, a[0].end - a[0].start) + (expand(
            a.drop_first(),
        ) + expand(b)));
    }
}

/// Two chains that meet at `mid` join into one chain.
pub proof fn lemma_chain_join(a: Seq<Run>, b: Seq<Run>, lo: int, mid: int, hi: int)
    requires
        chain(a, lo, mid),
        chain(b, mid, hi),
    ensures
        chain(a + b, lo, hi),
{
    let c = a + b;
    assert forall|i: int| 0 <= i < c.len() implies (#[trigger] c[i]).start < c[i].end by {
        if i < a.len() {
            assert(c[i] == a[i]);
        } else {
            assert(c[i] == b[i - a.len()]);
        }
    }
    assert forall|i: int| 0 < i < c.len() implies (#[trigger] c[i]).start == c[i - 1].end by {
        if i < a.len() {
            assert(c[i] == a[i]);
            assert(c[i - 1] == a[i - 1]);
        } else if i == a.len() {
            assert(c[i] == b[0]);
            assert(c[i - 1] == a[a.len() - 1]);
        } else {
            assert(c[i] == b[i - a.len()]);
            assert(c[i - 1] == b[i - a.len() - 1]);
        }
    }
    if a.len() > 0 && b.len() > 0 {
        assert(c[0] == a[0]);
        assert(c[c.len() - 1] == b[b.len() - 1]);
    } else if a.len() == 0 {
        assert(c =~= b);
    } else {
        assert(c =~= a);
    }
}

/// A chain decomposes at any run index `i`: the first `i` runs partition
/// `[lo, rs[i].start)` and the rest partition `[rs[i].start, hi)`.
pub proof fn lemma_chain_take_skip(rs: Seq<Run>, lo: int, hi: int, i: int)
    requires
        chain(rs, lo, hi),
        0 <= i < rs.len(),
    ensures
        chain(rs.take(i), lo, rs[i].start as int),
        chain(rs.skip(i), rs[i].start as int, hi),
        rs.take(i) + rs.skip(i) == rs,
{
    let mid = rs[i].start as int;
    let a = rs.take(i);
    let b = rs.skip(i);
    assert(a + b =~= rs);
    assert forall|k: int| 0 <= k < a.len() implies (#[trigger] a[k]).start < a[k].end by {
        assert(a[k] == rs[k]);
    }
    assert forall|k: int| 0 < k < a.len() implies (#[trigger] a[k]).start == a[k - 1].end by {
        assert(a[k] == rs[k]);
        assert(a[k - 1] == rs[k - 1]);
    }
    assert forall|k: int| 0 <= k < b.len() implies (#[trigger] b[k]).start < b[k].end by {
        assert(b[k] == rs[k + i]);
    }
    assert forall|k: int| 0 < k < b.len() implies (#[trigger] b[k]).start == b[k - 1].end by {
        assert(b[k] == rs[k + i]);
        assert(b[k - 1] == rs[k + i - 1]);
    }
    lemma_chain_mono_start(rs, lo, hi, i);
    if i > 0 {
        assert(a[0] == rs[0]);
        assert(a[a.len() - 1] == rs[i - 1]);
        assert(rs[i].start == rs[i - 1].end);
    }
    assert(b[0] == rs[i]);
    assert(b[b.len() - 1] == rs[rs.len() - 1]);
}

/// Within a chain over `[lo, hi)`, every run lies inside those bounds.
pub proof fn lemma_chain_mono_start(rs: Seq<Run>, lo: int, hi: int, i: int)
    requires
        chain(rs, lo, hi),
        0 <= i < rs.len(),
    ensures
        lo <= rs[i].start,
        rs[i].end <= hi,
{
    if i > 0 {
        lemma_chain_ordered(rs, lo, hi, 0, i);
    }
    if i < rs.len() - 1 {
        lemma_chain_ordered(rs, lo, hi, i, rs.len() - 1);
    }
}

/// Runs earlier in a chain end no later than later runs start.
pub proof fn lemma_chain_ordered(rs: Seq<Run>, lo: int, hi: int, i: int, j: int)
    requires
        chain(rs, lo, hi),
        0 <= i < j < rs.len(),
    ensures
        rs[i].end <= rs[j].start,
    decreases j - i,
{
    if j == i + 1 {
    } else {
        lemma_chain_ordered(rs, lo, hi, i, j - 1);
    }
}

/// A chain over `[lo, hi)` expands to exactly `hi - lo` elements.
pub proof fn lemma_expand_len(rs: Seq<Run>, lo: int, hi: int)
    requires
        chain(rs, lo, hi),
    ensures
        expand(rs).len() == hi - lo,
    decreases rs.len(),
{
    if rs.len() == 0 {
    } else {
        let b = rs.drop_first();
        assert(b =~= rs.skip(1));
        if rs.len() == 1 {
            assert(chain(b, rs[0].end as int, hi)) by {
                assert(rs[0].end == hi);
            }
        } else {
            lemma_chain_take_skip(rs, lo, hi, 1);
            assert(rs[1].start == rs[0].end);
        }
        lemma_expand_len(b, rs[0].end as int, hi);
    }
}

/// If run `i` of a chain contains index `j`, then element `j - lo` of the
/// expansion is that run's value.
pub proof fn lemma_expand_index_at(rs: Seq<Run>, lo: int, hi: int, i: int, j: int)
    requires
        chain(rs, lo, hi),
        0 <= i < rs.len(),
        rs[i].start <= j < rs[i].end,
    ensures
        lo <= j < hi,
        expand(rs).len() == hi - lo,
        expand(rs)[j - lo] == rs[i].val,
{
    lemma_expand_len(rs, lo, hi);
    lemma_chain_mono_start(rs, lo, hi, i);
    let st = rs[i].start as int;
    let a = rs.take(i);
    let b = rs.skip(i);
    lemma_chain_take_skip(rs, lo, hi, i);
    lemma_expand_concat(a, b);
    lemma_expand_len(a, lo, st);
    assert(b[0] == rs[i]);
    assert(expand(b) == repeat_val(rs[i].val, rs[i].end - st) + expand(b.drop_first()));
    assert(expand(rs) == expand(a) + expand(b));
    assert(expand(rs)[j - lo] == expand(b)[j - st]);
    assert(expand(b)[j - st] == repeat_val(rs[i].val, rs[i].end - st)[j - st]);
}

/// Every index of `[lo, hi)` lies inside some run of a chain over it.
pub proof fn lemma_run_exists(rs: Seq<Run>, lo: int, hi: int, j: int)
    requires
        chain(rs, lo, hi),
        lo <= j < hi,
    ensures
        exists|i: int|
            0 <= i < rs.len() && (#[trigger] rs[i]).start <= j < rs[i].end,
    decreases rs.len(),
{
    if j < rs[0].end {
        assert(rs[0].start <= j < rs[0].end);
    } else {
        let b = rs.skip(1);
        lemma_chain_take_skip(rs, lo, hi, 1);
        assert(chain(b, rs[1].start as int, hi));
        lemma_run_exists(b, rs[1].start as int, hi, j);
        let w = choose|i: int| 0 <= i < b.len() && (#[trigger] b[i]).start <= j < b[i].end;
        assert(b[w] == rs[w + 1]);
        assert(rs[w + 1].start <= j < rs[w + 1].end);
    }
}

/// The set of indices at which some run of `rs` begins.
pub open spec fn starts_of(rs: Seq<Run>) -> Set<int> {
    Set::new(|s: int| exists|i: int| 0 <= i < rs.len() && (#[trigger] rs[i]).start == s)
}

/// The run sequence with run `i` cut in two at index `at`.
pub open spec fn refine_at(rs: Seq<Run>, i: int, at: int) -> Seq<Run> {
    rs.take(i) + seq![
        Run { start: rs[i].start, end: at as usize, val: rs[i].val },
        Run { start: at as usize, end: rs[i].end, val: rs[i].val },
    ] + rs.skip(i + 1)
}

/// Cutting a run in two keeps the partition, keeps the expansion, and adds
/// exactly the cut index to the set of run starts.
#[verifier::rlimit(30)]
pub proof fn lemma_refine_at(rs: Seq<Run>, lo: int, hi: int, i: int, at: int)
    requires
        chain(rs, lo, hi),
        0 <= i < rs.len(),
        rs[i].start < at < rs[i].end,
    ensures
        chain(refine_at(rs, i, at), lo, hi),
        expand(refine_at(rs, i, at)) == expand(rs),
        starts_of(refine_at(rs, i, at)) == starts_of(rs).insert(at),
{
    let nr = refine_at(rs, i, at);
    let st = rs[i].start as int;
    let en = rs[i].end as int;
    let v = rs[i].val;
    let left = Run { start: rs[i].start, end: at as usize, val: v };
    let right = Run { start: at as usize, end: rs[i].end, val: v };
    let mid = seq![left, right];
    let a = rs.take(i);
    let b = rs.skip(i + 1);
    lemma_chain_take_skip(rs, lo, hi, i);
    assert(chain(b, en, hi)) by {
        let s = rs.skip(i);
        if s.len() > 1 {
            lemma_chain_take_skip(s, st, hi, 1);
            assert(s[1] == rs[i + 1]);
            assert(s[0] == rs[i]);
            assert(s[1].start == en);
            assert(s.skip(1) =~= b);
        } else {
            assert(b =~= Seq::<Run>::empty());
            assert(s[s.len() - 1] == rs[i]);
        }
    }
    assert(chain(mid, st, en)) by {
        assert(mid[0] == left);
        assert(mid[1] == right);
    }
    lemma_chain_join(mid, b, st, en, hi);
    lemma_chain_join(a, mid + b, lo, st, hi);
    assert(nr =~= a + (mid + b));
    assert(chain(nr, lo, hi));
    assert(expand(nr) == expand(rs)) by {
        assert(rs =~= a + seq![rs[i]] + b);
        lemma_expand_concat(a + seq![rs[i]], b);
        lemma_expand_concat(a, seq![rs[i]]);
        lemma_expand_concat(a + mid, b);
        lemma_expand_concat(a, mid);
        assert(expand(Seq::<Run>::empty()) == Seq::<i64>::empty());
        assert(seq![rs[i]].drop_first() =~= Seq::<Run>::empty());
        assert(expand(seq![rs[i]]) =~= repeat_val(v, en - st));
        assert(mid.drop_first() =~= seq![right]);
        assert(seq![right].drop_first() =~= Seq::<Run>::empty());
        assert(expand(seq![right]) =~= repeat_val(v, en - at));
        assert(expand(mid) =~= repeat_val(v, at - st) + repeat_val(v, en - at));
        lemma_repeat_concat(v, at - st, en - at);
        assert(expand(rs) =~= expand(a) + expand(seq![rs[i]]) + expand(b));
        assert(expand(nr) =~= expand(a) + expand(mid) + expand(b));
    }
    assert(starts_of(nr) == starts_of(rs).insert(at)) by {
        assert forall|s: int| starts_of(nr).contains(s) implies starts_of(rs).insert(at).contains(
            s,
        ) by {
            let k = choose|k: int| 0 <= k < nr.len() && (#[trigger] nr[k]).start == s;
            if k < i {
                assert(nr[k] == rs[k]);
                assert(starts_of(rs).contains(s));
            } else if k == i {
                assert(nr[k] == left);
                assert(rs[i].start == s);
                assert(starts_of(rs).contains(s));
            } else if k == i + 1 {
                assert(nr[k] == right);
            } else {
                assert(nr[k] == rs[k - 1]);
                assert(starts_of(rs).contains(s));
            }
        }
        assert forall|s: int| starts_of(rs).insert(at).contains(s) implies starts_of(nr).contains(
            s,
        ) by {
            if s == at {
                assert(nr[i + 1].start == s);
            } else {
                let k = choose|k: int| 0 <= k < rs.len() && (#[trigger] rs[k]).start == s;
                if k < i {
                    assert(nr[k] == rs[k]);
                } else if k == i {
                    assert(nr[k] == left);
                    assert(nr[k].start == s);
                } else {
                    assert(nr[k + 1] == rs[k]);
                }
            }
        }
        assert(starts_of(nr) =~= starts_of(rs).insert(at));
    }
}

/// After walking past every run that begins inside `(l, r)`, the walk stops
/// exactly at the run beginning at `r`, or at the end of the runs when
/// `r == len`.
pub proof fn lemma_segment_end(g: Seq<Run>, len: int, il: int, j: int, l: int, r: int)
    requires
        chain(g, 0, len),
        0 <= il < g.len(),
        g[il].start == l,
        il + 1 <= j <= g.len(),
        forall|k: int| il < k < j ==> (#[trigger] g[k]).start < r,
        j < g.len() ==> g[j].start >= r,
        l < r <= len,
        r < len ==> starts_of(g).contains(r),
    ensures
        j < g.len() ==> g[j].start == r,
        j == g.len() ==> r == len,
{
    if r < len {
        let k = choose|k: int| 0 <= k < g.len() && (#[trigger] g[k]).start == r;
        if k < il {
            lemma_chain_ordered(g, 0, len, k, il);
            assert(false);
        } else if k == il {
            assert(false);
        } else if k < j {
            assert(false);
        } else if j < k {
            lemma_chain_ordered(g, 0, len, j, k);
            assert(false);
        }
        assert(j == k);
    } else {
        if j < g.len() {
            lemma_chain_mono_start(g, 0, len, j);
            assert(false);
        }
    }
}

/// Replacing the whole block of runs `il..jf` (which covers exactly
/// `[nr.start, nr.end)`) by the single run `nr` keeps the partition and
/// overwrites exactly that index range of the expansion.
#[verifier::rlimit(80)]
pub proof fn lemma_replace_segment(g: Seq<Run>, len: int, il: int, jf: int, nr: Run)
    requires
        chain(g, 0, len),
        0 <= il < jf <= g.len(),
        g[il].start == nr.start,
        nr.start < nr.end,
        jf < g.len() ==> g[jf].start == nr.end,
        jf == g.len() ==> nr.end == len,
    ensures
        chain(g.take(il) + seq![nr] + g.skip(jf), 0, len),
        expand(g.take(il) + seq![nr] + g.skip(jf)) == expand(g).take(nr.start as int) + repeat_val(
            nr.val,
            nr.end - nr.start,
        ) + expand(g).skip(nr.end as int),
{
    let l = nr.start as int;
    let r = nr.end as int;
    let a = g.take(il);
    let b = g.skip(jf);
    let m = g.subrange(il, jf);
    let fr = a + seq![nr] + b;
    lemma_expand_len(g, 0, len);
    lemma_chain_take_skip(g, 0, len, il);
    assert(chain(a, 0, l));
    let s = g.skip(il);
    assert(chain(s, l, len));
    assert(chain(b, r, len)) by {
        if jf < g.len() {
            lemma_chain_take_skip(g, 0, len, jf);
        } else {
            assert(b =~= Seq::<Run>::empty());
        }
    }
    assert(chain(m, l, r)) by {
        assert(m =~= s.take(jf - il));
        if jf < g.len() {
            lemma_chain_take_skip(s, l, len, jf - il);
            assert(s[jf - il] == g[jf]);
        } else {
            assert(m =~= s);
        }
    }
    assert(chain(seq![nr], l, r)) by {
        assert(seq![nr][0] == nr);
    }
    lemma_chain_join(seq![nr], b, l, r, len);
    lemma_chain_join(a, seq![nr] + b, 0, l, len);
    assert(fr =~= a + (seq![nr] + b));
    assert(chain(fr, 0, len));
    lemma_expand_concat(a + seq![nr], b);
    lemma_expand_concat(a, seq![nr]);
    lemma_expand_concat(a + m, b);
    lemma_expand_concat(a, m);
    assert(g =~= a + m + b);
    lemma_expand_len(a, 0, l);
    lemma_expand_len(m, l, r);
    lemma_expand_len(b, r, len);
    assert(expand(seq![nr]) =~= repeat_val(nr.val, r - l)) by {
        assert(seq![nr].drop_first() =~= Seq::<Run>::empty());
        assert(expand(Seq::<Run>::empty()) == Seq::<i64>::empty());
    }
    assert(expand(a) =~= expand(g).take(l));
    assert(expand(b) =~= expand(g).skip(r));
    assert(expand(fr) =~= expand(a) + expand(seq![nr]) + expand(b));
}

/// `push_step` keeps the runs a partition, now of `[0, len + 1)`.
pub proof fn lemma_push_step_chain(rs: Seq<Run>, len: int, v: i64)
    requires
        chain(rs, 0, len),
        len < usize::MAX,
    ensures
        chain(push_step(rs, v), 0, len + 1),
{
    let nr = push_step(rs, v);
    let n = rs.len() as int;
    if n > 0 && rs[n - 1].val == v {
        assert forall|i: int| 0 <= i < nr.len() implies (#[trigger] nr[i]).start < nr[i].end by {
            if i < n - 1 {
                assert(nr[i] == rs[i]);
            }
        }
        assert forall|i: int| 0 < i < nr.len() implies (#[trigger] nr[i]).start == nr[i - 1].end by {
            if i < n - 1 {
                assert(nr[i] == rs[i]);
                assert(nr[i - 1] == rs[i - 1]);
            } else {
                assert(nr[i - 1] == rs[i - 1]);
            }
        }
    } else {
        assert forall|i: int| 0 <= i < nr.len() implies (#[trigger] nr[i]).start < nr[i].end by {
            if i < n {
                assert(nr[i] == rs[i]);
            }
        }
        assert forall|i: int| 0 < i < nr.len() implies (#[trigger] nr[i]).start == nr[i - 1].end by {
            if i < n {
                assert(nr[i] == rs[i]);
                assert(nr[i - 1] == rs[i - 1]);
            } else {
                assert(nr[i - 1] == rs[i - 1]);
            }
        }
    }
}

/// `push_step` appends exactly one copy of `v` to the expansion.
pub proof fn lemma_push_step_expand(rs: Seq<Run>, len: int, v: i64)
    requires
        chain(rs, 0, len),
        len < usize::MAX,
    ensures
        expand(push_step(rs, v)) == expand(rs).push(v),
{
    let nr = push_step(rs, v);
    let n = rs.len() as int;
    assert(expand(Seq::<Run>::empty()) == Seq::<i64>::empty());
    if n > 0 && rs[n - 1].val == v {
        let a = rs.take(n - 1);
        lemma_chain_take_skip(rs, 0, len, n - 1);
        assert(rs =~= a + seq![rs[n - 1]]);
        assert(nr =~= a + seq![nr[n - 1]]);
        lemma_expand_concat(a, seq![rs[n - 1]]);
        lemma_expand_concat(a, seq![nr[n - 1]]);
        let k = rs[n - 1].end - rs[n - 1].start;
        assert(seq![rs[n - 1]].drop_first() =~= Seq::<Run>::empty());
        assert(seq![nr[n - 1]].drop_first() =~= Seq::<Run>::empty());
        assert(expand(seq![rs[n - 1]]) =~= repeat_val(v, k));
        assert(nr[n - 1].end - nr[n - 1].start == k + 1);
        assert(expand(seq![nr[n - 1]]) =~= repeat_val(v, k + 1));
        assert(repeat_val(v, k + 1) =~= repeat_val(v, k).push(v));
        assert((expand(a) + repeat_val(v, k)).push(v) =~= expand(a) + repeat_val(v, k).push(v));
    } else {
        let r = Run { start: last_end(rs) as usize, end: (last_end(rs) + 1) as usize, val: v };
        assert(nr =~= rs + seq![r]);
        lemma_expand_concat(rs, seq![r]);
        assert(seq![r].drop_first() =~= Seq::<Run>::empty());
        assert(r.end - r.start == 1);
        assert(expand(seq![r]) =~= repeat_val(v, 1));
        assert(expand(rs) + repeat_val(v, 1) =~= expand(rs).push(v));
    }
}

/// `out` is a value obtainable from `init` by folding `f` over the runs in
/// ascending order, handing `f` each run's length and value.
pub open spec fn folds_over<Acc, F: Fn(Acc, usize, i64) -> Acc>(
    f: F,
    rs: Seq<Run>,
    init: Acc,
    out: Acc,
) -> bool
    decreases rs.len(),
{
    if rs.len() == 0 {
        out == init
    } else {
        exists|mid: Acc|
            #[trigger] call_ensures(f, (init, ((rs[0].end - rs[0].start) as usize), rs[0].val), mid)
                && folds_over(f, rs.drop_first(), mid, out)
    }
}

/// Folding one more run chains one more application of `f` onto the end.
pub proof fn lemma_folds_over_snoc<Acc, F: Fn(Acc, usize, i64) -> Acc>(
    f: F,
    rs: Seq<Run>,
    r: Run,
    init: Acc,
    mid: Acc,
    out: Acc,
)
    requires
        folds_over(f, rs, init, mid),
        call_ensures(f, (mid, ((r.end - r.start) as usize), r.val), out),
    ensures
        folds_over(f, rs.push(r), init, out),
    decreases rs.len(),
{
    if rs.len() == 0 {
        assert(rs.push(r)[0] == r);
        assert(rs.push(r).drop_first() =~= Seq::<Run>::empty());
        assert(folds_over(f, rs.push(r).drop_first(), out, out));
    } else {
        let m1 = choose|m: Acc|
            #[trigger] call_ensures(f, (init, ((rs[0].end - rs[0].start) as usize), rs[0].val), m)
                && folds_over(f, rs.drop_first(), m, mid);
        lemma_folds_over_snoc(f, rs.drop_first(), r, m1, mid, out);
        assert(rs.push(r)[0] == rs[0]);
        assert(rs.push(r).drop_first() =~= rs.drop_first().push(r));
    }
}

/// A run that begins before a materialized boundary `r` also ends by `r`.
pub proof fn lemma_run_clipped(g: Seq<Run>, len: int, k: int, r: int)
    requires
        chain(g, 0, len),
        0 <= k < g.len(),
        g[k].start < r,
        r <= len,
        r < len ==> starts_of(g).contains(r),
    ensures
        g[k].end <= r,
{
    lemma_chain_mono_start(g, 0, len, k);
    if r < len && g[k].end > r {
        let k2 = choose|i: int| 0 <= i < g.len() && (#[trigger] g[i]).start == r;
        if k < k2 {
            lemma_chain_ordered(g, 0, len, k, k2);
            assert(false);
        } else if k2 < k {
            lemma_chain_ordered(g, 0, len, k2, k);
            assert(false);
        } else {
            assert(false);
        }
    }
}

/// The block of runs `il..jf`, lying between the boundaries `l` and `r`,
/// partitions `[l, r)` and expands to exactly that part of the expansion.
pub proof fn lemma_segment_extract(g: Seq<Run>, len: int, il: int, jf: int, l: int, r: int)
    requires
        chain(g, 0, len),
        0 <= il < jf <= g.len(),
        g[il].start == l,
        jf < g.len() ==> g[jf].start == r,
        jf == g.len() ==> r == len,
    ensures
        chain(g.subrange(il, jf), l, r),
        expand(g.subrange(il, jf)) == expand(g).subrange(l, r),
        l < r <= len,
    decreases g.len(),
{
    let m = g.subrange(il, jf);
    let a = g.take(il);
    let b = g.skip(jf);
    lemma_expand_len(g, 0, len);
    lemma_chain_take_skip(g, 0, len, il);
    let s = g.skip(il);
    assert(chain(s, l, len));
    assert(chain(b, r, len)) by {
        if jf < g.len() {
            lemma_chain_take_skip(g, 0, len, jf);
        } else {
            assert(b =~= Seq::<Run>::empty());
        }
    }
    assert(chain(m, l, r)) by {
        assert(m =~= s.take(jf - il));
        if jf < g.len() {
            lemma_chain_take_skip(s, l, len, jf - il);
            assert(s[jf - il] == g[jf]);
        } else {
            assert(m =~= s);
        }
    }
    assert(g =~= a + m + b);
    lemma_expand_concat(a + m, b);
    lemma_expand_concat(a, m);
    lemma_expand_len(a, 0, l);
    lemma_expand_len(m, l, r);
    lemma_expand_len(b, r, len);
    assert(expand(m) =~= expand(g).subrange(l, r)) by {
        assert forall|x: int| 0 <= x < r - l implies expand(m)[x] == expand(g)[l + x] by {
            assert(expand(g)[l + x] == (expand(a) + expand(m) + expand(b))[l + x]);
        }
    }
}

/// A run sequence with the same boundaries as a chain is itself a chain.
pub proof fn lemma_same_bounds_chain(g: Seq<Run>, h: Seq<Run>, len: int)
    requires
        chain(g, 0, len),
        h.len() == g.len(),
        forall|k: int|
            0 <= k < g.len() ==> (#[trigger] h[k]).start == g[k].start && h[k].end == g[k].end,
    ensures
        chain(h, 0, len),
{
    assert forall|k: int| 0 <= k < h.len() implies (#[trigger] h[k]).start < h[k].end by {
        assert(g[k].start < g[k].end);
    }
    assert forall|i: int, j: int|
        #![trigger h[i], h[j]]
        0 <= i && i + 1 == j && j < h.len() implies h[j].start == h[i].end by {
        assert(g[j].start == g[i].end);
    }
    if h.len() > 0 {
        assert(h[0].start == g[0].start);
        assert(h[h.len() - 1].end == g[g.len() - 1].end);
    }
}

/// At every index, each of two run sequences with identical boundaries
/// yields the value of its own copy of the run covering that index.
pub proof fn lemma_mapped_views(g: Seq<Run>, h: Seq<Run>, len: int, j: int)
    requires
        chain(g, 0, len),
        h.len() == g.len(),
        forall|k: int|
            0 <= k < g.len() ==> (#[trigger] h[k]).start == g[k].start && h[k].end == g[k].end,
        0 <= j < len,
    ensures
        exists|i: int|
            0 <= i < g.len() && (#[trigger] g[i]).start <= j < g[i].end && expand(g)[j]
                == g[i].val && expand(h)[j] == h[i].val,
{
    lemma_same_bounds_chain(g, h, len);
    lemma_run_exists(g, 0, len, j);
    let i = choose|i: int| 0 <= i < g.len() && (#[trigger] g[i]).start <= j < g[i].end;
    lemma_expand_index_at(g, 0, len, i, j);
    lemma_expand_index_at(h, 0, len, i, j);
    assert(g[i].start <= j < g[i].end && expand(g)[j] == g[i].val && expand(h)[j] == h[i].val);
}

/// Appending one run appends that run's block of values to the expansion.
pub proof fn lemma_expand_snoc(s: Seq<Run>, rn: Run)
    ensures
        expand(s.push(rn)) == expand(s) + repeat_val(rn.val, rn.end - rn.start),
{
    assert(s.push(rn) =~= s + seq![rn]);
    lemma_expand_concat(s, seq![rn]);
    assert(seq![rn].drop_first() =~= Seq::<Run>::empty());
    assert(expand(Seq::<Run>::empty()) == Seq::<i64>::empty());
    assert(expand(seq![rn]) =~= repeat_val(rn.val, rn.end - rn.start));
}

/// Expanding one more run appends that run's block of values.
pub proof fn lemma_expand_take_snoc(rs: Seq<Run>, i: int)
    requires
        0 <= i < rs.len(),
    ensures
        expand(rs.take(i + 1)) == expand(rs.take(i)) + repeat_val(
            rs[i].val,
            rs[i].end - rs[i].start,
        ),
{
    assert(rs.take(i + 1) =~= rs.take(i) + seq![rs[i]]);
    lemma_expand_concat(rs.take(i), seq![rs[i]]);
    assert(seq![rs[i]].drop_first() =~= Seq::<Run>::empty());
    assert(expand(Seq::<Run>::empty()) == Seq::<i64>::empty());
    assert(expand(seq![rs[i]]) =~= repeat_val(rs[i].val, rs[i].end - rs[i].start));
}

/// Sums add over concatenation.
pub proof fn lemma_seq_sum_concat(a: Seq<i64>, b: Seq<i64>)
    ensures
        seq_sum(a + b) == seq_sum(a) + seq_sum(b),
    decreases a.len(),
{
    if a.len() == 0 {
        assert(a + b =~= b);
    } else {
        assert((a + b).drop_first() =~= a.drop_first() + b);
        lemma_seq_sum_concat(a.drop_first(), b);
        assert((a + b)[0] == a[0]);
    }
}

/// The sum of `n` copies of `v` is `n * v`.
pub proof fn lemma_seq_sum_repeat(v: i64, n: int)
    requires
        n >= 0,
    ensures
        seq_sum(repeat_val(v, n)) == n * v,
    decreases n,
{
    if n == 0 {
        assert(repeat_val(v, 0).len() == 0);
    } else {
        assert(repeat_val(v, n).drop_first() =~= repeat_val(v, n - 1));
        lemma_seq_sum_repeat(v, n - 1);
        assert(v + (n - 1) * v == n * v) by (nonlinear_arith);
    }
}

/// The sum of a sequence of machine integers is bounded by its length times
/// the largest magnitude an element can have.
pub proof fn lemma_seq_sum_bound(s: Seq<i64>)
    ensures
        -(s.len() as int) * 0x8000_0000_0000_0000 <= seq_sum(s) <= (s.len() as int)
            * 0x8000_0000_0000_0000,
    decreases s.len(),
{
    if s.len() == 0 {
    } else {
        lemma_seq_sum_bound(s.drop_first());
        assert((s.len() as int) * 0x8000_0000_0000_0000 == ((s.len() - 1) as int)
            * 0x8000_0000_0000_0000 + 0x8000_0000_0000_0000) by (nonlinear_arith);
    }
}

} // verus!
