//! The run-compressed sequence container itself.

use vstd::prelude::*;

use crate::runs::Run;
use crate::runs::chain;
use crate::runs::expand;
use crate::runs::last_end;
use crate::runs::lemma_chain_mono_start;
use crate::runs::lemma_chain_ordered;
use crate::runs::lemma_chain_take_skip;
use crate::runs::lemma_replace_segment;
use crate::runs::lemma_segment_end;
use crate::runs::lemma_expand_len;
use crate::runs::lemma_push_step_chain;
use crate::runs::lemma_push_step_expand;
use crate::runs::lemma_refine_at;
use crate::runs::push_step;
use crate::runs::refine_at;
use crate::runs::rle;
use crate::runs::lemma_expand_take_snoc;
use crate::runs::repeat_val;
use crate::runs::starts_of;
use crate::runs::folds_over;
use crate::runs::lemma_folds_over_snoc;
use crate::runs::seq_sum;
use crate::runs::lemma_seq_sum_concat;
use crate::runs::lemma_seq_sum_repeat;
use crate::runs::lemma_seq_sum_bound;
use crate::runs::lemma_run_clipped;
use crate::runs::lemma_segment_extract;
use crate::runs::lemma_expand_snoc;
use crate::runs::lemma_expand_index_at;
use crate::runs::lemma_same_bounds_chain;
use crate::runs::lemma_mapped_views;

verus! {

/// A sequence of values compressed into sorted, disjoint runs of equal
/// values. The abstract value (its view) is the expanded element sequence.
pub struct ChthollyTree {
    runs: Vec<Run>,
    len: usize,
}

impl View for ChthollyTree {
    type V = Seq<i64>;

    open spec fn view(&self) -> Seq<i64> {
        expand(self.runs_seq())
    }
}

impl ChthollyTree {
    /// The run sequence behind the container.
    pub closed spec fn runs_seq(self) -> Seq<Run> {
        self.runs@
    }

    /// The stored logical length.
    pub closed spec fn spec_len(self) -> int {
        self.len as int
    }

    /// Well-formed: the runs partition `[0, len)`.
    pub open spec fn wf(self) -> bool {
        chain(self.runs_seq(), 0, self.spec_len())
    }

    /// An empty sequence: no runs, length zero.
    pub fn new() -> (t: Self)
        ensures
            t.wf(),
            t@ == Seq::<i64>::empty(),
            t.runs_seq() == Seq::<Run>::empty(),
            t.spec_len() == 0,
    {
        ChthollyTree { runs: Vec::new(), len: 0 }
    }

    /// The set of indices at which a run begins.
    pub open spec fn starts(self) -> Set<int> {
        starts_of(self.runs_seq())
    }

    /// The number of elements of the sequence.
    pub fn len(&self) -> (n: usize)
        requires
            self.wf(),
        ensures
            n == self@.len(),
            n == self.spec_len(),
    {
        proof {
            lemma_wf_len(*self);
        }
        self.len
    }

    /// Whether the sequence holds no elements.
    pub fn is_empty(&self) -> (b: bool)
        requires
            self.wf(),
        ensures
            b <==> self@.len() == 0,
    {
        proof {
            lemma_wf_len(*self);
        }
        self.len == 0
    }

    /// Appends one element at the end: the last run is extended when it
    /// already holds `value`, otherwise a new singleton run is added.
    pub fn push(&mut self, value: i64)
        requires
            old(self).wf(),
            old(self)@.len() < usize::MAX,
        ensures
            final(self).wf(),
            final(self)@ == old(self)@.push(value),
            final(self).runs_seq() == push_step(old(self).runs_seq(), value),
            final(self).spec_len() == old(self).spec_len() + 1,
    {
        proof {
            lemma_wf_len(*self);
        }
        let ghost orig = self.runs@;
        let n = self.runs.len();
        if n > 0 && self.runs[n - 1].val == value {
            let last = self.runs[n - 1];
            self.runs[n - 1] = Run { start: last.start, end: last.end + 1, val: value };
        } else {
            self.runs.push(Run { start: self.len, end: self.len + 1, val: value });
            proof {
                assert(last_end(orig) == self.len as int);
            }
        }
        proof {
            assert(self.runs@ =~= push_step(orig, value));
            lemma_push_step_chain(orig, self.len as int, value);
            lemma_push_step_expand(orig, self.len as int, value);
        }
        self.len = self.len + 1;
    }

    /// Finds the index of the run whose interval contains `at`.
    fn find_run(&self, at: usize) -> (i: usize)
        requires
            self.wf(),
            at < self.spec_len(),
        ensures
            i < self.runs_seq().len(),
            self.runs_seq()[i as int].start <= at < self.runs_seq()[i as int].end,
    {
        let mut i: usize = 0;
        let n = self.runs.len();
        while self.runs[i].end <= at
            invariant
                self.wf(),
                at < self.spec_len(),
                n == self.runs@.len(),
                i < n,
                self.runs@[i as int].start <= at,
            decreases self.runs@.len() - i,
        {
            proof {
                if i + 1 == self.runs@.len() {
                    assert(self.runs@[i as int].end == self.spec_len());
                }
            }
            i = i + 1;
        }
        i
    }

    /// Ensures a run boundary exists exactly at index `at`: a no-op when `at`
    /// already begins a run, otherwise the run containing `at` is cut in two,
    /// both halves keeping its value.
    pub fn split(&mut self, at: usize)
        requires
            old(self).wf(),
            at < old(self)@.len(),
        ensures
            final(self).wf(),
            final(self)@ == old(self)@,
            final(self).spec_len() == old(self).spec_len(),
            final(self).starts() == old(self).starts().insert(at as int),
    {
        proof {
            lemma_wf_len(*self);
        }
        let i = self.find_run(at);
        let n = self.runs.len();
        let run = self.runs[i];
        if run.start == at {
            proof {
                assert(self.starts().contains(at as int));
                assert(self.starts().insert(at as int) =~= self.starts());
            }
            return ;
        }
        self.runs[i] = Run { start: run.start, end: at, val: run.val };
        self.runs.insert(i + 1, Run { start: at, end: run.end, val: run.val });
        proof {
            assert(self.runs@ =~= refine_at(old(self).runs_seq(), i as int, at as int));
            lemma_refine_at(old(self).runs_seq(), 0, old(self).spec_len(), i as int, at as int);
        }
    }

    /// Materializes run boundaries at both ends of the half-open index range
    /// `[l, r)`. Returns the range back when it is non-empty and in bounds,
    /// and `None` (touching nothing) otherwise.
    pub fn split_range(&mut self, l: usize, r: usize) -> (rg: Option<(usize, usize)>)
        requires
            old(self).wf(),
        ensures
            final(self).wf(),
            final(self)@ == old(self)@,
            final(self).spec_len() == old(self).spec_len(),
            (l >= r || r > old(self)@.len()) ==> rg is None && *final(self) == *old(self),
            (l < r && r <= old(self)@.len()) ==> rg == Some((l, r)),
            (l < r && r < old(self)@.len()) ==> final(self).starts() == old(self).starts().insert(
                l as int,
            ).insert(r as int),
            (l < r && r == old(self)@.len()) ==> final(self).starts() == old(self).starts().insert(
                l as int,
            ),
    {
        proof {
            lemma_wf_len(*self);
        }
        if l >= r || r > self.len {
            return None;
        }
        self.split(l);
        if r < self.len {
            self.split(r);
        }
        Some((l, r))
    }

    /// Finds the index of the run that begins exactly at `l`.
    fn find_start(&self, l: usize) -> (i: usize)
        requires
            self.wf(),
            self.starts().contains(l as int),
        ensures
            i < self.runs_seq().len(),
            self.runs_seq()[i as int].start == l,
    {
        let ghost rs = self.runs_seq();
        proof {
            let k = choose|k: int| 0 <= k < rs.len() && (#[trigger] rs[k]).start == l as int;
            lemma_chain_mono_start(rs, 0, self.spec_len(), k);
            lemma_wf_len(*self);
        }
        let i = self.find_run(l);
        proof {
            let k = choose|k: int| 0 <= k < rs.len() && (#[trigger] rs[k]).start == l as int;
            if (i as int) < k {
                lemma_chain_ordered(rs, 0, self.spec_len(), i as int, k);
            } else if k < i as int {
                lemma_chain_ordered(rs, 0, self.spec_len(), k, i as int);
            }
        }
        i
    }

    /// Overwrites every element of `[l, r)` with `value`, deleting all runs
    /// interior to the range and installing the single run `[l, r)`. An empty
    /// or out-of-bounds range is a no-op.
    #[verifier::rlimit(50)]
    pub fn assign(&mut self, value: i64, l: usize, r: usize)
        requires
            old(self).wf(),
        ensures
            final(self).wf(),
            final(self).spec_len() == old(self).spec_len(),
            final(self)@.len() == old(self)@.len(),
            (l >= r || r > old(self)@.len()) ==> *final(self) == *old(self),
            (l < r && r <= old(self)@.len()) ==> final(self)@ == old(self)@.take(l as int)
                + repeat_val(value, r - l) + old(self)@.skip(r as int),
    {
        let rg = self.split_range(l, r);
        match rg {
            None => {
                proof {
                    lemma_wf_len(*old(self));
                }
            },
            Some(_) => {
                let ghost g = self.runs@;
                let ghost len_i = self.spec_len();
                proof {
                    lemma_wf_len(*self);
                    lemma_wf_len(*old(self));
                }
                let il = self.find_start(l);
                let n0 = self.runs.len();
                let ghost mut j: int = il as int + 1;
                proof {
                    assert(self.runs@ =~= g.take(il as int + 1) + g.skip(j));
                }
                while il + 1 < self.runs.len() && self.runs[il + 1].start < r
                    invariant
                        chain(g, 0, len_i),
                        self.spec_len() == len_i,
                        il < g.len(),
                        g[il as int].start == l,
                        il as int + 1 <= j <= g.len(),
                        g.len() == n0,
                        self.runs@ == g.take(il as int + 1) + g.skip(j),
                        forall|k: int| il < k < j ==> (#[trigger] g[k]).start < r,
                    decreases g.len() - j,
                {
                    proof {
                        assert(self.runs@[il as int + 1] == g[j]);
                    }
                    self.runs.remove(il + 1);
                    proof {
                        assert(self.runs@ =~= g.take(il as int + 1) + g.skip(j + 1));
                        j = j + 1;
                    }
                }
                proof {
                    assert(self.runs@.len() == il + 1 + g.len() - j);
                    if j < g.len() {
                        assert(self.runs@[il as int + 1] == g[j]);
                        assert(g[j].start >= r);
                    }
                    if r < len_i {
                        assert(starts_of(g).contains(r as int));
                    }
                    lemma_segment_end(g, len_i, il as int, j, l as int, r as int);
                }
                let nr = Run { start: l, end: r, val: value };
                self.runs[il] = nr;
                proof {
                    assert(self.runs@ =~= g.take(il as int) + seq![nr] + g.skip(j));
                    lemma_replace_segment(g, len_i, il as int, j, nr);
                    assert(chain(self.runs@, 0, len_i));
                    assert(self.wf());
                    lemma_expand_len(self.runs@, 0, len_i);
                }
            },
        }
    }

    /// The elements of the sequence in ascending index order, each run
    /// expanded into as many copies of its value as it covers indices.
    pub fn iter(&self) -> (out: Vec<i64>)
        requires
            self.wf(),
        ensures
            out@ == self@,
    {
        let mut out: Vec<i64> = Vec::new();
        let n = self.runs.len();
        let mut i: usize = 0;
        while i < n
            invariant
                self.wf(),
                n == self.runs@.len(),
                i <= n,
                out@ == expand(self.runs@.take(i as int)),
            decreases n - i,
        {
            let run = self.runs[i];
            let mut k = run.start;
            while k < run.end
                invariant
                    run.start <= k <= run.end,
                    out@ == expand(self.runs@.take(i as int)) + repeat_val(
                        run.val,
                        k - run.start,
                    ),
                decreases run.end - k,
            {
                out.push(run.val);
                k = k + 1;
                proof {
                    assert(repeat_val(run.val, k - run.start) =~= repeat_val(
                        run.val,
                        k - 1 - run.start,
                    ).push(run.val));
                    assert(expand(self.runs@.take(i as int)) + repeat_val(
                        run.val,
                        k - 1 - run.start,
                    ).push(run.val) =~= (expand(self.runs@.take(i as int)) + repeat_val(
                        run.val,
                        k - 1 - run.start,
                    )).push(run.val));
                }
            }
            i = i + 1;
            proof {
                lemma_expand_take_snoc(self.runs@, i - 1);
            }
        }
        proof {
            assert(self.runs@.take(n as int) =~= self.runs@);
        }
        out
    }

    /// The runs themselves, each as `(start, (end, value))`, in ascending
    /// order of `start`.
    pub fn runs(&self) -> (out: Vec<(usize, (usize, i64))>)
        ensures
            out@.len() == self.runs_seq().len(),
            forall|i: int|
                0 <= i < out@.len() ==> out@[i] == (
                    self.runs_seq()[i].start,
                    (self.runs_seq()[i].end, self.runs_seq()[i].val),
                ),
    {
        let mut out: Vec<(usize, (usize, i64))> = Vec::new();
        let n = self.runs.len();
        let mut i: usize = 0;
        while i < n
            invariant
                n == self.runs@.len(),
                i <= n,
                out@.len() == i,
                forall|k: int|
                    0 <= k < i ==> out@[k] == (
                        self.runs@[k].start,
                        (self.runs@[k].end, self.runs@[k].val),
                    ),
            decreases n - i,
        {
            let run = self.runs[i];
            out.push((run.start, (run.end, run.val)));
            i = i + 1;
        }
        out
    }

    /// Builds the sequence from a vector of elements by appending each in
    /// turn, merging neighbouring equal elements into single runs.
    pub fn from_iter(elems: Vec<i64>) -> (t: Self)
        ensures
            t.wf(),
            t@ == elems@,
            t.runs_seq() == rle(elems@),
            t.spec_len() == elems@.len(),
    {
        let mut t = ChthollyTree::new();
        let n = elems.len();
        let mut i: usize = 0;
        while i < n
            invariant
                t.wf(),
                n == elems@.len(),
                i <= n,
                t@ == elems@.take(i as int),
                t.runs_seq() == rle(elems@.take(i as int)),
                t.spec_len() == i,
            decreases n - i,
        {
            proof {
                lemma_wf_len(t);
            }
            t.push(elems[i]);
            i = i + 1;
            proof {
                assert(elems@.take(i as int).drop_last() =~= elems@.take(i - 1));
                assert(elems@.take(i as int).last() == elems@[i - 1]);
                assert(elems@.take(i as int) =~= elems@.take(i - 1).push(elems@[i - 1]));
            }
        }
        proof {
            assert(elems@.take(n as int) =~= elems@);
        }
        t
    }

    /// Applies `f` to the representative value of every run in place. All
    /// elements of one run change together, since they share one stored
    /// value.
    pub fn map<F: Fn(i64) -> i64>(&mut self, f: F)
        requires
            old(self).wf(),
            forall|j: int| 0 <= j < old(self)@.len() ==> call_requires(f, (#[trigger] old(self)@[j],)),
        ensures
            final(self).wf(),
            final(self).spec_len() == old(self).spec_len(),
            final(self)@.len() == old(self)@.len(),
            final(self).starts() == old(self).starts(),
            forall|j: int|
                0 <= j < old(self)@.len() ==> call_ensures(
                    f,
                    (old(self)@[j],),
                    #[trigger] final(self)@[j],
                ),
    {
        let ghost g = self.runs@;
        let ghost len_i = self.spec_len();
        proof {
            lemma_wf_len(*self);
        }
        let n = self.runs.len();
        let mut i: usize = 0;
        while i < n
            invariant
                chain(g, 0, len_i),
                expand(g).len() == len_i,
                self.spec_len() == len_i,
                n == g.len(),
                self.runs@.len() == n,
                i <= n,
                forall|k: int| i <= k < n ==> self.runs@[k] == g[k],
                forall|k: int|
                    0 <= k < i ==> (#[trigger] self.runs@[k]).start == g[k].start
                        && self.runs@[k].end == g[k].end && call_ensures(
                        f,
                        (g[k].val,),
                        self.runs@[k].val,
                    ),
                forall|j: int|
                    0 <= j < expand(g).len() ==> call_requires(f, (#[trigger] expand(g)[j],)),
            decreases n - i,
        {
            let run = self.runs[i];
            proof {
                lemma_expand_index_at(g, 0, len_i, i as int, g[i as int].start as int);
                assert(call_requires(f, (run.val,)));
            }
            let newv = f(run.val);
            self.runs[i] = Run { start: run.start, end: run.end, val: newv };
            i = i + 1;
        }
        proof {
            let h = self.runs@;
            lemma_same_bounds_chain(g, h, len_i);
            lemma_expand_len(h, 0, len_i);
            assert(starts_of(h) =~= starts_of(g)) by {
                assert forall|s: int| starts_of(h).contains(s) implies starts_of(g).contains(
                    s,
                ) by {
                    let k = choose|k: int| 0 <= k < h.len() && (#[trigger] h[k]).start == s;
                    assert(g[k].start == s);
                }
                assert forall|s: int| starts_of(g).contains(s) implies starts_of(h).contains(
                    s,
                ) by {
                    let k = choose|k: int| 0 <= k < g.len() && (#[trigger] g[k]).start == s;
                    assert(h[k].start == s);
                }
            }
            assert forall|j: int| 0 <= j < old(self)@.len() implies call_ensures(
                f,
                (old(self)@[j],),
                #[trigger] expand(h)[j],
            ) by {
                lemma_mapped_views(g, h, len_i, j);
                let i0 = choose|i0: int|
                    0 <= i0 < g.len() && (#[trigger] g[i0]).start <= j < g[i0].end && expand(
                        g,
                    )[j] == g[i0].val && expand(h)[j] == h[i0].val;
                assert(call_ensures(f, (g[i0].val,), h[i0].val));
            }
        }
    }

    /// Applies `f` to the representative value of every run covering
    /// `[l, r)`, after materializing boundaries at `l` and `r`; elements
    /// outside the range keep their values. An empty or out-of-bounds range
    /// is a no-op.
    pub fn map_range<F: Fn(i64) -> i64>(&mut self, f: F, l: usize, r: usize)
        requires
            old(self).wf(),
            forall|j: int|
                l <= j < r && r <= old(self)@.len() ==> call_requires(
                    f,
                    (#[trigger] old(self)@[j],),
                ),
        ensures
            final(self).wf(),
            final(self).spec_len() == old(self).spec_len(),
            final(self)@.len() == old(self)@.len(),
            (l >= r || r > old(self)@.len()) ==> *final(self) == *old(self),
            (l < r && r <= old(self)@.len()) ==> forall|j: int|
                l <= j < r ==> call_ensures(f, (old(self)@[j],), #[trigger] final(self)@[j]),
            (l < r && r <= old(self)@.len()) ==> forall|j: int|
                (0 <= j < l || r <= j < old(self)@.len()) ==> #[trigger] final(self)@[j] == old(
                    self,
                )@[j],
    {
        let rg = self.split_range(l, r);
        match rg {
            None => {},
            Some(_) => {
                let ghost g = self.runs@;
                let ghost len_i = self.spec_len();
                proof {
                    lemma_wf_len(*self);
                    lemma_wf_len(*old(self));
                }
                let il = self.find_start(l);
                let n = self.runs.len();
                let mut k = il;
                while k < n && self.runs[k].start < r
                    invariant
                        chain(g, 0, len_i),
                        expand(g) == old(self)@,
                        expand(g).len() == len_i,
                        self.spec_len() == len_i,
                        n == g.len(),
                        self.runs@.len() == n,
                        il <= k <= n,
                        il < g.len(),
                        g[il as int].start == l,
                        l < r <= len_i,
                        r < len_i ==> starts_of(g).contains(r as int),
                        forall|q: int| il < q < k ==> (#[trigger] g[q]).start < r,
                        forall|q: int| (0 <= q < il || k <= q < n) ==> self.runs@[q] == g[q],
                        forall|q: int|
                            il <= q < k ==> (#[trigger] self.runs@[q]).start == g[q].start
                                && self.runs@[q].end == g[q].end && call_ensures(
                                f,
                                (g[q].val,),
                                self.runs@[q].val,
                            ),
                        forall|j: int|
                            l <= j < r ==> call_requires(f, (#[trigger] expand(g)[j],)),
                    decreases n - k,
                {
                    let run = self.runs[k];
                    proof {
                        lemma_run_clipped(g, len_i, k as int, r as int);
                        if il < k {
                            lemma_chain_ordered(g, 0, len_i, il as int, k as int);
                        }
                        lemma_expand_index_at(g, 0, len_i, k as int, g[k as int].start as int);
                        assert(call_requires(f, (run.val,)));
                    }
                    let newv = f(run.val);
                    self.runs[k] = Run { start: run.start, end: run.end, val: newv };
                    k = k + 1;
                }
                proof {
                    let h = self.runs@;
                    lemma_segment_end(g, len_i, il as int, k as int, l as int, r as int);
                    lemma_same_bounds_chain(g, h, len_i);
                    lemma_expand_len(h, 0, len_i);
                    assert forall|j: int| l <= j < r implies call_ensures(
                        f,
                        (old(self)@[j],),
                        #[trigger] expand(h)[j],
                    ) by {
                        lemma_mapped_views(g, h, len_i, j);
                        let i0 = choose|i0: int|
                            0 <= i0 < g.len() && (#[trigger] g[i0]).start <= j < g[i0].end
                                && expand(g)[j] == g[i0].val && expand(h)[j] == h[i0].val;
                        if i0 < il as int {
                            lemma_chain_ordered(g, 0, len_i, i0, il as int);
                            assert(false);
                        }
                        if k as int <= i0 {
                            if (k as int) < g.len() {
                                if (k as int) < i0 {
                                    lemma_chain_ordered(g, 0, len_i, k as int, i0);
                                }
                                assert(g[i0].start >= r);
                                assert(false);
                            } else {
                                assert(false);
                            }
                        }
                        assert(call_ensures(f, (g[i0].val,), h[i0].val));
                    }
                    assert forall|j: int| (0 <= j < l || r <= j < len_i) implies #[trigger] expand(
                        h,
                    )[j] == old(self)@[j] by {
                        lemma_mapped_views(g, h, len_i, j);
                        let i0 = choose|i0: int|
                            0 <= i0 < g.len() && (#[trigger] g[i0]).start <= j < g[i0].end
                                && expand(g)[j] == g[i0].val && expand(h)[j] == h[i0].val;
                        if il as int <= i0 < k as int {
                            if (il as int) < i0 {
                                lemma_chain_ordered(g, 0, len_i, il as int, i0);
                            }
                            lemma_run_clipped(g, len_i, i0, r as int);
                            assert(l <= j < r);
                            assert(false);
                        }
                        assert(h[i0] == g[i0]);
                    }
                }
            },
        }
    }

    /// Folds `f` over the runs in ascending order; `f` receives the length
    /// of each run together with its value, so it can weight by multiplicity
    /// without expanding runs into elements.
    pub fn fold<Acc, F: Fn(Acc, usize, i64) -> Acc>(&self, init: Acc, f: F) -> (out: Acc)
        requires
            self.wf(),
            forall|acc: Acc, k: int|
                0 <= k < self.runs_seq().len() ==> #[trigger] call_requires(
                    f,
                    (
                        acc,
                        ((self.runs_seq()[k].end - self.runs_seq()[k].start) as usize),
                        self.runs_seq()[k].val,
                    ),
                ),
        ensures
            folds_over(f, self.runs_seq(), init, out),
    {
        let mut acc = init;
        let n = self.runs.len();
        let mut i: usize = 0;
        while i < n
            invariant
                self.wf(),
                n == self.runs@.len(),
                i <= n,
                folds_over(f, self.runs@.take(i as int), init, acc),
                forall|a: Acc, k: int|
                    0 <= k < self.runs@.len() ==> #[trigger] call_requires(
                        f,
                        (a, ((self.runs@[k].end - self.runs@[k].start) as usize), self.runs@[k].val),
                    ),
            decreases n - i,
        {
            let run = self.runs[i];
            let ghost prev = acc;
            acc = f(acc, run.end - run.start, run.val);
            i = i + 1;
            proof {
                lemma_folds_over_snoc(
                    f,
                    self.runs@.take(i - 1),
                    self.runs@[i - 1],
                    init,
                    prev,
                    acc,
                );
                assert(self.runs@.take(i as int) =~= self.runs@.take(i - 1).push(
                    self.runs@[i - 1],
                ));
            }
        }
        proof {
            assert(self.runs@.take(n as int) =~= self.runs@);
        }
        acc
    }

    /// The sum of all elements, each run contributing its length times its
    /// value.
    pub fn sum(&self) -> (total: i64)
        requires
            self.wf(),
            i64::MIN <= seq_sum(self@) <= i64::MAX,
        ensures
            total as int == seq_sum(self@),
    {
        let mut acc: i128 = 0;
        let n = self.runs.len();
        let mut i: usize = 0;
        proof {
            lemma_wf_len(*self);
        }
        while i < n
            invariant
                self.wf(),
                n == self.runs@.len(),
                i <= n,
                acc as int == seq_sum(expand(self.runs@.take(i as int))),
                expand(self.runs@.take(i as int)).len() <= self@.len(),
                self@.len() <= usize::MAX,
            decreases n - i,
        {
            let run = self.runs[i];
            let w = run.end - run.start;
            proof {
                lemma_expand_take_snoc(self.runs@, i as int);
                let a = expand(self.runs@.take(i as int));
                let b = repeat_val(run.val, w as int);
                lemma_seq_sum_concat(a, b);
                lemma_seq_sum_repeat(run.val, w as int);
                lemma_seq_sum_bound(b);
                lemma_seq_sum_bound(a + b);
                assert(expand(self.runs@.take(i + 1)).len() <= self@.len()) by {
                    if i + 1 < n {
                        lemma_chain_take_skip(self.runs@, 0, self.spec_len(), i + 1);
                        lemma_expand_len(
                            self.runs@.take(i + 1),
                            0,
                            self.runs@[i + 1].start as int,
                        );
                        lemma_chain_mono_start(self.runs@, 0, self.spec_len(), i + 1);
                        lemma_wf_len(*self);
                    } else {
                        assert(self.runs@.take(i + 1) =~= self.runs@);
                    }
                }
            }
            acc = acc + (w as i128) * (run.val as i128);
            i = i + 1;
        }
        proof {
            assert(self.runs@.take(n as int) =~= self.runs@);
        }
        acc as i64
    }

    /// Folds `f` over the runs covering `[l, r)` in ascending order, after
    /// materializing boundaries at `l` and `r`. An empty or out-of-bounds
    /// range returns `init` unchanged and touches nothing.
    pub fn fold_range<Acc, F: Fn(Acc, usize, i64) -> Acc>(
        &mut self,
        init: Acc,
        f: F,
        l: usize,
        r: usize,
    ) -> (out: Acc)
        requires
            old(self).wf(),
            forall|acc: Acc, w: usize, v: i64|
                1 <= w <= r - l ==> #[trigger] call_requires(f, (acc, w, v)),
        ensures
            final(self).wf(),
            final(self)@ == old(self)@,
            final(self).spec_len() == old(self).spec_len(),
            (l >= r || r > old(self)@.len()) ==> out == init && *final(self) == *old(self),
            (l < r && r <= old(self)@.len()) ==> exists|rs: Seq<Run>|
                chain(rs, l as int, r as int) && expand(rs) == old(self)@.subrange(
                    l as int,
                    r as int,
                ) && #[trigger] folds_over(f, rs, init, out),
    {
        let rg = self.split_range(l, r);
        match rg {
            None => init,
            Some(_) => {
                let ghost g = self.runs@;
                let ghost len_i = self.spec_len();
                proof {
                    lemma_wf_len(*self);
                    lemma_wf_len(*old(self));
                }
                let il = self.find_start(l);
                let n = self.runs.len();
                let mut k = il;
                let mut acc = init;
                while k < n && self.runs[k].start < r
                    invariant
                        chain(g, 0, len_i),
                        g == self.runs@,
                        self.spec_len() == len_i,
                        n == g.len(),
                        il <= k <= n,
                        il < g.len(),
                        g[il as int].start == l,
                        l < r <= len_i,
                        r < len_i ==> starts_of(g).contains(r as int),
                        forall|q: int| il < q < k ==> (#[trigger] g[q]).start < r,
                        folds_over(f, g.subrange(il as int, k as int), init, acc),
                        forall|a2: Acc, w: usize, v: i64|
                            1 <= w <= r - l ==> #[trigger] call_requires(f, (a2, w, v)),
                    decreases n - k,
                {
                    let run = self.runs[k];
                    proof {
                        lemma_run_clipped(g, len_i, k as int, r as int);
                        if il < k {
                            lemma_chain_ordered(g, 0, len_i, il as int, k as int);
                        }
                    }
                    let ghost prev = acc;
                    acc = f(acc, run.end - run.start, run.val);
                    k = k + 1;
                    proof {
                        lemma_folds_over_snoc(
                            f,
                            g.subrange(il as int, k - 1),
                            g[k - 1],
                            init,
                            prev,
                            acc,
                        );
                        assert(g.subrange(il as int, k as int) =~= g.subrange(
                            il as int,
                            k - 1,
                        ).push(g[k - 1]));
                    }
                }
                proof {
                    lemma_segment_end(g, len_i, il as int, k as int, l as int, r as int);
                    lemma_segment_extract(g, len_i, il as int, k as int, l as int, r as int);
                    assert(chain(
                        g.subrange(il as int, k as int),
                        l as int,
                        r as int,
                    ) && expand(g.subrange(il as int, k as int)) == old(self)@.subrange(
                        l as int,
                        r as int,
                    ) && folds_over(f, g.subrange(il as int, k as int), init, acc));
                }
                acc
            },
        }
    }

    /// The sum of the elements at indices `[l, r)`, each run contributing
    /// its covered length times its value. An empty or out-of-bounds range
    /// yields zero and touches nothing.
    pub fn range_sum(&mut self, l: usize, r: usize) -> (total: i64)
        requires
            old(self).wf(),
            (l < r && r <= old(self)@.len()) ==> i64::MIN <= seq_sum(
                old(self)@.subrange(l as int, r as int),
            ) <= i64::MAX,
        ensures
            final(self).wf(),
            final(self)@ == old(self)@,
            final(self).spec_len() == old(self).spec_len(),
            (l < r && r <= old(self)@.len()) ==> total as int == seq_sum(
                old(self)@.subrange(l as int, r as int),
            ),
            (l >= r || r > old(self)@.len()) ==> total == 0 && *final(self) == *old(self),
    {
        let rg = self.split_range(l, r);
        match rg {
            None => 0,
            Some(_) => {
                let ghost g = self.runs@;
                let ghost len_i = self.spec_len();
                proof {
                    lemma_wf_len(*self);
                    lemma_wf_len(*old(self));
                }
                let il = self.find_start(l);
                let n = self.runs.len();
                let mut k = il;
                let mut acc: i128 = 0;
                while k < n && self.runs[k].start < r
                    invariant
                        chain(g, 0, len_i),
                        g == self.runs@,
                        self.spec_len() == len_i,
                        n == g.len(),
                        il <= k <= n,
                        il < g.len(),
                        g[il as int].start == l,
                        l < r <= len_i,
                        r < len_i ==> starts_of(g).contains(r as int),
                        forall|q: int| il < q < k ==> (#[trigger] g[q]).start < r,
                        expand(g).len() == len_i,
                        acc as int == seq_sum(expand(g.subrange(il as int, k as int))),
                        expand(g.subrange(il as int, k as int)).len() <= r - l,
                    decreases n - k,
                {
                    let run = self.runs[k];
                    proof {
                        lemma_run_clipped(g, len_i, k as int, r as int);
                        lemma_chain_mono_start(g, 0, len_i, k as int);
                        if il < k {
                            lemma_chain_ordered(g, 0, len_i, il as int, k as int);
                        }
                        let a = expand(g.subrange(il as int, k as int));
                        let b = repeat_val(run.val, run.end - run.start);
                        assert(g.subrange(il as int, k + 1) =~= g.subrange(il as int, k as int).push(
                            g[k as int],
                        ));
                        lemma_expand_snoc(g.subrange(il as int, k as int), g[k as int]);
                        lemma_seq_sum_concat(a, b);
                        lemma_seq_sum_repeat(run.val, run.end - run.start);
                        lemma_seq_sum_bound(b);
                        lemma_seq_sum_bound(a + b);
                        if il < k {
                            lemma_segment_extract(
                                g,
                                len_i,
                                il as int,
                                k as int,
                                l as int,
                                g[k as int].start as int,
                            );
                            assert(a.len() == g[k as int].start - l);
                        } else {
                            assert(g.subrange(il as int, k as int) =~= Seq::<Run>::empty());
                            assert(a.len() == 0);
                        }
                        assert(g[k as int].end <= r);
                        assert(b.len() == g[k as int].end - g[k as int].start);
                        assert((a + b).len() <= r - l);
                    }
                    acc = acc + ((run.end - run.start) as i128) * (run.val as i128);
                    k = k + 1;
                }
                proof {
                    lemma_segment_end(g, len_i, il as int, k as int, l as int, r as int);
                    lemma_segment_extract(g, len_i, il as int, k as int, l as int, r as int);
                }
                acc as i64
            },
        }
    }
}

/// A well-formed sequence has as many elements as its stored length says.
pub proof fn lemma_wf_len(t: ChthollyTree)
    requires
        t.wf(),
    ensures
        t@.len() == t.spec_len(),
{
    lemma_expand_len(t.runs_seq(), 0, t.spec_len());
}

} // verus!
