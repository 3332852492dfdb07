//! Sequence combinators: repeated generation, combinations with repetition,
//! permutations and subsets, all built on the primitives.
//!
//! Each combinator materializes the sequence it generates for the run in
//! progress into a `Vec`, performing the underlying `gen` calls in order.  A
//! fresh sequence must be requested on every run.  The spec functions here
//! fold the primitive transitions of [`crate::model`] over a whole run, so
//! each combinator's `ensures` pins both the values produced and the state
//! the enumerator is left in.

use crate::enumerator::Gen;
use crate::model::GenView;
use vstd::prelude::*;
use vstd::seq_lib::group_to_multiset_ensures;

verus! {

/// State and values after `k` successive `gen(elt_bound)` calls from `m`:
/// `.0` is the state reached, `.1` the values handed out, oldest first.
pub open spec fn elts_run(m: GenView, k: nat, elt_bound: usize) -> (GenView, Seq<usize>)
    decreases k,
{
    if k == 0 {
        (m, Seq::empty())
    } else {
        let prev = elts_run(m, (k - 1) as nat, elt_bound);
        (prev.0.step_gen(elt_bound), prev.1.push(prev.0.next_val()))
    }
}

/// State, picked input positions and remaining positions after `k` removal
/// steps of a permutation run: each step generates an index below the number
/// of positions still available, hands out the position it names, and removes
/// it from the available ones.
pub open spec fn perm_run(m: GenView, avail: Seq<usize>, k: nat) -> (GenView, Seq<usize>, Seq<usize>)
    decreases k,
{
    if k == 0 {
        (m, Seq::empty(), avail)
    } else {
        let prev = perm_run(m, avail, (k - 1) as nat);
        let j: int = prev.0.next_val() as int;
        (
            prev.0.step_gen((prev.2.len() - 1) as usize),
            prev.1.push(prev.2[j]),
            prev.2.remove(j),
        )
    }
}

/// State and flip outcomes after `k` successive `flip` calls from `m`.
pub open spec fn flips_run(m: GenView, k: nat) -> (GenView, Seq<bool>)
    decreases k,
{
    if k == 0 {
        (m, Seq::empty())
    } else {
        let prev = flips_run(m, (k - 1) as nat);
        (prev.0.step_gen(1), prev.1.push(prev.0.next_val() == 1))
    }
}

/// The elements of `s` whose position the mask marks with `true`, in order.
pub open spec fn mask_select<T>(s: Seq<T>, mask: Seq<bool>) -> Seq<T>
    decreases s.len(),
{
    if s.len() == 0 {
        Seq::empty()
    } else {
        let rest = mask_select(s.drop_last(), mask.drop_last());
        if mask.last() {
            rest.push(s.last())
        } else {
            rest
        }
    }
}

/// The frames a run starting at `m` will revisit within its next `count`
/// choice points all hold values of at most `b`.  This is what a stable
/// replay guarantees for a body whose bounds are all `b`: `done` never
/// steers a frame above the bound last recorded for it.
pub open spec fn fits(m: GenView, count: nat, b: usize) -> bool {
    forall|i: int|
        m.cursor <= i < m.frames.len() && i < m.cursor + count ==> (#[trigger] m.frames[i]).0 <= b
}

/// The positions `0, 1, ..., n - 1` in order.
pub open spec fn index_seq(n: nat) -> Seq<usize> {
    Seq::new(n, |i: int| i as usize)
}

/// The frames a permutation run over `n` elements will revisit all hold
/// values below the count of positions that will still be available when the
/// run reaches them, as a stable replay guarantees.
pub open spec fn perm_fits(m: GenView, n: nat) -> bool {
    forall|i: int|
        m.cursor <= i < m.frames.len() && i < m.cursor + n ==> (#[trigger] m.frames[i]).0 + (i
            - m.cursor) < n
}

/// How a run of `gen` calls relates to the state it started from: the cursor
/// advances one frame per call, frames left of the cursor and the values of
/// revisited frames are untouched, fresh frames open at value 0, and each
/// value handed out is the one its frame held, or 0 where the frame is new.
pub proof fn lemma_elts_run_frames(m: GenView, k: nat, elt_bound: usize)
    requires
        m.wf(),
    ensures
        ({
            let r = elts_run(m, k, elt_bound);
            &&& r.0.wf()
            &&& r.0.started == m.started
            &&& r.0.cursor == m.cursor + k
            &&& r.0.frames.len() == if m.cursor + k > m.frames.len() {
                m.cursor + k
            } else {
                m.frames.len() as int
            }
            &&& forall|i: int|
                0 <= i < r.0.frames.len() ==> (#[trigger] r.0.frames[i]).0 == (if i
                    < m.frames.len() {
                    m.frames[i].0
                } else {
                    0
                })
            &&& r.1.len() == k
            &&& forall|j: int|
                0 <= j < k ==> #[trigger] r.1[j] == (if m.cursor + j < m.frames.len() {
                    m.frames[m.cursor + j].0
                } else {
                    0usize
                })
        }),
    decreases k,
{
    if k > 0 {
        lemma_elts_run_frames(m, (k - 1) as nat, elt_bound);
        let prev = elts_run(m, (k - 1) as nat, elt_bound);
        let r = elts_run(m, k, elt_bound);
        assert(r.0 == prev.0.step_gen(elt_bound));
        assert forall|i: int| 0 <= i < r.0.frames.len() implies (#[trigger] r.0.frames[i]).0 == (
        if i < m.frames.len() {
            m.frames[i].0
        } else {
            0usize
        }) by {
            if prev.0.cursor == prev.0.frames.len() {
                assert(r.0.frames == prev.0.frames.push((0usize, elt_bound)));
            } else {
                assert(r.0.frames == prev.0.frames.update(
                    prev.0.cursor,
                    (prev.0.frames[prev.0.cursor].0, elt_bound),
                ));
            }
        }
        assert forall|j: int| 0 <= j < k implies #[trigger] r.1[j] == (if m.cursor + j
            < m.frames.len() {
            m.frames[m.cursor + j].0
        } else {
            0usize
        }) by {
            if j < k - 1 {
                assert(r.1[j] == prev.1[j]);
            } else {
                assert(r.1[j] == prev.0.next_val());
                assert(prev.0.cursor == m.cursor + j);
                if prev.0.cursor < prev.0.frames.len() {
                    assert((#[trigger] prev.0.frames[prev.0.cursor]).0 == (if prev.0.cursor
                        < m.frames.len() {
                        m.frames[prev.0.cursor].0
                    } else {
                        0usize
                    }));
                }
            }
        }
    }
}

/// When the revisited frames fit the bound, every value a run of
/// `gen(elt_bound)` calls hands out is at most `elt_bound`.
pub proof fn lemma_elts_run_in_range(m: GenView, k: nat, elt_bound: usize)
    requires
        m.wf(),
        fits(m, k, elt_bound),
    ensures
        forall|j: int| 0 <= j < k ==> #[trigger] elts_run(m, k, elt_bound).1[j] <= elt_bound,
{
    lemma_elts_run_frames(m, k, elt_bound);
    assert forall|j: int| 0 <= j < k implies #[trigger] elts_run(m, k, elt_bound).1[j]
        <= elt_bound by {
        if m.cursor + j < m.frames.len() {
            assert(m.frames[m.cursor + j].0 <= elt_bound);
        }
    }
}

impl Gen {
    /// Generates a bounded-length sequence (eventually every such sequence)
    /// of bounded integers.  The length is itself a choice point below
    /// `len_bound`; each element is a `gen(elt_bound)` call.
    pub fn gen_elts(&mut self, len_bound: usize, elt_bound: usize) -> (out: Vec<usize>)
        requires
            old(self)@.wf(),
        ensures
            ({
                let k = old(self)@.next_val();
                let run = elts_run(old(self)@.step_gen(len_bound), k as nat, elt_bound);
                &&& out@.len() == k
                &&& out@ == run.1
                &&& final(self)@ == run.0
                &&& final(self)@.wf()
            }),
    {
        let k = self.gen(len_bound);
        let ghost m1 = self@;
        let mut out: Vec<usize> = Vec::new();
        let mut t: usize = 0;
        while t < k
            invariant
                self@.wf(),
                t <= k,
                out@.len() == t,
                (self@, out@) == elts_run(m1, t as nat, elt_bound),
            decreases k - t,
        {
            let v = self.gen(elt_bound);
            out.push(v);
            t = t + 1;
        }
        out
    }

    /// Generates a sequence of exactly `fixed` elements, each obtained by one
    /// invocation of the value-producing callback `f`, threading the
    /// enumerator through every invocation.  The callback takes the
    /// enumerator by value and hands it back beside the value it produced, so
    /// there is a single linear mutation path; the `ensures` pins the chain
    /// of enumerator values the calls pass through to `f`'s own contract.
    pub fn gen_fixed_by<T, F: Fn(Gen) -> (Gen, T)>(&mut self, fixed: usize, f: F) -> (out: Vec<T>)
        requires
            old(self)@.wf(),
            forall|g: Gen| g@.wf() ==> #[trigger] call_requires(f, (g,)),
            forall|g: Gen, r: (Gen, T)|
                call_requires(f, (g,)) && #[trigger] call_ensures(f, (g,), r) ==> r.0@.wf(),
        ensures
            out@.len() == fixed,
            final(self)@.wf(),
            exists|chain: Seq<Gen>|
                {
                    &&& chain.len() == fixed + 1
                    &&& chain[0] == *old(self)
                    &&& chain[fixed as int] == *final(self)
                    &&& forall|i: int|
                        0 <= i < fixed ==> #[trigger] call_ensures(
                            f,
                            (chain[i],),
                            (chain[i + 1], out@[i]),
                        )
                },
    {
        let mut g = Gen::new();
        core::mem::swap(self, &mut g);
        let ghost g0 = g;
        let ghost mut chain: Seq<Gen> = seq![g];
        let mut out: Vec<T> = Vec::new();
        let mut t: usize = 0;
        while t < fixed
            invariant
                g@.wf(),
                t <= fixed,
                out@.len() == t,
                chain.len() == t + 1,
                chain[0] == g0,
                chain[t as int] == g,
                forall|g2: Gen| g2@.wf() ==> #[trigger] call_requires(f, (g2,)),
                forall|g2: Gen, r: (Gen, T)|
                    call_requires(f, (g2,)) && #[trigger] call_ensures(f, (g2,), r) ==> r.0@.wf(),
                forall|i: int|
                    0 <= i < t ==> #[trigger] call_ensures(f, (chain[i],), (chain[i + 1], out@[i])),
            decreases fixed - t,
        {
            let res = f(g);
            g = res.0;
            out.push(res.1);
            proof {
                chain = chain.push(g);
            }
            t = t + 1;
        }
        core::mem::swap(self, &mut g);
        proof {
            assert(chain.len() == fixed + 1 && chain[0] == g0 && chain[fixed as int] == *self
                && forall|i: int|
                0 <= i < fixed ==> #[trigger] call_ensures(f, (chain[i],), (chain[i + 1], out@[i])));
        }
        out
    }

    /// Generates a bounded-length sequence (eventually every such sequence)
    /// of elements obtained from the value-producing callback `f`: the length
    /// is itself a choice point below `bound`, enumerated like any other,
    /// then `f` is invoked once per position as in [`Gen::gen_fixed_by`].
    pub fn gen_bound_by<T, F: Fn(Gen) -> (Gen, T)>(&mut self, bound: usize, f: F) -> (out: Vec<T>)
        requires
            old(self)@.wf(),
            forall|g: Gen| g@.wf() ==> #[trigger] call_requires(f, (g,)),
            forall|g: Gen, r: (Gen, T)|
                call_requires(f, (g,)) && #[trigger] call_ensures(f, (g,), r) ==> r.0@.wf(),
        ensures
            out@.len() == old(self)@.next_val(),
            final(self)@.wf(),
            exists|chain: Seq<Gen>|
                {
                    &&& chain.len() == old(self)@.next_val() + 1
                    &&& chain[0]@ == old(self)@.step_gen(bound)
                    &&& chain[old(self)@.next_val() as int] == *final(self)
                    &&& forall|i: int|
                        0 <= i < old(self)@.next_val() ==> #[trigger] call_ensures(
                            f,
                            (chain[i],),
                            (chain[i + 1], out@[i]),
                        )
                },
    {
        let fixed = self.gen(bound);
        self.gen_fixed_by(fixed, f)
    }

    /// Generates a fixed-size combination (eventually every combination) of
    /// elements selected from `input`: a sequence of length exactly `fixed`
    /// whose elements are independent [`Gen::pick`] calls, so elements may
    /// repeat.  `input` must be non-empty, and frames left over from the
    /// previous run must hold values that index into it (see [`Gen::pick`]).
    pub fn gen_fixed_comb<'data, T>(&mut self, fixed: usize, input: &'data [T]) -> (out: Vec<
        &'data T,
    >)
        requires
            old(self)@.wf(),
            input.len() >= 1,
            fits(old(self)@, fixed as nat, (input.len() - 1) as usize),
        ensures
            ({
                let run = elts_run(old(self)@, fixed as nat, (input.len() - 1) as usize);
                &&& out@.len() == fixed
                &&& final(self)@ == run.0
                &&& forall|j: int| 0 <= j < fixed ==> #[trigger] run.1[j] < input@.len()
                &&& forall|j: int|
                    0 <= j < fixed ==> *(#[trigger] out@[j]) == input@[run.1[j] as int]
                &&& final(self)@.wf()
            }),
    {
        let ghost m0 = self@;
        let ghost b = (input.len() - 1) as usize;
        let mut out: Vec<&T> = Vec::new();
        let mut t: usize = 0;
        while t < fixed
            invariant
                self@.wf(),
                t <= fixed,
                input.len() >= 1,
                fits(m0, fixed as nat, b),
                b == (input.len() - 1) as usize,
                m0.wf(),
                out@.len() == t,
                self@ == elts_run(m0, t as nat, b).0,
                forall|j: int|
                    0 <= j < t ==> #[trigger] elts_run(m0, t as nat, b).1[j] < input@.len(),
                forall|j: int|
                    0 <= j < t ==> *(#[trigger] out@[j]) == input@[elts_run(
                        m0,
                        t as nat,
                        b,
                    ).1[j] as int],
            decreases fixed - t,
        {
            proof {
                lemma_elts_run_frames(m0, t as nat, b);
                if self@.cursor < self@.frames.len() {
                    assert(m0.frames[m0.cursor + t].0 <= b);
                }
            }
            let r = self.pick(input);
            out.push(r);
            t = t + 1;
            proof {
                lemma_elts_run_frames(m0, t as nat, b);
            }
        }
        out
    }

    /// Generates a variable-size combination (eventually every combination)
    /// of elements selected from `input`: the size is itself a choice point
    /// below `bound`, then the elements are picked as in
    /// [`Gen::gen_fixed_comb`].
    pub fn gen_bound_comb<'data, T>(&mut self, bound: usize, input: &'data [T]) -> (out: Vec<
        &'data T,
    >)
        requires
            old(self)@.wf(),
            input.len() >= 1,
            fits(
                old(self)@.step_gen(bound),
                old(self)@.next_val() as nat,
                (input.len() - 1) as usize,
            ),
        ensures
            ({
                let k = old(self)@.next_val();
                let run = elts_run(
                    old(self)@.step_gen(bound),
                    k as nat,
                    (input.len() - 1) as usize,
                );
                &&& out@.len() == k
                &&& final(self)@ == run.0
                &&& forall|j: int| 0 <= j < k ==> #[trigger] run.1[j] < input@.len()
                &&& forall|j: int|
                    0 <= j < k ==> *(#[trigger] out@[j]) == input@[run.1[j] as int]
                &&& final(self)@.wf()
            }),
    {
        let fixed = self.gen(bound);
        self.gen_fixed_comb(fixed, input)
    }

    /// Generates a variable-size combination (eventually every combination)
    /// of elements selected from `input`, up to the size of `input`: the same
    /// as [`Gen::gen_bound_comb`] with the bound defaulted to the input's
    /// length.
    pub fn gen_comb<'data, T>(&mut self, input: &'data [T]) -> (out: Vec<&'data T>)
        requires
            old(self)@.wf(),
            input.len() >= 1,
            fits(
                old(self)@.step_gen(input.len()),
                old(self)@.next_val() as nat,
                (input.len() - 1) as usize,
            ),
        ensures
            ({
                let k = old(self)@.next_val();
                let run = elts_run(
                    old(self)@.step_gen(input.len()),
                    k as nat,
                    (input.len() - 1) as usize,
                );
                &&& out@.len() == k
                &&& final(self)@ == run.0
                &&& forall|j: int| 0 <= j < k ==> #[trigger] run.1[j] < input@.len()
                &&& forall|j: int|
                    0 <= j < k ==> *(#[trigger] out@[j]) == input@[run.1[j] as int]
                &&& final(self)@.wf()
            }),
    {
        let bound = input.len();
        self.gen_bound_comb(bound, input)
    }

    /// Generates a subset (eventually every subset) of `input`: one
    /// [`Gen::flip`] call per element, in order, decides inclusion, so the
    /// `2^n` inclusion patterns are enumerated.
    pub fn gen_subset<'data, T>(&mut self, input: &'data [T]) -> (out: Vec<&'data T>)
        requires
            old(self)@.wf(),
        ensures
            ({
                let run = flips_run(old(self)@, input@.len() as nat);
                &&& final(self)@ == run.0
                &&& out@.map_values(|r: &T| *r) == mask_select(input@, run.1)
                &&& final(self)@.wf()
            }),
    {
        let ghost m0 = self@;
        let n = input.len();
        let mut out: Vec<&T> = Vec::new();
        let mut t: usize = 0;
        while t < n
            invariant
                self@.wf(),
                t <= n,
                n == input@.len(),
                self@ == flips_run(m0, t as nat).0,
                flips_run(m0, t as nat).1.len() == t,
                out@.map_values(|r: &T| *r) == mask_select(
                    input@.take(t as int),
                    flips_run(m0, t as nat).1,
                ),
            decreases n - t,
        {
            let ghost mask_t = flips_run(m0, t as nat).1;
            let ghost elems = out@.map_values(|r: &T| *r);
            let b = self.flip();
            if b {
                out.push(&input[t]);
            }
            t = t + 1;
            proof {
                let mask = flips_run(m0, t as nat).1;
                let s = input@.take(t as int);
                assert(mask == mask_t.push(b));
                assert(s.drop_last() =~= input@.take(t - 1));
                assert(mask.drop_last() =~= mask_t);
                assert(s.last() == input@[t - 1]);
                if b {
                    assert(out@.map_values(|r: &T| *r) =~= elems.push(input@[t - 1]));
                }
                assert(out@.map_values(|r: &T| *r) == mask_select(s, mask));
            }
        }
        proof {
            assert(input@.take(n as int) =~= input@);
        }
        out
    }

    /// Generates a permutation (eventually every permutation) of `input`: a
    /// sequence holding exactly the elements of `input`, each once, in some
    /// (eventually every) order.  At each step one of the positions still
    /// available is generated and removed, so `n!` orderings are enumerated.
    /// Frames left over from the previous run must hold values below the
    /// count of positions that will still be available (see [`perm_fits`]),
    /// as a stable replay guarantees.
    pub fn gen_perm<'data, T>(&mut self, input: &'data [T]) -> (out: Vec<&'data T>)
        requires
            old(self)@.wf(),
            perm_fits(old(self)@, input.len() as nat),
        ensures
            ({
                let run = perm_run(old(self)@, index_seq(input.len() as nat), input.len() as nat);
                &&& out@.len() == input.len()
                &&& final(self)@ == run.0
                &&& forall|j: int| 0 <= j < input.len() ==> #[trigger] run.1[j] < input@.len()
                &&& forall|j: int|
                    0 <= j < input.len() ==> *(#[trigger] out@[j]) == input@[run.1[j] as int]
                &&& out@.map_values(|r: &T| *r).to_multiset() == input@.to_multiset()
                &&& final(self)@.wf()
            }),
    {
        broadcast use group_to_multiset_ensures, vstd::multiset::group_multiset_axioms;

        let ghost m0 = self@;
        let n = input.len();
        let ghost iseq = index_seq(n as nat);
        let mut idxs: Vec<usize> = Vec::new();
        let mut t: usize = 0;
        while t < n
            invariant
                t <= n,
                idxs@.len() == t,
                forall|i: int| 0 <= i < t ==> #[trigger] idxs@[i] == i,
            decreases n - t,
        {
            idxs.push(t);
            t = t + 1;
        }
        let mut out: Vec<&T> = Vec::new();
        proof {
            assert(idxs@ =~= iseq);
            assert(idxs@.map_values(|u: usize| input@[u as int]) =~= input@);
            assert(out@.map_values(|r: &T| *r) =~= Seq::<T>::empty());
            assert(input@.to_multiset().add(Seq::<T>::empty().to_multiset())
                =~= input@.to_multiset());
        }
        let mut t: usize = 0;
        while t < n
            invariant
                self@.wf(),
                m0.wf(),
                t <= n,
                n == input@.len(),
                perm_fits(m0, n as nat),
                out@.len() == t,
                idxs@.len() == n - t,
                self@ == perm_run(m0, iseq, t as nat).0,
                idxs@ == perm_run(m0, iseq, t as nat).2,
                self@.cursor == m0.cursor + t,
                self@.frames.len() == if m0.cursor + t > m0.frames.len() {
                    m0.cursor + t
                } else {
                    m0.frames.len() as int
                },
                forall|i: int|
                    0 <= i < self@.frames.len() ==> (#[trigger] self@.frames[i]).0 == (if i
                        < m0.frames.len() {
                        m0.frames[i].0
                    } else {
                        0usize
                    }),
                perm_run(m0, iseq, t as nat).1.len() == t,
                forall|j: int| 0 <= j < t ==> #[trigger] perm_run(m0, iseq, t as nat).1[j] < n,
                forall|j: int|
                    0 <= j < t ==> *(#[trigger] out@[j]) == input@[perm_run(
                        m0,
                        iseq,
                        t as nat,
                    ).1[j] as int],
                forall|i: int| 0 <= i < idxs@.len() ==> #[trigger] idxs@[i] < n,
                idxs@.map_values(|u: usize| input@[u as int]).to_multiset().add(
                    out@.map_values(|r: &T| *r).to_multiset(),
                ) == input@.to_multiset(),
            decreases n - t,
        {
            let ghost pre = self@;
            let ghost idxs_pre = idxs@;
            let ghost elems_pre = out@.map_values(|r: &T| *r);
            proof {
                if pre.cursor < pre.frames.len() && m0.cursor + t < m0.frames.len() {
                    assert((#[trigger] m0.frames[m0.cursor + t]).0 + t < n);
                }
                assert(pre.next_val() < n - t);
            }
            let j = self.gen(idxs.len() - 1);
            let idx = idxs.remove(j);
            out.push(&input[idx]);
            t = t + 1;
            proof {
                let run = perm_run(m0, iseq, t as nat);
                assert(run.1 == perm_run(m0, iseq, (t - 1) as nat).1.push(idx));
                assert forall|i: int|
                    0 <= i < self@.frames.len() implies (#[trigger] self@.frames[i]).0 == (if i
                    < m0.frames.len() {
                    m0.frames[i].0
                } else {
                    0usize
                }) by {
                    if pre.cursor == pre.frames.len() {
                        assert(self@.frames == pre.frames.push((0usize, (idxs_pre.len()
                            - 1) as usize)));
                    } else {
                        assert(self@.frames == pre.frames.update(
                            pre.cursor,
                            (pre.frames[pre.cursor].0, (idxs_pre.len() - 1) as usize),
                        ));
                    }
                }
                let to_elem = |u: usize| input@[u as int];
                let deref = |r: &T| *r;
                let e = input@[idx as int];
                let mapped_pre = idxs_pre.map_values(to_elem);
                let mapped = idxs@.map_values(to_elem);
                assert(mapped =~= mapped_pre.remove(j as int));
                assert(mapped_pre[j as int] == e);
                assert(mapped_pre.contains(e)) by {
                    assert(0 <= j < mapped_pre.len() && mapped_pre[j as int] == e);
                }
                mapped_pre.to_multiset_ensures();
                assert(mapped_pre.to_multiset().count(e) > 0);
                vstd::seq_lib::to_multiset_remove(mapped_pre, j as int);
                assert(mapped.to_multiset() =~= mapped_pre.to_multiset().remove(e));
                assert(out@.map_values(deref) =~= elems_pre.push(e));
                vstd::seq_lib::to_multiset_build(elems_pre, e);
                assert(out@.map_values(deref).to_multiset() =~= elems_pre.to_multiset().insert(e));
                assert(mapped.to_multiset().add(out@.map_values(deref).to_multiset())
                    =~= mapped_pre.to_multiset().add(elems_pre.to_multiset()));
            }
        }
        proof {
            assert(idxs@.map_values(|u: usize| input@[u as int]) =~= Seq::<T>::empty());
            assert(Seq::<T>::empty().to_multiset().add(out@.map_values(|r: &T| *r).to_multiset())
                =~= out@.map_values(|r: &T| *r).to_multiset());
        }
        out
    }
}

} // verus!
