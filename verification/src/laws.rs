//! Laws of the enumerator, stated over the model and proved once and for all.

use crate::combinators::{elts_run, flips_run, lemma_elts_run_frames, perm_run};
use crate::model::{lemma_live_frame_bounds, lemma_live_frame_none, live_frame, GenView};
use vstd::arithmetic::power::pow;
use vstd::arithmetic::power2::pow2;
use vstd::prelude::*;

verus! {

/// One call against the enumerator, at the level of the model.  The
/// primitives are listed directly; every combinator reduces to a sequence of
/// them, so a law over sequences of these operations covers the whole
/// surface.
pub ghost enum Op {
    Done,
    Gen(usize),
    Flip,
}

/// The state an operation leaves the enumerator in.
pub open spec fn op_state(m: GenView, op: Op) -> GenView {
    match op {
        Op::Done => m.step_done(),
        Op::Gen(bound) => m.step_gen(bound),
        Op::Flip => m.step_gen(1),
    }
}

/// The value an operation hands back, encoded as an integer: `done` and
/// `flip` report 1 for `true` and 0 for `false`.
pub open spec fn op_value(m: GenView, op: Op) -> usize {
    match op {
        Op::Done => if m.is_done() {
            1usize
        } else {
            0usize
        },
        Op::Gen(_) => m.next_val(),
        Op::Flip => if m.next_val() == 1 {
            1usize
        } else {
            0usize
        },
    }
}

/// The values handed back over a whole sequence of calls from state `m`.
pub open spec fn replay(m: GenView, ops: Seq<Op>) -> Seq<usize>
    decreases ops.len(),
{
    if ops.len() == 0 {
        Seq::empty()
    } else {
        seq![op_value(m, ops[0])] + replay(op_state(m, ops[0]), ops.skip(1))
    }
}

/// Determinism.  The contracts of `done`, `gen` and `flip` pin the result of
/// each call, and the state it leaves behind, to `op_value` and `op_state` of
/// the state before it — functions of that state alone, with no external
/// entropy.  So two enumerators in equal states fed an identical call
/// sequence hand back identical values at every step; in particular two
/// freshly constructed ones replay identically.
pub proof fn lemma_replay_deterministic(m1: GenView, m2: GenView, ops: Seq<Op>)
    requires
        m1 == m2,
    ensures
        replay(m1, ops) == replay(m2, ops),
{
}

/// Strict lexicographic order on the values two frame sequences record: they
/// agree at every position before one at which the first holds the smaller
/// value.
pub open spec fn lex_below(a: Seq<(usize, usize)>, b: Seq<(usize, usize)>) -> bool {
    exists|i: int|
        0 <= i < a.len() && i < b.len() && (#[trigger] a[i]).0 < b[i].0 && (forall|j: int|
            0 <= j < i ==> a[j].0 == b[j].0)
}

/// Between runs the odometer only moves forward: a non-terminal `done` call
/// on a started enumerator leaves the recorded values strictly above the
/// previous ones in lexicographic order.  Values never come back, so a body
/// that requests its choices in a stable order never sees the same choices —
/// and never produces the same run — twice.
pub proof fn lemma_done_advances(m: GenView)
    requires
        m.started,
        !m.is_done(),
    ensures
        lex_below(m.frames, m.step_done().frames),
{
    let i = live_frame(m.frames);
    lemma_live_frame_bounds(m.frames);
    let nf = m.step_done().frames;
    assert(nf[i].0 == m.frames[i].0 + 1);
    assert(0 <= i < m.frames.len() && i < nf.len() && m.frames[i].0 < nf[i].0 && (forall|j: int|
        0 <= j < i ==> m.frames[j].0 == nf[j].0));
}

/// A fresh enumerator's first `done` call reports not-terminal, and the state
/// it leaves behind records no frames yet: the first run makes its choices
/// from scratch.
pub proof fn lemma_first_done(m: GenView)
    requires
        m == GenView::init(),
    ensures
        !m.is_done(),
        m.step_done().frames == Seq::<(usize, usize)>::empty(),
        m.step_done().started,
{
}

/// The state after one `gen` call per entry of `bs`, in order: the shape of
/// a run whose bounds are fixed in advance, as in the subset, fixed-size
/// combination and permutation combinators.
pub open spec fn bounds_run_state(m: GenView, bs: Seq<usize>) -> GenView
    decreases bs.len(),
{
    if bs.len() == 0 {
        m
    } else {
        bounds_run_state(m, bs.drop_last()).step_gen(bs.last())
    }
}

/// A state as a run with bounds `bs` leaves it: started, one frame per
/// bound, each within its bound and holding the bound the run requested.
pub open spec fn full_for(m: GenView, bs: Seq<usize>) -> bool {
    &&& m.started
    &&& m.frames.len() == bs.len()
    &&& forall|i: int|
        0 <= i < bs.len() ==> (#[trigger] m.frames[i]).0 <= bs[i] && m.frames[i].1 == bs[i]
}

/// The values a state's frames record, one per frame.
pub open spec fn frame_values(m: GenView) -> Seq<usize> {
    m.frames.map_values(|f: (usize, usize)| f.0)
}

/// A value vector read as a mixed-radix number whose digit at each position
/// ranges over `0 ..= bs[i]`, rightmost digit least significant: the position
/// of the run that recorded it in the enumeration order.
pub open spec fn rank(vs: Seq<usize>, bs: Seq<usize>) -> int
    decreases vs.len(),
{
    if vs.len() == 0 {
        0
    } else {
        rank(vs.drop_last(), bs.drop_last()) * (bs.last() + 1) + vs.last()
    }
}

/// The number of value vectors within `bs`: the product of `b + 1` over the
/// bounds.
pub open spec fn span(bs: Seq<usize>) -> int
    decreases bs.len(),
{
    if bs.len() == 0 {
        1
    } else {
        span(bs.drop_last()) * (bs.last() + 1)
    }
}

/// A value vector within its bounds, with every digit after position `i`
/// saturated, stepped forward: the digit at `i` advances and everything
/// after it returns to 0 — as `done` and the following run rewrite the path.
pub open spec fn succ_values(vs: Seq<usize>, i: int) -> Seq<usize> {
    Seq::new(
        vs.len(),
        |j: int|
            if j < i {
                vs[j]
            } else if j == i {
                (vs[i] + 1) as usize
            } else {
                0usize
            },
    )
}

/// `rank` is a bijection-grade numbering: every vector within `bs` ranks
/// below `span(bs)`, and the all-saturated vector is the one ranked last.
pub proof fn lemma_rank_range(vs: Seq<usize>, bs: Seq<usize>)
    requires
        vs.len() == bs.len(),
        forall|i: int| 0 <= i < vs.len() ==> #[trigger] vs[i] <= bs[i],
    ensures
        0 <= rank(vs, bs) < span(bs),
        (rank(vs, bs) == span(bs) - 1) <==> (forall|i: int|
            0 <= i < vs.len() ==> #[trigger] vs[i] == bs[i]),
    decreases vs.len(),
{
    if vs.len() > 0 {
        assert(forall|i: int| 0 <= i < vs.len() - 1 ==> #[trigger] vs.drop_last()[i] == vs[i]);
        assert(forall|i: int| 0 <= i < bs.len() - 1 ==> #[trigger] bs.drop_last()[i] == bs[i]);
        lemma_rank_range(vs.drop_last(), bs.drop_last());
        let r = rank(vs.drop_last(), bs.drop_last());
        let s = span(bs.drop_last());
        let b = bs.last() as int;
        let v = vs.last() as int;
        assert(r * (b + 1) + v < s * (b + 1)) by (nonlinear_arith)
            requires
                0 <= r < s,
                0 <= v <= b,
        ;
        assert(r * (b + 1) + v >= 0) by (nonlinear_arith)
            requires
                r >= 0,
                v >= 0,
                b >= 0,
        ;
        assert((r * (b + 1) + v == s * (b + 1) - 1) <==> (r == s - 1 && v == b))
            by (nonlinear_arith)
            requires
                0 <= r < s,
                0 <= v <= b,
        ;
        if rank(vs, bs) == span(bs) - 1 {
            assert forall|i: int| 0 <= i < vs.len() implies #[trigger] vs[i] == bs[i] by {
                if i < vs.len() - 1 {
                    assert(vs.drop_last()[i] == vs[i]);
                    assert(bs.drop_last()[i] == bs[i]);
                }
            }
        }
        if forall|i: int| 0 <= i < vs.len() ==> #[trigger] vs[i] == bs[i] {
            assert forall|i: int|
                0 <= i < vs.drop_last().len() implies #[trigger] vs.drop_last()[i]
                == bs.drop_last()[i] by {
                assert(vs[i] == bs[i]);
            }
            assert(rank(vs.drop_last(), bs.drop_last()) == span(bs.drop_last()) - 1);
        }
    }
}

/// Distinct vectors within the bounds rank differently.  Together with the
/// enumeration lemmas below this closes the exactly-once argument: a full
/// enumeration passes through ranks `0, 1, ..., span(bs) - 1` one by one, and
/// since every vector within the bounds ranks in that range and no two share
/// a rank, every one of them is recorded exactly once.
pub proof fn lemma_rank_injective(vs1: Seq<usize>, vs2: Seq<usize>, bs: Seq<usize>)
    requires
        vs1.len() == bs.len(),
        vs2.len() == bs.len(),
        forall|i: int| 0 <= i < bs.len() ==> #[trigger] vs1[i] <= bs[i],
        forall|i: int| 0 <= i < bs.len() ==> #[trigger] vs2[i] <= bs[i],
        rank(vs1, bs) == rank(vs2, bs),
    ensures
        vs1 == vs2,
    decreases bs.len(),
{
    if bs.len() == 0 {
        assert(vs1 =~= vs2);
    } else {
        assert(forall|i: int| 0 <= i < vs1.len() - 1 ==> #[trigger] vs1.drop_last()[i] == vs1[i]);
        assert(forall|i: int| 0 <= i < vs2.len() - 1 ==> #[trigger] vs2.drop_last()[i] == vs2[i]);
        assert(forall|i: int| 0 <= i < bs.len() - 1 ==> #[trigger] bs.drop_last()[i] == bs[i]);
        lemma_rank_range(vs1.drop_last(), bs.drop_last());
        lemma_rank_range(vs2.drop_last(), bs.drop_last());
        let r1 = rank(vs1.drop_last(), bs.drop_last());
        let r2 = rank(vs2.drop_last(), bs.drop_last());
        let b = bs.last() as int;
        let v1 = vs1.last() as int;
        let v2 = vs2.last() as int;
        assert((r1 == r2 && v1 == v2)) by (nonlinear_arith)
            requires
                r1 * (b + 1) + v1 == r2 * (b + 1) + v2,
                0 <= v1 <= b,
                0 <= v2 <= b,
        ;
        lemma_rank_injective(vs1.drop_last(), vs2.drop_last(), bs.drop_last());
        assert forall|i: int| 0 <= i < vs1.len() implies vs1[i] == vs2[i] by {
            if i < vs1.len() - 1 {
                assert(vs1.drop_last()[i] == vs2.drop_last()[i]);
            }
        }
        assert(vs1 =~= vs2);
    }
}

/// Stepping a vector forward advances its rank by exactly one.
pub proof fn lemma_succ_rank(vs: Seq<usize>, bs: Seq<usize>, i: int)
    requires
        vs.len() == bs.len(),
        forall|j: int| 0 <= j < vs.len() ==> #[trigger] vs[j] <= bs[j],
        0 <= i < vs.len(),
        vs[i] < bs[i],
        forall|j: int| i < j < vs.len() ==> #[trigger] vs[j] == bs[j],
    ensures
        rank(succ_values(vs, i), bs) == rank(vs, bs) + 1,
        forall|j: int| 0 <= j < vs.len() ==> #[trigger] succ_values(vs, i)[j] <= bs[j],
    decreases vs.len(),
{
    let sv = succ_values(vs, i);
    if i == vs.len() - 1 {
        assert(sv.drop_last() =~= vs.drop_last());
        assert(sv.last() == vs.last() + 1);
    } else {
        assert(forall|j: int| 0 <= j < vs.len() - 1 ==> #[trigger] vs.drop_last()[j] == vs[j]);
        assert(forall|j: int| 0 <= j < bs.len() - 1 ==> #[trigger] bs.drop_last()[j] == bs[j]);
        lemma_succ_rank(vs.drop_last(), bs.drop_last(), i);
        assert(sv.drop_last() =~= succ_values(vs.drop_last(), i));
        assert(sv.last() == 0);
        assert(vs.last() == bs.last());
        let r = rank(vs.drop_last(), bs.drop_last());
        let b = bs.last() as int;
        assert((r + 1) * (b + 1) == r * (b + 1) + b + 1) by (nonlinear_arith);
    }
}

/// How a run with bounds `bs` relates to the state it started from: the
/// cursor advances one frame per call, the values of revisited frames are
/// untouched, fresh frames open at value 0, and each frame the run touches
/// records the bound requested for its position.
pub proof fn lemma_bounds_run_frames(m: GenView, bs: Seq<usize>)
    requires
        m.wf(),
    ensures
        ({
            let r = bounds_run_state(m, bs);
            &&& r.wf()
            &&& r.started == m.started
            &&& r.cursor == m.cursor + bs.len()
            &&& r.frames.len() == if m.cursor + bs.len() > m.frames.len() {
                m.cursor + bs.len()
            } else {
                m.frames.len() as int
            }
            &&& forall|i: int|
                0 <= i < r.frames.len() ==> (#[trigger] r.frames[i]).0 == (if i
                    < m.frames.len() {
                    m.frames[i].0
                } else {
                    0usize
                })
            &&& forall|i: int|
                m.cursor <= i < m.cursor + bs.len() ==> (#[trigger] r.frames[i]).1 == bs[i
                    - m.cursor]
            &&& forall|i: int|
                0 <= i < r.frames.len() && !(m.cursor <= i < m.cursor + bs.len()) ==> (
                #[trigger] r.frames[i]).1 == m.frames[i].1
        }),
    decreases bs.len(),
{
    if bs.len() > 0 {
        lemma_bounds_run_frames(m, bs.drop_last());
        let prev = bounds_run_state(m, bs.drop_last());
        let r = bounds_run_state(m, bs);
        assert(r == prev.step_gen(bs.last()));
        assert(forall|i: int| 0 <= i < bs.len() - 1 ==> #[trigger] bs.drop_last()[i] == bs[i]);
        if prev.cursor == prev.frames.len() {
            assert(r.frames == prev.frames.push((0usize, bs.last())));
        } else {
            assert(r.frames == prev.frames.update(
                prev.cursor,
                (prev.frames[prev.cursor].0, bs.last()),
            ));
        }
    }
}

/// The digits of a freshly recorded path are all zero, and a vector of
/// zeroes is the one ranked first.
pub proof fn lemma_rank_zero(vs: Seq<usize>, bs: Seq<usize>)
    requires
        vs.len() == bs.len(),
        forall|i: int| 0 <= i < vs.len() ==> #[trigger] vs[i] == 0,
    ensures
        rank(vs, bs) == 0,
    decreases vs.len(),
{
    if vs.len() > 0 {
        assert(forall|i: int| 0 <= i < vs.len() - 1 ==> #[trigger] vs.drop_last()[i] == vs[i]);
        lemma_rank_zero(vs.drop_last(), bs.drop_last());
    }
}

/// The first run of a body with fixed bounds `bs`, against a fresh
/// enumerator, records one frame per bound, all at value 0: the state ranked
/// 0 in the enumeration order.
pub proof fn lemma_enumeration_first(bs: Seq<usize>)
    ensures
        ({
            let m1 = bounds_run_state(GenView::init().step_done(), bs);
            &&& full_for(m1, bs)
            &&& rank(frame_values(m1), bs) == 0
        }),
{
    let m0 = GenView::init().step_done();
    lemma_bounds_run_frames(m0, bs);
    let m1 = bounds_run_state(m0, bs);
    assert(forall|i: int| 0 <= i < bs.len() ==> #[trigger] frame_values(m1)[i] == 0);
    lemma_rank_zero(frame_values(m1), bs);
}

/// One `done` call on a full, non-terminal state, followed by a run with the
/// same bounds, leaves the full state whose value vector is the old one
/// stepped forward: its rank is exactly one higher.  Each loop iteration
/// after the first therefore advances the rank by 1.
pub proof fn lemma_enumeration_step(m: GenView, bs: Seq<usize>)
    requires
        full_for(m, bs),
        !m.is_done(),
    ensures
        ({
            let m2 = bounds_run_state(m.step_done(), bs);
            &&& full_for(m2, bs)
            &&& frame_values(m2) == succ_values(frame_values(m), live_frame(m.frames))
            &&& rank(frame_values(m2), bs) == rank(frame_values(m), bs) + 1
        }),
{
    let i = live_frame(m.frames);
    lemma_live_frame_bounds(m.frames);
    let md = m.step_done();
    assert(md.frames.len() == i + 1);
    lemma_bounds_run_frames(md, bs);
    let m2 = bounds_run_state(md, bs);
    let vs = frame_values(m);
    assert(frame_values(m2) =~= succ_values(vs, i));
    assert forall|j: int| i < j < vs.len() implies #[trigger] vs[j] == bs[j] by {
        assert(m.frames[j].0 >= m.frames[j].1);
    }
    lemma_succ_rank(vs, bs, i);
}

/// Where the enumeration of a body with fixed bounds `bs` stands and ends:
/// every full state ranks within `0 ..= span(bs) - 1`, and `done` reports
/// terminal exactly at the last rank.  With [`lemma_enumeration_first`] and
/// [`lemma_enumeration_step`] this counts the runs of a `while !done()` loop
/// over such a body: ranks start at 0, advance by exactly 1 per run, and stop
/// at `span(bs) - 1`, so the loop performs exactly `span(bs)` runs — `2^n`
/// for a subset run over `n` elements (`n` bounds of 1), `l^k` for a
/// fixed-size combination over `l` elements (`k` bounds of `l - 1`), and
/// `n!` for a permutation of `n` elements (bounds `n - 1` down to `0`).
pub proof fn lemma_enumeration_last(m: GenView, bs: Seq<usize>)
    requires
        full_for(m, bs),
    ensures
        0 <= rank(frame_values(m), bs) < span(bs),
        m.is_done() <==> rank(frame_values(m), bs) == span(bs) - 1,
{
    let vs = frame_values(m);
    lemma_rank_range(vs, bs);
    lemma_live_frame_none(m.frames);
    if m.is_done() {
        assert forall|i: int| 0 <= i < vs.len() implies #[trigger] vs[i] == bs[i] by {
            assert(m.frames[i].0 >= m.frames[i].1);
            assert(m.frames[i].1 == bs[i]);
            assert(vs[i] == m.frames[i].0);
        }
    }
    if rank(vs, bs) == span(bs) - 1 {
        assert forall|i: int| 0 <= i < m.frames.len() implies (#[trigger] m.frames[i]).0
            >= m.frames[i].1 by {
            assert(vs[i] == bs[i]);
            assert(vs[i] == m.frames[i].0);
            assert(m.frames[i].1 == bs[i]);
        }
        assert(live_frame(m.frames) == -1);
    }
}

/// The bound vector with `k` entries of `b`: the shape of a subset run
/// (`b = 1`) and of a fixed-size combination run (`b` one below the input's
/// length).
pub open spec fn const_seq(b: usize, k: nat) -> Seq<usize> {
    Seq::new(k, |j: int| b)
}

/// The bounds a permutation run over `n` elements requests: `n - 1` down to
/// `n - k`, one less remaining position at each step.
pub open spec fn desc_seq(n: nat, k: nat) -> Seq<usize> {
    Seq::new(k, |j: int| (n - 1 - j) as usize)
}

/// A run of `k` flips is a run with `k` bounds of 1.
pub proof fn lemma_flips_run_state(m: GenView, k: nat)
    ensures
        flips_run(m, k).0 == bounds_run_state(m, const_seq(1, k)),
    decreases k,
{
    if k > 0 {
        lemma_flips_run_state(m, (k - 1) as nat);
        assert(const_seq(1, k).drop_last() =~= const_seq(1, (k - 1) as nat));
        assert(const_seq(1, k).last() == 1);
    }
}

/// The flip outcomes of a run are the values its frames held going in: a
/// revisited frame flips `true` exactly where `done` steered it to 1, a fresh
/// one flips `false`.
pub proof fn lemma_flips_run_values(m: GenView, k: nat)
    requires
        m.wf(),
    ensures
        flips_run(m, k).1.len() == k,
        forall|j: int|
            0 <= j < k ==> #[trigger] flips_run(m, k).1[j] == ((if m.cursor + j
                < m.frames.len() {
                m.frames[m.cursor + j].0
            } else {
                0usize
            }) == 1),
    decreases k,
{
    if k > 0 {
        lemma_flips_run_values(m, (k - 1) as nat);
        lemma_flips_run_state(m, (k - 1) as nat);
        lemma_bounds_run_frames(m, const_seq(1, (k - 1) as nat));
        let prev = flips_run(m, (k - 1) as nat);
        assert forall|j: int| 0 <= j < k implies #[trigger] flips_run(m, k).1[j] == ((if m.cursor
            + j < m.frames.len() {
            m.frames[m.cursor + j].0
        } else {
            0usize
        }) == 1) by {
            if j < k - 1 {
                assert(flips_run(m, k).1[j] == prev.1[j]);
            } else {
                assert(flips_run(m, k).1[j] == (prev.0.next_val() == 1));
                assert(prev.0.cursor == m.cursor + j);
                if prev.0.cursor < prev.0.frames.len() {
                    assert((#[trigger] prev.0.frames[prev.0.cursor]).0 == (if prev.0.cursor
                        < m.frames.len() {
                        m.frames[prev.0.cursor].0
                    } else {
                        0usize
                    }));
                }
            }
        }
    }
}

/// The inclusion mask a subset run uses can be read off the path it leaves:
/// a position is included exactly where the recorded value is 1.  Full
/// subset-run states hold one 0-or-1 value per element, the rank walk visits
/// every such vector exactly once, and [`lemma_subset_span`] counts them, so
/// a full enumeration produces each of the `2^n` inclusion patterns exactly
/// once.
pub proof fn lemma_subset_run_output(m: GenView, k: nat)
    requires
        m.wf(),
        m.cursor == 0,
        m.frames.len() <= k,
    ensures
        forall|j: int|
            0 <= j < k ==> #[trigger] flips_run(m, k).1[j] == (flips_run(m, k).0.frames[j].0
                == 1),
{
    lemma_flips_run_values(m, k);
    lemma_flips_run_state(m, k);
    lemma_bounds_run_frames(m, const_seq(1, k));
}

/// A run of `k` calls of `gen(b)` is a run with `k` bounds of `b`.
pub proof fn lemma_elts_run_state(m: GenView, k: nat, b: usize)
    ensures
        elts_run(m, k, b).0 == bounds_run_state(m, const_seq(b, k)),
    decreases k,
{
    if k > 0 {
        lemma_elts_run_state(m, (k - 1) as nat, b);
        assert(const_seq(b, k).drop_last() =~= const_seq(b, (k - 1) as nat));
        assert(const_seq(b, k).last() == b);
    }
}

/// A permutation run's `k` removal steps are a run with the descending
/// bounds, one below the count of positions still available at each step.
/// The starting state must fit the run, as [`crate::Gen::gen_perm`] requires.
pub proof fn lemma_perm_run_state(m: GenView, avail: Seq<usize>, k: nat)
    requires
        m.wf(),
        crate::combinators::perm_fits(m, avail.len()),
        k <= avail.len(),
    ensures
        perm_run(m, avail, k).0 == bounds_run_state(m, desc_seq(avail.len(), k)),
        perm_run(m, avail, k).2.len() == avail.len() - k,
    decreases k,
{
    let n = avail.len();
    if k > 0 {
        lemma_perm_run_state(m, avail, (k - 1) as nat);
        assert(desc_seq(n, k).drop_last() =~= desc_seq(n, (k - 1) as nat));
        assert(desc_seq(n, k).last() == (n - k) as usize);
        let prev = perm_run(m, avail, (k - 1) as nat);
        lemma_bounds_run_frames(m, desc_seq(n, (k - 1) as nat));
        let j = prev.0.next_val();
        assert(j < prev.2.len()) by {
            if prev.0.cursor < prev.0.frames.len() && m.cursor + (k - 1) < m.frames.len() {
                assert((#[trigger] m.frames[m.cursor + (k - 1)]).0 + (k - 1) < n);
            }
        }
        assert(prev.2.remove(j as int).len() == n - k);
    }
}

/// `k` equal bounds `b` span `(b + 1)^k` runs.
pub proof fn lemma_span_const(b: usize, k: nat)
    ensures
        span(const_seq(b, k)) == pow(b + 1, k),
    decreases k,
{
    reveal(pow);
    if k > 0 {
        lemma_span_const(b, (k - 1) as nat);
        assert(const_seq(b, k).drop_last() =~= const_seq(b, (k - 1) as nat));
        let s = span(const_seq(b, (k - 1) as nat));
        assert(s * (b + 1) == (b + 1) * s) by (nonlinear_arith);
    }
}

/// A subset run over `n` elements requests `n` bounds of 1, so its
/// enumeration spans exactly `2^n` runs.
pub proof fn lemma_subset_span(n: nat)
    ensures
        span(const_seq(1, n)) == pow2(n),
{
    lemma_span_const(1, n);
    vstd::arithmetic::power::lemma_pow_positive(2, n);
}

/// The product of the first naturals.
pub open spec fn factorial(n: nat) -> int
    decreases n,
{
    if n == 0 {
        1
    } else {
        n * factorial((n - 1) as nat)
    }
}

/// The descending bounds `n - 1` down to `n - k` span `n! / (n - k)!` runs.
pub proof fn lemma_span_desc(n: nat, k: nat)
    requires
        k <= n,
        n <= usize::MAX,
    ensures
        span(desc_seq(n, k)) * factorial((n - k) as nat) == factorial(n),
    decreases k,
{
    if k > 0 {
        lemma_span_desc(n, (k - 1) as nat);
        assert(desc_seq(n, k).drop_last() =~= desc_seq(n, (k - 1) as nat));
        assert(desc_seq(n, k).last() == (n - k) as usize);
        let s = span(desc_seq(n, (k - 1) as nat));
        let f = factorial((n - k) as nat);
        let w = n - k + 1;
        assert(factorial((n - k + 1) as nat) == w * f);
        assert(s * (w * f) == (s * w) * f) by (nonlinear_arith);
    }
}

/// A permutation run over `n` elements requests bounds `n - 1` down to 0, so
/// its enumeration spans exactly `n!` runs.
pub proof fn lemma_perm_span(n: nat)
    requires
        n <= usize::MAX,
    ensures
        span(desc_seq(n, n)) == factorial(n),
{
    lemma_span_desc(n, n);
}

/// Runs with fixed bounds compose: a run over concatenated bounds is a run
/// over the first part followed by one over the second.
pub proof fn lemma_bounds_run_concat(m: GenView, bs1: Seq<usize>, bs2: Seq<usize>)
    ensures
        bounds_run_state(m, bs1 + bs2) == bounds_run_state(bounds_run_state(m, bs1), bs2),
    decreases bs2.len(),
{
    if bs2.len() == 0 {
        assert(bs1 + bs2 =~= bs1);
    } else {
        lemma_bounds_run_concat(m, bs1, bs2.drop_last());
        assert((bs1 + bs2).drop_last() =~= bs1 + bs2.drop_last());
        assert((bs1 + bs2).last() == bs2.last());
    }
}

/// Every bound vector spans at least one run.
pub proof fn lemma_span_pos(bs: Seq<usize>)
    ensures
        span(bs) >= 1,
    decreases bs.len(),
{
    if bs.len() > 0 {
        lemma_span_pos(bs.drop_last());
        let s = span(bs.drop_last());
        let b = bs.last() as int;
        assert(s * (b + 1) >= 1) by (nonlinear_arith)
            requires
                s >= 1,
                b >= 0,
        ;
    }
}

/// The bounds an adaptive-length run requests: one length choice below `lb`,
/// then one element choice below `eb` per position the length names.  This
/// is the shape of `gen_elts` and, with the input's length for `lb` and one
/// below it for `eb`, of the bounded combination combinators.
pub open spec fn elts_bounds(lb: usize, eb: usize, k: nat) -> Seq<usize> {
    seq![lb] + const_seq(eb, k)
}

/// The state an adaptive-length body leaves: it reads the length from the
/// frame under the cursor, then makes that many element choices.
pub open spec fn elts_body(m: GenView, lb: usize, eb: usize) -> GenView {
    bounds_run_state(m, elts_bounds(lb, eb, m.next_val() as nat))
}

/// A state as an adaptive-length run leaves it: a length frame within `lb`
/// at the front, and exactly as many element frames as it names, each within
/// `eb`.
pub open spec fn elts_full(m: GenView, lb: usize, eb: usize) -> bool {
    &&& m.started
    &&& m.frames.len() >= 1
    &&& m.frames.len() == m.frames[0].0 + 1
    &&& m.frames[0].0 <= lb
    &&& m.frames[0].1 == lb
    &&& forall|i: int|
        1 <= i < m.frames.len() ==> (#[trigger] m.frames[i]).0 <= eb && m.frames[i].1 == eb
}

/// The element values an adaptive-length state records, after the length
/// frame.
pub open spec fn elts_tail(m: GenView) -> Seq<usize> {
    frame_values(m).skip(1)
}

/// How many runs of an adaptive-length body with element bound `eb` are
/// shorter than `j`: the sum of `(eb + 1)^i` over `i < j`.
pub open spec fn geom(eb: usize, j: nat) -> int
    decreases j,
{
    if j == 0 {
        0
    } else {
        geom(eb, (j - 1) as nat) + span(const_seq(eb, (j - 1) as nat))
    }
}

/// Shorter length prefixes never count more runs.
pub proof fn lemma_geom_mono(eb: usize, j1: nat, j2: nat)
    requires
        j1 <= j2,
    ensures
        geom(eb, j1) <= geom(eb, j2),
    decreases j2,
{
    if j1 < j2 {
        lemma_geom_mono(eb, j1, (j2 - 1) as nat);
        lemma_span_pos(const_seq(eb, (j2 - 1) as nat));
    }
}

/// The position of an adaptive-length state in the enumeration order: every
/// shorter run comes first, then the element vector's mixed-radix rank.
pub open spec fn elts_rank(m: GenView, eb: usize) -> int {
    geom(eb, m.frames[0].0 as nat) + rank(elts_tail(m), const_seq(eb, m.frames[0].0 as nat))
}

/// The adaptive-length body is what `gen_elts` performs: one length choice,
/// then that many element choices.
pub proof fn lemma_elts_body_state(m: GenView, lb: usize, eb: usize)
    ensures
        elts_body(m, lb, eb) == elts_run(m.step_gen(lb), m.next_val() as nat, eb).0,
{
    let k = m.next_val() as nat;
    lemma_bounds_run_concat(m, seq![lb], const_seq(eb, k));
    assert(seq![lb].drop_last() =~= Seq::<usize>::empty());
    assert(seq![lb].len() == 1 && seq![lb].last() == lb);
    assert(bounds_run_state(m, Seq::<usize>::empty()) == m);
    assert(bounds_run_state(m, seq![lb]) == bounds_run_state(m, seq![lb].drop_last()).step_gen(
        lb,
    ));
    lemma_elts_run_state(m.step_gen(lb), k, eb);
}

/// The sequence an adaptive-length run produces is exactly the path it
/// records after the length frame.  With the rank walk below and
/// [`lemma_rank_injective`], a full enumeration therefore produces every
/// sequence of at most `lb` values of at most `eb` exactly once: runs and
/// recorded paths correspond one to one, and the paths walk every rank.
pub proof fn lemma_elts_run_output(m: GenView, lb: usize, eb: usize)
    requires
        m.wf(),
        m.cursor == 0,
        m.frames.len() <= m.next_val() + 1,
    ensures
        elts_run(m.step_gen(lb), m.next_val() as nat, eb).1 == elts_tail(elts_body(m, lb, eb)),
{
    let k = m.next_val() as nat;
    let m1 = m.step_gen(lb);
    lemma_elts_run_frames(m1, k, eb);
    lemma_elts_body_state(m, lb, eb);
    let m2 = elts_body(m, lb, eb);
    let out = elts_run(m1, k, eb).1;
    assert(m2.frames.len() == 1 + k);
    assert forall|j: int| 0 <= j < k implies out[j] == elts_tail(m2)[j] by {
        assert(elts_tail(m2)[j] == m2.frames[1 + j].0);
    }
    assert(out =~= elts_tail(m2));
}

/// The first run of an adaptive-length body, against a fresh enumerator,
/// chooses length 0 and records the single state ranked 0.
pub proof fn lemma_elts_enumeration_first(lb: usize, eb: usize)
    ensures
        ({
            let m1 = elts_body(GenView::init().step_done(), lb, eb);
            &&& elts_full(m1, lb, eb)
            &&& elts_rank(m1, eb) == 0
        }),
{
    let m0 = GenView::init().step_done();
    assert(m0.next_val() == 0);
    lemma_bounds_run_frames(m0, elts_bounds(lb, eb, 0));
    let m1 = elts_body(m0, lb, eb);
    assert(elts_bounds(lb, eb, 0) =~= seq![lb]);
    assert(m1.frames.len() == 1);
    assert(m1.frames[0].0 == 0 && m1.frames[0].1 == lb);
    assert(elts_tail(m1) =~= Seq::<usize>::empty());
}

/// One `done` call on a full, non-terminal adaptive-length state, followed
/// by the body, leaves the full state ranked exactly one higher: either one
/// more element vector of the same length, or the first (all-zero) vector of
/// the next length up.
pub proof fn lemma_elts_enumeration_step(m: GenView, lb: usize, eb: usize)
    requires
        elts_full(m, lb, eb),
        !m.is_done(),
    ensures
        ({
            let m2 = elts_body(m.step_done(), lb, eb);
            &&& elts_full(m2, lb, eb)
            &&& elts_rank(m2, eb) == elts_rank(m, eb) + 1
        }),
{
    let k: int = m.frames[0].0 as int;
    let i = live_frame(m.frames);
    lemma_live_frame_bounds(m.frames);
    let md = m.step_done();
    assert(md.frames.len() == i + 1);
    let vs = elts_tail(m);
    assert(vs.len() == k);
    assert(forall|j: int| 0 <= j < k ==> #[trigger] vs[j] == m.frames[j + 1].0);
    if i == 0 {
        assert(k < lb);
        assert(md.frames[0] == ((k + 1) as usize, lb));
        assert(md.next_val() == (k + 1) as usize);
        let bs = elts_bounds(lb, eb, (k + 1) as nat);
        assert(bs.len() == k + 2);
        lemma_bounds_run_frames(md, bs);
        let m2 = elts_body(md, lb, eb);
        assert(m2.frames.len() == k + 2);
        assert(m2.frames[0].0 == k + 1 && m2.frames[0].1 == lb);
        assert forall|j: int| 1 <= j < m2.frames.len() implies (#[trigger] m2.frames[j]).0 <= eb
            && m2.frames[j].1 == eb by {
            assert(m2.frames[j].0 == 0);
            assert(bs[j] == eb);
        }
        let tail2 = elts_tail(m2);
        assert(tail2 =~= Seq::new((k + 1) as nat, |j: int| 0usize));
        lemma_rank_zero(tail2, const_seq(eb, (k + 1) as nat));
        assert forall|j: int| 0 <= j < k implies #[trigger] vs[j] == const_seq(eb, k as nat)[j] by {
            assert(m.frames[j + 1].0 >= m.frames[j + 1].1);
        }
        lemma_rank_range(vs, const_seq(eb, k as nat));
        assert(rank(vs, const_seq(eb, k as nat)) == span(const_seq(eb, k as nat)) - 1);
    } else {
        assert(md.frames[0] == m.frames[0]);
        assert(md.next_val() == k as usize);
        assert(i <= k);
        let bs = elts_bounds(lb, eb, k as nat);
        assert(bs.len() == k + 1);
        lemma_bounds_run_frames(md, bs);
        let m2 = elts_body(md, lb, eb);
        assert(m2.frames.len() == k + 1);
        assert(m2.frames[0].0 == k && m2.frames[0].1 == lb);
        assert forall|j: int| 1 <= j < m2.frames.len() implies (#[trigger] m2.frames[j]).0 <= eb
            && m2.frames[j].1 == eb by {
            assert(bs[j] == eb);
            if j < i {
                assert(m2.frames[j].0 == m.frames[j].0);
            } else if j == i {
                assert(m2.frames[j].0 == m.frames[i].0 + 1);
                assert(m.frames[i].0 < m.frames[i].1);
            } else {
                assert(m2.frames[j].0 == 0);
            }
        }
        let tail2 = elts_tail(m2);
        assert(forall|j: int| 0 <= j < k ==> #[trigger] tail2[j] == m2.frames[j + 1].0);
        assert(tail2 =~= succ_values(vs, i - 1));
        assert forall|j: int| i - 1 < j < vs.len() implies #[trigger] vs[j] == const_seq(
            eb,
            k as nat,
        )[j] by {
            assert(m.frames[j + 1].0 >= m.frames[j + 1].1);
        }
        lemma_succ_rank(vs, const_seq(eb, k as nat), i - 1);
    }
}

/// Where the enumeration of an adaptive-length body stands and ends: every
/// full state ranks within `0 ..= geom(eb, lb + 1) - 1`, and `done` reports
/// terminal exactly at the last rank.  With the first and step lemmas above
/// this counts the runs of a `while !done()` loop over such a body: exactly
/// `geom(eb, lb + 1)`, the sum of `(eb + 1)^k` over `k <= lb` — for
/// `gen_elts(L, E)` the sum of `(E + 1)^k` over `k <= L`, and for `gen_comb`
/// over `l` elements (length bound `l`, element bound `l - 1`) the sum of
/// `l^k` over `k <= l`.
pub proof fn lemma_elts_enumeration_last(m: GenView, lb: usize, eb: usize)
    requires
        elts_full(m, lb, eb),
    ensures
        0 <= elts_rank(m, eb) < geom(eb, (lb + 1) as nat),
        m.is_done() <==> elts_rank(m, eb) == geom(eb, (lb + 1) as nat) - 1,
{
    let k: int = m.frames[0].0 as int;
    let vs = elts_tail(m);
    let cs = const_seq(eb, k as nat);
    assert(vs.len() == k);
    assert(forall|j: int| 0 <= j < k ==> #[trigger] vs[j] == m.frames[j + 1].0);
    assert(forall|j: int| 0 <= j < k ==> #[trigger] vs[j] <= cs[j]);
    lemma_rank_range(vs, cs);
    lemma_geom_mono(eb, 0, k as nat);
    lemma_geom_mono(eb, (k + 1) as nat, (lb + 1) as nat);
    assert(geom(eb, (k + 1) as nat) == geom(eb, k as nat) + span(cs));
    lemma_live_frame_none(m.frames);
    if m.is_done() {
        assert(m.frames[0].0 >= m.frames[0].1);
        assert(k == lb);
        assert forall|j: int| 0 <= j < k implies #[trigger] vs[j] == cs[j] by {
            assert(m.frames[j + 1].0 >= m.frames[j + 1].1);
        }
        assert(rank(vs, cs) == span(cs) - 1);
    }
    if elts_rank(m, eb) == geom(eb, (lb + 1) as nat) - 1 {
        assert(k == lb) by {
            if k < lb {
                lemma_geom_mono(eb, (k + 1) as nat, lb as nat);
                lemma_span_pos(const_seq(eb, lb as nat));
                assert(geom(eb, (lb + 1) as nat) == geom(eb, lb as nat) + span(
                    const_seq(eb, lb as nat),
                ));
            }
        }
        assert(rank(vs, cs) == span(cs) - 1);
        assert forall|j: int| 0 <= j < m.frames.len() implies (#[trigger] m.frames[j]).0
            >= m.frames[j].1 by {
            if j >= 1 {
                assert(vs[j - 1] == cs[j - 1]);
                assert(vs[j - 1] == m.frames[j].0);
            }
        }
        assert(live_frame(m.frames) == -1);
    }
}

} // verus!
