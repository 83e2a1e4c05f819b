//! Laws of the tick pipeline: what repeated ticks do to the store and the
//! active set, when each note spawns, and which note a press consumes.

use vstd::prelude::*;

use crate::note::strictly_sorted_by_timing;
use crate::note::NoteId;
use crate::note::NoteLane;
use crate::note::DESPAWN_GRACE;
use crate::note::LOOKAHEAD_FRAMES;
use crate::sim::best_match;
use crate::sim::motion_step;
use crate::sim::note_due;
use crate::sim::note_expired;
use crate::sim::press_match;
use crate::sim::tick_step;
use crate::sim::ActiveNote;
use crate::sim::SimModel;
use crate::sim::Simulation;

verus! {

/// A fresh session over a beatmap: frame zero, nothing on screen.
pub open spec fn init_model(notes: Seq<NoteId>) -> SimModel {
    SimModel { count: 0, pending: notes, actives: Seq::empty() }
}

/// The state after `n` ticks with no input.
pub open spec fn run_ticks(m: SimModel, n: nat) -> SimModel
    decreases n,
{
    if n == 0 {
        m
    } else {
        tick_step(run_ticks(m, (n - 1) as nat))
    }
}

/// Runs `n` input-free ticks on a live session; the resulting state is
/// exactly the model's, so every law below applies to the executable state.
pub fn run_pipeline(sim: &mut Simulation, n: usize)
    requires
        old(sim).frames.count + n <= usize::MAX,
        crate::sim::wf_actives(old(sim).actives@),
    ensures
        final(sim)@ == run_ticks(old(sim)@, n as nat),
        crate::sim::wf_actives(final(sim).actives@),
{
    let mut i: usize = 0;
    while i < n
        invariant
            i <= n,
            sim.frames.count == old(sim).frames.count + i,
            old(sim).frames.count + n <= usize::MAX,
            sim@ == run_ticks(old(sim)@, i as nat),
            crate::sim::wf_actives(sim.actives@),
        decreases n - i,
    {
        sim.tick();
        i = i + 1;
    }
}

/// The tick at which the `k`-th note of an ordered beatmap spawns when the
/// session starts at frame zero: the lookahead tick for its timing, pushed
/// back when earlier notes still occupy the one-spawn-per-tick scheduler.
pub open spec fn nominal_spawn_tick(notes: Seq<NoteId>, k: int) -> int {
    if notes[k].timing - LOOKAHEAD_FRAMES > k + 1 {
        notes[k].timing - LOOKAHEAD_FRAMES
    } else {
        k + 1
    }
}

/// How many notes the scheduler has popped after `n` ticks.
pub open spec fn spawn_count(notes: Seq<NoteId>, n: nat) -> int
    decreases n,
{
    if n == 0 {
        0
    } else {
        let p = spawn_count(notes, (n - 1) as nat);
        if p < notes.len() && note_due(n as int, notes[p].timing) {
            p + 1
        } else {
            p
        }
    }
}

/// The notes of a sequence of on-screen notes, in order.
pub open spec fn notes_of(actives: Seq<ActiveNote>) -> Seq<NoteId> {
    actives.map_values(|a: ActiveNote| a.note)
}

/// The notes of `ns` not yet expired at clock value `count`, in order.
pub open spec fn unexpired_notes(ns: Seq<NoteId>, count: int) -> Seq<NoteId>
    decreases ns.len(),
{
    if ns.len() == 0 {
        Seq::empty()
    } else {
        let rest = unexpired_notes(ns.drop_first(), count);
        if note_expired(count, ns[0].timing) {
            rest
        } else {
            seq![ns[0]] + rest
        }
    }
}

/// Note motion changes positions and drops expired notes; the notes of the
/// survivors are the unexpired notes, in order.
pub proof fn lemma_motion_notes(s: Seq<ActiveNote>, c: int)
    ensures
        notes_of(motion_step(s, c)) == unexpired_notes(notes_of(s), c),
    decreases s.len(),
{
    if s.len() == 0 {
        assert(notes_of(motion_step(s, c)) =~= unexpired_notes(notes_of(s), c));
    } else {
        lemma_motion_notes(s.drop_first(), c);
        assert(notes_of(s).drop_first() =~= notes_of(s.drop_first()));
        assert(notes_of(s)[0] == s[0].note);
        if note_expired(c, s[0].note.timing) {
        } else {
            assert(notes_of(seq![crate::sim::fall_step(s[0])] + motion_step(s.drop_first(), c))
                =~= seq![s[0].note] + notes_of(motion_step(s.drop_first(), c)));
        }
    }
}

/// Filtering for a later clock value subsumes filtering for an earlier one.
pub proof fn lemma_unexpired_again(ns: Seq<NoteId>, c1: int, c2: int)
    requires
        c1 <= c2,
    ensures
        unexpired_notes(unexpired_notes(ns, c1), c2) == unexpired_notes(ns, c2),
    decreases ns.len(),
{
    if ns.len() == 0 {
        assert(unexpired_notes(unexpired_notes(ns, c1), c2) =~= unexpired_notes(ns, c2));
    } else {
        lemma_unexpired_again(ns.drop_first(), c1, c2);
        if note_expired(c1, ns[0].timing) {
        } else {
            let u1 = unexpired_notes(ns.drop_first(), c1);
            assert((seq![ns[0]] + u1)[0] == ns[0]);
            assert((seq![ns[0]] + u1).drop_first() =~= u1);
            if note_expired(c2, ns[0].timing) {
            } else {
                assert(unexpired_notes(seq![ns[0]] + u1, c2) == seq![ns[0]] + unexpired_notes(
                    u1,
                    c2,
                ));
            }
        }
    }
}

/// Appending one note to the back commutes with the expiry filter.
pub proof fn lemma_unexpired_push(ns: Seq<NoteId>, x: NoteId, c: int)
    ensures
        unexpired_notes(ns.push(x), c) == if note_expired(c, x.timing) {
            unexpired_notes(ns, c)
        } else {
            unexpired_notes(ns, c).push(x)
        },
    decreases ns.len(),
{
    if ns.len() == 0 {
        assert(ns.push(x)[0] == x);
        assert(ns.push(x).drop_first() =~= Seq::<NoteId>::empty());
        assert(unexpired_notes(Seq::<NoteId>::empty(), c) =~= Seq::<NoteId>::empty());
        assert(unexpired_notes(ns, c) =~= Seq::<NoteId>::empty());
        if note_expired(c, x.timing) {
            assert(unexpired_notes(ns.push(x), c) =~= unexpired_notes(ns, c));
        } else {
            assert(unexpired_notes(ns.push(x), c) == seq![x] + unexpired_notes(
                ns.push(x).drop_first(),
                c,
            ));
            assert(seq![x] + Seq::<NoteId>::empty() =~= unexpired_notes(ns, c).push(x));
        }
    } else {
        assert(ns.push(x)[0] == ns[0]);
        assert(ns.push(x).drop_first() =~= ns.drop_first().push(x));
        lemma_unexpired_push(ns.drop_first(), x, c);
        if note_expired(c, ns[0].timing) {
        } else {
            if note_expired(c, x.timing) {
            } else {
                assert(seq![ns[0]] + unexpired_notes(ns.drop_first(), c).push(x) =~= (seq![ns[0]]
                    + unexpired_notes(ns.drop_first(), c)).push(x));
            }
        }
    }
}

/// When every note has expired, nothing survives the filter.
pub proof fn lemma_unexpired_none(ns: Seq<NoteId>, c: int)
    requires
        forall|k: int| 0 <= k < ns.len() ==> note_expired(c, (#[trigger] ns[k]).timing),
    ensures
        unexpired_notes(ns, c).len() == 0,
    decreases ns.len(),
{
    if ns.len() > 0 {
        assert(forall|k: int|
            0 <= k < ns.drop_first().len() ==> #[trigger] ns.drop_first()[k] == ns[k + 1]);
        lemma_unexpired_none(ns.drop_first(), c);
    }
}

/// A note survives the filter exactly when it is in the sequence and not
/// expired.
pub proof fn lemma_unexpired_contains(ns: Seq<NoteId>, c: int, x: NoteId)
    ensures
        unexpired_notes(ns, c).contains(x) <==> (ns.contains(x) && !note_expired(c, x.timing)),
    decreases ns.len(),
{
    if ns.len() == 0 {
    } else {
        lemma_unexpired_contains(ns.drop_first(), c, x);
        assert(ns.drop_first().contains(x) <==> exists|k: int|
            1 <= k < ns.len() && ns[k] == x) by {
            if ns.drop_first().contains(x) {
                let k = choose|k: int|
                    0 <= k < ns.drop_first().len() && ns.drop_first()[k] == x;
                assert(ns[k + 1] == x);
            }
            if exists|k: int| 1 <= k < ns.len() && ns[k] == x {
                let k = choose|k: int| 1 <= k < ns.len() && ns[k] == x;
                assert(ns.drop_first()[k - 1] == x);
            }
        }
        let rest = unexpired_notes(ns.drop_first(), c);
        if note_expired(c, ns[0].timing) {
            if ns.contains(x) && !note_expired(c, x.timing) {
                let k = choose|k: int| 0 <= k < ns.len() && ns[k] == x;
                assert(k >= 1);
            }
        } else {
            assert forall|y: NoteId| (seq![ns[0]] + rest).contains(y) implies y == ns[0]
                || rest.contains(y) by {
                let k = choose|k: int|
                    0 <= k < (seq![ns[0]] + rest).len() && (seq![ns[0]] + rest)[k] == y;
                if k >= 1 {
                    assert(rest[k - 1] == y);
                }
            }
            if ns.contains(x) && !note_expired(c, x.timing) {
                let k = choose|k: int| 0 <= k < ns.len() && ns[k] == x;
                if k == 0 {
                    assert((seq![ns[0]] + rest)[0] == x);
                } else {
                    assert((seq![ns[0]] + rest).contains(x)) by {
                        assert(rest.contains(x));
                        let t = choose|t: int| 0 <= t < rest.len() && rest[t] == x;
                        assert((seq![ns[0]] + rest)[t + 1] == x);
                    }
                }
            }
            if (seq![ns[0]] + rest).contains(x) {
                assert(x == ns[0] || rest.contains(x));
                if x == ns[0] {
                    assert(ns[0] == x && 0 < ns.len());
                    assert(ns.contains(x));
                }
            }
        }
    }
}

/// With strictly increasing timings, the `k`-th timing is at least `k`.
pub proof fn lemma_timing_ge_index(notes: Seq<NoteId>, k: int)
    requires
        strictly_sorted_by_timing(notes),
        0 <= k < notes.len(),
    ensures
        notes[k].timing >= k,
    decreases k,
{
    if k > 0 {
        lemma_timing_ge_index(notes, k - 1);
        assert(notes[k - 1].timing < notes[k].timing);
    }
}

/// What holds of the session after `n` input-free ticks from frame zero
/// over a strictly ordered beatmap: `spawn_count` notes have been popped
/// (exactly those whose nominal spawn tick has been reached), the store
/// holds the rest, and the screen shows the popped notes not yet expired.
pub open spec fn pipeline_inv(notes: Seq<NoteId>, n: nat, m: SimModel) -> bool {
    let p = spawn_count(notes, n);
    &&& m.count == n
    &&& 0 <= p <= notes.len()
    &&& m.pending == notes.skip(p)
    &&& notes_of(m.actives) == unexpired_notes(notes.take(p), n as int)
    &&& forall|k: int| 0 <= k < p ==> #[trigger] nominal_spawn_tick(notes, k) <= n
    &&& (p < notes.len() ==> nominal_spawn_tick(notes, p) > n)
}

/// The pipeline invariant holds after every input-free run.
#[verifier::rlimit(60)]
pub proof fn lemma_pipeline_inv(notes: Seq<NoteId>, n: nat)
    requires
        strictly_sorted_by_timing(notes),
    ensures
        pipeline_inv(notes, n, run_ticks(init_model(notes), n)),
    decreases n,
{
    let len = notes.len() as int;
    if n == 0 {
        assert(notes.skip(0) =~= notes);
        assert(notes.take(0) =~= Seq::<NoteId>::empty());
        assert(notes_of(Seq::<ActiveNote>::empty()) =~= Seq::<NoteId>::empty());
    } else {
        let n0 = (n - 1) as nat;
        lemma_pipeline_inv(notes, n0);
        let m0 = run_ticks(init_model(notes), n0);
        let p0 = spawn_count(notes, n0);
        let mc = crate::sim::clock_step(m0);
        let mm = crate::sim::motion_only(mc);
        assert(mm.actives == motion_step(m0.actives, n as int));
        lemma_motion_notes(m0.actives, n as int);
        lemma_unexpired_again(notes.take(p0), n0 as int, n as int);
        assert(notes_of(mm.actives) == unexpired_notes(notes.take(p0), n as int));
        assert(mm.pending == notes.skip(p0));
        assert(mm.pending.len() == len - p0);
        if p0 < len {
            assert(mm.pending[0] == notes[p0]);
        }
        if p0 < len && note_due(n as int, notes[p0].timing) {
            // The head spawns this tick.
            assert(spawn_count(notes, n) == p0 + 1);
            let m1 = crate::sim::sched_step(mm);
            assert(m1.pending == mm.pending.drop_first());
            assert(mm.pending.drop_first() =~= notes.skip(p0 + 1));
            let spawned = crate::sim::spawned_note(notes[p0], n as int);
            assert(m1.actives == mm.actives.push(spawned));
            assert(notes_of(mm.actives.push(spawned)) =~= notes_of(mm.actives).push(notes[p0]));
            // This tick is exactly the head's nominal spawn tick, which lies
            // inside its own despawn window.
            assert(p0 + 1 <= n) by {
                if p0 > 0 {
                    assert(nominal_spawn_tick(notes, p0 - 1) <= n0);
                }
            }
            assert(nominal_spawn_tick(notes, p0) <= n);
            assert(nominal_spawn_tick(notes, p0) == n);
            lemma_timing_ge_index(notes, p0);
            assert(n <= notes[p0].timing + DESPAWN_GRACE);
            assert(!note_expired(n as int, notes[p0].timing));
            lemma_unexpired_push(notes.take(p0), notes[p0], n as int);
            assert(notes.take(p0).push(notes[p0]) =~= notes.take(p0 + 1));
            assert(notes_of(m1.actives) == unexpired_notes(notes.take(p0 + 1), n as int));
            // The next head, if any, is not due before the next tick.
            if p0 + 1 < len {
                assert(notes[p0].timing < notes[p0 + 1].timing);
                assert(nominal_spawn_tick(notes, p0 + 1) > n);
            }
            assert(forall|k: int| 0 <= k < p0 + 1 ==> #[trigger] nominal_spawn_tick(notes, k)
                <= n);
        } else {
            assert(spawn_count(notes, n) == p0);
            assert(crate::sim::sched_step(mm) == mm);
            if p0 < len {
                assert(!note_due(n as int, notes[p0].timing));
                assert(nominal_spawn_tick(notes, p0) > n);
            }
            assert(forall|k: int| 0 <= k < p0 ==> #[trigger] nominal_spawn_tick(notes, k) <= n);
        }
    }
}

/// A full input-free playthrough drains everything: once the clock has
/// passed every note's despawn deadline, the store is empty and no note is
/// left on screen — every note spawned and then expired.
pub proof fn lemma_playthrough_drains(notes: Seq<NoteId>, n: nat)
    requires
        strictly_sorted_by_timing(notes),
        forall|k: int|
            0 <= k < notes.len() ==> n > (#[trigger] notes[k]).timing + DESPAWN_GRACE,
    ensures
        run_ticks(init_model(notes), n).pending.len() == 0,
        run_ticks(init_model(notes), n).actives.len() == 0,
{
    lemma_pipeline_inv(notes, n);
    let len = notes.len() as int;
    let m = run_ticks(init_model(notes), n);
    let p = spawn_count(notes, n);
    if p < len {
        lemma_timing_ge_index(notes, p);
        assert(nominal_spawn_tick(notes, p) <= notes[p].timing + DESPAWN_GRACE);
        assert(false);
    }
    assert(notes.skip(len) =~= Seq::<NoteId>::empty());
    assert(notes.take(len) =~= notes);
    lemma_unexpired_none(notes, n as int);
    assert(notes_of(m.actives).len() == m.actives.len());
}

/// Nominal spawn ticks never decrease along an ordered beatmap.
pub proof fn lemma_nominal_monotone(notes: Seq<NoteId>, k1: int, k2: int)
    requires
        strictly_sorted_by_timing(notes),
        0 <= k1 <= k2 < notes.len(),
    ensures
        nominal_spawn_tick(notes, k1) <= nominal_spawn_tick(notes, k2),
{
    if k1 < k2 {
        assert(notes[k1].timing < notes[k2].timing);
    }
}

/// Exact spawn timing: after `n` input-free ticks, the `k`-th note has left
/// the store if and only if its nominal spawn tick has been reached, and it
/// stands on screen exactly from that tick through its despawn deadline —
/// never earlier, never later.
pub proof fn lemma_spawn_window(notes: Seq<NoteId>, k: int, n: nat)
    requires
        strictly_sorted_by_timing(notes),
        0 <= k < notes.len(),
    ensures
        (notes.len() - run_ticks(init_model(notes), n).pending.len() > k) <==> (
        nominal_spawn_tick(notes, k) <= n),
        notes_of(run_ticks(init_model(notes), n).actives).contains(notes[k]) <==> (
        nominal_spawn_tick(notes, k) <= n && n <= notes[k].timing + DESPAWN_GRACE),
{
    lemma_pipeline_inv(notes, n);
    let len = notes.len() as int;
    let m = run_ticks(init_model(notes), n);
    let p = spawn_count(notes, n);
    assert(m.pending.len() == len - p);
    if nominal_spawn_tick(notes, k) <= n && p <= k {
        lemma_nominal_monotone(notes, p, k);
        assert(false);
    }
    lemma_unexpired_contains(notes.take(p), n as int, notes[k]);
    assert(notes.take(p).contains(notes[k]) <==> k < p) by {
        if k < p {
            assert(notes.take(p)[k] == notes[k]);
        }
        if notes.take(p).contains(notes[k]) {
            let j = choose|j: int| 0 <= j < p && notes.take(p)[j] == notes[k];
            assert(notes[j] == notes[k]);
            if j < k {
                assert(notes[j].timing < notes[k].timing);
            }
            if k < j {
                assert(notes[k].timing < notes[j].timing);
            }
        }
    }
}

/// Which note one press consumes: if any active note matches the pressed
/// lane within the tolerance window, the judge selects a match with the
/// smallest timing — the earliest due note — and the first such on a tie;
/// with no match it selects nothing.
pub proof fn lemma_judge_earliest_match(actives: Seq<ActiveNote>, lane: NoteLane, count: int)
    ensures
        (best_match(actives, lane, count) is None) <==> (forall|t: int|
            0 <= t < actives.len() ==> !press_match(#[trigger] actives[t], lane, count)),
        match best_match(actives, lane, count) {
            Some(j) => {
                &&& 0 <= j < actives.len()
                &&& press_match(actives[j], lane, count)
                &&& forall|t: int|
                    0 <= t < actives.len() && press_match(#[trigger] actives[t], lane, count)
                        ==> actives[j].note.timing <= actives[t].note.timing
                &&& forall|t: int|
                    0 <= t < actives.len() && press_match(#[trigger] actives[t], lane, count)
                        && actives[t].note.timing == actives[j].note.timing ==> j <= t
            },
            None => true,
        },
    decreases actives.len(),
{
    if actives.len() > 0 {
        let len = actives.len() as int;
        let prefix = actives.drop_last();
        lemma_judge_earliest_match(prefix, lane, count);
        assert(forall|t: int| 0 <= t < len - 1 ==> #[trigger] prefix[t] == actives[t]);
        match best_match(prefix, lane, count) {
            None => {
                assert forall|t: int| 0 <= t < len - 1 implies !press_match(
                    #[trigger] actives[t],
                    lane,
                    count,
                ) by {
                    assert(prefix[t] == actives[t]);
                    assert(!press_match(prefix[t], lane, count));
                }
                if press_match(actives[len - 1], lane, count) {
                    assert(best_match(actives, lane, count) == Some(len - 1));
                } else {
                    assert(best_match(actives, lane, count) is None);
                }
            },
            Some(j) => {
                assert(prefix[j] == actives[j]);
                assert(press_match(actives[j], lane, count));
                assert forall|t: int|
                    0 <= t < len - 1 && press_match(#[trigger] actives[t], lane, count) implies
                    actives[j].note.timing <= actives[t].note.timing && (actives[t].note.timing
                        == actives[j].note.timing ==> j <= t) by {
                    assert(prefix[t] == actives[t]);
                    assert(press_match(prefix[t], lane, count));
                }
                if press_match(actives[len - 1], lane, count) && actives[len - 1].note.timing
                    < actives[j].note.timing {
                    assert(best_match(actives, lane, count) == Some(len - 1));
                } else {
                    assert(best_match(actives, lane, count) == Some(j));
                }
            },
        }
    }
}

} // verus!
