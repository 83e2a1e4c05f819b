//! The fixed-rate simulation: frame clock, note scheduler, note motion and
//! the lane-input judge, with a mathematical model of one tick.

use vstd::prelude::*;

use crate::codec::encode_beatmap;
use crate::codec::load_beatmap;
use crate::codec::parse_beatmap;
use crate::codec::save_beatmap;
use crate::codec::FormatError;
use crate::note::Beatmap;
use crate::note::NoteId;
use crate::note::NoteLane;
use crate::note::lane_x;
use crate::note::lane_x_spec;
use crate::note::sample_beatmap;
use crate::note::sample_beatmap_spec;
use crate::note::sorted_by_timing;
use crate::note::DESPAWN_GRACE;
use crate::note::LOOKAHEAD_FRAMES;
use crate::note::TOLERANCE;

verus! {

/// Vertical start position of a freshly spawned note, in pixels.
pub const START_Y: i32 = 275;

/// Vertical position of the judgment line, in pixels.
pub const JUDGMENT_Y: i32 = -275;

/// Pixels a note falls per simulation tick.
pub const FALL_PER_TICK: i32 = 10;

/// The logical frame counter, advanced once per fixed tick while the
/// simulation is active, and reset only by the transport operations.
#[derive(Clone, Copy, PartialEq, Eq, Structural, Debug)]
pub struct FramesCount {
    pub count: usize,
}

impl FramesCount {
    pub fn new() -> (r: FramesCount)
        ensures
            r.count == 0,
    {
        FramesCount { count: 0 }
    }

    /// Resets the counter to frame zero.
    pub fn reset(&mut self)
        ensures
            final(self).count == 0,
    {
        self.count = 0;
    }
}

/// A note that has been materialized on screen and not yet judged or expired.
#[derive(Clone, Copy, PartialEq, Eq, Structural, Debug)]
pub struct ActiveNote {
    pub note: NoteId,
    pub x: i32,
    pub y: i32,
    pub spawn_frame: usize,
}

/// The outcome of judging one lane press.
#[derive(Clone, Copy, PartialEq, Eq, Structural, Debug)]
pub enum Judgment {
    /// A matching active note was found and consumed; the caller owes the
    /// lane's audio cue.
    Hit(NoteId),
    /// No active note matched the press.
    Miss,
}

/// The mathematical image of a simulation state.
pub struct SimModel {
    pub count: nat,
    pub pending: Seq<NoteId>,
    pub actives: Seq<ActiveNote>,
}

/// A note is due to spawn when the clock is within the lookahead of its
/// timing.
pub open spec fn note_due(count: int, timing: usize) -> bool {
    count + LOOKAHEAD_FRAMES >= timing
}

/// A note is expired when the clock has passed its timing by more than the
/// despawn grace.
pub open spec fn note_expired(count: int, timing: usize) -> bool {
    count > timing + DESPAWN_GRACE
}

/// The clock is within the symmetric hit window around a note's timing.
pub open spec fn in_hit_window(count: int, timing: usize) -> bool {
    timing - TOLERANCE <= count <= timing + TOLERANCE
}

/// A press matches an active note when the lanes agree and the clock is in
/// the note's hit window.
pub open spec fn press_match(a: ActiveNote, lane: NoteLane, count: int) -> bool {
    a.note.lane == lane && in_hit_window(count, a.note.timing)
}

/// One tick of falling: toward the judgment line, clamped there.
pub open spec fn fall_step(a: ActiveNote) -> ActiveNote {
    ActiveNote {
        note: a.note,
        x: a.x,
        y: if a.y - FALL_PER_TICK <= JUDGMENT_Y {
            JUDGMENT_Y
        } else {
            (a.y - FALL_PER_TICK) as i32
        },
        spawn_frame: a.spawn_frame,
    }
}

/// Note motion over the whole active set: every surviving note falls one
/// step; notes whose despawn deadline has passed are removed, in order.
pub open spec fn motion_step(actives: Seq<ActiveNote>, count: int) -> Seq<ActiveNote>
    decreases actives.len(),
{
    if actives.len() == 0 {
        Seq::empty()
    } else {
        let rest = motion_step(actives.drop_first(), count);
        if note_expired(count, actives[0].note.timing) {
            rest
        } else {
            seq![fall_step(actives[0])] + rest
        }
    }
}

/// The active note materialized from a pending event at clock value `count`.
pub open spec fn spawned_note(n: NoteId, count: int) -> ActiveNote {
    ActiveNote {
        note: n,
        x: lane_x_spec(n.lane) as i32,
        y: START_Y,
        spawn_frame: count as usize,
    }
}

/// The frame clock advances by one.
pub open spec fn clock_step(m: SimModel) -> SimModel {
    SimModel { count: m.count + 1, pending: m.pending, actives: m.actives }
}

/// Note motion applied at the current clock value.
pub open spec fn motion_only(m: SimModel) -> SimModel {
    SimModel {
        count: m.count,
        pending: m.pending,
        actives: motion_step(m.actives, m.count as int),
    }
}

/// The scheduler: if the head of the store is due, it is popped and an
/// active note is appended. At most one note spawns per tick.
pub open spec fn sched_step(m: SimModel) -> SimModel {
    if m.pending.len() > 0 && note_due(m.count as int, m.pending[0].timing) {
        SimModel {
            count: m.count,
            pending: m.pending.drop_first(),
            actives: m.actives.push(spawned_note(m.pending[0], m.count as int)),
        }
    } else {
        m
    }
}

/// One full tick: clock, then motion over the notes already on screen, then
/// the scheduler. A note spawned this tick first falls on the next tick.
pub open spec fn tick_step(m: SimModel) -> SimModel {
    sched_step(motion_only(clock_step(m)))
}

/// The first index of the lane's match with the smallest timing, if any
/// press match exists: the earliest due note wins, earliest spawned on ties.
pub open spec fn best_match(actives: Seq<ActiveNote>, lane: NoteLane, count: int) -> Option<int>
    decreases actives.len(),
{
    if actives.len() == 0 {
        None::<int>
    } else {
        let last_i = actives.len() - 1;
        match best_match(actives.drop_last(), lane, count) {
            None => {
                if press_match(actives[last_i as int], lane, count) {
                    Some(last_i as int)
                } else {
                    None
                }
            },
            Some(j) => {
                if press_match(actives[last_i as int], lane, count)
                    && actives[last_i as int].note.timing < actives[j].note.timing {
                    Some(last_i as int)
                } else {
                    Some(j)
                }
            },
        }
    }
}

/// The active set after judging one press.
pub open spec fn judge_one_actives(
    actives: Seq<ActiveNote>,
    lane: NoteLane,
    count: int,
) -> Seq<ActiveNote> {
    match best_match(actives, lane, count) {
        None => actives,
        Some(j) => actives.remove(j),
    }
}

/// The outcome of judging one press.
pub open spec fn judge_one_result(
    actives: Seq<ActiveNote>,
    lane: NoteLane,
    count: int,
) -> Judgment {
    match best_match(actives, lane, count) {
        None => Judgment::Miss,
        Some(j) => Judgment::Hit(actives[j].note),
    }
}

/// The active set after a buffer of presses is judged in order.
pub open spec fn judge_presses_actives(
    actives: Seq<ActiveNote>,
    presses: Seq<NoteLane>,
    count: int,
) -> Seq<ActiveNote>
    decreases presses.len(),
{
    if presses.len() == 0 {
        actives
    } else {
        judge_presses_actives(
            judge_one_actives(actives, presses[0], count),
            presses.drop_first(),
            count,
        )
    }
}

/// The outcomes of a buffer of presses judged in order, one per press.
pub open spec fn judge_presses_results(
    actives: Seq<ActiveNote>,
    presses: Seq<NoteLane>,
    count: int,
) -> Seq<Judgment>
    decreases presses.len(),
{
    if presses.len() == 0 {
        Seq::empty()
    } else {
        seq![judge_one_result(actives, presses[0], count)] + judge_presses_results(
            judge_one_actives(actives, presses[0], count),
            presses.drop_first(),
            count,
        )
    }
}

/// A materialized note sits between the spawn row and the judgment line, in
/// its lane's column, and was spawned no more than the lookahead before its
/// timing.
pub open spec fn wf_active(a: ActiveNote) -> bool {
    &&& JUDGMENT_Y <= a.y <= START_Y
    &&& a.x as int == lane_x_spec(a.note.lane)
    &&& a.spawn_frame + LOOKAHEAD_FRAMES >= a.note.timing
}

/// Every on-screen note is well formed.
pub open spec fn wf_actives(actives: Seq<ActiveNote>) -> bool {
    forall|i: int| 0 <= i < actives.len() ==> wf_active(#[trigger] actives[i])
}

/// The whole simulation context: clock, store and active set, passed to each
/// tick function and replaced as a unit by the transport operations.
pub struct Simulation {
    pub frames: FramesCount,
    pub beatmap: Beatmap,
    pub actives: Vec<ActiveNote>,
}

impl View for Simulation {
    type V = SimModel;

    open spec fn view(&self) -> SimModel {
        SimModel {
            count: self.frames.count as nat,
            pending: self.beatmap@,
            actives: self.actives@,
        }
    }
}

impl Simulation {
    /// A well-formed simulation: ordered store, on-screen active notes.
    pub open spec fn wf(&self) -> bool {
        &&& sorted_by_timing(self.beatmap@)
        &&& wf_actives(self.actives@)
    }

    /// A fresh session over a beatmap, at frame zero with nothing on screen.
    pub fn new(beatmap: Beatmap) -> (s: Simulation)
        requires
            beatmap.wf(),
        ensures
            s@.count == 0,
            s@.pending == beatmap@,
            s@.actives.len() == 0,
            s.wf(),
    {
        Simulation { frames: FramesCount { count: 0 }, beatmap, actives: Vec::new() }
    }

    /// Advances the frame clock by exactly one.
    pub fn update_framecount(&mut self)
        requires
            old(self).frames.count < usize::MAX,
        ensures
            final(self)@ == clock_step(old(self)@),
            final(self).beatmap == old(self).beatmap,
            final(self).actives == old(self).actives,
    {
        self.frames.count = self.frames.count + 1;
    }

    /// Moves every active note one step toward the judgment line, clamping
    /// there, and removes notes whose despawn deadline has passed.
    pub fn animate_note(&mut self)
        requires
            wf_actives(old(self).actives@),
        ensures
            final(self)@ == motion_only(old(self)@),
            wf_actives(final(self).actives@),
    {
        let ghost m0 = self@;
        let count = self.frames.count;
        let n = self.actives.len();
        let mut out: Vec<ActiveNote> = Vec::new();
        let mut i: usize = 0;
        proof {
            assert(self.actives@.skip(0) =~= self.actives@);
            assert(out@ + motion_step(self.actives@, count as int) =~= motion_step(
                self.actives@,
                count as int,
            ));
        }
        while i < n
            invariant
                i <= n,
                n == self.actives.len(),
                self@ == m0,
                count == m0.count,
                wf_actives(self.actives@),
                wf_actives(out@),
                motion_step(self.actives@, count as int) == out@ + motion_step(
                    self.actives@.skip(i as int),
                    count as int,
                ),
            decreases n - i,
        {
            let a = self.actives[i];
            let ghost tail = self.actives@.skip(i as int);
            proof {
                assert(tail.len() > 0);
                assert(tail[0] == a);
                assert(tail.drop_first() =~= self.actives@.skip(i as int + 1));
            }
            let expired = count > DESPAWN_GRACE && count - DESPAWN_GRACE - 1 >= a.note.timing;
            proof {
                assert(expired == note_expired(count as int, a.note.timing));
            }
            if !expired {
                let y2 = if a.y - FALL_PER_TICK <= JUDGMENT_Y {
                    JUDGMENT_Y
                } else {
                    a.y - FALL_PER_TICK
                };
                out.push(ActiveNote { note: a.note, x: a.x, y: y2, spawn_frame: a.spawn_frame });
                proof {
                    assert(out@.last() == fall_step(a));
                    assert(out@ + motion_step(self.actives@.skip(i as int + 1), count as int)
                        =~= out@.drop_last() + (seq![fall_step(a)] + motion_step(
                        self.actives@.skip(i as int + 1),
                        count as int,
                    )));
                }
            }
            i = i + 1;
        }
        proof {
            assert(self.actives@.skip(n as int) =~= Seq::<ActiveNote>::empty());
            assert(out@ + motion_step(self.actives@.skip(n as int), count as int) =~= out@);
        }
        self.actives = out;
    }

    /// The scheduler: inspects the head of the store and, if it is due,
    /// materializes it at its lane's column and pops it. The head is popped
    /// only after the emptiness check, so the store is never popped empty.
    pub fn spawn_note(&mut self)
        ensures
            final(self)@ == sched_step(old(self)@),
            wf_actives(old(self).actives@) ==> wf_actives(final(self).actives@),
    {
        match self.beatmap.peek_head() {
            None => {},
            Some(head) => {
                let due = head.timing <= LOOKAHEAD_FRAMES || self.frames.count >= head.timing
                    - LOOKAHEAD_FRAMES;
                proof {
                    assert(due == note_due(self.frames.count as int, head.timing));
                }
                if due {
                    let x = lane_x(head.lane);
                    self.actives.push(
                        ActiveNote { note: head, x, y: START_Y, spawn_frame: self.frames.count },
                    );
                    let _popped = self.beatmap.pop_head();
                }
            },
        }
    }

    /// One full simulation tick with no input: clock, motion, scheduler.
    pub fn tick(&mut self)
        requires
            old(self).frames.count < usize::MAX,
            wf_actives(old(self).actives@),
        ensures
            final(self)@ == tick_step(old(self)@),
            wf_actives(final(self).actives@),
            final(self)@.count == old(self)@.count + 1,
    {
        self.update_framecount();
        self.animate_note();
        self.spawn_note();
    }

    /// Judges one lane press against the active notes: the match with the
    /// smallest timing is consumed, earliest spawned on a timing tie; with
    /// no match the press is a miss and nothing changes.
    pub fn lane_tap(&mut self, lane: NoteLane) -> (r: Judgment)
        ensures
            final(self)@.count == old(self)@.count,
            final(self)@.pending == old(self)@.pending,
            match best_match(old(self).actives@, lane, old(self)@.count as int) {
                None => r == Judgment::Miss && final(self)@.actives == old(self)@.actives,
                Some(j) => r == Judgment::Hit(old(self).actives@[j].note) && final(self)@.actives
                    == old(self)@.actives.remove(j),
            },
            wf_actives(old(self).actives@) ==> wf_actives(final(self).actives@),
    {
        let count = self.frames.count;
        let n = self.actives.len();
        let mut found = false;
        let mut best: usize = 0;
        let mut i: usize = 0;
        while i < n
            invariant
                i <= n,
                n == self.actives.len(),
                count == self.frames.count,
                found ==> best < i,
                best_match(self.actives@.take(i as int), lane, count as int) == (if found {
                    Some(best as int)
                } else {
                    None::<int>
                }),
            decreases n - i,
        {
            let a = self.actives[i];
            let in_lane = a.note.lane == lane;
            let lower_ok = a.note.timing <= count || a.note.timing - count <= TOLERANCE;
            let upper_ok = count <= a.note.timing || count - a.note.timing <= TOLERANCE;
            let matches_press = in_lane && lower_ok && upper_ok;
            proof {
                assert(matches_press == press_match(a, lane, count as int));
                let pre = self.actives@.take(i as int + 1);
                assert(pre.drop_last() =~= self.actives@.take(i as int));
                assert(pre[i as int] == a);
            }
            if matches_press && (!found || a.note.timing < self.actives[best].note.timing) {
                best = i;
                found = true;
            }
            i = i + 1;
        }
        proof {
            assert(self.actives@.take(n as int) =~= self.actives@);
        }
        if found {
            let hit = self.actives.remove(best);
            proof {
                assert forall|k: int| 0 <= k < self.actives@.len() implies wf_active(
                    #[trigger] self.actives@[k],
                ) || !wf_actives(old(self).actives@) by {
                    if k < best {
                        assert(self.actives@[k] == old(self).actives@[k]);
                    } else {
                        assert(self.actives@[k] == old(self).actives@[k + 1]);
                    }
                }
            }
            Judgment::Hit(hit.note)
        } else {
            Judgment::Miss
        }
    }

    /// Judges a whole per-tick buffer of lane presses, in order, each press
    /// exactly once, and returns one judgment per press.
    pub fn drain_presses(&mut self, presses: &Vec<NoteLane>) -> (r: Vec<Judgment>)
        ensures
            final(self)@.count == old(self)@.count,
            final(self)@.pending == old(self)@.pending,
            final(self)@.actives == judge_presses_actives(
                old(self)@.actives,
                presses@,
                old(self)@.count as int,
            ),
            r@ == judge_presses_results(old(self)@.actives, presses@, old(self)@.count as int),
            wf_actives(old(self).actives@) ==> wf_actives(final(self).actives@),
    {
        let ghost a0 = self.actives@;
        let ghost c = self@.count as int;
        let mut out: Vec<Judgment> = Vec::new();
        let mut i: usize = 0;
        proof {
            assert(presses@.skip(0) =~= presses@);
            assert(Seq::<Judgment>::empty() + judge_presses_results(self.actives@, presses@, c)
                =~= judge_presses_results(self.actives@, presses@, c));
        }
        while i < presses.len()
            invariant
                i <= presses.len(),
                self@.count == c,
                self@.pending == old(self)@.pending,
                judge_presses_actives(a0, presses@, c) == judge_presses_actives(
                    self.actives@,
                    presses@.skip(i as int),
                    c,
                ),
                judge_presses_results(a0, presses@, c) == out@ + judge_presses_results(
                    self.actives@,
                    presses@.skip(i as int),
                    c,
                ),
                wf_actives(a0) ==> wf_actives(self.actives@),
            decreases presses.len() - i,
        {
            let ghost tail = presses@.skip(i as int);
            let ghost before = self.actives@;
            proof {
                assert(tail[0] == presses@[i as int]);
                assert(tail.drop_first() =~= presses@.skip(i as int + 1));
            }
            let j = self.lane_tap(presses[i]);
            proof {
                assert(self.actives@ == judge_one_actives(before, presses@[i as int], c));
                assert(j == judge_one_result(before, presses@[i as int], c));
            }
            out.push(j);
            proof {
                assert(out@.drop_last() + (seq![j] + judge_presses_results(
                    self.actives@,
                    presses@.skip(i as int + 1),
                    c,
                )) =~= out@ + judge_presses_results(
                    self.actives@,
                    presses@.skip(i as int + 1),
                    c,
                ));
            }
            i = i + 1;
        }
        proof {
            assert(presses@.skip(presses@.len() as int) =~= Seq::<NoteLane>::empty());
            assert(out@ + Seq::<Judgment>::empty() =~= out@);
        }
        out
    }

    /// Transport: parses a beatmap document and, only on success, replaces
    /// the store, resets the clock to frame zero and clears the screen, as
    /// one unit. On failure the whole state is left exactly as it was.
    pub fn load(&mut self, data: &[u8]) -> (r: Result<(), FormatError>)
        ensures
            match parse_beatmap(data@) {
                None => r == Err::<(), FormatError>(FormatError::Malformed) && final(self)@
                    == old(self)@,
                Some(ns) => {
                    if sorted_by_timing(ns) {
                        &&& r == Ok::<(), FormatError>(())
                        &&& final(self)@.count == 0
                        &&& final(self)@.pending == ns
                        &&& final(self)@.actives.len() == 0
                        &&& final(self).wf()
                    } else {
                        r == Err::<(), FormatError>(FormatError::Unsorted) && final(self)@
                            == old(self)@
                    }
                },
            },
    {
        match load_beatmap(data) {
            Err(e) => Err(e),
            Ok(b) => {
                self.beatmap = b;
                self.frames.count = 0;
                self.actives = Vec::new();
                Ok(())
            },
        }
    }

    /// Transport: serializes the current store to the canonical document,
    /// preserving note order, without touching any state.
    pub fn save(&self) -> (r: Vec<u8>)
        ensures
            r@ == encode_beatmap(self@.pending),
    {
        save_beatmap(&self.beatmap)
    }

    /// Transport: replaces the store with the canonical beatmap, resets the
    /// clock to frame zero, and clears the screen, as one unit.
    pub fn reload(&mut self)
        ensures
            final(self)@.count == 0,
            final(self)@.pending == sample_beatmap_spec(),
            final(self)@.actives.len() == 0,
            final(self).wf(),
    {
        self.beatmap = sample_beatmap();
        self.frames.count = 0;
        self.actives = Vec::new();
    }
}

} // verus!
