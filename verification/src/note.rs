//! Note events, lanes, and the beatmap store.

use vstd::prelude::*;

verus! {

/// Frames of lead time between a note's spawn and its notated hit time.
pub const LOOKAHEAD_FRAMES: usize = 56;

/// Symmetric hit window, in frames, around a note's timing.
pub const TOLERANCE: usize = 10;

/// Frames past a note's timing after which an unjudged note is despawned.
pub const DESPAWN_GRACE: usize = 10;

/// One of the eight fixed input lanes, each bound to a physical key and a
/// fixed screen column. Lanes are compared by equality only.
#[derive(Clone, Copy, PartialEq, Eq, Structural, Debug)]
pub enum NoteLane {
    LaneA,
    LaneS,
    LaneD,
    LaneF,
    LaneJ,
    LaneK,
    LaneL,
    LaneSemicolon,
}

/// A timed note event: the frame at which the note must reach the judgment
/// line, and the lane it belongs to.
#[derive(Clone, Copy, PartialEq, Eq, Structural, Debug)]
pub struct NoteId {
    pub timing: usize,
    pub lane: NoteLane,
}

/// The horizontal screen position of a lane's column, in pixels.
pub open spec fn lane_x_spec(lane: NoteLane) -> int {
    match lane {
        NoteLane::LaneA => -525,
        NoteLane::LaneS => -381,
        NoteLane::LaneD => -237,
        NoteLane::LaneF => -93,
        NoteLane::LaneJ => 93,
        NoteLane::LaneK => 237,
        NoteLane::LaneL => 381,
        NoteLane::LaneSemicolon => 525,
    }
}

/// Returns the fixed x-position of `lane`'s column.
pub fn lane_x(lane: NoteLane) -> (r: i32)
    ensures
        r as int == lane_x_spec(lane),
{
    match lane {
        NoteLane::LaneA => -525,
        NoteLane::LaneS => -381,
        NoteLane::LaneD => -237,
        NoteLane::LaneF => -93,
        NoteLane::LaneJ => 93,
        NoteLane::LaneK => 237,
        NoteLane::LaneL => 381,
        NoteLane::LaneSemicolon => 525,
    }
}

/// Index of the per-lane audio cue, 1 through 8 from the leftmost lane.
pub fn lane_sound_index(lane: NoteLane) -> (r: u8)
    ensures
        r == (match lane {
            NoteLane::LaneA => 1u8,
            NoteLane::LaneS => 2u8,
            NoteLane::LaneD => 3u8,
            NoteLane::LaneF => 4u8,
            NoteLane::LaneJ => 5u8,
            NoteLane::LaneK => 6u8,
            NoteLane::LaneL => 7u8,
            NoteLane::LaneSemicolon => 8u8,
        }),
{
    match lane {
        NoteLane::LaneA => 1,
        NoteLane::LaneS => 2,
        NoteLane::LaneD => 3,
        NoteLane::LaneF => 4,
        NoteLane::LaneJ => 5,
        NoteLane::LaneK => 6,
        NoteLane::LaneL => 7,
        NoteLane::LaneSemicolon => 8,
    }
}

/// The lane bound to a physical key, given as the key's ASCII byte.
pub fn lane_of_key(key: u8) -> (r: Option<NoteLane>)
    ensures
        r == (match key {
            97u8 => Some(NoteLane::LaneA),
            115u8 => Some(NoteLane::LaneS),
            100u8 => Some(NoteLane::LaneD),
            102u8 => Some(NoteLane::LaneF),
            106u8 => Some(NoteLane::LaneJ),
            107u8 => Some(NoteLane::LaneK),
            108u8 => Some(NoteLane::LaneL),
            59u8 => Some(NoteLane::LaneSemicolon),
            _ => None::<NoteLane>,
        }),
{
    match key {
        97 => Some(NoteLane::LaneA),
        115 => Some(NoteLane::LaneS),
        100 => Some(NoteLane::LaneD),
        102 => Some(NoteLane::LaneF),
        106 => Some(NoteLane::LaneJ),
        107 => Some(NoteLane::LaneK),
        108 => Some(NoteLane::LaneL),
        59 => Some(NoteLane::LaneSemicolon),
        _ => None,
    }
}

/// A note sequence is ordered when timings never decrease.
pub open spec fn sorted_by_timing(notes: Seq<NoteId>) -> bool {
    forall|i: int, j: int| 0 <= i < j < notes.len() ==> #[trigger] notes[i].timing <= #[trigger] notes[j].timing
}

/// A note sequence with strictly increasing timings.
pub open spec fn strictly_sorted_by_timing(notes: Seq<NoteId>) -> bool {
    forall|i: int, j: int| 0 <= i < j < notes.len() ==> #[trigger] notes[i].timing < #[trigger] notes[j].timing
}

/// The ordered sequence of note events remaining to be spawned.
///
/// The store only shrinks from the front during play, and is wholesale
/// replaced by the transport operations.
#[derive(Debug)]
pub struct Beatmap {
    pub notes: Vec<NoteId>,
}

impl View for Beatmap {
    type V = Seq<NoteId>;

    open spec fn view(&self) -> Seq<NoteId> {
        self.notes@
    }
}

impl Beatmap {
    /// A well-formed store holds its notes in non-decreasing timing order.
    pub open spec fn wf(&self) -> bool {
        sorted_by_timing(self@)
    }

    /// Creates a store over an already ordered note sequence.
    pub fn new(notes: Vec<NoteId>) -> (b: Beatmap)
        requires
            sorted_by_timing(notes@),
        ensures
            b@ == notes@,
            b.wf(),
    {
        Beatmap { notes }
    }

    pub fn len(&self) -> (n: usize)
        ensures
            n == self@.len(),
    {
        self.notes.len()
    }

    pub fn is_empty(&self) -> (r: bool)
        ensures
            r == (self@.len() == 0),
    {
        self.notes.len() == 0
    }

    /// Returns the earliest not-yet-spawned event without mutating the store.
    pub fn peek_head(&self) -> (r: Option<NoteId>)
        ensures
            self@.len() == 0 ==> r is None,
            self@.len() > 0 ==> r == Some(self@[0]),
    {
        if self.notes.len() == 0 {
            None
        } else {
            Some(self.notes[0])
        }
    }

    /// Removes and returns the earliest event. Callers must check emptiness
    /// first: popping an empty store is a scheduler bug, not a runtime error.
    pub fn pop_head(&mut self) -> (r: NoteId)
        requires
            old(self)@.len() > 0,
        ensures
            r == old(self)@[0],
            final(self)@ == old(self)@.drop_first(),
    {
        let r = self.notes.remove(0);
        proof {
            assert(self@ =~= old(self)@.drop_first());
        }
        r
    }
}

/// The canonical built-in beatmap: eight notes, one per lane, fifty frames
/// apart starting at frame 200.
pub open spec fn sample_beatmap_spec() -> Seq<NoteId> {
    seq![
        NoteId { timing: 200, lane: NoteLane::LaneA },
        NoteId { timing: 250, lane: NoteLane::LaneS },
        NoteId { timing: 300, lane: NoteLane::LaneD },
        NoteId { timing: 350, lane: NoteLane::LaneF },
        NoteId { timing: 400, lane: NoteLane::LaneJ },
        NoteId { timing: 450, lane: NoteLane::LaneK },
        NoteId { timing: 500, lane: NoteLane::LaneL },
        NoteId { timing: 550, lane: NoteLane::LaneSemicolon },
    ]
}

/// Builds the canonical beatmap.
pub fn sample_beatmap() -> (b: Beatmap)
    ensures
        b@ == sample_beatmap_spec(),
        b.wf(),
        strictly_sorted_by_timing(b@),
{
    let mut notes: Vec<NoteId> = Vec::new();
    notes.push(NoteId { timing: 200, lane: NoteLane::LaneA });
    notes.push(NoteId { timing: 250, lane: NoteLane::LaneS });
    notes.push(NoteId { timing: 300, lane: NoteLane::LaneD });
    notes.push(NoteId { timing: 350, lane: NoteLane::LaneF });
    notes.push(NoteId { timing: 400, lane: NoteLane::LaneJ });
    notes.push(NoteId { timing: 450, lane: NoteLane::LaneK });
    notes.push(NoteId { timing: 500, lane: NoteLane::LaneL });
    notes.push(NoteId { timing: 550, lane: NoteLane::LaneSemicolon });
    proof {
        assert(notes@ =~= sample_beatmap_spec());
    }
    Beatmap { notes }
}

/// Notes recorded from key presses in the editor, in press order.
pub struct BeatmapRecord {
    pub notes: Vec<NoteId>,
}

impl View for BeatmapRecord {
    type V = Seq<NoteId>;

    open spec fn view(&self) -> Seq<NoteId> {
        self.notes@
    }
}

impl BeatmapRecord {
    pub fn new() -> (r: BeatmapRecord)
        ensures
            r@.len() == 0,
    {
        BeatmapRecord { notes: Vec::new() }
    }

    /// Appends one recorded press, stamped with the current frame.
    pub fn record_press(&mut self, frame: usize, lane: NoteLane)
        ensures
            final(self)@ == old(self)@.push(NoteId { timing: frame, lane: lane }),
    {
        self.notes.push(NoteId { timing: frame, lane });
    }
}

} // verus!
