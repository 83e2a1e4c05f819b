use machitan::codec::load_beatmap;
use machitan::codec::save_beatmap;
use machitan::codec::FormatError;
use machitan::note::Beatmap;
use machitan::note::NoteId;
use machitan::note::NoteLane;
use machitan::note::sample_beatmap;
use machitan::sim::Simulation;

fn notes(pairs: &[(usize, NoteLane)]) -> Vec<NoteId> {
    pairs.iter().map(|&(timing, lane)| NoteId { timing, lane }).collect()
}

#[test]
fn save_writes_the_exact_canonical_document() {
    let b = Beatmap::new(notes(&[(200, NoteLane::LaneA), (250, NoteLane::LaneS)]));
    let out = save_beatmap(&b);
    let expected =
        "notes = [ { timing = 200, lane = \"LaneA\" }, { timing = 250, lane = \"LaneS\" }, ]\n";
    assert_eq!(String::from_utf8(out).unwrap(), expected);
}

#[test]
fn save_of_empty_store() {
    let b = Beatmap::new(vec![]);
    let out = save_beatmap(&b);
    assert_eq!(String::from_utf8(out).unwrap(), "notes = [ ]\n");
}

#[test]
fn round_trip_preserves_the_sample_beatmap() {
    let b = sample_beatmap();
    let out = save_beatmap(&b);
    let back = load_beatmap(&out).unwrap();
    assert_eq!(back.notes, b.notes);
}

#[test]
fn round_trip_preserves_every_lane() {
    let all = notes(&[
        (10, NoteLane::LaneA),
        (20, NoteLane::LaneS),
        (30, NoteLane::LaneD),
        (40, NoteLane::LaneF),
        (50, NoteLane::LaneJ),
        (60, NoteLane::LaneK),
        (70, NoteLane::LaneL),
        (80, NoteLane::LaneSemicolon),
    ]);
    let b = Beatmap::new(all.clone());
    let back = load_beatmap(&save_beatmap(&b)).unwrap();
    assert_eq!(back.notes, all);
}

#[test]
fn round_trip_of_empty_beatmap() {
    let b = Beatmap::new(vec![]);
    let back = load_beatmap(&save_beatmap(&b)).unwrap();
    assert!(back.notes.is_empty());
}

#[test]
fn round_trip_keeps_equal_timings() {
    let same = notes(&[(100, NoteLane::LaneA), (100, NoteLane::LaneS)]);
    let b = Beatmap::new(same.clone());
    let back = load_beatmap(&save_beatmap(&b)).unwrap();
    assert_eq!(back.notes, same);
}

#[test]
fn round_trip_keeps_the_largest_timing() {
    let big = notes(&[(usize::MAX, NoteLane::LaneL)]);
    let b = Beatmap::new(big.clone());
    let back = load_beatmap(&save_beatmap(&b)).unwrap();
    assert_eq!(back.notes, big);
}

#[test]
fn loader_accepts_free_whitespace() {
    let doc = "  notes\t=\n[\n  { timing=200 , lane = \"LaneA\" }\n, {timing = 250,lane=\"LaneS\"} ]\n";
    let b = load_beatmap(doc.as_bytes()).unwrap();
    assert_eq!(
        b.notes,
        notes(&[(200, NoteLane::LaneA), (250, NoteLane::LaneS)])
    );
}

#[test]
fn loader_accepts_compact_document_without_trailing_comma() {
    let doc = "notes=[{timing=7,lane=\"LaneSemicolon\"}]";
    let b = load_beatmap(doc.as_bytes()).unwrap();
    assert_eq!(b.notes, notes(&[(7, NoteLane::LaneSemicolon)]));
}

#[test]
fn loader_accepts_empty_list() {
    let b = load_beatmap(b"notes = []").unwrap();
    assert!(b.notes.is_empty());
}

#[test]
fn missing_notes_field_is_malformed() {
    let r = load_beatmap(b"beats = [ { timing = 1, lane = \"LaneA\" } ]");
    assert_eq!(r.unwrap_err(), FormatError::Malformed);
}

#[test]
fn empty_document_is_malformed() {
    assert_eq!(load_beatmap(b"").unwrap_err(), FormatError::Malformed);
}

#[test]
fn unknown_lane_name_is_malformed() {
    let r = load_beatmap(b"notes = [ { timing = 1, lane = \"LaneQ\" } ]");
    assert_eq!(r.unwrap_err(), FormatError::Malformed);
}

#[test]
fn unquoted_lane_name_is_malformed() {
    let r = load_beatmap(b"notes = [ { timing = 1, lane = LaneA } ]");
    assert_eq!(r.unwrap_err(), FormatError::Malformed);
}

#[test]
fn missing_timing_field_is_malformed() {
    let r = load_beatmap(b"notes = [ { lane = \"LaneA\" } ]");
    assert_eq!(r.unwrap_err(), FormatError::Malformed);
}

#[test]
fn trailing_garbage_is_malformed() {
    let r = load_beatmap(b"notes = [ ] extra");
    assert_eq!(r.unwrap_err(), FormatError::Malformed);
}

#[test]
fn unclosed_list_is_malformed() {
    let r = load_beatmap(b"notes = [ { timing = 1, lane = \"LaneA\" }");
    assert_eq!(r.unwrap_err(), FormatError::Malformed);
}

#[test]
fn timing_overflow_is_malformed() {
    // One above usize::MAX on a 64-bit machine.
    let r = load_beatmap(b"notes = [ { timing = 18446744073709551616, lane = \"LaneA\" } ]");
    assert_eq!(r.unwrap_err(), FormatError::Malformed);
}

#[test]
fn notes_out_of_order_are_rejected_as_unsorted() {
    let r = load_beatmap(
        b"notes = [ { timing = 250, lane = \"LaneS\" }, { timing = 200, lane = \"LaneA\" } ]",
    );
    assert_eq!(r.unwrap_err(), FormatError::Unsorted);
}

#[test]
fn transport_load_replaces_state_and_resets_clock() {
    let mut sim = Simulation::new(sample_beatmap());
    while sim.frames.count < 150 {
        sim.tick();
    }
    let doc = b"notes = [ { timing = 90, lane = \"LaneK\" } ]";
    assert!(sim.load(doc).is_ok());
    assert_eq!(sim.frames.count, 0);
    assert_eq!(sim.actives.len(), 0);
    assert_eq!(sim.beatmap.notes, notes(&[(90, NoteLane::LaneK)]));
}

#[test]
fn failed_load_leaves_state_untouched() {
    // A malformed document (the `notes` field is missing) must change
    // neither the store nor the frame counter.
    let mut sim = Simulation::new(sample_beatmap());
    while sim.frames.count < 150 {
        sim.tick();
    }
    let frames_before = sim.frames.count;
    let store_before = sim.beatmap.notes.clone();
    let actives_before = sim.actives.len();
    let r = sim.load(b"tracks = [ { timing = 1, lane = \"LaneA\" } ]");
    assert_eq!(r.unwrap_err(), FormatError::Malformed);
    assert_eq!(sim.frames.count, frames_before);
    assert_eq!(sim.beatmap.notes, store_before);
    assert_eq!(sim.actives.len(), actives_before);
}

#[test]
fn transport_save_serializes_current_store() {
    let sim = Simulation::new(Beatmap::new(notes(&[(42, NoteLane::LaneD)])));
    let out = sim.save();
    assert_eq!(
        String::from_utf8(out).unwrap(),
        "notes = [ { timing = 42, lane = \"LaneD\" }, ]\n"
    );
}
