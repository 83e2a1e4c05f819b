use machitan::laws::run_pipeline;
use machitan::modes::ApplicationState;
use machitan::modes::PauseState;
use machitan::modes::pipeline_active;
use machitan::modes::toggle_pause;
use machitan::note::Beatmap;
use machitan::note::BeatmapRecord;
use machitan::note::NoteId;
use machitan::note::NoteLane;
use machitan::note::lane_of_key;
use machitan::note::lane_sound_index;
use machitan::note::lane_x;
use machitan::note::sample_beatmap;
use machitan::sim::FramesCount;
use machitan::sim::Judgment;
use machitan::sim::Simulation;

fn sim_from(notes: Vec<NoteId>) -> Simulation {
    Simulation::new(Beatmap::new(notes))
}

fn tick_until(sim: &mut Simulation, frame: usize) {
    while sim.frames.count < frame {
        sim.tick();
    }
}

#[test]
fn frame_clock_counts_ticks() {
    let mut sim = sim_from(vec![]);
    assert_eq!(sim.frames.count, 0);
    sim.tick();
    assert_eq!(sim.frames.count, 1);
    sim.tick();
    sim.tick();
    assert_eq!(sim.frames.count, 3);
}

#[test]
fn spawn_happens_at_lookahead_not_earlier() {
    // A note at timing 300 must materialize when the clock first reaches
    // 300 - 56 = 244.
    let mut sim = sim_from(vec![NoteId { timing: 300, lane: NoteLane::LaneD }]);
    tick_until(&mut sim, 243);
    assert_eq!(sim.actives.len(), 0);
    assert_eq!(sim.beatmap.len(), 1);
    sim.tick();
    assert_eq!(sim.frames.count, 244);
    assert_eq!(sim.actives.len(), 1);
    assert_eq!(sim.beatmap.len(), 0);
    assert_eq!(sim.actives[0].note.timing, 300);
    assert_eq!(sim.actives[0].spawn_frame, 244);
}

#[test]
fn full_run_without_input_drains_everything() {
    // Max timing of the canonical beatmap is 550; after 550 + 10 + 1 ticks
    // every note has spawned and expired.
    let mut sim = Simulation::new(sample_beatmap());
    run_pipeline(&mut sim, 561);
    assert_eq!(sim.frames.count, 561);
    assert_eq!(sim.beatmap.len(), 0);
    assert_eq!(sim.actives.len(), 0);
}

#[test]
fn press_in_window_hits_and_consumes_one_note() {
    let mut sim = sim_from(vec![NoteId { timing: 200, lane: NoteLane::LaneA }]);
    tick_until(&mut sim, 200);
    assert_eq!(sim.actives.len(), 1);
    let r = sim.lane_tap(NoteLane::LaneA);
    assert_eq!(r, Judgment::Hit(NoteId { timing: 200, lane: NoteLane::LaneA }));
    assert_eq!(sim.actives.len(), 0);
}

#[test]
fn press_at_window_edges_hits() {
    let mut sim = sim_from(vec![NoteId { timing: 200, lane: NoteLane::LaneA }]);
    tick_until(&mut sim, 190);
    assert!(matches!(sim.lane_tap(NoteLane::LaneA), Judgment::Hit(_)));

    let mut sim = sim_from(vec![NoteId { timing: 200, lane: NoteLane::LaneA }]);
    tick_until(&mut sim, 210);
    assert!(matches!(sim.lane_tap(NoteLane::LaneA), Judgment::Hit(_)));
}

#[test]
fn press_outside_window_misses() {
    let mut sim = sim_from(vec![NoteId { timing: 200, lane: NoteLane::LaneA }]);
    tick_until(&mut sim, 189);
    assert_eq!(sim.lane_tap(NoteLane::LaneA), Judgment::Miss);
    assert_eq!(sim.actives.len(), 1);
}

#[test]
fn press_on_other_lane_misses() {
    let mut sim = sim_from(vec![NoteId { timing: 200, lane: NoteLane::LaneA }]);
    tick_until(&mut sim, 200);
    assert_eq!(sim.lane_tap(NoteLane::LaneS), Judgment::Miss);
    assert_eq!(sim.actives.len(), 1);
}

#[test]
fn earliest_note_in_lane_wins() {
    // Two notes share a lane with overlapping windows; the earlier timing
    // must be judged first.
    let mut sim = sim_from(vec![
        NoteId { timing: 100, lane: NoteLane::LaneA },
        NoteId { timing: 105, lane: NoteLane::LaneA },
    ]);
    tick_until(&mut sim, 105);
    assert_eq!(sim.actives.len(), 2);
    let r = sim.lane_tap(NoteLane::LaneA);
    assert_eq!(r, Judgment::Hit(NoteId { timing: 100, lane: NoteLane::LaneA }));
    assert_eq!(sim.actives.len(), 1);
    assert_eq!(sim.actives[0].note.timing, 105);
}

#[test]
fn equal_timings_judge_in_spawn_order() {
    let mut sim = sim_from(vec![
        NoteId { timing: 100, lane: NoteLane::LaneA },
        NoteId { timing: 100, lane: NoteLane::LaneA },
    ]);
    tick_until(&mut sim, 100);
    assert_eq!(sim.actives.len(), 2);
    let first = sim.actives[0].spawn_frame;
    let second = sim.actives[1].spawn_frame;
    assert!(first < second);
    let r = sim.lane_tap(NoteLane::LaneA);
    assert!(matches!(r, Judgment::Hit(_)));
    assert_eq!(sim.actives.len(), 1);
    assert_eq!(sim.actives[0].spawn_frame, second);
}

#[test]
fn hit_then_expiry_scenario() {
    // Beatmap [{200, LaneA}, {250, LaneS}]: a LaneA press at frame 200
    // consumes the first note; with no LaneS press, the second expires by
    // frame 261 and both the store and the screen end empty.
    let mut sim = sim_from(vec![
        NoteId { timing: 200, lane: NoteLane::LaneA },
        NoteId { timing: 250, lane: NoteLane::LaneS },
    ]);
    tick_until(&mut sim, 200);
    let r = sim.lane_tap(NoteLane::LaneA);
    assert_eq!(r, Judgment::Hit(NoteId { timing: 200, lane: NoteLane::LaneA }));
    assert!(sim.actives.iter().all(|a| a.note.lane == NoteLane::LaneS));
    tick_until(&mut sim, 261);
    assert_eq!(sim.actives.len(), 0);
    assert_eq!(sim.beatmap.len(), 0);
}

#[test]
fn press_buffer_is_drained_once_per_press() {
    // Each buffered press is judged exactly once, in order.
    let mut sim = sim_from(vec![
        NoteId { timing: 100, lane: NoteLane::LaneA },
        NoteId { timing: 100, lane: NoteLane::LaneS },
    ]);
    tick_until(&mut sim, 100);
    let presses = vec![NoteLane::LaneA, NoteLane::LaneA, NoteLane::LaneS];
    let judgments = sim.drain_presses(&presses);
    assert_eq!(
        judgments,
        vec![
            Judgment::Hit(NoteId { timing: 100, lane: NoteLane::LaneA }),
            Judgment::Miss,
            Judgment::Hit(NoteId { timing: 100, lane: NoteLane::LaneS }),
        ]
    );
    assert_eq!(sim.actives.len(), 0);
}

#[test]
fn unhit_note_expires_after_grace() {
    let mut sim = sim_from(vec![NoteId { timing: 30, lane: NoteLane::LaneA }]);
    tick_until(&mut sim, 40);
    assert_eq!(sim.actives.len(), 1);
    sim.tick();
    assert_eq!(sim.frames.count, 41);
    assert_eq!(sim.actives.len(), 0);
}

#[test]
fn reload_resets_clock_and_restores_canonical_beatmap() {
    let mut sim = sim_from(vec![NoteId { timing: 100, lane: NoteLane::LaneJ }]);
    tick_until(&mut sim, 105);
    assert!(sim.actives.len() > 0);
    sim.reload();
    assert_eq!(sim.frames.count, 0);
    assert_eq!(sim.actives.len(), 0);
    assert_eq!(sim.beatmap.notes, sample_beatmap().notes);
}

#[test]
fn reload_from_fresh_state_also_restores() {
    let mut sim = sim_from(vec![]);
    sim.reload();
    assert_eq!(sim.frames.count, 0);
    assert_eq!(sim.beatmap.notes.len(), 8);
    assert_eq!(sim.beatmap.notes[0], NoteId { timing: 200, lane: NoteLane::LaneA });
    assert_eq!(
        sim.beatmap.notes[7],
        NoteId { timing: 550, lane: NoteLane::LaneSemicolon }
    );
}

#[test]
fn notes_fall_ten_pixels_per_tick_and_clamp() {
    let mut sim = sim_from(vec![NoteId { timing: 100, lane: NoteLane::LaneF }]);
    tick_until(&mut sim, 44);
    assert_eq!(sim.actives.len(), 1);
    assert_eq!(sim.actives[0].y, 275);
    assert_eq!(sim.actives[0].x, -93);
    sim.tick();
    assert_eq!(sim.actives[0].y, 265);
    sim.tick();
    assert_eq!(sim.actives[0].y, 255);
    // By the hit time the note has reached the judgment line and stays
    // clamped there.
    tick_until(&mut sim, 100);
    assert_eq!(sim.actives[0].y, -275);
    sim.tick();
    assert_eq!(sim.actives[0].y, -275);
}

#[test]
fn one_spawn_per_tick_backlog() {
    // Three notes due at once spawn on three consecutive ticks.
    let mut sim = sim_from(vec![
        NoteId { timing: 100, lane: NoteLane::LaneA },
        NoteId { timing: 100, lane: NoteLane::LaneS },
        NoteId { timing: 100, lane: NoteLane::LaneD },
    ]);
    tick_until(&mut sim, 44);
    assert_eq!(sim.actives.len(), 1);
    sim.tick();
    assert_eq!(sim.actives.len(), 2);
    sim.tick();
    assert_eq!(sim.actives.len(), 3);
    assert_eq!(sim.beatmap.len(), 0);
}

#[test]
fn early_notes_spawn_immediately() {
    // A note whose timing is inside the lookahead spawns on the first tick.
    let mut sim = sim_from(vec![NoteId { timing: 5, lane: NoteLane::LaneK }]);
    sim.tick();
    assert_eq!(sim.frames.count, 1);
    assert_eq!(sim.actives.len(), 1);
}

#[test]
fn store_peek_and_pop() {
    let mut b = Beatmap::new(vec![
        NoteId { timing: 1, lane: NoteLane::LaneA },
        NoteId { timing: 2, lane: NoteLane::LaneS },
    ]);
    assert!(!b.is_empty());
    assert_eq!(b.peek_head(), Some(NoteId { timing: 1, lane: NoteLane::LaneA }));
    let head = b.pop_head();
    assert_eq!(head, NoteId { timing: 1, lane: NoteLane::LaneA });
    assert_eq!(b.len(), 1);
    assert_eq!(b.peek_head(), Some(NoteId { timing: 2, lane: NoteLane::LaneS }));
    let _ = b.pop_head();
    assert!(b.is_empty());
    assert_eq!(b.peek_head(), None);
}

#[test]
fn frame_counter_resets() {
    let mut f = FramesCount::new();
    assert_eq!(f.count, 0);
    f.count = 17;
    f.reset();
    assert_eq!(f.count, 0);
}

#[test]
fn recording_appends_presses_in_order() {
    let mut rec = BeatmapRecord::new();
    rec.record_press(10, NoteLane::LaneA);
    rec.record_press(25, NoteLane::LaneSemicolon);
    assert_eq!(rec.notes.len(), 2);
    assert_eq!(rec.notes[0], NoteId { timing: 10, lane: NoteLane::LaneA });
    assert_eq!(rec.notes[1], NoteId { timing: 25, lane: NoteLane::LaneSemicolon });
}

#[test]
fn lane_positions_are_the_fixed_columns() {
    assert_eq!(lane_x(NoteLane::LaneA), -525);
    assert_eq!(lane_x(NoteLane::LaneS), -381);
    assert_eq!(lane_x(NoteLane::LaneD), -237);
    assert_eq!(lane_x(NoteLane::LaneF), -93);
    assert_eq!(lane_x(NoteLane::LaneJ), 93);
    assert_eq!(lane_x(NoteLane::LaneK), 237);
    assert_eq!(lane_x(NoteLane::LaneL), 381);
    assert_eq!(lane_x(NoteLane::LaneSemicolon), 525);
}

#[test]
fn lane_sound_indices_are_one_through_eight() {
    assert_eq!(lane_sound_index(NoteLane::LaneA), 1);
    assert_eq!(lane_sound_index(NoteLane::LaneS), 2);
    assert_eq!(lane_sound_index(NoteLane::LaneD), 3);
    assert_eq!(lane_sound_index(NoteLane::LaneF), 4);
    assert_eq!(lane_sound_index(NoteLane::LaneJ), 5);
    assert_eq!(lane_sound_index(NoteLane::LaneK), 6);
    assert_eq!(lane_sound_index(NoteLane::LaneL), 7);
    assert_eq!(lane_sound_index(NoteLane::LaneSemicolon), 8);
}

#[test]
fn keys_map_to_lanes() {
    assert_eq!(lane_of_key(b'a'), Some(NoteLane::LaneA));
    assert_eq!(lane_of_key(b's'), Some(NoteLane::LaneS));
    assert_eq!(lane_of_key(b'd'), Some(NoteLane::LaneD));
    assert_eq!(lane_of_key(b'f'), Some(NoteLane::LaneF));
    assert_eq!(lane_of_key(b'j'), Some(NoteLane::LaneJ));
    assert_eq!(lane_of_key(b'k'), Some(NoteLane::LaneK));
    assert_eq!(lane_of_key(b'l'), Some(NoteLane::LaneL));
    assert_eq!(lane_of_key(b';'), Some(NoteLane::LaneSemicolon));
    assert_eq!(lane_of_key(b'x'), None);
}

#[test]
fn pause_toggles_and_gates_the_pipeline() {
    assert_eq!(toggle_pause(PauseState::Unpaused), PauseState::Paused);
    assert_eq!(toggle_pause(PauseState::Paused), PauseState::Unpaused);
    assert!(pipeline_active(ApplicationState::InGame, PauseState::Unpaused));
    assert!(!pipeline_active(ApplicationState::InGame, PauseState::Paused));
    assert!(!pipeline_active(ApplicationState::Menu, PauseState::Unpaused));
    assert!(!pipeline_active(ApplicationState::Editor, PauseState::Unpaused));
}
