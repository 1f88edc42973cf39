use sdltgfp::character::OrdDir;
use sdltgfp::character::Piece;
use sdltgfp::spell::process_axioms;
use sdltgfp::spell::step_synapse;
use sdltgfp::spell::trigger_contingency;
use sdltgfp::spell::CasterTarget;
use sdltgfp::spell::Outcome;
use sdltgfp::spell::Range;
use sdltgfp::spell::Species;
use sdltgfp::spell::Synapse;
use sdltgfp::world::Level;
use sdltgfp::world::Location;
use sdltgfp::world::Manager;
use sdltgfp::world::SavePayload;
use sdltgfp::world::TurnCounter;

fn empty_world() -> Manager {
    Manager {
        location: Location { level: String::from("New Level"), floor: 0 },
        current_level: Level { name: String::from("New Level") },
        characters: Vec::new(),
        reality_anchor: 0,
        effects: Vec::new(),
        turn_count: TurnCounter { turns: 0 },
    }
}

fn fresh_outcome() -> Outcome {
    Outcome { new_manager: None, load_failed: false, halted: false }
}

#[test]
fn isolated_cell_terminates_after_one_step() {
    let mut mgr = empty_world();
    mgr.characters.push(Piece::new(Species::Wall, 10, 10, 0));
    let mut store: Option<SavePayload> = None;
    let mut pending: Vec<Vec<Synapse>> = Vec::new();
    let mut outcome = fresh_outcome();
    let mut syn = Synapse::new(10, 10, 0);
    let (retired, spawned) = step_synapse(&mut syn, &mut mgr, &mut store, &mut pending, &mut outcome);
    assert!(retired);
    assert!(spawned.is_empty());
    assert_eq!(syn.visited, vec![(10, 10, 0)]);
}

#[test]
fn empty_cell_retires_wavefront() {
    let mut mgr = empty_world();
    mgr.characters.push(Piece::new(Species::Wall, 40, 40, 0));
    let mut store: Option<SavePayload> = None;
    let mut pending: Vec<Vec<Synapse>> = Vec::new();
    let mut outcome = fresh_outcome();
    let mut syn = Synapse::new(3, 3, 0);
    let (retired, spawned) = step_synapse(&mut syn, &mut mgr, &mut store, &mut pending, &mut outcome);
    assert!(retired);
    assert!(spawned.is_empty());
}

#[test]
fn junction_produces_three_synapses() {
    let mut mgr = empty_world();
    mgr.characters.push(Piece::new(Species::Wall, 10, 10, 0));
    mgr.characters.push(Piece::new(Species::Wall, 10, 9, 0));
    mgr.characters.push(Piece::new(Species::Wall, 11, 10, 0));
    mgr.characters.push(Piece::new(Species::Wall, 10, 11, 0));
    let mut store: Option<SavePayload> = None;
    let mut pending: Vec<Vec<Synapse>> = Vec::new();
    let mut outcome = fresh_outcome();
    let mut syn = Synapse::new(10, 10, 0);
    syn.casters.push(CasterTarget::new(0, vec![(1, 2, 3)]));
    let (retired, spawned) = step_synapse(&mut syn, &mut mgr, &mut store, &mut pending, &mut outcome);
    // One synapse continues, two more spawn: three in all.
    assert!(!retired);
    assert_eq!(spawned.len(), 2);
    // The continuation takes the first clockwise direction from the
    // momentum (up), and the clones the later ones.
    assert_eq!(syn.momentum, OrdDir::Up);
    assert_eq!(syn.pulse, (10, 9, 0));
    assert_eq!(spawned[0].momentum, OrdDir::Right);
    assert_eq!(spawned[0].pulse, (11, 10, 0));
    assert_eq!(spawned[1].momentum, OrdDir::Down);
    assert_eq!(spawned[1].pulse, (10, 11, 0));
    // Each branch carries an independent clone of the caster state.
    for branch in &spawned {
        assert_eq!(branch.casters.len(), 1);
        assert_eq!(branch.casters[0].caster, 0);
        assert_eq!(branch.casters[0].targets, vec![(1, 2, 3)]);
        assert_eq!(branch.visited, syn.visited);
    }
    let mut first = spawned.into_iter().next().unwrap();
    first.casters[0].targets.push((9, 9, 9));
    assert_eq!(syn.casters[0].targets, vec![(1, 2, 3)]);
}

#[test]
fn select_cardinal_teleport_moves_terminal() {
    let mut mgr = empty_world();
    mgr.characters.push(Piece::new(Species::Terminal, 0, 0, 0));
    mgr.characters.push(Piece::new(
        Species::SelectSpecies(Box::new(Species::Terminal)),
        0,
        44,
        0,
    ));
    mgr.characters.push(Piece::new(Species::CardinalTargeter(OrdDir::Right), 0, 43, 0));
    mgr.characters.push(Piece::new(Species::Teleport, 0, 42, 0));
    let mut store: Option<SavePayload> = None;
    let seeds = vec![Synapse::new(0, 0, 0)];
    let out = process_axioms(seeds, &mut mgr, &mut store);
    assert!(!out.halted);
    assert!(out.new_manager.is_none());
    // The terminal walked through the whole spell: selected as caster,
    // targeted one cell to its right, and teleported there.
    assert_eq!(
        (mgr.characters[0].x, mgr.characters[0].y, mgr.characters[0].z),
        (1, 0, 0)
    );
    assert_eq!(mgr.characters[0].momentum, OrdDir::Right);
}

#[test]
fn broadcast_reaches_only_layers_at_or_below_anchor() {
    let mut mgr = empty_world();
    mgr.characters.push(Piece::new(Species::Terminal, 30, 30, 1));
    mgr.reality_anchor = 0;
    mgr.characters.push(Piece::new(
        Species::RadioBroadcaster(Range::Global(String::from("X"))),
        10,
        10,
        1,
    ));
    mgr.characters.push(Piece::new(
        Species::RadioReceiver(Range::Global(String::from("X"))),
        5,
        5,
        0,
    ));
    mgr.characters.push(Piece::new(Species::TurnIncrementer, 5, 4, 0));
    mgr.characters.push(Piece::new(
        Species::RadioReceiver(Range::Global(String::from("X"))),
        5,
        5,
        2,
    ));
    mgr.characters.push(Piece::new(Species::TurnIncrementer, 5, 4, 2));
    let mut store: Option<SavePayload> = None;
    let seeds = vec![Synapse::new(10, 10, 1)];
    let out = process_axioms(seeds, &mut mgr, &mut store);
    assert!(!out.halted);
    // Only the layer-0 receiver is at or below the anchor's layer, so only
    // its turn incrementer fired.
    assert_eq!(mgr.turn_count.turns, 1);
}

#[test]
fn mismatched_broadcast_message_reaches_nothing() {
    let mut mgr = empty_world();
    mgr.characters.push(Piece::new(Species::Terminal, 30, 30, 1));
    mgr.characters.push(Piece::new(
        Species::RadioBroadcaster(Range::Global(String::from("X"))),
        10,
        10,
        1,
    ));
    mgr.characters.push(Piece::new(
        Species::RadioReceiver(Range::Global(String::from("Y"))),
        5,
        5,
        0,
    ));
    mgr.characters.push(Piece::new(Species::TurnIncrementer, 5, 4, 0));
    let mut store: Option<SavePayload> = None;
    let out = process_axioms(vec![Synapse::new(10, 10, 1)], &mut mgr, &mut store);
    assert!(!out.halted);
    assert_eq!(mgr.turn_count.turns, 0);
}

#[test]
fn turn_contingency_runs_seeded_spells() {
    let mut mgr = empty_world();
    // An on-turn contingency standing beside a turn incrementer would loop;
    // here it stands alone, so triggering it once walks one synapse.
    mgr.characters.push(Piece::new(Species::OnTurn, 20, 20, 0));
    mgr.characters.push(Piece::new(Species::Fireworks, 20, 19, 0));
    let mut store: Option<SavePayload> = None;
    let mut syn = Synapse::new(20, 20, 0);
    syn.casters.push(CasterTarget::new(0, vec![(7, 8, 0)]));
    let out = trigger_contingency(&mut mgr, &Species::OnTurn, &mut store);
    assert!(!out.halted);
    // The contingency seeds a fresh synapse with no casters, so the
    // fireworks had nothing to mark; the walk still happened and ended.
    assert_eq!(mgr.effects.len(), 0);
}

#[test]
fn runaway_propagation_halts() {
    let mut mgr = empty_world();
    // Two synaptic receivers re-broadcasting to each other loop forever;
    // the ceiling must stop the run and flag it.
    mgr.characters.push(Piece::new(Species::Terminal, 30, 30, 5));
    mgr.characters.push(Piece::new(
        Species::RadioBroadcaster(Range::Global(String::from("A"))),
        10,
        10,
        0,
    ));
    mgr.characters.push(Piece::new(
        Species::RadioReceiver(Range::Global(String::from("A"))),
        20,
        20,
        0,
    ));
    mgr.characters.push(Piece::new(
        Species::RadioBroadcaster(Range::Global(String::from("A"))),
        20,
        19,
        0,
    ));
    let mut store: Option<SavePayload> = None;
    let out = process_axioms(vec![Synapse::new(10, 10, 0)], &mut mgr, &mut store);
    assert!(out.halted);
}

#[test]
fn save_and_load_round_trip_through_engine() {
    let mut mgr = empty_world();
    mgr.characters.push(Piece::new(Species::Terminal, 7, 8, 0));
    mgr.characters.push(Piece::new(Species::SaveGame, 1, 1, 0));
    mgr.characters.push(Piece::new(Species::LoadGame, 2, 2, 0));
    mgr.turn_count.turns = 41;
    let mut store: Option<SavePayload> = None;
    let out = process_axioms(vec![Synapse::new(1, 1, 0)], &mut mgr, &mut store);
    assert!(!out.halted);
    let payload = store.as_ref().expect("the save effect fills the store");
    assert_eq!(payload.turn_count, 41);
    assert_eq!(payload.characters.len(), 3);
    // Loading builds a replacement world from the stored payload.
    let out2 = process_axioms(vec![Synapse::new(2, 2, 0)], &mut mgr, &mut store);
    assert!(!out2.load_failed);
    let replacement = out2.new_manager.expect("the load effect returns a world");
    assert_eq!(replacement.turn_count.turns, 41);
    assert_eq!(replacement.characters.len(), 3);
    assert_eq!(
        (replacement.characters[0].x, replacement.characters[0].y),
        (7, 8)
    );
}
