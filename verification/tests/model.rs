use sdltgfp::character::OrdDir;
use sdltgfp::character::Piece;
use sdltgfp::expression::Equation;
use sdltgfp::expression::Expression;
use sdltgfp::model::species_eq;
use sdltgfp::options::Controls;
use sdltgfp::options::Options;
use sdltgfp::options::UserInterface;
use sdltgfp::spell::circle_around;
use sdltgfp::spell::find_closest_coordinate;
use sdltgfp::spell::generate_clockwise_rotation;
use sdltgfp::spell::manhattan_distance;
use sdltgfp::spell::match_axiom_with_codename;
use sdltgfp::spell::process_axioms;
use sdltgfp::spell::sort_clockwise;
use sdltgfp::spell::Species;
use sdltgfp::spell::Synapse;
use sdltgfp::vault::Metadata;
use sdltgfp::vault::SymbolMeaning;
use sdltgfp::vault::Tile;
use sdltgfp::vault::Vault;
use sdltgfp::vault::CAVE_SIDE;
use sdltgfp::world::find_piece_at;
use sdltgfp::world::map_wrap;
use sdltgfp::world::restore;
use sdltgfp::world::MovementError;
use sdltgfp::world::MovementResult;
use sdltgfp::world::Level;
use sdltgfp::world::Location;
use sdltgfp::world::Manager;
use sdltgfp::world::SavePayload;
use sdltgfp::world::TurnCounter;

fn world_with(pieces: Vec<Piece>) -> Manager {
    Manager {
        location: Location { level: String::from("New Level"), floor: 0 },
        current_level: Level { name: String::from("New Level") },
        characters: pieces,
        reality_anchor: 0,
        effects: Vec::new(),
        turn_count: TurnCounter { turns: 0 },
    }
}

#[test]
fn map_wrap_keeps_inbounds_and_wraps_edges() {
    assert_eq!(map_wrap(3, 7, 2), (3, 7, 2));
    assert_eq!(map_wrap(45, 0, 0), (0, 0, 0));
    assert_eq!(map_wrap(-1, 0, 0), (44, 0, 0));
    assert_eq!(map_wrap(0, -1, -3), (0, 44, -3));
    assert_eq!(map_wrap(46, 44, 1), (1, 44, 1));
}

#[test]
fn manhattan_distance_sums_axis_offsets() {
    assert_eq!(manhattan_distance((0, 0, 0), (3, 4, 5)), 12);
    assert_eq!(manhattan_distance((3, 4, 5), (3, 4, 5)), 0);
    assert_eq!(manhattan_distance((-2, 1, 0), (2, -1, 0)), 6);
}

#[test]
fn clockwise_rotation_from_each_start() {
    assert_eq!(
        generate_clockwise_rotation(OrdDir::Up),
        [OrdDir::Up, OrdDir::Right, OrdDir::Down, OrdDir::Left]
    );
    assert_eq!(
        generate_clockwise_rotation(OrdDir::Left),
        [OrdDir::Left, OrdDir::Up, OrdDir::Right, OrdDir::Down]
    );
}

#[test]
fn closest_coordinate_prefers_first_minimum() {
    let coords = vec![(5, 5, 0), (1, 0, 0), (0, 1, 0), (9, 9, 9)];
    assert_eq!(find_closest_coordinate(&coords, (0, 0, 0)), Some((1, 0, 0)));
    let empty: Vec<(i32, i32, i32)> = Vec::new();
    assert_eq!(find_closest_coordinate(&empty, (0, 0, 0)), None);
}

#[test]
fn codenames_cover_the_iconed_species() {
    assert_eq!(match_axiom_with_codename(&Species::Teleport), Some("teleport"));
    assert_eq!(
        match_axiom_with_codename(&Species::Keypress(String::from("a"))),
        Some("keypress")
    );
    assert_eq!(match_axiom_with_codename(&Species::Wall), None);
}

#[test]
fn species_equality_is_structural() {
    let a = Species::SelectSpecies(Box::new(Species::Keypress(String::from("z"))));
    let b = Species::SelectSpecies(Box::new(Species::Keypress(String::from("z"))));
    let c = Species::SelectSpecies(Box::new(Species::Keypress(String::from("q"))));
    assert!(species_eq(&a, &b));
    assert!(!species_eq(&a, &c));
    assert!(!species_eq(&a, &Species::Teleport));
}

#[test]
fn circle_candidates_are_distinct_and_periodic() {
    let center = (20, 20, 0);
    let circle = circle_around(&center, 3);
    let sorted = sort_clockwise(&center, &circle);
    let c = sorted.len();
    assert!(c >= 1);
    assert_eq!(c, circle.len());
    // Exactly C distinct candidate points.
    for i in 0..c {
        for j in (i + 1)..c {
            assert_ne!(sorted[i], sorted[j]);
        }
    }
    // Advancing the turn counter by C selects the same candidate again.
    for turns in 0..(2 * c) {
        assert_eq!(turns % c, (turns + c) % c);
    }
}

#[test]
fn orbit_selection_is_periodic_in_the_turn_counter() {
    let radius = 2usize;
    let center = (20, 20, 0);
    let circle = circle_around(&center, radius as i32);
    let sorted = sort_clockwise(&center, &circle);
    let c = sorted.len();
    let mut first_pass: Vec<(i32, i32, i32)> = Vec::new();
    for turns in 0..(2 * c) {
        let mut mgr = world_with(vec![
            Piece::new(Species::Terminal, 20, 20, 0),
            Piece::new(Species::SelectRealityAnchor, 0, 0, 0),
            Piece::new(Species::SelfTargeter, 0, 1, 0),
            Piece::new(Species::Orbit(radius), 0, 2, 0),
            Piece::new(Species::Fireworks, 0, 3, 0),
        ]);
        mgr.turn_count.turns = turns;
        let mut store: Option<SavePayload> = None;
        let out = process_axioms(vec![Synapse::new(0, 0, 0)], &mut mgr, &mut store);
        assert!(!out.halted);
        assert_eq!(mgr.effects.len(), 1);
        first_pass.push((mgr.effects[0].x, mgr.effects[0].y, mgr.effects[0].z));
    }
    // Periodic with period C, over exactly C distinct candidates.
    for turns in 0..c {
        assert_eq!(first_pass[turns], first_pass[turns + c]);
    }
}

#[test]
fn teleport_with_occupied_targets_keeps_the_caster_in_place() {
    let mut mgr = world_with(vec![
        Piece::new(Species::Terminal, 5, 5, 0),
        Piece::new(Species::Wall, 6, 5, 0),
        Piece::new(Species::Wall, 4, 5, 0),
        Piece::new(Species::Teleport, 0, 0, 0),
    ]);
    let mut store: Option<SavePayload> = None;
    let mut seed = Synapse::new(0, 0, 0);
    seed.casters.push(sdltgfp::spell::CasterTarget::new(0, vec![(6, 5, 0), (4, 5, 0)]));
    let out = process_axioms(vec![seed], &mut mgr, &mut store);
    assert!(!out.halted);
    assert_eq!(
        (mgr.characters[0].x, mgr.characters[0].y, mgr.characters[0].z),
        (5, 5, 0)
    );
}

#[test]
fn snapshot_restore_round_trip() {
    let mut mgr = world_with(vec![
        Piece::new(Species::Terminal, 7, 8, 3),
        Piece::new(Species::Wall, 1, 2, 0),
    ]);
    mgr.turn_count.turns = 12;
    let payload = mgr.save_payload();
    let restored = restore(&payload, &mgr).expect("the snapshot holds its own anchor");
    assert_eq!(restored.characters.len(), 2);
    assert_eq!(restored.turn_count.turns, 12);
    for (a, b) in restored.characters.iter().zip(mgr.characters.iter()) {
        assert!(species_eq(&a.species, &b.species));
        assert_eq!((a.x, a.y, a.z), (b.x, b.y, b.z));
    }
    assert_eq!(restored.reality_anchor, 0);
}

#[test]
fn restore_fails_without_a_matching_anchor() {
    let mgr = world_with(vec![Piece::new(Species::Terminal, 7, 8, 3)]);
    let payload = SavePayload {
        characters: vec![Piece::new(Species::Terminal, 1, 1, 1)],
        reality_anchor: Piece::new(Species::Terminal, 9, 9, 9),
        turn_count: 0,
    };
    assert!(restore(&payload, &mgr).is_none());
}

#[test]
fn find_piece_at_returns_the_first_match() {
    let pieces = vec![
        Piece::new(Species::Wall, 1, 1, 0),
        Piece::new(Species::Terminal, 2, 2, 0),
        Piece::new(Species::Wall, 2, 2, 0),
    ];
    assert_eq!(find_piece_at(&pieces, 2, 2, 0), Some(1));
    assert_eq!(find_piece_at(&pieces, 3, 3, 0), None);
}

#[test]
fn apply_vault_stamps_characters_at_offsets() {
    let mut mgr = world_with(vec![Piece::new(Species::Terminal, 0, 0, 0)]);
    let vault = Vault {
        tiles: Vec::new(),
        width: 0,
        characters: vec![(1, 2, String::from("luvui")), (3, 4, String::from("aris"))],
    };
    mgr.apply_vault(10, 20, 1, &vault);
    assert_eq!(mgr.characters.len(), 3);
    assert_eq!((mgr.characters[1].x, mgr.characters[1].y, mgr.characters[1].z), (11, 22, 1));
    assert_eq!((mgr.characters[2].x, mgr.characters[2].y, mgr.characters[2].z), (13, 24, 1));
    assert!(species_eq(&mgr.characters[1].species, &Species::Wall));
}

#[test]
fn default_options_match_the_stock_bindings() {
    let options = Options::default();
    assert_eq!(options.ui, UserInterface::default());
    let controls = Controls::default();
    assert_eq!(controls.left, vec![104, 1073741904, 1073741916]);
    assert_eq!(controls.right, vec![108, 1073741903, 1073741918]);
    assert_eq!(controls.up, vec![107, 1073741906, 1073741920]);
    assert_eq!(controls.down, vec![106, 1073741905, 1073741914]);
}

#[test]
fn equation_eval_handles_constants_and_operators() {
    let eq = Equation {
        source: String::new(),
        root: Expression::Integer(5),
        leaves: Vec::new(),
    };
    assert_eq!(eq.eval(&()).unwrap(), 5);
    let eq = Equation {
        source: String::new(),
        root: Expression::AddC(1, 3),
        leaves: vec![Expression::Integer(2), Expression::MulC(0, 10)],
    };
    assert_eq!(eq.eval(&()).unwrap(), 23);
    let eq = Equation {
        source: String::new(),
        root: Expression::Div(0, 1),
        leaves: vec![Expression::Integer(9), Expression::Integer(0)],
    };
    assert!(eq.eval(&()).is_err());
}

#[test]
fn dice_rolls_stay_in_range() {
    let eq = Equation {
        source: String::new(),
        root: Expression::Roll(3, 6),
        leaves: Vec::new(),
    };
    for _ in 0..50 {
        let total = eq.eval(&()).unwrap();
        assert!((3..=18).contains(&total));
    }
}

#[test]
fn undefined_variables_are_reported() {
    let eq = Equation {
        source: String::from("might"),
        root: Expression::Variable(0, 5),
        leaves: Vec::new(),
    };
    assert!(eq.eval(&()).is_err());
}

#[test]
fn cave_generation_walls_the_border() {
    let rolls = vec![true; (CAVE_SIDE - 2) * (CAVE_SIDE - 2)];
    let cave = Vault::cellular_automata(&rolls);
    assert_eq!(cave.width, CAVE_SIDE);
    assert_eq!(cave.tiles.len(), CAVE_SIDE * CAVE_SIDE);
    assert!(cave.characters.is_empty());
    for x in 0..CAVE_SIDE {
        assert_eq!(cave.tiles[x], Some(Tile::Wall));
        assert_eq!(cave.tiles[(CAVE_SIDE - 1) * CAVE_SIDE + x], Some(Tile::Wall));
        assert_eq!(cave.tiles[x * CAVE_SIDE], Some(Tile::Wall));
        assert_eq!(cave.tiles[x * CAVE_SIDE + CAVE_SIDE - 1], Some(Tile::Wall));
    }
    // An all-floor seeding touches no walls in the deep interior, so the
    // zero-neighbour rule fills it back in.
    assert_eq!(cave.tiles[18 * CAVE_SIDE + 18], Some(Tile::Wall));
}

#[test]
fn wrapped_movement_collides_with_occupants() {
    let mut mgr = world_with(vec![
        Piece::new(Species::Terminal, 44, 0, 0),
        Piece::new(Species::Wall, 0, 0, 0),
    ]);
    let mut store: Option<SavePayload> = None;
    // Stepping right from the eastern rim wraps onto the wall.
    let blocked = mgr.move_piece(0, OrdDir::Right, &mut store);
    assert!(matches!(blocked, Err(MovementError::HitWall)));
    assert_eq!((mgr.characters[0].x, mgr.characters[0].y), (44, 0));
    // Stepping down is free.
    let moved = mgr.move_piece(0, OrdDir::Down, &mut store);
    assert!(matches!(moved, Ok(MovementResult::Move)));
    assert_eq!((mgr.characters[0].x, mgr.characters[0].y), (44, 1));
    assert_eq!(mgr.characters[0].momentum, OrdDir::Down);
}

#[test]
fn collision_contingency_fires_matching_spells() {
    let mut mgr = world_with(vec![
        Piece::new(Species::Terminal, 10, 10, 0),
        Piece::new(Species::Wall, 11, 10, 0),
        Piece::new(
            Species::OnCollision(Box::new(Species::Wall)),
            30,
            30,
            0,
        ),
        Piece::new(Species::TurnIncrementer, 30, 29, 0),
    ]);
    let mut store: Option<SavePayload> = None;
    let blocked = mgr.move_piece(0, OrdDir::Right, &mut store);
    assert!(blocked.is_err());
    // Colliding with the wall triggered the matching contingency, whose
    // spell incremented the turn counter.
    assert_eq!(mgr.turn_count.turns, 1);
}

#[test]
fn map_wrap_is_toroidal_and_idempotent_far_off_board() {
    assert_eq!(map_wrap(-46, 0, 0), (44, 0, 0));
    assert_eq!(map_wrap(-91, 7, 0), (44, 7, 0));
    assert_eq!(map_wrap(90, 0, 0), (0, 0, 0));
    let w = map_wrap(-1234567, 7654321, 9);
    assert!((0..45).contains(&w.0) && (0..45).contains(&w.1));
    assert_eq!(map_wrap(w.0, w.1, w.2), w);
}

#[test]
fn vault_layout_parses_tiles_and_characters() {
    let metadata = Metadata {
        symbols: vec![
            ('@', SymbolMeaning::Character(String::from("luvui"))),
            ('#', SymbolMeaning::Tile(Tile::Wall)),
        ],
    };
    let layout: Vec<char> = "#.>\n@x\n".chars().collect();
    let vault = Vault::from_layout(&metadata, &layout).expect("the layout parses");
    assert_eq!(vault.width, 3);
    assert_eq!(vault.tiles.len(), 6);
    assert_eq!(vault.tiles[0], Some(Tile::Wall));
    assert_eq!(vault.tiles[1], Some(Tile::Floor));
    assert_eq!(vault.tiles[2], Some(Tile::Exit));
    // The character stands on a floor tile, and short lines pad with gaps.
    assert_eq!(vault.tiles[3], Some(Tile::Floor));
    assert_eq!(vault.tiles[4], Some(Tile::Wall));
    assert_eq!(vault.tiles[5], None);
    assert_eq!(vault.characters, vec![(0, 1, String::from("luvui"))]);
    let bad: Vec<char> = "?".chars().collect();
    assert!(Vault::from_layout(&metadata, &bad).is_err());
}

#[test]
fn division_truncates_toward_zero() {
    let eq = Equation {
        source: String::new(),
        root: Expression::Div(0, 1),
        leaves: vec![Expression::Integer(-7), Expression::Integer(2)],
    };
    assert_eq!(eq.eval(&()).unwrap(), -3);
    let eq = Equation {
        source: String::new(),
        root: Expression::DivC(0, -2),
        leaves: vec![Expression::Integer(7)],
    };
    assert_eq!(eq.eval(&()).unwrap(), -3);
}
