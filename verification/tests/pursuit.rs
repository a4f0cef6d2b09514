use quests::quest10::board::classify;
use quests::quest10::board::parse_board;
use quests::quest10::board::Chessboard;
use quests::quest10::position_set::PositionSet;
use quests::quest10::query::part1;
use quests::quest10::simulation::part2;
use quests::quest10::simulation::SimulationState;
use quests::quest10::tiles::BoardPosition;
use quests::quest10::tiles::PursuitError;
use quests::quest10::tiles::Tile;
use quests::quest10::tiles::TileValue;

fn board(text: &str) -> Chessboard {
    parse_board(text).expect("the board is well formed")
}

fn pairs(set: &PositionSet) -> Vec<(usize, usize)> {
    set.positions().iter().map(|p| (p.row, p.column)).collect()
}

fn dragon_at(row: usize, column: usize) -> Tile {
    Tile { position: BoardPosition { row, column }, value: TileValue::Dragon }
}

const OPEN_FIELD: &str = "D....\n.....\n.S...\n.....\n.....";
const WITH_HIDEOUT: &str = "D....\n.S...\n.#...\n.....\n.....";
const WITHOUT_HIDEOUT: &str = "D....\n.S...\n.....\n.....\n.....";

#[test]
fn classify_reads_the_four_symbols() {
    assert_eq!(classify(b'.'), Ok(TileValue::Empty));
    assert_eq!(classify(b'S'), Ok(TileValue::Sheep));
    assert_eq!(classify(b'D'), Ok(TileValue::Dragon));
    assert_eq!(classify(b'#'), Ok(TileValue::Hideout));
}

#[test]
fn classify_refuses_other_bytes() {
    assert_eq!(classify(b'x'), Err(PursuitError::UnknownSymbol(b'x')));
    assert_eq!(classify(b' '), Err(PursuitError::UnknownSymbol(b' ')));
    assert_eq!(classify(0), Err(PursuitError::UnknownSymbol(0)));
}

#[test]
fn parse_board_reads_rows_and_columns() {
    let b = board("D.S\n.#.\n");
    assert_eq!(b.dimensions(), (2, 3));
    assert_eq!(b.tiles.len(), 6);
    let values: Vec<TileValue> = b.tiles.iter().map(|t| t.value).collect();
    assert_eq!(
        values,
        vec![
            TileValue::Dragon,
            TileValue::Empty,
            TileValue::Sheep,
            TileValue::Empty,
            TileValue::Hideout,
            TileValue::Empty
        ]
    );
    for (i, tile) in b.tiles.iter().enumerate() {
        assert_eq!(tile.position, BoardPosition { row: i / 3, column: i % 3 });
    }
}

#[test]
fn parse_board_ignores_surrounding_white_space_and_carriage_returns() {
    let b = board("\n\n  D.\r\n.S\r\n\n \t");
    assert_eq!(b.dimensions(), (2, 2));
    assert_eq!(b.tiles[0].value, TileValue::Dragon);
    assert_eq!(b.tiles[3].value, TileValue::Sheep);
}

#[test]
fn parse_board_refuses_an_empty_text() {
    assert_eq!(parse_board("").err(), Some(PursuitError::MalformedBoard));
    assert_eq!(parse_board(" \n\n ").err(), Some(PursuitError::MalformedBoard));
}

#[test]
fn parse_board_refuses_rows_of_different_length() {
    assert_eq!(parse_board("D..\n..\n...").err(), Some(PursuitError::MalformedBoard));
    assert_eq!(parse_board("D.\n...").err(), Some(PursuitError::MalformedBoard));
    assert_eq!(parse_board("D.\n\n..").err(), Some(PursuitError::MalformedBoard));
}

#[test]
fn parse_board_names_the_first_unknown_symbol() {
    assert_eq!(parse_board("D.x\n.y.").err(), Some(PursuitError::UnknownSymbol(b'x')));
    assert_eq!(parse_board("D..\n.y.\nz..").err(), Some(PursuitError::UnknownSymbol(b'y')));
}

#[test]
fn parse_board_checks_the_shape_before_the_symbols() {
    assert_eq!(parse_board("x..\n..").err(), Some(PursuitError::MalformedBoard));
}

#[test]
fn within_bounds_follows_the_dimensions() {
    let b = board(OPEN_FIELD);
    assert!(b.within_bounds(&BoardPosition { row: 0, column: 0 }));
    assert!(b.within_bounds(&BoardPosition { row: 4, column: 4 }));
    assert!(!b.within_bounds(&BoardPosition { row: 5, column: 0 }));
    assert!(!b.within_bounds(&BoardPosition { row: 0, column: 5 }));
}

#[test]
fn find_dragon_gives_the_origin() {
    assert_eq!(board(".....\n..D..").find_dragon(), Ok(BoardPosition { row: 1, column: 2 }));
    assert_eq!(board(".....\n.....").find_dragon(), Err(PursuitError::InvalidOrigin));
    assert_eq!(board("D....\n....D").find_dragon(), Err(PursuitError::InvalidOrigin));
}

#[test]
fn find_dragon_refuses_a_dragon_off_the_board() {
    let b = Chessboard { tiles: vec![dragon_at(3, 0)], rows: 1, columns: 1 };
    assert_eq!(b.find_dragon(), Err(PursuitError::InvalidOrigin));
    assert_eq!(part1(&b, 2), Err(PursuitError::InvalidOrigin));
    assert_eq!(part2(&b, 2), Err(PursuitError::InvalidOrigin));
}

#[test]
fn frontier_of_depth_zero_is_the_origin() {
    let f = dragon_at(3, 2).pass_turns_dragon(0, 5, 5).unwrap();
    assert_eq!(pairs(&f), vec![(3, 2)]);
}

#[test]
fn frontier_from_a_corner() {
    let f = dragon_at(0, 0).pass_turns_dragon(1, 5, 5).unwrap();
    assert_eq!(pairs(&f), vec![(1, 2), (2, 1)]);
}

#[test]
fn frontier_from_the_centre_has_eight_tiles() {
    let f = dragon_at(2, 2).pass_turns_dragon(1, 5, 5).unwrap();
    assert_eq!(
        pairs(&f),
        vec![(0, 1), (0, 3), (1, 0), (1, 4), (3, 0), (3, 4), (4, 1), (4, 3)]
    );
}

#[test]
fn frontier_of_depth_two_counts_each_tile_once() {
    let f = dragon_at(0, 0).pass_turns_dragon(2, 5, 5).unwrap();
    assert_eq!(
        pairs(&f),
        vec![(0, 0), (0, 2), (0, 4), (1, 3), (2, 0), (2, 4), (3, 1), (3, 3), (4, 0), (4, 2)]
    );
}

#[test]
fn frontier_is_not_a_history() {
    let one = dragon_at(0, 0).pass_turns_dragon(1, 5, 5).unwrap();
    let two = dragon_at(0, 0).pass_turns_dragon(2, 5, 5).unwrap();
    assert!(!one.contains(0, 0));
    assert!(two.contains(0, 0));
    assert!(one.contains(2, 1));
    assert!(!two.contains(2, 1));
}

#[test]
fn frontier_dies_out_where_no_jump_fits() {
    let f = dragon_at(1, 1).pass_turns_dragon(1, 3, 3).unwrap();
    assert!(pairs(&f).is_empty());
    let g = dragon_at(1, 1).pass_turns_dragon(4, 3, 3).unwrap();
    assert!(pairs(&g).is_empty());
    let h = dragon_at(0, 0).pass_turns_dragon(1, 1, 1).unwrap();
    assert!(pairs(&h).is_empty());
}

#[test]
fn frontier_stays_on_the_board() {
    for depth in 0..7 {
        let f = dragon_at(1, 3).pass_turns_dragon(depth, 4, 6).unwrap();
        assert_eq!(f.rows(), 4);
        assert_eq!(f.columns(), 6);
        for p in f.positions() {
            assert!(p.row < 4 && p.column < 6);
        }
    }
}

#[test]
fn pass_turns_dragon_refuses_other_tiles() {
    let sheep = Tile { position: BoardPosition { row: 0, column: 0 }, value: TileValue::Sheep };
    assert_eq!(
        sheep.pass_turns_dragon(1, 5, 5).err(),
        Some(PursuitError::InvalidTileValue(TileValue::Sheep))
    );
    assert_eq!(dragon_at(5, 0).pass_turns_dragon(1, 5, 5).err(), Some(PursuitError::InvalidOrigin));
    assert_eq!(dragon_at(0, 0).pass_turns_dragon(1, 0, 0).err(), Some(PursuitError::InvalidOrigin));
}

#[test]
fn pass_turns_sheep_drifts_down() {
    let sheep = Tile { position: BoardPosition { row: 1, column: 4 }, value: TileValue::Sheep };
    assert_eq!(
        sheep.pass_turns_sheep(1, 5),
        Ok(Some(Tile { position: BoardPosition { row: 2, column: 4 }, value: TileValue::Sheep }))
    );
    assert_eq!(
        sheep.pass_turns_sheep(3, 5),
        Ok(Some(Tile { position: BoardPosition { row: 4, column: 4 }, value: TileValue::Sheep }))
    );
    assert_eq!(sheep.pass_turns_sheep(0, 5), Ok(Some(sheep)));
}

#[test]
fn pass_turns_sheep_leaves_the_board() {
    let sheep = Tile { position: BoardPosition { row: 1, column: 4 }, value: TileValue::Sheep };
    assert_eq!(sheep.pass_turns_sheep(4, 5), Ok(None));
    assert_eq!(sheep.pass_turns_sheep(usize::MAX, 5), Ok(None));
    assert_eq!(sheep.pass_turns_sheep(1, 0), Ok(None));
}

#[test]
fn pass_turns_sheep_refuses_other_tiles() {
    assert_eq!(
        dragon_at(0, 0).pass_turns_sheep(1, 5),
        Err(PursuitError::InvalidTileValue(TileValue::Dragon))
    );
}

#[test]
fn position_set_holds_each_position_once() {
    let mut s = PositionSet::new(3, 4);
    assert!(pairs(&s).is_empty());
    assert!(s.insert(2, 3));
    assert!(s.insert(0, 1));
    assert!(s.insert(2, 3));
    assert!(!s.insert(3, 0));
    assert!(!s.insert(0, 4));
    assert_eq!(pairs(&s), vec![(0, 1), (2, 3)]);
    assert!(s.contains(2, 3));
    assert!(!s.contains(1, 1));
    assert!(!s.contains(7, 7));
}

#[test]
fn position_set_union() {
    let mut a = PositionSet::new(2, 2);
    a.insert(0, 0);
    a.insert(1, 1);
    let mut b = PositionSet::new(2, 2);
    b.insert(1, 1);
    b.insert(1, 0);
    a.union_with(&b);
    assert_eq!(pairs(&a), vec![(0, 0), (1, 0), (1, 1)]);
    assert_eq!(pairs(&b), vec![(1, 0), (1, 1)]);
}

#[test]
fn position_set_jump_step_joins_the_jumps_of_all_members() {
    let mut s = PositionSet::new(5, 5);
    s.insert(0, 0);
    s.insert(4, 4);
    assert_eq!(pairs(&s.jump_step()), vec![(1, 2), (2, 1), (2, 3), (3, 2)]);
    let mut t = PositionSet::new(5, 5);
    t.insert_jumps_from(4, 0);
    assert_eq!(pairs(&t), vec![(2, 1), (3, 2)]);
}

#[test]
fn radius_zero_counts_nothing() {
    assert_eq!(part1(&board(OPEN_FIELD), 0), Ok(0));
    assert_eq!(part1(&board(WITH_HIDEOUT), 0), Ok(0));
    assert_eq!(part1(&board("DS\nSS"), 0), Ok(0));
}

#[test]
fn radius_counts_sheep_in_reach() {
    assert_eq!(part1(&board(OPEN_FIELD), 1), Ok(1));
    let b = board(WITH_HIDEOUT);
    assert_eq!(part1(&b, 1), Ok(0));
    assert_eq!(part1(&b, 2), Ok(0));
    assert_eq!(part1(&b, 3), Ok(0));
    assert_eq!(part1(&b, 4), Ok(1));
}

#[test]
fn radius_count_is_a_union_over_depths() {
    let b = board("D.S..\n..S..\n.S...\n.....\n.....");
    assert_eq!(part1(&b, 1), Ok(2));
    assert_eq!(part1(&b, 2), Ok(3));
    assert_eq!(part1(&b, 3), Ok(3));
}

#[test]
fn radius_count_never_falls() {
    let b = board("D.S.S\nSSSSS\n.S.S.\nS.S.S\nSSSSS");
    let mut last = 0;
    for n in 0..8 {
        let count = part1(&b, n).unwrap();
        assert!(count >= last);
        assert!(count <= 17);
        last = count;
    }
    assert_eq!(last, 17);
}

#[test]
fn one_round_on_an_open_field() {
    assert_eq!(part2(&board(OPEN_FIELD), 1), Ok(1));
}

#[test]
fn sheep_on_a_hideout_is_not_eaten() {
    assert_eq!(part2(&board(WITHOUT_HIDEOUT), 1), Ok(1));
    assert_eq!(part2(&board(WITH_HIDEOUT), 1), Ok(0));
    assert_eq!(part2(&board(WITH_HIDEOUT), 2), Ok(1));
}

#[test]
fn sheep_that_leaves_the_board_is_not_counted() {
    let b = board("D..\n...\n..S");
    assert_eq!(part2(&b, 1), Ok(0));
    assert_eq!(part2(&b, 5), Ok(0));
    let mut state = SimulationState::new(&b).unwrap();
    assert_eq!(state.live_sheep(), 1);
    state.advance_round();
    assert_eq!(state.live_sheep(), 0);
    assert_eq!(state.captured(), 0);
}

#[test]
fn sheep_is_eaten_once() {
    let b = board("D....\n.....\n.S...\n.....\n.....");
    for rounds in 1..6 {
        assert_eq!(part2(&b, rounds), Ok(1));
    }
}

#[test]
fn captures_never_fall_and_never_exceed_the_sheep() {
    let b = board("D.S.S\nS#SSS\n.S.S.\nS.S#S\nSSSSS");
    let mut last = 0;
    for rounds in 1..8 {
        let captured = part2(&b, rounds).unwrap();
        assert!(captured >= last);
        assert!(captured <= 15);
        last = captured;
    }
}

#[test]
fn rounds_go_on_after_the_last_sheep() {
    let b = board(OPEN_FIELD);
    let mut state = SimulationState::new(&b).unwrap();
    assert_eq!((state.captured(), state.live_sheep()), (0, 1));
    state.advance_round();
    assert_eq!((state.captured(), state.live_sheep()), (1, 0));
    state.advance_round();
    state.advance_round();
    assert_eq!((state.captured(), state.live_sheep()), (1, 0));
}

#[test]
fn zero_rounds_are_refused() {
    assert_eq!(part2(&board(OPEN_FIELD), 0), Err(PursuitError::ZeroRounds));
    assert_eq!(part2(&board("..\n.."), 0), Err(PursuitError::ZeroRounds));
    assert_eq!(part2(&board("DD\n.."), 0), Err(PursuitError::ZeroRounds));
}

#[test]
fn two_dragons_are_refused() {
    let b = board("D...\n..S.\n...D");
    assert_eq!(part1(&b, 3), Err(PursuitError::InvalidOrigin));
    assert_eq!(part2(&b, 3), Err(PursuitError::InvalidOrigin));
}

#[test]
fn no_dragon_is_refused() {
    let b = board("....\n..S.\n....");
    assert_eq!(part1(&b, 3), Err(PursuitError::InvalidOrigin));
    assert_eq!(part2(&b, 3), Err(PursuitError::InvalidOrigin));
    assert!(SimulationState::new(&b).is_err());
}

#[test]
fn sheep_on_hideouts_all_the_way_is_never_eaten() {
    let b = board("DS...\n.#...\n.#...\n.#...\n.#...");
    for rounds in 1..12 {
        assert_eq!(part2(&b, rounds), Ok(0));
    }
    let mut state = SimulationState::new(&b).unwrap();
    for left in [1, 1, 1, 1, 0, 0] {
        state.advance_round();
        assert_eq!(state.live_sheep(), left);
        assert_eq!(state.captured(), 0);
    }
}

#[test]
fn sheep_placed_on_a_hideout_is_not_eaten() {
    let at = |row, column| BoardPosition { row, column };
    let hidden = Chessboard {
        tiles: vec![
            Tile { position: at(0, 0), value: TileValue::Dragon },
            Tile { position: at(2, 1), value: TileValue::Sheep },
            Tile { position: at(2, 1), value: TileValue::Hideout },
            Tile { position: at(3, 1), value: TileValue::Hideout },
            Tile { position: at(4, 1), value: TileValue::Hideout },
        ],
        rows: 5,
        columns: 5,
    };
    for rounds in 1..8 {
        assert_eq!(part2(&hidden, rounds), Ok(0));
    }
    assert_eq!(part1(&hidden, 1), Ok(1));
    let open = Chessboard {
        tiles: vec![
            Tile { position: at(0, 0), value: TileValue::Dragon },
            Tile { position: at(2, 1), value: TileValue::Sheep },
        ],
        rows: 5,
        columns: 5,
    };
    assert_eq!(part2(&open, 1), Ok(1));
}

#[test]
fn re_exports_name_the_same_items() {
    let b = quests::quest10::parse_board(OPEN_FIELD).unwrap();
    assert_eq!(quests::quest10::part1(&b, 1), Ok(1));
    assert_eq!(quests::quest10::part2(&b, 1), Ok(1));
    assert_eq!(quests::quest10::classify(b'D'), Ok(quests::quest10::TileValue::Dragon));
}
