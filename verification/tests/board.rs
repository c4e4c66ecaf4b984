use othello_gui::ai::{parse_agent_output, AIRunResult};
use othello_gui::othello::{Board, Pos, Relation, Tile, Vec2};

#[test]
fn board_place_simple() {
    let mut a = Pos::new();
    a.place(Vec2::new(3, 2));

    let mut b = Pos::new();
    b.board.set(Vec2::new(3, 2), Tile::X);
    b.board.set(Vec2::new(3, 3), Tile::X);
    b.next_player = Tile::O;

    assert_eq!(a, b);
}

#[test]
fn empty_board_has_no_tiles() {
    let b = Board::empty();
    assert_eq!(b.count(Tile::X), 0);
    assert_eq!(b.count(Tile::O), 0);
    assert_eq!(b.count(Tile::Empty), 64);
}

#[test]
fn opening_position_counts() {
    let p = Pos::new();
    assert_eq!(p.board.count(Tile::X), 2);
    assert_eq!(p.board.count(Tile::O), 2);
    assert_eq!(p.next_player, Tile::X);
    assert_eq!(p.winner(), Tile::Empty);
    assert!(!p.is_game_over());
}

#[test]
fn opening_valid_moves() {
    let p = Pos::new();
    let moves = p.valid_moves();
    let tokens: Vec<String> = moves.iter().map(|m| m.move_string()).collect();
    assert_eq!(tokens, vec!["c4", "d3", "e6", "f5"]);
}

#[test]
fn place_flips_a_bracketed_run() {
    let mut p = Pos::new();
    let flipped = p.place(Vec2::new(3, 2));
    assert!(flipped);
    assert_eq!(p.board.get(Vec2::new(3, 2)), Tile::X);
    assert_eq!(p.board.get(Vec2::new(3, 3)), Tile::X);
    assert_eq!(p.next_player, Tile::O);
    assert_eq!(p.board.count(Tile::X), 4);
    assert_eq!(p.board.count(Tile::O), 1);
}

#[test]
fn place_without_capture_reports_no_flip() {
    let mut p = Pos::new();
    let flipped = p.place(Vec2::new(0, 0));
    assert!(!flipped);
}

#[test]
fn is_valid_move_agrees_with_valid_moves() {
    let p = Pos::new();
    let moves = p.valid_moves();
    for x in 0..8 {
        for y in 0..8 {
            let v = Vec2::new(x, y);
            assert_eq!(p.is_valid_move(v), moves.contains(&v));
        }
    }
}

#[test]
fn move_string_corners() {
    assert_eq!(Vec2::new(0, 0).move_string(), "a1");
    assert_eq!(Vec2::new(7, 7).move_string(), "h8");
    assert_eq!(Vec2::new(3, 2).move_string(), "d3");
}

#[test]
fn token_round_trip_whole_board() {
    for x in 0..8 {
        for y in 0..8 {
            let v = Vec2::new(x, y);
            let token = v.move_string();
            match parse_agent_output(&token) {
                AIRunResult::Success(mv, note) => {
                    assert_eq!(mv, v);
                    assert!(note.is_none());
                },
                _ => panic!("token {} did not decode", token),
            }
        }
    }
}

#[test]
fn winner_follows_counts() {
    let mut b = Board::empty();
    b.set(Vec2::new(0, 0), Tile::X);
    b.set(Vec2::new(0, 1), Tile::X);
    b.set(Vec2::new(0, 2), Tile::O);
    let p = Pos { board: b, next_player: Tile::X };
    assert_eq!(p.winner(), Tile::X);

    let mut b2 = Board::empty();
    b2.set(Vec2::new(0, 0), Tile::X);
    b2.set(Vec2::new(0, 2), Tile::O);
    let p2 = Pos { board: b2, next_player: Tile::X };
    assert_eq!(p2.winner(), Tile::Empty);
}

#[test]
fn full_board_is_game_over() {
    let mut b = Board::empty();
    for x in 0..8 {
        for y in 0..8 {
            b.set(Vec2::new(x, y), if (x + y) % 2 == 0 { Tile::X } else { Tile::O });
        }
    }
    let p = Pos { board: b, next_player: Tile::X };
    assert!(p.is_game_over());
}

#[test]
fn tree_end_depth_zero_and_one() {
    let p = Pos::new();
    let d0 = p.tree_end(0);
    assert_eq!(d0.len(), 1);
    assert_eq!(d0[0], p);
    let d1 = p.tree_end(1);
    assert_eq!(d1.len(), 4);
    for q in &d1 {
        assert_eq!(q.next_player, Tile::O);
    }
}

#[test]
fn board_string_of_opening() {
    let p = Pos::new();
    let s = p.board.board_string();
    let mut expected = String::new();
    for i in 0..64 {
        expected.push(match i {
            27 => 'o',
            28 => 'x',
            35 => 'x',
            36 => 'o',
            _ => '.',
        });
    }
    assert_eq!(s, expected);
}

#[test]
fn relation_of_outcomes() {
    assert_eq!(Tile::X.relation(Tile::X), Relation::Same);
    assert_eq!(Tile::X.relation(Tile::O), Relation::Opponent);
    assert_eq!(Tile::Empty.relation(Tile::X), Relation::Neutral);
    assert_eq!(Tile::Empty.relation(Tile::O), Relation::Neutral);
}
