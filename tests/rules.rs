use chess_engine::coords::{check_i32_xy, file_rank_to_xy, file_rank_to_xy_safe, xy_to_file_rank, xy_to_file_rank_safe};
use chess_engine::{Ai, Board, CastleUtils, CheckThreatTempBuffers, Coord, Error, MoveDescription, MoveList, MoveSnapshot, Piece, Player, Square};

fn all_moves(board: &mut Board, cu: &CastleUtils) -> Vec<MoveSnapshot> {
    let mut targets = Vec::new();
    let mut probe = Vec::new();
    let mut ml = MoveList::new(0);
    board.get_all_moves(cu, &mut targets, &mut probe, &mut ml);
    ml.get_v()[0..ml.write_index].to_vec()
}

fn empty_board() -> Board {
    let mut b = Board::new();
    for x in 0..8u8 {
        for y in 0..8u8 {
            b.set_by_xy(x, y, Square::Blank);
        }
    }
    b
}

type State = (Vec<Square>, Player, [bool; 4], Vec<(u8, u8)>, Vec<(u8, u8)>);

fn state(b: &Board) -> State {
    let mut squares = Vec::new();
    for y in 0..8u8 {
        for x in 0..8u8 {
            squares.push(b.get_by_xy(x, y));
        }
    }
    let w = b.get_player_state(Player::White);
    let bl = b.get_player_state(Player::Black);
    let mut wl: Vec<(u8, u8)> = w.piece_locs.iter().map(|c| (c.0, c.1)).collect();
    let mut bll: Vec<(u8, u8)> = bl.piece_locs.iter().map(|c| (c.0, c.1)).collect();
    wl.sort();
    bll.sort();
    (squares, b.get_player_with_turn(), [w.can_oo, w.can_ooo, bl.can_oo, bl.can_ooo], wl, bll)
}

fn play(board: &mut Board, cu: &CastleUtils, from: (char, u8), to: (char, u8)) {
    let mut temps = CheckThreatTempBuffers::new();
    let mut ml = MoveList::new(0);
    board.get_moves(from.0, from.1, cu, &mut temps, &mut ml).unwrap();
    let dests = ml.get_moves().unwrap();
    let target = file_rank_to_xy(to.0, to.1);
    let idx = dests.iter().position(|c| *c == target).expect("move is legal");
    board.make_move_from_list(&mut ml, idx).unwrap();
}

fn dests(board: &Board, cu: &CastleUtils, file: char, rank: u8) -> Vec<Coord> {
    let mut temps = CheckThreatTempBuffers::new();
    let mut ml = MoveList::new(0);
    board.get_moves(file, rank, cu, &mut temps, &mut ml).unwrap();
    ml.get_moves().unwrap()
}

fn brute_minimax(board: &mut Board, cu: &CastleUtils, depth: u8) -> i32 {
    if depth == 0 {
        return Ai::evaluate(board);
    }
    let moves = all_moves(board, cu);
    let white = board.get_player_with_turn() == Player::White;
    let mut best = if white { chess_engine::MIN_EVAL } else { chess_engine::MAX_EVAL };
    for m in moves.iter() {
        board.make_move(m);
        let v = brute_minimax(board, cu, depth - 1);
        board.undo_move(m);
        if white {
            best = best.max(v);
        } else {
            best = best.min(v);
        }
    }
    best
}

#[test]
fn coordinates_convert_both_ways() {
    assert_eq!(xy_to_file_rank(0, 0), ('a', 8));
    assert_eq!(xy_to_file_rank(7, 7), ('h', 1));
    assert_eq!(xy_to_file_rank(4, 6), ('e', 2));
    assert_eq!(file_rank_to_xy('e', 2), Coord(4, 6));
    assert_eq!(file_rank_to_xy_safe('a', 8), Ok(Coord(0, 0)));
    assert_eq!(xy_to_file_rank_safe(3, 4), Ok(('d', 4)));
}

#[test]
fn coordinate_errors_name_the_axis() {
    assert_eq!(file_rank_to_xy_safe('e', 0), Err(Error::RankOutOfBounds(0)));
    assert_eq!(file_rank_to_xy_safe('e', 9), Err(Error::RankOutOfBounds(9)));
    assert_eq!(file_rank_to_xy_safe('i', 3), Err(Error::FileOutOfBounds('i')));
    assert_eq!(file_rank_to_xy_safe('z', 9), Err(Error::RankOutOfBounds(9)));
    assert_eq!(xy_to_file_rank_safe(-1, 3), Err(Error::XyOutOfBounds(-1, 3)));
    assert_eq!(check_i32_xy(2, 8), Err(Error::XyOutOfBounds(2, 8)));
    assert_eq!(check_i32_xy(7, 7), Ok(()));
}

#[test]
fn standard_position_is_set_up() {
    let b = Board::new();
    assert_eq!(b.get_player_with_turn(), Player::White);
    assert_eq!(b.get('e', 1), Ok(Square::Occupied(Piece::King, Player::White)));
    assert_eq!(b.get('d', 8), Ok(Square::Occupied(Piece::Queen, Player::Black)));
    assert_eq!(b.get('c', 2), Ok(Square::Occupied(Piece::Pawn, Player::White)));
    assert_eq!(b.get('g', 7), Ok(Square::Occupied(Piece::Pawn, Player::Black)));
    assert_eq!(b.get('e', 4), Ok(Square::Blank));
    assert_eq!(b.get_safe('b', 1), Ok(Square::Occupied(Piece::Knight, Player::White)));
    assert_eq!(b.get_player_state(Player::White).piece_locs.len(), 16);
    assert_eq!(b.get_player_state(Player::Black).piece_locs.len(), 16);
    assert_eq!(b.get('j', 1), Err(Error::FileOutOfBounds('j')));
    assert_eq!(b.get_by_xy_safe(8, 0), Err(Error::XyOutOfBounds(8, 0)));
}

#[test]
fn set_keeps_locations_in_step() {
    let mut b = Board::new();
    let r0 = b.get_revision();
    assert_eq!(b.set('e', 4, Square::Occupied(Piece::Knight, Player::Black)), Ok(()));
    assert!(b.get_player_state(Player::Black).piece_locs.contains(&Coord(4, 4)));
    assert_eq!(b.get_player_state(Player::Black).piece_locs.len(), 17);
    assert_eq!(b.set('e', 4, Square::Occupied(Piece::Knight, Player::White)), Ok(()));
    assert!(!b.get_player_state(Player::Black).piece_locs.contains(&Coord(4, 4)));
    assert!(b.get_player_state(Player::White).piece_locs.contains(&Coord(4, 4)));
    assert_eq!(b.set('e', 4, Square::Blank), Ok(()));
    assert_eq!(b.get_player_state(Player::White).piece_locs.len(), 16);
    assert_ne!(b.get_revision(), r0);
    assert_eq!(b.set('e', 9, Square::Blank), Err(Error::RankOutOfBounds(9)));
    assert_eq!(b.set('q', 2, Square::Blank), Err(Error::FileOutOfBounds('q')));
}

#[test]
fn start_has_twenty_moves() {
    let cu = CastleUtils::new();
    let mut b = Board::new();
    let moves = all_moves(&mut b, &cu);
    assert_eq!(moves.len(), 20);
    let mut pawn = 0;
    let mut knight = 0;
    for m in moves.iter() {
        match m.0[0] {
            Some((_, chess_engine::BeforeAfterSquares(Square::Occupied(Piece::Pawn, _), _))) => pawn += 1,
            Some((_, chess_engine::BeforeAfterSquares(Square::Occupied(Piece::Knight, _), _))) => knight += 1,
            _ => panic!("unexpected mover"),
        }
    }
    assert_eq!(pawn, 16);
    assert_eq!(knight, 4);
    let mut bl = Board::new();
    play(&mut bl, &cu, ('e', 2), ('e', 4));
    assert_eq!(all_moves(&mut bl, &cu).len(), 20);
}

#[test]
fn per_square_queries() {
    let cu = CastleUtils::new();
    let b = Board::new();
    let mut d = dests(&b, &cu, 'e', 2);
    d.sort_by_key(|c| (c.0, c.1));
    assert_eq!(d, vec![Coord(4, 4), Coord(4, 5)]);
    let mut n = dests(&b, &cu, 'g', 1);
    n.sort_by_key(|c| (c.0, c.1));
    assert_eq!(n, vec![Coord(5, 5), Coord(7, 5)]);
    assert!(dests(&b, &cu, 'e', 7).is_empty());
    assert!(dests(&b, &cu, 'e', 4).is_empty());
    assert!(dests(&b, &cu, 'a', 1).is_empty());
    let mut temps = CheckThreatTempBuffers::new();
    let mut ml = MoveList::new(0);
    assert_eq!(b.get_moves('e', 0, &cu, &mut temps, &mut ml), Err(Error::RankOutOfBounds(0)));
    assert_eq!(ml.get_moves(), Err(Error::MoveListExpired));
}

#[test]
fn stale_and_out_of_range_lists_are_refused() {
    let cu = CastleUtils::new();
    let mut b = Board::new();
    let mut temps = CheckThreatTempBuffers::new();
    let mut ml = MoveList::new(0);
    b.get_moves('b', 1, &cu, &mut temps, &mut ml).unwrap();
    assert_eq!(b.make_move_from_list(&mut ml, 2), Err(Error::MoveListOutOfBounds(2, 2)));
    b.set('h', 4, Square::Blank).unwrap();
    assert_eq!(b.make_move_from_list(&mut ml, 0), Err(Error::MoveListExpired));
    b.get_moves('b', 1, &cu, &mut temps, &mut ml).unwrap();
    let rev = b.get_revision();
    assert_eq!(b.make_move_from_list(&mut ml, 5), Err(Error::MoveListOutOfBounds(5, 2)));
    assert_eq!(b.get_revision(), rev);
    assert_eq!(b.make_move_from_list(&mut ml, 0), Ok(()));
    assert_ne!(b.get_revision(), rev);
    assert!(ml.is_expired());
    assert_eq!(b.make_move_from_list(&mut ml, 0), Err(Error::MoveListExpired));
    assert_eq!(b.get_player_with_turn(), Player::Black);
}

#[test]
fn make_then_undo_restores_every_move() {
    let cu = CastleUtils::new();
    let mut b = Board::new();
    play(&mut b, &cu, ('e', 2), ('e', 4));
    play(&mut b, &cu, ('d', 7), ('d', 5));
    play(&mut b, &cu, ('g', 1), ('f', 3));
    play(&mut b, &cu, ('c', 8), ('g', 4));
    play(&mut b, &cu, ('f', 1), ('c', 4));
    play(&mut b, &cu, ('b', 8), ('c', 6));
    for round in 0..2 {
        let before = state(&b);
        let moves = all_moves(&mut b, &cu);
        assert!(!moves.is_empty());
        for m in moves.iter() {
            b.make_move(m);
            assert_ne!(state(&b), before);
            b.undo_move(m);
            assert_eq!(state(&b), before);
        }
        if round == 0 {
            play(&mut b, &cu, ('e', 4), ('d', 5));
        }
    }
}

#[test]
fn legal_moves_leave_the_king_safe() {
    let cu = CastleUtils::new();
    let mut b = empty_board();
    b.set('e', 1, Square::Occupied(Piece::King, Player::White)).unwrap();
    b.set('e', 2, Square::Occupied(Piece::Rook, Player::White)).unwrap();
    b.set('e', 8, Square::Occupied(Piece::Rook, Player::Black)).unwrap();
    b.set('a', 8, Square::Occupied(Piece::King, Player::Black)).unwrap();
    b.set('c', 3, Square::Occupied(Piece::Bishop, Player::Black)).unwrap();
    // The bishop gives check; the rook is pinned and cannot answer it.
    assert!(dests(&b, &cu, 'e', 2).is_empty());
    // The king may not step onto d2, which the bishop covers.
    let mut king = dests(&b, &cu, 'e', 1);
    king.sort_by_key(|c| (c.0, c.1));
    assert_eq!(king, vec![Coord(3, 7), Coord(5, 6), Coord(5, 7)]);
    let mut temp = Vec::new();
    for m in all_moves(&mut b, &cu).iter() {
        b.make_move(m);
        assert!(b.for_each_check_threat(Player::Black, &mut temp).is_none());
        b.undo_move(m);
    }
}

#[test]
fn castling_is_offered_only_when_allowed() {
    let cu = CastleUtils::new();
    let mut b = Board::new();
    b.set('f', 1, Square::Blank).unwrap();
    b.set('g', 1, Square::Blank).unwrap();
    assert!(dests(&b, &cu, 'e', 1).contains(&Coord(6, 7)));
    let moves = all_moves(&mut b, &cu);
    assert_eq!(moves.iter().filter(|m| matches!(m.2, MoveDescription::Oo(_))).count(), 1);
    // A rook covering f1 forbids it.
    b.set('f', 2, Square::Occupied(Piece::Rook, Player::Black)).unwrap();
    assert!(!dests(&b, &cu, 'e', 1).contains(&Coord(6, 7)));
    b.set('f', 2, Square::Occupied(Piece::Pawn, Player::White)).unwrap();
    // A piece between king and rook forbids it.
    b.set('g', 1, Square::Occupied(Piece::Knight, Player::White)).unwrap();
    assert!(!dests(&b, &cu, 'e', 1).contains(&Coord(6, 7)));
    b.set('g', 1, Square::Blank).unwrap();
    // Castling moves king and rook and takes away both rights.
    play(&mut b, &cu, ('e', 1), ('g', 1));
    assert_eq!(b.get('g', 1), Ok(Square::Occupied(Piece::King, Player::White)));
    assert_eq!(b.get('f', 1), Ok(Square::Occupied(Piece::Rook, Player::White)));
    assert_eq!(b.get('h', 1), Ok(Square::Blank));
    assert_eq!(b.get('e', 1), Ok(Square::Blank));
    let ps = b.get_player_state(Player::White);
    assert!(!ps.can_oo && !ps.can_ooo);
}

#[test]
fn moving_the_rook_clears_the_right_for_good() {
    let cu = CastleUtils::new();
    let mut b = Board::new();
    b.set('f', 1, Square::Blank).unwrap();
    b.set('g', 1, Square::Blank).unwrap();
    play(&mut b, &cu, ('h', 1), ('g', 1));
    assert!(!b.get_player_state(Player::White).can_oo);
    assert!(b.get_player_state(Player::White).can_ooo);
    play(&mut b, &cu, ('a', 7), ('a', 6));
    play(&mut b, &cu, ('g', 1), ('h', 1));
    assert!(!b.get_player_state(Player::White).can_oo);
    play(&mut b, &cu, ('a', 6), ('a', 5));
    assert!(!dests(&b, &cu, 'e', 1).contains(&Coord(6, 7)));
}

#[test]
fn queenside_castling_and_king_moves() {
    let cu = CastleUtils::new();
    let mut b = Board::new();
    for f in ['b', 'c', 'd'] {
        b.set(f, 8, Square::Blank).unwrap();
    }
    play(&mut b, &cu, ('a', 2), ('a', 3));
    assert!(dests(&b, &cu, 'e', 8).contains(&Coord(2, 0)));
    play(&mut b, &cu, ('e', 8), ('d', 8));
    let ps = b.get_player_state(Player::Black);
    assert!(!ps.can_oo && !ps.can_ooo);
}

#[test]
fn evaluation_values() {
    let b = Board::new();
    assert_eq!(Ai::evaluate(&b), 0);
    let mut e = empty_board();
    // White pawn on e2 (row 6): 40 + 3 * 1 * 1.
    e.set('e', 2, Square::Occupied(Piece::Pawn, Player::White)).unwrap();
    assert_eq!(Ai::evaluate_player(&e, Player::White), 43);
    // Black queen on d5 (row 3): -(360 + 6 * (7 - 1)).
    e.set('d', 5, Square::Occupied(Piece::Queen, Player::Black)).unwrap();
    assert_eq!(Ai::evaluate_player(&e, Player::Black), -396);
    assert_eq!(Ai::evaluate(&e), 43 - 396);
    // A king on its back rank counts 0; on row 4 it counts 6 * 6.
    e.set('a', 1, Square::Occupied(Piece::King, Player::White)).unwrap();
    assert_eq!(Ai::evaluate_player(&e, Player::White), 43);
    e.set('a', 4, Square::Occupied(Piece::King, Player::White)).unwrap();
    assert_eq!(Ai::evaluate_player(&e, Player::White), 43 + 36);
}

#[test]
fn search_matches_plain_minimax() {
    let cu = CastleUtils::new();
    let mut b = Board::new();
    play(&mut b, &cu, ('e', 2), ('e', 4));
    play(&mut b, &cu, ('d', 7), ('d', 5));
    for depth in 0..4u8 {
        let mut copy = Board::new();
        copy.import_from(&b);
        let expected = brute_minimax(&mut copy, &cu, depth);
        let mut ai = Ai::new();
        let mut real = Board::new();
        real.import_from(&b);
        let (value, m) = ai.make_move(depth, &mut real);
        assert_eq!(value, expected);
        assert_eq!(m.is_some(), depth > 0);
        let mover = if depth > 0 { Player::Black } else { Player::White };
        assert_eq!(real.get_player_with_turn(), mover);
    }
}

#[test]
fn depth_zero_is_the_static_evaluation() {
    let cu = CastleUtils::new();
    let mut b = Board::new();
    play(&mut b, &cu, ('e', 2), ('e', 4));
    let before = state(&b);
    let mut ai = Ai::new();
    let (value, m) = ai.make_move(0, &mut b);
    assert_eq!(value, Ai::evaluate(&b));
    assert_eq!(value, 24);
    assert!(m.is_none());
    assert_eq!(state(&b), before);
    assert_eq!(ai.get_counter(), 1);
    assert!(ai.get_root_moves().is_empty());
}

#[test]
fn depth_one_scores_each_reply_statically() {
    let cu = CastleUtils::new();
    let mut b = Board::new();
    let mut best = i32::MIN;
    let mut first_best = None;
    for (i, m) in all_moves(&mut b, &cu).iter().enumerate() {
        b.make_move(m);
        let v = Ai::evaluate(&b);
        if v > best {
            best = v;
            first_best = Some(i);
        }
        b.undo_move(m);
    }
    let mut ai = Ai::new();
    let (value, m) = ai.make_move(1, &mut b);
    assert_eq!(value, best);
    assert_eq!(ai.get_counter(), 20);
    let root = ai.get_root_moves();
    assert_eq!(root.len(), 20);
    let chosen = m.unwrap();
    assert_eq!(chosen.1, value);
    assert_eq!(root.iter().position(|r| r.1 == value), first_best);
}

#[test]
fn castling_snapshot_clears_both_rights_and_undo_restores_them() {
    let cu = CastleUtils::new();
    let mut b = Board::new();
    let before = state(&b);
    let oo = MoveSnapshot(cu.oo_move_snapshots[1].0, 0, MoveDescription::Oo(true));
    b.make_move(&oo);
    let ps = b.get_player_state(Player::White);
    assert!(!ps.can_oo && !ps.can_ooo);
    b.undo_move(&oo);
    assert_eq!(state(&b).2, before.2);
    let mut c = Board::new();
    c.make_move(&cu.oo_move_snapshots[1]);
    let ps = c.get_player_state(Player::White);
    assert!(!ps.can_oo && !ps.can_ooo);
    assert!(c.get_player_state(Player::Black).can_oo);
}

#[test]
fn search_takes_a_hanging_queen() {
    let mut b = empty_board();
    b.set('e', 1, Square::Occupied(Piece::King, Player::White)).unwrap();
    b.set('a', 8, Square::Occupied(Piece::King, Player::Black)).unwrap();
    b.set('d', 1, Square::Occupied(Piece::Rook, Player::White)).unwrap();
    b.set('d', 5, Square::Occupied(Piece::Queen, Player::Black)).unwrap();
    let mut ai = Ai::new();
    let (_, m) = ai.make_move(1, &mut b);
    assert!(m.is_some());
    assert_eq!(b.get('d', 5), Ok(Square::Occupied(Piece::Rook, Player::White)));
}

#[test]
fn no_legal_move_gives_no_move() {
    let cu = CastleUtils::new();
    let mut b = Board::new();
    play(&mut b, &cu, ('f', 2), ('f', 3));
    play(&mut b, &cu, ('e', 7), ('e', 5));
    play(&mut b, &cu, ('g', 2), ('g', 4));
    play(&mut b, &cu, ('d', 8), ('h', 4));
    let before = state(&b);
    assert!(all_moves(&mut b, &cu).is_empty());
    let mut ai = Ai::new();
    let (value, m) = ai.make_move(2, &mut b);
    assert!(m.is_none());
    assert_eq!(value, chess_engine::MIN_EVAL);
    assert_eq!(state(&b), before);
}

#[test]
fn move_list_buffer_grows_and_keeps_cursor() {
    let mut ml = MoveList::new(2);
    assert!(ml.is_expired());
    ml.write_index = 3;
    ml.write(MoveSnapshot([None; 5], 7, MoveDescription::Special));
    assert_eq!(ml.write_index, 4);
    assert_eq!(ml.get_v().len(), 4);
    assert_eq!(ml.get_v()[3].1, 7);
    ml.set_eval(3, -5);
    assert_eq!(ml.get_v()[3].1, -5);
    ml.write_index = 1;
    ml.copy_and_write(&MoveSnapshot([None; 5], 9, MoveDescription::Special));
    assert_eq!(ml.get_v().len(), 4);
    assert_eq!(ml.get_v()[1].1, 9);
}

#[test]
fn pieces_and_squares_print_as_letters() {
    assert_eq!(Piece::Knight.custom_fmt(false), 'N');
    assert_eq!(Piece::Knight.custom_fmt(true), 'n');
    assert_eq!(Square::Blank.to_char(), '.');
    assert_eq!(Square::Occupied(Piece::Queen, Player::Black).to_char(), 'q');
    assert_eq!(Square::Occupied(Piece::Queen, Player::White).to_char(), 'Q');
    assert_eq!(Player::White.get_other_player(), Player::Black);
    assert_eq!(Player::Black.get_first_row(), 0);
}

#[test]
fn restart_returns_to_the_start() {
    let cu = CastleUtils::new();
    let mut b = Board::new();
    let start = state(&b);
    play(&mut b, &cu, ('e', 2), ('e', 4));
    b.restart();
    assert_eq!(state(&b), start);
    let mut c = Board::new();
    play(&mut c, &cu, ('d', 2), ('d', 4));
    let s = state(&c);
    b.import_from(&c);
    assert_eq!(state(&b), s);
    assert_eq!(b.get_revision(), c.get_revision());
}

#[test]
fn sort_subset_orders_a_range_by_evaluation() {
    let mut ml = MoveList::new(4);
    for e in [5, -1, 3, 0] {
        ml.write(MoveSnapshot([None; 5], e, MoveDescription::Special));
    }
    ml.sort_subset(1, 4);
    let evals: Vec<i32> = ml.get_v().iter().map(|m| m.1).collect();
    assert_eq!(evals, vec![5, -1, 0, 3]);
    ml.sort_subset(0, 4);
    let evals: Vec<i32> = ml.get_v().iter().map(|m| m.1).collect();
    assert_eq!(evals, vec![-1, 0, 3, 5]);
    ml.sort_subset(2, 2);
    assert_eq!(ml.get_v().len(), 4);
}

#[test]
fn snapshots_can_be_edited_in_place() {
    let mut ml = MoveList::new(1);
    ml.write(MoveSnapshot([None; 5], 1, MoveDescription::Special));
    ml.get_mutable_snapshot(0).1 = 42;
    assert_eq!(ml.get_v()[0].1, 42);
    assert_eq!(ml.write_index, 1);
}

#[test]
fn castling_constants_and_destinations() {
    let cu = CastleUtils::new();
    let white_oo = cu.oo_move_snapshots[1];
    assert!(matches!(white_oo.2, MoveDescription::Oo(false)));
    assert_eq!(white_oo.destination(), Some(Coord(6, 7)));
    let black_ooo = cu.ooo_move_snapshots[0];
    assert_eq!(black_ooo.destination(), Some(Coord(2, 0)));
    assert_eq!(cu.oo_king_traversal_sqs[1], [Coord(6, 7), Coord(5, 7)]);
    assert_eq!(cu.ooo_king_traversal_sqs[0], [Coord(1, 0), Coord(2, 0), Coord(3, 0)]);
    assert_eq!(MoveSnapshot::default().destination(), None);
}

#[test]
fn search_root_moves_carry_values() {
    let mut b = Board::new();
    let mut ai = Ai::new();
    let (value, m) = ai.make_move(1, &mut b);
    let root = ai.get_root_moves();
    assert_eq!(root.len(), 20);
    assert!(root.iter().any(|r| r.1 == value));
    assert!(m.is_some());
    assert!(ai.get_counter() > 0);
}
