use xiangqi::board::{Board, Move};
use xiangqi::eval::{evaluate, kind_value};
use xiangqi::search::{levels, splitmix, weighted_pick_at, Searcher};
use xiangqi::session::pick_book;

#[test]
fn evaluation_exact_values() {
    assert_eq!(evaluate(&Board::from_fen("4k4/9/9/9/9/9/9/9/9/R3K4 r").unwrap()), 1000);
    assert_eq!(evaluate(&Board::from_fen("4k4/9/9/9/9/9/9/9/9/3K5 r").unwrap()), -6);
    assert_eq!(kind_value(5), 1000);
    assert_eq!(kind_value(0), 0);
}

#[test]
fn splitmix_first_output() {
    assert_eq!(splitmix(0), 0xE220A8397B1DCDAF);
}

#[test]
fn weighted_pick_exact() {
    let m = |i: u8| (Move::new(i, i + 1, 0), i as i32);
    let top4: Vec<(Move, i32)> = (0..4).map(m).collect();
    assert_eq!(weighted_pick_at(&top4, 0, 0), top4[2]);
    let top6: Vec<(Move, i32)> = (0..6).map(m).collect();
    assert_eq!(weighted_pick_at(&top6, 0, 0), top6[5]);
    let top5: Vec<(Move, i32)> = (0..5).map(m).collect();
    assert_eq!(weighted_pick_at(&top5, 12345, 678), top5[4]);
    let top1: Vec<(Move, i32)> = (0..1).map(m).collect();
    assert_eq!(weighted_pick_at(&top1, 99, 7), top1[0]);
}

#[test]
fn book_pick_exact() {
    let book = ["a", "b", "c", "d", "e"];
    assert_eq!(pick_book(&book, 0), Some("e"));
    assert_eq!(pick_book(&book[..4], 1), Some("c"));
    assert_eq!(pick_book(&book[..3], 42), Some("b"));
    assert_eq!(pick_book(&[], 42), None);
}

#[test]
fn levels_table() {
    let l = levels();
    assert_eq!(l.len(), 6);
    assert_eq!(l[0].name, "入门");
    assert_eq!(l[0].limits.pool, 6);
    assert_eq!(l[5].name, "特级大师");
    assert_eq!(l[5].elo, 2300);
    assert_eq!(l[5].limits.max_depth, 9);
}

#[test]
fn colour_mirror_negates_evaluation() {
    // the starting position is its own colour mirror
    assert_eq!(evaluate(&Board::initial()), 0);
    let a = Board::from_fen("4k4/9/9/9/9/9/9/9/9/R3K4 r").unwrap();
    let m = Board::from_fen("r3k4/9/9/9/9/9/9/9/9/4K4 b").unwrap();
    assert_eq!(evaluate(&m), -evaluate(&a));
    let a = Board::from_fen("3ak4/9/4b4/9/2p6/9/9/9/4C4/3K5 r").unwrap();
    let m = Board::from_fen("3k5/4c4/9/9/9/2P6/9/4B4/9/3AK4 b").unwrap();
    assert_eq!(evaluate(&m), -evaluate(&a));
}

#[test]
fn negamax_edges() {
    let mut s = Searcher::new();
    let mut b = Board::from_fen("4k4/9/9/9/9/9/9/9/9/R3K4 r").unwrap();
    // at the last ply the static evaluation is returned, for the side to move
    assert_eq!(s.negamax(&mut b, 3, -100_000, 100_000, 79), 1000);
    let mut b = Board::from_fen("4k4/9/9/9/9/9/9/9/9/R3K4 b").unwrap();
    assert_eq!(s.negamax(&mut b, 3, -100_000, 100_000, 79), -1000);
    // a position repeated inside the search is a draw
    let mut b = Board::initial();
    for t in ["h0g2", "h9g7", "g2h0", "g7h9"] {
        b.make_move(Move::from_iccs(t).unwrap());
    }
    assert_eq!(s.negamax(&mut b, 3, -100_000, 100_000, 1), 0);
    assert_eq!(b.undo_len(), 4);
}
