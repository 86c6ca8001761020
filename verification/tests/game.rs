use tetris::game::{Game, Action};

fn kind_of_color(col: (u8, u8, u8)) -> u8 {
    match col {
        (0, 255, 255) => 1,
        (255, 0, 0) => 2,
        (255, 0, 255) => 3,
        (255, 255, 0) => 4,
        (0, 255, 0) => 5,
        (255, 153, 51) => 6,
        (0, 0, 255) => 7,
        _ => 0,
    }
}

#[test]
fn fresh_game_starts_empty_at_spawn() {
    let g = Game::init();
    assert!(!g.is_ended());
    assert_eq!(g.get_score(), 0);
    let map = g.get_map();
    assert_eq!(map.len(), 20);
    for row in map.iter() {
        assert_eq!(row.len(), 10);
        for n in row.iter() {
            assert_eq!(n.kind, 0);
            assert_eq!(n.col, (255, 255, 255));
        }
    }
    assert_eq!(g.get_block().get_pos(), (0, 3));
    let kind = kind_of_color(g.get_block().get_color());
    assert!((1..=7).contains(&kind));
}

#[test]
fn bag_draws_come_in_permutations_of_seven() {
    for _ in 0..5 {
        let mut g = Game::init();
        let mut draws = vec![kind_of_color(g.get_block().get_color())];
        for _ in 0..20 {
            draws.push(g.pick_next_block());
        }
        for run in 0..3 {
            let mut seen = [false; 8];
            for i in 0..7 {
                let k = draws[7 * run + i] as usize;
                assert!((1..=7).contains(&k));
                assert!(!seen[k], "kind {} repeated within a run of seven", k);
                seen[k] = true;
            }
        }
    }
}

#[test]
fn quit_raises_the_end_flag() {
    let mut g = Game::init();
    g.apply(Action::Quit);
    assert!(g.is_ended());
    assert_eq!(g.get_score(), 0);
}

#[test]
fn soft_drop_descends_one_row() {
    let mut g = Game::init();
    g.apply(Action::SoftDrop);
    assert_eq!(g.get_block().get_pos(), (1, 3));
    let map = g.get_map();
    assert!(map.iter().flatten().all(|n| n.kind == 0));
}

#[test]
fn shifts_move_the_piece_from_spawn() {
    let mut g = Game::init();
    g.apply(Action::MoveRight);
    assert_eq!(g.get_block().get_pos(), (0, 4));
    g.apply(Action::MoveLeft);
    g.apply(Action::MoveLeft);
    assert_eq!(g.get_block().get_pos(), (0, 2));
}

#[test]
fn hard_drop_locks_four_cells_and_respawns() {
    let mut g = Game::init();
    let color = g.get_block().get_color();
    g.apply(Action::HardDrop);
    let occupied: Vec<(usize, usize)> = {
        let map = g.get_map();
        (0..20).flat_map(|r| (0..10).map(move |c| (r, c)))
            .filter(|&(r, c)| map[r][c].kind == 1)
            .collect()
    };
    assert_eq!(occupied.len(), 4);
    // Something rests in the bottom row on an empty board.
    assert!(occupied.iter().any(|&(r, _)| r == 19));
    for &(r, c) in &occupied {
        assert_eq!(g.get_map()[r][c].col, color);
    }
    assert_eq!(g.get_block().get_pos(), (0, 3));
}

#[test]
fn rotations_round_trip_through_apply() {
    let mut g = Game::init();
    let shape = g.get_block().get_shape();
    for _ in 0..4 {
        g.apply(Action::RotateCw);
    }
    assert_eq!(g.get_block().get_shape(), shape);
    g.apply(Action::RotateCw);
    g.apply(Action::RotateCcw);
    assert_eq!(g.get_block().get_shape(), shape);
}

#[test]
fn soft_drops_eventually_lock_and_respawn() {
    let mut g = Game::init();
    for _ in 0..20 {
        g.apply(Action::SoftDrop);
    }
    // After 20 single-row descents on an empty board the first piece has
    // locked (4 cells) and a fresh piece fell from spawn again.
    let map = g.get_map();
    let occupied = map.iter().flatten().filter(|n| n.kind == 1).count();
    assert!(occupied == 4 || occupied == 8);
    assert!(occupied >= 4);
}
