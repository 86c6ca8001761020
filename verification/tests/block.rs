use tetris::utils::{Block, Node};

fn empty_map() -> Vec<Vec<Node>> {
    let mut map = Vec::new();
    for _ in 0..20 {
        let mut row = Vec::new();
        for _ in 0..10 {
            row.push(Node::init((255, 255, 255), 0));
        }
        map.push(row);
    }
    map
}

fn full_map() -> Vec<Vec<Node>> {
    let mut map = Vec::new();
    for _ in 0..20 {
        let mut row = Vec::new();
        for _ in 0..10 {
            row.push(Node::init((9, 9, 9), 1));
        }
        map.push(row);
    }
    map
}

fn occupied_count(map: &Vec<Vec<Node>>) -> usize {
    map.iter().flatten().filter(|n| n.kind == 1).count()
}

#[test]
fn descent_from_spawn_locks_in_bottom_row() {
    let mut map = empty_map();
    let mut b = Block::init(1, (0, 3), 0);
    let mut steps = 0;
    while !b.down(&mut map) {
        steps += 1;
        assert!(steps <= 20, "descent must lock within the board height");
    }
    // The I piece's row of cells lies one row below its anchor.
    assert_eq!(b.get_pos(), (18, 3));
    for c in 3..7 {
        assert_eq!(map[19][c].kind, 1);
    }
    assert_eq!(occupied_count(&map), 4);
    for c in 0..10 {
        assert_eq!(map[18][c].kind, 0);
    }
}

#[test]
fn quick_drop_matches_repeated_descent() {
    for kind in 1u8..=7 {
        let mut map_a = empty_map();
        let mut a = Block::init(kind, (0, 3), 0);
        a.quick_down(&mut map_a);

        let mut map_b = empty_map();
        let mut b = Block::init(kind, (0, 3), 0);
        while !b.down(&mut map_b) {}

        assert_eq!(a.get_pos(), b.get_pos(), "kind {}", kind);
        for r in 0..20 {
            for c in 0..10 {
                assert_eq!(map_a[r][c].kind, map_b[r][c].kind);
            }
        }
    }
}

#[test]
fn rotation_on_full_board_is_rejected() {
    for kind in 1u8..=7 {
        let map = full_map();
        let mut b = Block::init(kind, (5, 3), 0);
        let shape_before = b.get_shape();
        let pos_before = b.get_pos();
        b.rotate(&map);
        assert_eq!(b.get_shape(), shape_before, "kind {}", kind);
        assert_eq!(b.get_pos(), pos_before, "kind {}", kind);
        b.invrot(&map);
        assert_eq!(b.get_shape(), shape_before, "kind {}", kind);
        assert_eq!(b.get_pos(), pos_before, "kind {}", kind);
    }
}

#[test]
fn shift_at_left_wall_is_rejected() {
    let map = empty_map();
    // The I piece in rotation 0 occupies columns 0..=3 of its box, so at
    // anchor column 0 its leftmost cell sits at the wall.
    let mut b = Block::init(1, (0, 0), 0);
    b.left(&map);
    assert_eq!(b.get_pos(), (0, 0));
}

#[test]
fn shift_at_right_wall_is_rejected() {
    let map = empty_map();
    // At anchor column 6 the I piece's rightmost cell sits in column 9.
    let mut b = Block::init(1, (0, 6), 0);
    b.right(&map);
    assert_eq!(b.get_pos(), (0, 6));
}

#[test]
fn shift_into_locked_cell_is_rejected() {
    let mut map = empty_map();
    map[1][7].change((9, 9, 9), 1);
    // The I piece at anchor (0, 3) occupies row 1, columns 3..=6.
    let mut b = Block::init(1, (0, 3), 0);
    b.right(&map);
    assert_eq!(b.get_pos(), (0, 3));
    map[1][2].change((9, 9, 9), 1);
    b.left(&map);
    assert_eq!(b.get_pos(), (0, 3));
}

#[test]
fn free_shifts_move_one_column() {
    let map = empty_map();
    let mut b = Block::init(1, (0, 3), 0);
    b.right(&map);
    assert_eq!(b.get_pos(), (0, 4));
    b.left(&map);
    b.left(&map);
    assert_eq!(b.get_pos(), (0, 2));
}

#[test]
fn four_rotations_restore_the_shape() {
    let map = empty_map();
    for kind in 1u8..=7 {
        let mut b = Block::init(kind, (5, 3), 0);
        let shape_before = b.get_shape();
        for _ in 0..4 {
            b.rotate(&map);
        }
        assert_eq!(b.get_shape(), shape_before, "kind {}", kind);
        for _ in 0..4 {
            b.invrot(&map);
        }
        assert_eq!(b.get_shape(), shape_before, "kind {}", kind);
    }
}

#[test]
fn rotation_against_wall_corrects_the_anchor() {
    let map = empty_map();
    // The I piece in rotation 3 occupies only column 1 of its box; at anchor
    // column -1 that cell sits in board column 0. Rotating to the flat row
    // (columns 0..=3 of the box) would reach off the board, so the anchor is
    // nudged back to column 0.
    let mut b = Block::init(1, (5, -1), 3);
    b.rotate(&map);
    assert_eq!(b.get_shape(), tetris::pieces::shape_of(1, 0));
    assert_eq!(b.get_pos(), (5, 0));
}

#[test]
fn i_piece_quick_drop_fills_bottom_row_cyan() {
    let mut map = empty_map();
    let mut b = Block::init(1, (0, 3), 0);
    b.quick_down(&mut map);
    assert_eq!(b.get_pos().0, 18);
    for c in 3..7 {
        assert_eq!(map[19][c].kind, 1);
        assert_eq!(map[19][c].col, (0, 255, 255));
    }
    assert_eq!(occupied_count(&map), 4);
}

#[test]
fn stacked_i_piece_rests_one_row_higher() {
    let mut map = empty_map();
    let mut first = Block::init(1, (0, 0), 0);
    first.quick_down(&mut map);
    let mut second = Block::init(1, (0, 4), 0);
    second.quick_down(&mut map);
    for c in 0..8 {
        assert_eq!(map[19][c].kind, 1);
    }
    assert_eq!(map[19][8].kind, 0);
    assert_eq!(map[19][9].kind, 0);
    assert_eq!(occupied_count(&map), 8);

    let mut third = Block::init(1, (0, 0), 0);
    third.quick_down(&mut map);
    assert_eq!(third.get_pos(), (17, 0));
    for c in 0..4 {
        assert_eq!(map[18][c].kind, 1);
    }
    assert_eq!(occupied_count(&map), 12);
}

#[test]
fn is_crash_reports_floor_and_stack() {
    let mut map = empty_map();
    let b = Block::init(1, (18, 3), 0);
    assert!(b.is_crash(&map));
    let high = Block::init(1, (0, 3), 0);
    assert!(!high.is_crash(&map));
    map[2][4].change((9, 9, 9), 1);
    assert!(high.is_crash(&map));
}

#[test]
fn node_init_and_change() {
    let mut n = Node::init((1, 2, 3), 0);
    assert_eq!(n.col, (1, 2, 3));
    assert_eq!(n.kind, 0);
    n.change((4, 5, 6), 1);
    assert_eq!(n.col, (4, 5, 6));
    assert_eq!(n.kind, 1);
}

#[test]
fn debug_reports_column_past_topmost_row() {
    // The I piece in rotation 0 has its topmost occupied row at box row 1,
    // rightmost cell in box column 3: at anchor column 3 that is board
    // column 6, so the reported value is 7.
    let b = Block::init(1, (0, 3), 0);
    assert_eq!(b.debug(), 7);
}

#[test]
fn spawn_resets_piece() {
    let mut map = empty_map();
    let mut b = Block::init(1, (0, 3), 0);
    b.quick_down(&mut map);
    b.next(5);
    assert_eq!(b.get_pos(), (0, 3));
    assert_eq!(b.get_shape(), tetris::pieces::shape_of(5, 0));
    assert_eq!(b.get_color(), (0, 255, 0));
}
