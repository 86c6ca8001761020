use tetris::pieces::{shape_of, color_of};

#[test]
fn shapes_are_tetrominoes() {
    for kind in 1u8..=7 {
        for rot in 0u8..=3 {
            let s = shape_of(kind, rot);
            let count: u32 = s.iter().map(|&c| c as u32).sum();
            assert_eq!(count, 4, "kind {} rot {}", kind, rot);
        }
    }
}

#[test]
fn none_kind_shape_is_empty() {
    for rot in 0u8..=3 {
        let s = shape_of(0, rot);
        assert!(s.iter().all(|&c| c == 0));
    }
}

#[test]
fn i_piece_shape_is_a_row() {
    let s = shape_of(1, 0);
    assert_eq!(s, [0, 0, 0, 0, 1, 1, 1, 1, 0, 0, 0, 0, 0, 0, 0, 0]);
}

#[test]
fn o_piece_shape_is_rotation_invariant() {
    let s0 = shape_of(4, 0);
    for rot in 1u8..=3 {
        assert_eq!(shape_of(4, rot), s0);
    }
}

#[test]
fn shape_cells_are_zero_or_one() {
    for kind in 0u8..=7 {
        for rot in 0u8..=3 {
            assert!(shape_of(kind, rot).iter().all(|&c| c == 0 || c == 1));
        }
    }
}

#[test]
fn piece_colors() {
    assert_eq!(color_of(0), (0, 0, 0));
    assert_eq!(color_of(1), (0, 255, 255));
    assert_eq!(color_of(2), (255, 0, 0));
    assert_eq!(color_of(3), (255, 0, 255));
    assert_eq!(color_of(4), (255, 255, 0));
    assert_eq!(color_of(5), (0, 255, 0));
    assert_eq!(color_of(6), (255, 153, 51));
    assert_eq!(color_of(7), (0, 0, 255));
}
