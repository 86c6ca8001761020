use vstd::prelude::*;

verus! {

/// Occupancy mask of piece `kind` in rotation `rot`, as 16 cells in row-major
/// order: cell (y, x) of the 4x4 bounding box is entry 4*y + x. Kind 0 is the
/// reserved "none" kind, whose mask is empty in every rotation.
#[verifier::opaque]
pub open spec fn spec_shape(kind: int, rot: int) -> Seq<u8> {
    if kind == 1 {
        if rot == 0 {
            seq![0u8, 0, 0, 0, 1, 1, 1, 1, 0, 0, 0, 0, 0, 0, 0, 0]
        } else if rot == 1 {
            seq![0u8, 0, 1, 0, 0, 0, 1, 0, 0, 0, 1, 0, 0, 0, 1, 0]
        } else if rot == 2 {
            seq![0u8, 0, 0, 0, 0, 0, 0, 0, 1, 1, 1, 1, 0, 0, 0, 0]
        } else {
            seq![0u8, 1, 0, 0, 0, 1, 0, 0, 0, 1, 0, 0, 0, 1, 0, 0]
        }
    } else if kind == 2 {
        if rot == 0 {
            seq![1u8, 1, 0, 0, 0, 1, 1, 0, 0, 0, 0, 0, 0, 0, 0, 0]
        } else if rot == 1 {
            seq![0u8, 0, 1, 0, 0, 1, 1, 0, 0, 1, 0, 0, 0, 0, 0, 0]
        } else if rot == 2 {
            seq![0u8, 0, 0, 0, 1, 1, 0, 0, 0, 1, 1, 0, 0, 0, 0, 0]
        } else {
            seq![0u8, 1, 0, 0, 1, 1, 0, 0, 1, 0, 0, 0, 0, 0, 0, 0]
        }
    } else if kind == 3 {
        if rot == 0 {
            seq![0u8, 0, 0, 0, 1, 1, 1, 0, 0, 1, 0, 0, 0, 0, 0, 0]
        } else if rot == 1 {
            seq![0u8, 1, 0, 0, 1, 1, 0, 0, 0, 1, 0, 0, 0, 0, 0, 0]
        } else if rot == 2 {
            seq![0u8, 1, 0, 0, 1, 1, 1, 0, 0, 0, 0, 0, 0, 0, 0, 0]
        } else {
            seq![0u8, 1, 0, 0, 0, 1, 1, 0, 0, 1, 0, 0, 0, 0, 0, 0]
        }
    } else if kind == 4 {
        seq![0u8, 1, 1, 0, 0, 1, 1, 0, 0, 0, 0, 0, 0, 0, 0, 0]
    } else if kind == 5 {
        if rot == 0 {
            seq![0u8, 1, 1, 0, 1, 1, 0, 0, 0, 0, 0, 0, 0, 0, 0, 0]
        } else if rot == 1 {
            seq![0u8, 1, 0, 0, 0, 1, 1, 0, 0, 0, 1, 0, 0, 0, 0, 0]
        } else if rot == 2 {
            seq![0u8, 0, 0, 0, 0, 1, 1, 0, 1, 1, 0, 0, 0, 0, 0, 0]
        } else {
            seq![1u8, 0, 0, 0, 1, 1, 0, 0, 0, 1, 0, 0, 0, 0, 0, 0]
        }
    } else if kind == 6 {
        if rot == 0 {
            seq![0u8, 0, 1, 0, 1, 1, 1, 0, 0, 0, 0, 0, 0, 0, 0, 0]
        } else if rot == 1 {
            seq![0u8, 1, 0, 0, 0, 1, 0, 0, 0, 1, 1, 0, 0, 0, 0, 0]
        } else if rot == 2 {
            seq![0u8, 0, 0, 0, 1, 1, 1, 0, 1, 0, 0, 0, 0, 0, 0, 0]
        } else {
            seq![1u8, 1, 0, 0, 0, 1, 0, 0, 0, 1, 0, 0, 0, 0, 0, 0]
        }
    } else if kind == 7 {
        if rot == 0 {
            seq![1u8, 0, 0, 0, 1, 1, 1, 0, 0, 0, 0, 0, 0, 0, 0, 0]
        } else if rot == 1 {
            seq![0u8, 1, 1, 0, 0, 1, 0, 0, 0, 1, 0, 0, 0, 0, 0, 0]
        } else if rot == 2 {
            seq![0u8, 0, 0, 0, 1, 1, 1, 0, 0, 0, 1, 0, 0, 0, 0, 0]
        } else {
            seq![0u8, 1, 0, 0, 0, 1, 0, 0, 1, 1, 0, 0, 0, 0, 0, 0]
        }
    } else {
        seq![0u8, 0, 0, 0, 0, 0, 0, 0, 0, 0, 0, 0, 0, 0, 0, 0]
    }
}

/// Cell (y, x) of the 4x4 bounding box of piece `kind` in rotation `rot`
/// is occupied.
pub open spec fn occ(kind: int, rot: int, y: int, x: int) -> bool {
    &&& 0 <= y < 4
    &&& 0 <= x < 4
    &&& spec_shape(kind, rot)[4 * y + x] == 1
}

/// Column `x` of the 4x4 bounding box holds some occupied cell.
pub open spec fn col_occ(kind: int, rot: int, x: int) -> bool {
    exists|y: int| #[trigger] occ(kind, rot, y, x)
}

/// Row `y` of the 4x4 bounding box holds some occupied cell.
pub open spec fn row_occ(kind: int, rot: int, y: int) -> bool {
    exists|x: int| #[trigger] occ(kind, rot, y, x)
}

/// Leftmost occupied column of the 4x4 bounding box (0 for an empty mask).
pub open spec fn left_off(kind: int, rot: int) -> int {
    if col_occ(kind, rot, 0) {
        0
    } else if col_occ(kind, rot, 1) {
        1
    } else if col_occ(kind, rot, 2) {
        2
    } else if col_occ(kind, rot, 3) {
        3
    } else {
        0
    }
}

/// Rightmost occupied column of the 4x4 bounding box (0 for an empty mask).
pub open spec fn right_off(kind: int, rot: int) -> int {
    if col_occ(kind, rot, 3) {
        3
    } else if col_occ(kind, rot, 2) {
        2
    } else if col_occ(kind, rot, 1) {
        1
    } else {
        0
    }
}

/// Lowest occupied row of the 4x4 bounding box (0 for an empty mask).
pub open spec fn down_off(kind: int, rot: int) -> int {
    if row_occ(kind, rot, 3) {
        3
    } else if row_occ(kind, rot, 2) {
        2
    } else if row_occ(kind, rot, 1) {
        1
    } else {
        0
    }
}

/// Every occupied cell lies between the leftmost and rightmost occupied
/// columns and at or above the lowest occupied row.
pub proof fn lemma_edges(kind: int, rot: int, y: int, x: int)
    requires
        occ(kind, rot, y, x),
    ensures
        left_off(kind, rot) <= x <= right_off(kind, rot),
        y <= down_off(kind, rot),
        col_occ(kind, rot, x),
        row_occ(kind, rot, y),
{
    assert(col_occ(kind, rot, x));
    assert(row_occ(kind, rot, y));
}

/// Every real piece kind occupies at least one cell in every rotation.
pub proof fn lemma_shape_nonempty(kind: int, rot: int)
    requires
        1 <= kind <= 7,
        0 <= rot <= 3,
    ensures
        exists|y: int, x: int| #[trigger] occ(kind, rot, y, x),
{
    reveal(spec_shape);
    if kind == 1 {
        if rot == 0 {
            assert(occ(kind, rot, 1, 0));
        } else if rot == 1 {
            assert(occ(kind, rot, 0, 2));
        } else if rot == 2 {
            assert(occ(kind, rot, 2, 0));
        } else {
            assert(occ(kind, rot, 0, 1));
        }
    } else if kind == 2 {
        if rot == 0 {
            assert(occ(kind, rot, 0, 0));
        } else if rot == 1 {
            assert(occ(kind, rot, 0, 2));
        } else if rot == 2 {
            assert(occ(kind, rot, 1, 0));
        } else {
            assert(occ(kind, rot, 0, 1));
        }
    } else if kind == 3 {
        if rot == 0 {
            assert(occ(kind, rot, 1, 0));
        } else {
            assert(occ(kind, rot, 0, 1));
        }
    } else if kind == 4 {
        assert(occ(kind, rot, 0, 1));
    } else if kind == 5 {
        if rot == 2 {
            assert(occ(kind, rot, 1, 1));
        } else if rot == 3 {
            assert(occ(kind, rot, 0, 0));
        } else {
            assert(occ(kind, rot, 0, 1));
        }
    } else if kind == 6 {
        if rot == 0 {
            assert(occ(kind, rot, 0, 2));
        } else if rot == 1 {
            assert(occ(kind, rot, 0, 1));
        } else if rot == 2 {
            assert(occ(kind, rot, 1, 0));
        } else {
            assert(occ(kind, rot, 0, 0));
        }
    } else {
        if rot == 0 {
            assert(occ(kind, rot, 0, 0));
        } else if rot == 2 {
            assert(occ(kind, rot, 1, 0));
        } else {
            assert(occ(kind, rot, 0, 1));
        }
    }
}

/// Display color of piece `kind`, as an RGB triple.
pub open spec fn spec_color(kind: int) -> (u8, u8, u8) {
    if kind == 1 {
        (0u8, 255u8, 255u8)
    } else if kind == 2 {
        (255u8, 0u8, 0u8)
    } else if kind == 3 {
        (255u8, 0u8, 255u8)
    } else if kind == 4 {
        (255u8, 255u8, 0u8)
    } else if kind == 5 {
        (0u8, 255u8, 0u8)
    } else if kind == 6 {
        (255u8, 153u8, 51u8)
    } else if kind == 7 {
        (0u8, 0u8, 255u8)
    } else {
        (0u8, 0u8, 0u8)
    }
}

/// The 4x4 occupancy mask of piece `kind` in rotation `rot`, row-major.
pub fn shape_of(kind: u8, rot: u8) -> (s: [u8; 16])
    requires
        kind <= 7,
        rot <= 3,
    ensures
        s@ == spec_shape(kind as int, rot as int),
{
    let s = match (kind, rot) {
        (1, 0) => [0u8, 0, 0, 0, 1, 1, 1, 1, 0, 0, 0, 0, 0, 0, 0, 0],
        (1, 1) => [0u8, 0, 1, 0, 0, 0, 1, 0, 0, 0, 1, 0, 0, 0, 1, 0],
        (1, 2) => [0u8, 0, 0, 0, 0, 0, 0, 0, 1, 1, 1, 1, 0, 0, 0, 0],
        (1, _) => [0u8, 1, 0, 0, 0, 1, 0, 0, 0, 1, 0, 0, 0, 1, 0, 0],
        (2, 0) => [1u8, 1, 0, 0, 0, 1, 1, 0, 0, 0, 0, 0, 0, 0, 0, 0],
        (2, 1) => [0u8, 0, 1, 0, 0, 1, 1, 0, 0, 1, 0, 0, 0, 0, 0, 0],
        (2, 2) => [0u8, 0, 0, 0, 1, 1, 0, 0, 0, 1, 1, 0, 0, 0, 0, 0],
        (2, _) => [0u8, 1, 0, 0, 1, 1, 0, 0, 1, 0, 0, 0, 0, 0, 0, 0],
        (3, 0) => [0u8, 0, 0, 0, 1, 1, 1, 0, 0, 1, 0, 0, 0, 0, 0, 0],
        (3, 1) => [0u8, 1, 0, 0, 1, 1, 0, 0, 0, 1, 0, 0, 0, 0, 0, 0],
        (3, 2) => [0u8, 1, 0, 0, 1, 1, 1, 0, 0, 0, 0, 0, 0, 0, 0, 0],
        (3, _) => [0u8, 1, 0, 0, 0, 1, 1, 0, 0, 1, 0, 0, 0, 0, 0, 0],
        (4, _) => [0u8, 1, 1, 0, 0, 1, 1, 0, 0, 0, 0, 0, 0, 0, 0, 0],
        (5, 0) => [0u8, 1, 1, 0, 1, 1, 0, 0, 0, 0, 0, 0, 0, 0, 0, 0],
        (5, 1) => [0u8, 1, 0, 0, 0, 1, 1, 0, 0, 0, 1, 0, 0, 0, 0, 0],
        (5, 2) => [0u8, 0, 0, 0, 0, 1, 1, 0, 1, 1, 0, 0, 0, 0, 0, 0],
        (5, _) => [1u8, 0, 0, 0, 1, 1, 0, 0, 0, 1, 0, 0, 0, 0, 0, 0],
        (6, 0) => [0u8, 0, 1, 0, 1, 1, 1, 0, 0, 0, 0, 0, 0, 0, 0, 0],
        (6, 1) => [0u8, 1, 0, 0, 0, 1, 0, 0, 0, 1, 1, 0, 0, 0, 0, 0],
        (6, 2) => [0u8, 0, 0, 0, 1, 1, 1, 0, 1, 0, 0, 0, 0, 0, 0, 0],
        (6, _) => [1u8, 1, 0, 0, 0, 1, 0, 0, 0, 1, 0, 0, 0, 0, 0, 0],
        (7, 0) => [1u8, 0, 0, 0, 1, 1, 1, 0, 0, 0, 0, 0, 0, 0, 0, 0],
        (7, 1) => [0u8, 1, 1, 0, 0, 1, 0, 0, 0, 1, 0, 0, 0, 0, 0, 0],
        (7, 2) => [0u8, 0, 0, 0, 1, 1, 1, 0, 0, 0, 1, 0, 0, 0, 0, 0],
        (7, _) => [0u8, 1, 0, 0, 0, 1, 0, 0, 1, 1, 0, 0, 0, 0, 0, 0],
        _ => [0u8, 0, 0, 0, 0, 0, 0, 0, 0, 0, 0, 0, 0, 0, 0, 0],
    };
    proof {
        reveal(spec_shape);
        assert(s@ =~= spec_shape(kind as int, rot as int));
    }
    s
}

/// Display color of piece `kind`, as an RGB triple.
pub fn color_of(kind: u8) -> (c: (u8, u8, u8))
    requires
        kind <= 7,
    ensures
        c == spec_color(kind as int),
{
    match kind {
        1 => (0, 255, 255),
        2 => (255, 0, 0),
        3 => (255, 0, 255),
        4 => (255, 255, 0),
        5 => (0, 255, 0),
        6 => (255, 153, 51),
        7 => (0, 0, 255),
        _ => (0, 0, 0),
    }
}

/// The number of entries equal to 1 among the first `n` entries of a mask.
pub open spec fn ones_upto(s: Seq<u8>, n: int) -> int
    decreases n,
{
    if n <= 0 {
        0
    } else {
        ones_upto(s, n - 1) + if s[n - 1] == 1 {
            1int
        } else {
            0int
        }
    }
}

/// The number of entries equal to 1 in a mask.
pub open spec fn ones(s: Seq<u8>) -> int {
    ones_upto(s, s.len() as int)
}

/// Every real piece kind is a tetromino: its mask holds exactly four
/// occupied cells in every rotation. The reserved "none" kind holds none.
#[verifier::rlimit(50)]
pub proof fn lemma_tetromino_count(kind: int, rot: int)
    requires
        0 <= kind <= 7,
        0 <= rot <= 3,
    ensures
        1 <= kind ==> ones(spec_shape(kind, rot)) == 4,
        kind == 0 ==> ones(spec_shape(kind, rot)) == 0,
{
    reveal(spec_shape);
    reveal_with_fuel(ones_upto, 17);
    if kind == 4 {
        assert(ones(spec_shape(kind, rot)) == 4);
    } else if kind == 1 {
        if rot == 0 {
            assert(ones(spec_shape(kind, rot)) == 4);
        } else if rot == 1 {
            assert(ones(spec_shape(kind, rot)) == 4);
        } else if rot == 2 {
            assert(ones(spec_shape(kind, rot)) == 4);
        } else {
            assert(ones(spec_shape(kind, rot)) == 4);
        }
    } else if kind == 2 {
        if rot == 0 {
            assert(ones(spec_shape(kind, rot)) == 4);
        } else if rot == 1 {
            assert(ones(spec_shape(kind, rot)) == 4);
        } else if rot == 2 {
            assert(ones(spec_shape(kind, rot)) == 4);
        } else {
            assert(ones(spec_shape(kind, rot)) == 4);
        }
    } else if kind == 3 {
        if rot == 0 {
            assert(ones(spec_shape(kind, rot)) == 4);
        } else if rot == 1 {
            assert(ones(spec_shape(kind, rot)) == 4);
        } else if rot == 2 {
            assert(ones(spec_shape(kind, rot)) == 4);
        } else {
            assert(ones(spec_shape(kind, rot)) == 4);
        }
    } else if kind == 5 {
        if rot == 0 {
            assert(ones(spec_shape(kind, rot)) == 4);
        } else if rot == 1 {
            assert(ones(spec_shape(kind, rot)) == 4);
        } else if rot == 2 {
            assert(ones(spec_shape(kind, rot)) == 4);
        } else {
            assert(ones(spec_shape(kind, rot)) == 4);
        }
    } else if kind == 6 {
        if rot == 0 {
            assert(ones(spec_shape(kind, rot)) == 4);
        } else if rot == 1 {
            assert(ones(spec_shape(kind, rot)) == 4);
        } else if rot == 2 {
            assert(ones(spec_shape(kind, rot)) == 4);
        } else {
            assert(ones(spec_shape(kind, rot)) == 4);
        }
    } else if kind == 7 {
        if rot == 0 {
            assert(ones(spec_shape(kind, rot)) == 4);
        } else if rot == 1 {
            assert(ones(spec_shape(kind, rot)) == 4);
        } else if rot == 2 {
            assert(ones(spec_shape(kind, rot)) == 4);
        } else {
            assert(ones(spec_shape(kind, rot)) == 4);
        }
    } else {
        assert(ones(spec_shape(kind, rot)) == 0);
    }
}

/// The leftmost and rightmost occupied columns and the lowest occupied row
/// of a real piece kind are themselves occupied.
pub proof fn lemma_edge_occ(kind: int, rot: int)
    requires
        1 <= kind <= 7,
        0 <= rot <= 3,
    ensures
        col_occ(kind, rot, left_off(kind, rot)),
        col_occ(kind, rot, right_off(kind, rot)),
        row_occ(kind, rot, down_off(kind, rot)),
        left_off(kind, rot) <= right_off(kind, rot),
{
    lemma_shape_nonempty(kind, rot);
    let (y, x) = choose|y: int, x: int| occ(kind, rot, y, x);
    assert(col_occ(kind, rot, x));
    assert(row_occ(kind, rot, y));
    lemma_edges(kind, rot, y, x);
    let lo = left_off(kind, rot);
    if col_occ(kind, rot, lo) {
        let yl = choose|yl: int| #[trigger] occ(kind, rot, yl, lo);
        lemma_edges(kind, rot, yl, lo);
    }
}

} // verus!
