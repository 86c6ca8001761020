use vstd::prelude::*;

use crate::pieces::{
    occ, shape_of, color_of, spec_shape, spec_color, lemma_shape_nonempty, col_occ, row_occ,
    left_off, right_off, down_off,
};

verus! {

/// One cell of the board: its display color and whether a locked piece
/// occupies it (`kind == 1`) or it is empty (`kind == 0`).
#[derive(Clone, Copy)]
pub struct Node {
    pub col: (u8, u8, u8),
    pub kind: u8,
}

impl Node {
    pub fn init(col: (u8, u8, u8), kind: u8) -> (n: Node)
        ensures
            n == (Node { col, kind }),
    {
        Node { col, kind }
    }

    pub fn change(&mut self, col: (u8, u8, u8), kind: u8)
        ensures
            *final(self) == (Node { col, kind }),
    {
        self.col = col;
        self.kind = kind;
    }
}

/// The board is 20 rows of 10 cells; row 0 is the top.
pub open spec fn map_wf(m: Seq<Seq<Node>>) -> bool {
    &&& m.len() == 20
    &&& forall|r: int| 0 <= r < 20 ==> (#[trigger] m[r]).len() == 10
}

/// The rows of the board, each seen as a sequence of cells.
pub open spec fn map_view(m: Seq<Vec<Node>>) -> Seq<Seq<Node>> {
    m.map_values(|row: Vec<Node>| row@)
}

/// (r, c) is a coordinate of the 20x10 board.
pub open spec fn in_bounds(r: int, c: int) -> bool {
    0 <= r < 20 && 0 <= c < 10
}

/// The board cell (r, c) holds a locked piece cell.
pub open spec fn cell_occupied(m: Seq<Seq<Node>>, r: int, c: int) -> bool {
    m[r][c].kind == 1
}

/// Piece `kind` in rotation `rot`, anchored with its bounding box's top-left
/// at (row, col), has some occupied cell that is off the board or on a board
/// cell already holding a locked piece.
pub open spec fn collides(m: Seq<Seq<Node>>, kind: int, rot: int, row: int, col: int) -> bool {
    exists|y: int, x: int|
        #[trigger] occ(kind, rot, y, x) && (!in_bounds(row + y, col + x) || cell_occupied(
            m,
            row + y,
            col + x,
        ))
}

/// The board after locking piece `kind` in rotation `rot` anchored at
/// (row, col): every cell the shape covers is occupied with the piece's
/// color, every other cell is unchanged.
pub open spec fn place(m: Seq<Seq<Node>>, kind: int, rot: int, row: int, col: int) -> Seq<
    Seq<Node>,
> {
    Seq::new(
        m.len(),
        |r: int|
            Seq::new(
                m[r].len(),
                |c: int|
                    if occ(kind, rot, r - row, c - col) {
                        Node { col: spec_color(kind), kind: 1 }
                    } else {
                        m[r][c]
                    },
            ),
    )
}

/// The column the rotation correction settles on: the anchor column nudged
/// right until no occupied cell lies left of column 0, then left until none
/// lies right of column 9.
pub open spec fn corrected_col(kind: int, rot: int, col: int) -> int {
    let lo = 0 - left_off(kind, rot);
    let hi = 9 - right_off(kind, rot);
    if col < lo {
        lo
    } else if col > hi {
        hi
    } else {
        col
    }
}

/// The row the rotation correction settles on: the anchor row nudged up
/// until no occupied cell lies below row 19.
pub open spec fn corrected_row(kind: int, rot: int, row: int) -> int {
    let hi = 19 - down_off(kind, rot);
    if row > hi {
        hi
    } else {
        row
    }
}

/// The piece after an attempted rotation to `rot2`: the anchor is first
/// corrected back onto the board for the new shape; if the new shape then
/// overlaps a locked cell (or still leaves the board) the piece is unchanged,
/// otherwise the rotation and corrected anchor are committed.
pub open spec fn rotate_block(m: Seq<Seq<Node>>, b: BlockModel, rot2: int) -> BlockModel {
    let nrow = corrected_row(b.kind, rot2, b.row);
    let ncol = corrected_col(b.kind, rot2, b.col);
    if collides(m, b.kind, rot2, nrow, ncol) {
        b
    } else {
        BlockModel { kind: b.kind, rot: rot2, row: nrow, col: ncol }
    }
}

/// No board cell holds a locked piece.
pub open spec fn map_empty(m: Seq<Seq<Node>>) -> bool {
    forall|r: int, c: int| in_bounds(r, c) ==> !(#[trigger] cell_occupied(m, r, c))
}

/// Every board cell holds a locked piece.
pub open spec fn map_full(m: Seq<Seq<Node>>) -> bool {
    forall|r: int, c: int| in_bounds(r, c) ==> #[trigger] cell_occupied(m, r, c)
}

/// The piece after an attempted shift by one column: unchanged if the shift
/// would take some occupied cell off the board or onto a locked cell, else
/// moved by `dc`.
pub open spec fn shifted_block(m: Seq<Seq<Node>>, b: BlockModel, dc: int) -> BlockModel {
    if collides(m, b.kind, b.rot, b.row, b.col + dc) {
        b
    } else {
        BlockModel { kind: b.kind, rot: b.rot, row: b.row, col: b.col + dc }
    }
}

/// Row `fr` is where a descent of piece `b` on board `m` comes to rest: it
/// is at or below the piece's current row, a further descent from it would
/// collide, and no earlier step of the descent would have collided.
pub open spec fn is_rest_row(m: Seq<Seq<Node>>, b: BlockModel, fr: int) -> bool {
    &&& b.row <= fr
    &&& collides(m, b.kind, b.rot, fr + 1, b.col)
    &&& forall|rr: int|
        b.row <= rr < fr ==> !(#[trigger] collides(m, b.kind, b.rot, rr + 1, b.col))
}

/// The row where a descent of piece `b` on board `m` comes to rest.
pub open spec fn rest_row(m: Seq<Seq<Node>>, b: BlockModel) -> int {
    choose|fr: int| is_rest_row(m, b, fr)
}

/// A descent comes to rest in exactly one row: repeated single-row descents
/// and an instantaneous drop from the same position land the same anchor.
pub proof fn lemma_rest_row_unique(m: Seq<Seq<Node>>, b: BlockModel, r1: int, r2: int)
    requires
        is_rest_row(m, b, r1),
        is_rest_row(m, b, r2),
    ensures
        r1 == r2,
{
    if r1 < r2 {
        assert(!collides(m, b.kind, b.rot, r1 + 1, b.col));
    } else if r2 < r1 {
        assert(!collides(m, b.kind, b.rot, r2 + 1, b.col));
    }
}

/// The mathematical state of a falling piece: its kind, rotation, and the
/// board coordinate of the top-left corner of its 4x4 bounding box.
pub ghost struct BlockModel {
    pub kind: int,
    pub rot: int,
    pub row: int,
    pub col: int,
}

/// A well-formed falling piece: a valid kind and rotation, an anchor row
/// at or below the top, and every occupied cell of its shape on the board.
pub open spec fn block_wf(b: BlockModel) -> bool {
    &&& 0 <= b.kind <= 7
    &&& 0 <= b.rot <= 3
    &&& 0 <= b.row <= 20
    &&& -4 <= b.col <= 10
    &&& forall|y: int, x: int| #[trigger] occ(b.kind, b.rot, y, x) ==> in_bounds(b.row + y, b.col + x)
}

/// The falling piece: its kind, its anchor position (row, column), and its
/// current rotation.
pub struct Block {
    kind: u8,
    pos: (i8, i8),
    now_shape: u8,
}

impl View for Block {
    type V = BlockModel;

    closed spec fn view(&self) -> BlockModel {
        BlockModel {
            kind: self.kind as int,
            rot: self.now_shape as int,
            row: self.pos.0 as int,
            col: self.pos.1 as int,
        }
    }
}

impl Block {
    pub fn init(kind: u8, pos: (i8, i8), now_shape: u8) -> (b: Block)
        requires
            kind <= 7,
            now_shape <= 3,
        ensures
            b@ == (BlockModel {
                kind: kind as int,
                rot: now_shape as int,
                row: pos.0 as int,
                col: pos.1 as int,
            }),
    {
        Block { kind, pos, now_shape }
    }

    /// Start a fresh piece of the given kind at the spawn anchor: rotation 0,
    /// top row, centered column. The whole 4x4 bounding box lies on the
    /// board there, so the new piece is well formed.
    pub fn next(&mut self, kind: u8)
        requires
            1 <= kind <= 7,
        ensures
            final(self)@ == (BlockModel { kind: kind as int, rot: 0, row: 0, col: 3 }),
            block_wf(final(self)@),
    {
        self.kind = kind;
        self.now_shape = 0;
        self.pos = (0, 3);
    }

    pub fn get_pos(&self) -> (p: (i8, i8))
        ensures
            p.0 as int == self@.row,
            p.1 as int == self@.col,
    {
        self.pos
    }

    pub fn get_shape(&self) -> (s: [u8; 16])
        requires
            0 <= self@.kind <= 7,
            0 <= self@.rot <= 3,
        ensures
            s@ == spec_shape(self@.kind, self@.rot),
    {
        shape_of(self.kind, self.now_shape)
    }

    pub fn get_color(&self) -> (c: (u8, u8, u8))
        requires
            0 <= self@.kind <= 7,
        ensures
            c == spec_color(self@.kind),
    {
        color_of(self.kind)
    }

    /// Descending one row from the current position would take some occupied
    /// cell off the board or onto a locked cell.
    pub fn is_crash(&self, map: &Vec<Vec<Node>>) -> (r: bool)
        requires
            map_wf(map_view(map@)),
            block_wf(self@),
        ensures
            r == collides(map_view(map@), self@.kind, self@.rot, self@.row + 1, self@.col),
    {
        check_overlap(map, self.kind, self.now_shape, self.pos.0 + 1, self.pos.1)
    }

    /// Lock the piece into the board: every cell its shape covers becomes
    /// occupied with the piece's color, and no other cell changes.
    #[verifier::loop_isolation(false)]
    fn stop(&self, map: &mut Vec<Vec<Node>>)
        requires
            map_wf(map_view(old(map)@)),
            block_wf(self@),
        ensures
            map_view(final(map)@) == place(
                map_view(old(map)@),
                self@.kind,
                self@.rot,
                self@.row,
                self@.col,
            ),
            map_wf(map_view(final(map)@)),
    {
        let shape = self.get_shape();
        let color = self.get_color();
        let ghost m0 = map_view(old(map)@);
        let ghost k = self@.kind;
        let ghost rt = self@.rot;
        let ghost br = self@.row;
        let ghost bc = self@.col;
        for y in 0..4usize
            invariant
                map_wf(map_view(map@)),
                forall|r: int, c: int|
                    in_bounds(r, c) ==> #[trigger] map_view(map@)[r][c] == (
                    if occ(k, rt, r - br, c - bc) && r - br < y {
                        Node { col: spec_color(k), kind: 1 }
                    } else {
                        m0[r][c]
                    }),
        {
            for x in 0..4usize
                invariant
                    map_wf(map_view(map@)),
                    forall|r: int, c: int|
                        in_bounds(r, c) ==> #[trigger] map_view(map@)[r][c] == (
                        if occ(k, rt, r - br, c - bc) && (r - br < y || (r - br == y && c - bc
                            < x)) {
                            Node { col: spec_color(k), kind: 1 }
                        } else {
                            m0[r][c]
                        }),
            {
                if shape[4 * y + x] == 1 {
                    proof {
                        assert(occ(k, rt, y as int, x as int));
                        assert(in_bounds(br + y, bc + x));
                    }
                    let rr = (self.pos.0 + y as i8) as usize;
                    let cc = (self.pos.1 + x as i8) as usize;
                    let ghost mv = map_view(map@);
                    let ghost v_new = Node { col: spec_color(k), kind: 1 };
                    proof {
                        assert(map_view(map@).len() == map@.len());
                        assert(mv[rr as int] == map@[rr as int]@);
                        assert(mv[rr as int].len() == 10);
                    }
                    map[rr][cc] = Node { col: color, kind: 1 };
                    proof {
                        let mvn = map_view(map@);
                        assert forall|r: int| 0 <= r < 20 implies #[trigger] mvn[r] == (if r
                            == rr as int {
                            mv[r].update(cc as int, v_new)
                        } else {
                            mv[r]
                        }) by {
                            assert(mvn[r] == map@[r]@);
                        }
                        assert(map_wf(mvn));
                        assert forall|r: int, c: int| in_bounds(r, c) implies #[trigger] mvn[r][c]
                            == (if r == rr as int && c == cc as int {
                            v_new
                        } else {
                            mv[r][c]
                        }) by {
                            assert(mvn[r] == (if r == rr as int {
                                mv[r].update(cc as int, v_new)
                            } else {
                                mv[r]
                            }));
                        }
                    }
                }
            }
        }
        proof {
            assert(map_view(map@) =~~= place(m0, k, rt, br, bc));
        }
    }

    /// One step of descent. If the cell below every occupied cell is free and
    /// on the board, the piece moves down one row and the board is untouched;
    /// otherwise the piece locks where it is and the board takes its cells.
    /// Returns whether the piece locked.
    pub fn down(&mut self, map: &mut Vec<Vec<Node>>) -> (r: bool)
        requires
            map_wf(map_view(old(map)@)),
            block_wf(old(self)@),
            1 <= old(self)@.kind,
        ensures
            r == collides(
                map_view(old(map)@),
                old(self)@.kind,
                old(self)@.rot,
                old(self)@.row + 1,
                old(self)@.col,
            ),
            block_wf(final(self)@),
            map_wf(map_view(final(map)@)),
            final(self)@.kind == old(self)@.kind,
            final(self)@.rot == old(self)@.rot,
            final(self)@.col == old(self)@.col,
            !r ==> final(self)@.row == old(self)@.row + 1 && final(map)@ == old(map)@,
            r ==> final(self)@ == old(self)@ && map_view(final(map)@) == place(
                map_view(old(map)@),
                old(self)@.kind,
                old(self)@.rot,
                old(self)@.row,
                old(self)@.col,
            ),
    {
        let is_crash = self.is_crash(map);
        if !is_crash {
            proof {
                lemma_shape_nonempty(self@.kind, self@.rot);
                let (y, x) = choose|y: int, x: int| occ(self@.kind, self@.rot, y, x);
                assert(in_bounds(self@.row + y, self@.col + x));
            }
            self.pos.0 = self.pos.0 + 1;
        } else {
            self.stop(map);
        }
        is_crash
    }

    /// Descend until the piece locks: the piece comes to rest at the first
    /// row at or below its starting row where a further descent would
    /// collide, and its cells are written into the board there.
    pub fn quick_down(&mut self, map: &mut Vec<Vec<Node>>)
        requires
            map_wf(map_view(old(map)@)),
            block_wf(old(self)@),
            1 <= old(self)@.kind,
        ensures
            block_wf(final(self)@),
            map_wf(map_view(final(map)@)),
            final(self)@.kind == old(self)@.kind,
            final(self)@.rot == old(self)@.rot,
            final(self)@.col == old(self)@.col,
            old(self)@.row <= final(self)@.row,
            collides(
                map_view(old(map)@),
                old(self)@.kind,
                old(self)@.rot,
                final(self)@.row + 1,
                old(self)@.col,
            ),
            forall|rr: int|
                old(self)@.row <= rr < final(self)@.row ==> !(#[trigger] collides(
                    map_view(old(map)@),
                    old(self)@.kind,
                    old(self)@.rot,
                    rr + 1,
                    old(self)@.col,
                )),
            map_view(final(map)@) == place(
                map_view(old(map)@),
                old(self)@.kind,
                old(self)@.rot,
                final(self)@.row,
                old(self)@.col,
            ),
    {
        let mut done = false;
        while !done
            invariant
                block_wf(self@),
                self@.kind == old(self)@.kind,
                self@.rot == old(self)@.rot,
                self@.col == old(self)@.col,
                old(self)@.row <= self@.row,
                1 <= self@.kind,
                forall|rr: int|
                    old(self)@.row <= rr < self@.row ==> !(#[trigger] collides(
                        map_view(old(map)@),
                        old(self)@.kind,
                        old(self)@.rot,
                        rr + 1,
                        old(self)@.col,
                    )),
                !done ==> map@ == old(map)@ && map_wf(map_view(map@)),
                done ==> collides(
                    map_view(old(map)@),
                    old(self)@.kind,
                    old(self)@.rot,
                    self@.row + 1,
                    old(self)@.col,
                ) && map_wf(map_view(map@)) && map_view(map@) == place(
                    map_view(old(map)@),
                    old(self)@.kind,
                    old(self)@.rot,
                    self@.row,
                    old(self)@.col,
                ),
            decreases 20 - self@.row + (if done {
                0int
            } else {
                1int
            }),
        {
            done = self.down(map);
        }
    }

    /// Column of the leftmost occupied cell of the current shape.
    fn get_left(&self) -> (r: i8)
        requires
            0 <= self@.kind <= 7,
            0 <= self@.rot <= 3,
        ensures
            r as int == left_off(self@.kind, self@.rot),
            0 <= r <= 3,
    {
        left_edge(self.kind, self.now_shape)
    }

    /// Column of the rightmost occupied cell of the current shape.
    fn get_right(&self) -> (r: i8)
        requires
            0 <= self@.kind <= 7,
            0 <= self@.rot <= 3,
        ensures
            r as int == right_off(self@.kind, self@.rot),
            0 <= r <= 3,
    {
        right_edge(self.kind, self.now_shape)
    }

    /// Row of the lowest occupied cell of the current shape.
    fn get_down(&self) -> (r: i8)
        requires
            0 <= self@.kind <= 7,
            0 <= self@.rot <= 3,
        ensures
            r as int == down_off(self@.kind, self@.rot),
            0 <= r <= 3,
    {
        bottom_edge(self.kind, self.now_shape)
    }

    /// Shifting one column right would take some occupied cell off the board
    /// or onto a locked cell.
    fn is_crash_right(&self, map: &Vec<Vec<Node>>) -> (r: bool)
        requires
            map_wf(map_view(map@)),
            block_wf(self@),
        ensures
            r == collides(map_view(map@), self@.kind, self@.rot, self@.row, self@.col + 1),
    {
        check_overlap(map, self.kind, self.now_shape, self.pos.0, self.pos.1 + 1)
    }

    /// Shifting one column left would take some occupied cell off the board
    /// or onto a locked cell.
    fn is_crash_left(&self, map: &Vec<Vec<Node>>) -> (r: bool)
        requires
            map_wf(map_view(map@)),
            block_wf(self@),
        ensures
            r == collides(map_view(map@), self@.kind, self@.rot, self@.row, self@.col - 1),
    {
        check_overlap(map, self.kind, self.now_shape, self.pos.0, self.pos.1 - 1)
    }

    /// Shift one column right, unless that would take some occupied cell past
    /// column 9 or onto a locked cell; in that case the piece is unchanged.
    pub fn right(&mut self, map: &Vec<Vec<Node>>)
        requires
            map_wf(map_view(map@)),
            block_wf(old(self)@),
            1 <= old(self)@.kind,
        ensures
            final(self)@.kind == old(self)@.kind,
            final(self)@.rot == old(self)@.rot,
            final(self)@.row == old(self)@.row,
            block_wf(final(self)@),
            final(self)@.col == (if collides(
                map_view(map@),
                old(self)@.kind,
                old(self)@.rot,
                old(self)@.row,
                old(self)@.col + 1,
            ) {
                old(self)@.col
            } else {
                old(self)@.col + 1
            }),
    {
        if !self.is_crash_right(map) {
            proof {
                lemma_shape_nonempty(self@.kind, self@.rot);
                let (y, x) = choose|y: int, x: int| occ(self@.kind, self@.rot, y, x);
                assert(in_bounds(self@.row + y, self@.col + x));
            }
            self.pos.1 = self.pos.1 + 1;
        }
    }

    /// Shift one column left, unless that would take some occupied cell past
    /// column 0 or onto a locked cell; in that case the piece is unchanged.
    pub fn left(&mut self, map: &Vec<Vec<Node>>)
        requires
            map_wf(map_view(map@)),
            block_wf(old(self)@),
            1 <= old(self)@.kind,
        ensures
            final(self)@.kind == old(self)@.kind,
            final(self)@.rot == old(self)@.rot,
            final(self)@.row == old(self)@.row,
            block_wf(final(self)@),
            final(self)@.col == (if collides(
                map_view(map@),
                old(self)@.kind,
                old(self)@.rot,
                old(self)@.row,
                old(self)@.col - 1,
            ) {
                old(self)@.col
            } else {
                old(self)@.col - 1
            }),
    {
        if !self.is_crash_left(map) {
            proof {
                lemma_shape_nonempty(self@.kind, self@.rot);
                let (y, x) = choose|y: int, x: int| occ(self@.kind, self@.rot, y, x);
                assert(in_bounds(self@.row + y, self@.col + x));
            }
            self.pos.1 = self.pos.1 - 1;
        }
    }

    /// Rotate one step clockwise, correcting the anchor back onto the board
    /// for the new shape; if the corrected placement overlaps a locked cell,
    /// the piece is unchanged.
    pub fn rotate(&mut self, map: &Vec<Vec<Node>>)
        requires
            map_wf(map_view(map@)),
            block_wf(old(self)@),
            1 <= old(self)@.kind,
        ensures
            final(self)@ == rotate_block(map_view(map@), old(self)@, (old(self)@.rot + 1) % 4),
            block_wf(final(self)@),
    {
        let next_shape = (self.now_shape + 1) % 4;
        self.rotate_to(map, next_shape);
    }

    /// Rotate one step counterclockwise, with the same correction and the
    /// same rejection rule as the clockwise rotation.
    pub fn invrot(&mut self, map: &Vec<Vec<Node>>)
        requires
            map_wf(map_view(map@)),
            block_wf(old(self)@),
            1 <= old(self)@.kind,
        ensures
            final(self)@ == rotate_block(map_view(map@), old(self)@, (old(self)@.rot + 3) % 4),
            block_wf(final(self)@),
    {
        let next_shape = (self.now_shape + 3) % 4;
        self.rotate_to(map, next_shape);
    }

    /// The shared body of the two rotations: try to adopt rotation
    /// `next_shape` at the corrected anchor.
    fn rotate_to(&mut self, map: &Vec<Vec<Node>>, next_shape: u8)
        requires
            map_wf(map_view(map@)),
            block_wf(old(self)@),
            next_shape <= 3,
        ensures
            final(self)@ == rotate_block(map_view(map@), old(self)@, next_shape as int),
            block_wf(final(self)@),
    {
        let le = left_edge(self.kind, next_shape);
        let re = right_edge(self.kind, next_shape);
        let be = bottom_edge(self.kind, next_shape);
        let mut ncol = self.pos.1;
        if ncol < 0 - le {
            ncol = 0 - le;
        }
        if ncol > 9 - re {
            ncol = 9 - re;
        }
        let mut nrow = self.pos.0;
        if nrow > 19 - be {
            nrow = 19 - be;
        }
        proof {
            assert(ncol as int == corrected_col(self@.kind, next_shape as int, self@.col));
            assert(nrow as int == corrected_row(self@.kind, next_shape as int, self@.row));
        }
        if !check_overlap(map, self.kind, next_shape, nrow, ncol) {
            self.now_shape = next_shape;
            self.pos = (nrow, ncol);
        }
    }

    /// One past the rightmost occupied column, on the board, of the topmost
    /// occupied row of the current shape (0 if the shape is empty).
    #[verifier::loop_isolation(false)]
    pub fn debug(&self) -> (r: usize)
        requires
            block_wf(self@),
        ensures
            r as int == debug_col(self@),
    {
        let s = self.get_shape();
        let ghost k = self@.kind;
        let ghost rt = self@.rot;
        for y in 0..4usize
            invariant
                forall|y2: int| y2 < y ==> !row_occ(k, rt, y2),
                s@ == spec_shape(k, rt),
                block_wf(self@),
            decreases 4 - y,
        {
            if s[4 * y + 3] == 1 {
                proof {
                    assert(occ(k, rt, y as int, 3));
                    assert(row_occ(k, rt, y as int));
                    assert(in_bounds(self@.row + y, self@.col + 3));
                    assert(row_right(k, rt, y as int) == 3);
                    assert(debug_col(self@) == self@.col + 4);
                }
                return (self.pos.1 + 3 + 1) as usize;
            } else if s[4 * y + 2] == 1 {
                proof {
                    assert(occ(k, rt, y as int, 2));
                    assert(row_occ(k, rt, y as int));
                    assert(in_bounds(self@.row + y, self@.col + 2));
                    assert(!occ(k, rt, y as int, 3));
                    assert(row_right(k, rt, y as int) == 2);
                    assert(debug_col(self@) == self@.col + 3);
                }
                return (self.pos.1 + 2 + 1) as usize;
            } else if s[4 * y + 1] == 1 {
                proof {
                    assert(occ(k, rt, y as int, 1));
                    assert(row_occ(k, rt, y as int));
                    assert(in_bounds(self@.row + y, self@.col + 1));
                    assert(!occ(k, rt, y as int, 3));
                    assert(!occ(k, rt, y as int, 2));
                    assert(row_right(k, rt, y as int) == 1);
                    assert(debug_col(self@) == self@.col + 2);
                }
                return (self.pos.1 + 1 + 1) as usize;
            } else if s[4 * y] == 1 {
                proof {
                    assert(occ(k, rt, y as int, 0));
                    assert(row_occ(k, rt, y as int));
                    assert(in_bounds(self@.row + y, self@.col));
                    assert(!occ(k, rt, y as int, 3));
                    assert(!occ(k, rt, y as int, 2));
                    assert(!occ(k, rt, y as int, 1));
                    assert(row_right(k, rt, y as int) == 0);
                    assert(debug_col(self@) == self@.col + 1);
                }
                return (self.pos.1 + 1) as usize;
            }
            proof {
                assert forall|x: int| 0 <= x < 4 implies !occ(k, rt, y as int, x) by {
                    assert(s@[4 * (y as int) + x] != 1);
                }
                assert(!row_occ(k, rt, y as int));
            }
        }
        0
    }
}

/// The rightmost occupied column of row `y` of the mask (0 if the row is
/// empty).
pub open spec fn row_right(kind: int, rot: int, y: int) -> int {
    if occ(kind, rot, y, 3) {
        3
    } else if occ(kind, rot, y, 2) {
        2
    } else if occ(kind, rot, y, 1) {
        1
    } else {
        0
    }
}

/// On an empty board a descent comes to rest exactly when its lowest
/// occupied cells sit in the bottom row, row 19 — never beyond it.
pub proof fn lemma_empty_board_rest(m: Seq<Seq<Node>>, b: BlockModel, fr: int)
    requires
        map_wf(m),
        map_empty(m),
        block_wf(b),
        1 <= b.kind,
        is_rest_row(m, b, fr),
    ensures
        fr + down_off(b.kind, b.rot) == 19,
{
    crate::pieces::lemma_edge_occ(b.kind, b.rot);
    let d = down_off(b.kind, b.rot);
    let xw = choose|x: int| #[trigger] occ(b.kind, b.rot, d, x);
    if fr == b.row {
        assert(in_bounds(b.row + d, b.col + xw));
    } else {
        let rr = fr - 1;
        assert(b.row <= rr < fr);
        assert(!collides(m, b.kind, b.rot, rr + 1, b.col));
        assert(in_bounds(rr + 1 + d, b.col + xw));
    }
    assert(fr + d <= 19);
    assert(collides(m, b.kind, b.rot, fr + 1, b.col));
    let (y2, x2) = choose|y2: int, x2: int|
        #[trigger] occ(b.kind, b.rot, y2, x2) && (!in_bounds(fr + 1 + y2, b.col + x2)
            || cell_occupied(m, fr + 1 + y2, b.col + x2));
    assert(in_bounds(b.row + y2, b.col + x2));
    if in_bounds(fr + 1 + y2, b.col + x2) {
        assert(cell_occupied(m, fr + 1 + y2, b.col + x2));
        assert(false);
    }
    assert(fr + 1 + y2 >= 20);
    crate::pieces::lemma_edges(b.kind, b.rot, y2, x2);
    assert(fr + d >= 19);
}

/// Rotating a piece on a board whose every cell holds a locked piece never
/// changes it: the rotation is always rejected.
pub proof fn lemma_rotate_full_board(m: Seq<Seq<Node>>, b: BlockModel, rot2: int)
    requires
        map_wf(m),
        map_full(m),
        block_wf(b),
        1 <= b.kind,
        0 <= rot2 <= 3,
    ensures
        rotate_block(m, b, rot2) == b,
{
    lemma_shape_nonempty(b.kind, rot2);
    let (y, x) = choose|y: int, x: int| occ(b.kind, rot2, y, x);
    let nrow = corrected_row(b.kind, rot2, b.row);
    let ncol = corrected_col(b.kind, rot2, b.col);
    if in_bounds(nrow + y, ncol + x) {
        assert(cell_occupied(m, nrow + y, ncol + x));
    }
    assert(occ(b.kind, rot2, y, x) && (!in_bounds(nrow + y, ncol + x) || cell_occupied(
        m,
        nrow + y,
        ncol + x,
    )));
    assert(collides(m, b.kind, rot2, nrow, ncol));
}

/// A piece standing at the left wall is not moved by a left shift, nor one
/// standing at the right wall by a right shift: a shift that would carry an
/// occupied cell past column 0 or column 9 is always rejected.
pub proof fn lemma_shift_at_wall(m: Seq<Seq<Node>>, b: BlockModel)
    requires
        map_wf(m),
        block_wf(b),
        1 <= b.kind,
    ensures
        b.col + left_off(b.kind, b.rot) == 0 ==> shifted_block(m, b, -1) == b,
        b.col + right_off(b.kind, b.rot) == 9 ==> shifted_block(m, b, 1) == b,
{
    crate::pieces::lemma_edge_occ(b.kind, b.rot);
    let lo = left_off(b.kind, b.rot);
    let ro = right_off(b.kind, b.rot);
    if b.col + lo == 0 {
        let yl = choose|y: int| #[trigger] occ(b.kind, b.rot, y, lo);
        assert(occ(b.kind, b.rot, yl, lo) && !in_bounds(b.row + yl, b.col - 1 + lo));
        assert(collides(m, b.kind, b.rot, b.row, b.col - 1));
    }
    if b.col + ro == 9 {
        let yr = choose|y: int| #[trigger] occ(b.kind, b.rot, y, ro);
        assert(occ(b.kind, b.rot, yr, ro) && !in_bounds(b.row + yr, b.col + 1 + ro));
        assert(collides(m, b.kind, b.rot, b.row, b.col + 1));
    }
}

/// The corrected anchor of a rotation puts every occupied cell of the new
/// shape on the board.
pub proof fn lemma_corrected_in_bounds(kind: int, rot2: int, row: int, col: int)
    requires
        1 <= kind <= 7,
        0 <= rot2 <= 3,
        0 <= row,
    ensures
        forall|y: int, x: int|
            #[trigger] occ(kind, rot2, y, x) ==> in_bounds(
                corrected_row(kind, rot2, row) + y,
                corrected_col(kind, rot2, col) + x,
            ),
{
    crate::pieces::lemma_edge_occ(kind, rot2);
    let nrow = corrected_row(kind, rot2, row);
    let ncol = corrected_col(kind, rot2, col);
    assert forall|y: int, x: int| #[trigger] occ(kind, rot2, y, x) implies in_bounds(
        nrow + y,
        ncol + x,
    ) by {
        crate::pieces::lemma_edges(kind, rot2, y, x);
    }
}

/// On an empty board one clockwise rotation is always accepted: the
/// rotation state advances and the piece stays well formed.
proof fn lemma_rotate_empty_step(m: Seq<Seq<Node>>, b: BlockModel)
    requires
        map_wf(m),
        map_empty(m),
        block_wf(b),
        1 <= b.kind,
    ensures
        rotate_block(m, b, (b.rot + 1) % 4).rot == (b.rot + 1) % 4,
        rotate_block(m, b, (b.rot + 1) % 4).kind == b.kind,
        block_wf(rotate_block(m, b, (b.rot + 1) % 4)),
{
    let rot2 = (b.rot + 1) % 4;
    lemma_corrected_in_bounds(b.kind, rot2, b.row, b.col);
    let nrow = corrected_row(b.kind, rot2, b.row);
    let ncol = corrected_col(b.kind, rot2, b.col);
    assert(!collides(m, b.kind, rot2, nrow, ncol)) by {
        if collides(m, b.kind, rot2, nrow, ncol) {
            let (y, x) = choose|y: int, x: int|
                #[trigger] occ(b.kind, rot2, y, x) && (!in_bounds(nrow + y, ncol + x)
                    || cell_occupied(m, nrow + y, ncol + x));
            assert(in_bounds(nrow + y, ncol + x));
            assert(false);
        }
    }
    crate::pieces::lemma_edge_occ(b.kind, rot2);
}

/// Four clockwise rotations on an empty board return the rotation state,
/// and with it the shape mask, to the original value, for every kind.
pub proof fn lemma_rotate_four_round_trip(m: Seq<Seq<Node>>, b: BlockModel)
    requires
        map_wf(m),
        map_empty(m),
        block_wf(b),
        1 <= b.kind,
    ensures
        ({
            let b1 = rotate_block(m, b, (b.rot + 1) % 4);
            let b2 = rotate_block(m, b1, (b1.rot + 1) % 4);
            let b3 = rotate_block(m, b2, (b2.rot + 1) % 4);
            let b4 = rotate_block(m, b3, (b3.rot + 1) % 4);
            b4.rot == b.rot && b4.kind == b.kind && spec_shape(b4.kind, b4.rot) == spec_shape(
                b.kind,
                b.rot,
            )
        }),
{
    let b1 = rotate_block(m, b, (b.rot + 1) % 4);
    lemma_rotate_empty_step(m, b);
    let b2 = rotate_block(m, b1, (b1.rot + 1) % 4);
    lemma_rotate_empty_step(m, b1);
    let b3 = rotate_block(m, b2, (b2.rot + 1) % 4);
    lemma_rotate_empty_step(m, b2);
    let b4 = rotate_block(m, b3, (b3.rot + 1) % 4);
    lemma_rotate_empty_step(m, b3);
}

/// The board column one past the rightmost occupied cell of the topmost
/// occupied row of the piece's shape, or 0 for an empty shape.
pub open spec fn debug_col(b: BlockModel) -> int {
    if row_occ(b.kind, b.rot, 0) {
        b.col + row_right(b.kind, b.rot, 0) + 1
    } else if row_occ(b.kind, b.rot, 1) {
        b.col + row_right(b.kind, b.rot, 1) + 1
    } else if row_occ(b.kind, b.rot, 2) {
        b.col + row_right(b.kind, b.rot, 2) + 1
    } else if row_occ(b.kind, b.rot, 3) {
        b.col + row_right(b.kind, b.rot, 3) + 1
    } else {
        0
    }
}

/// Column of the leftmost occupied cell of the mask of piece `kind` in
/// rotation `rot` (0 if the mask is empty).
fn left_edge(kind: u8, rot: u8) -> (r: i8)
    requires
        kind <= 7,
        rot <= 3,
    ensures
        r as int == left_off(kind as int, rot as int),
        0 <= r <= 3,
{
    let s = shape_of(kind, rot);
    let ghost k = kind as int;
    let ghost rt = rot as int;
    if s[0] == 1 || s[4] == 1 || s[8] == 1 || s[12] == 1 {
        proof {
            if s@[0] == 1 {
                assert(occ(k, rt, 0, 0));
            } else if s@[4] == 1 {
                assert(occ(k, rt, 1, 0));
            } else if s@[8] == 1 {
                assert(occ(k, rt, 2, 0));
            } else {
                assert(occ(k, rt, 3, 0));
            }
        }
        0
    } else if s[1] == 1 || s[5] == 1 || s[9] == 1 || s[13] == 1 {
        proof {
            if s@[1] == 1 {
                assert(occ(k, rt, 0, 1));
            } else if s@[5] == 1 {
                assert(occ(k, rt, 1, 1));
            } else if s@[9] == 1 {
                assert(occ(k, rt, 2, 1));
            } else {
                assert(occ(k, rt, 3, 1));
            }
        }
        1
    } else if s[2] == 1 || s[6] == 1 || s[10] == 1 || s[14] == 1 {
        proof {
            if s@[2] == 1 {
                assert(occ(k, rt, 0, 2));
            } else if s@[6] == 1 {
                assert(occ(k, rt, 1, 2));
            } else if s@[10] == 1 {
                assert(occ(k, rt, 2, 2));
            } else {
                assert(occ(k, rt, 3, 2));
            }
        }
        2
    } else if s[3] == 1 || s[7] == 1 || s[11] == 1 || s[15] == 1 {
        proof {
            if s@[3] == 1 {
                assert(occ(k, rt, 0, 3));
            } else if s@[7] == 1 {
                assert(occ(k, rt, 1, 3));
            } else if s@[11] == 1 {
                assert(occ(k, rt, 2, 3));
            } else {
                assert(occ(k, rt, 3, 3));
            }
        }
        3
    } else {
        0
    }
}

/// Column of the rightmost occupied cell of the mask of piece `kind` in
/// rotation `rot` (0 if the mask is empty).
fn right_edge(kind: u8, rot: u8) -> (r: i8)
    requires
        kind <= 7,
        rot <= 3,
    ensures
        r as int == right_off(kind as int, rot as int),
        0 <= r <= 3,
{
    let s = shape_of(kind, rot);
    let ghost k = kind as int;
    let ghost rt = rot as int;
    if s[3] == 1 || s[7] == 1 || s[11] == 1 || s[15] == 1 {
        proof {
            if s@[3] == 1 {
                assert(occ(k, rt, 0, 3));
            } else if s@[7] == 1 {
                assert(occ(k, rt, 1, 3));
            } else if s@[11] == 1 {
                assert(occ(k, rt, 2, 3));
            } else {
                assert(occ(k, rt, 3, 3));
            }
        }
        3
    } else if s[2] == 1 || s[6] == 1 || s[10] == 1 || s[14] == 1 {
        proof {
            if s@[2] == 1 {
                assert(occ(k, rt, 0, 2));
            } else if s@[6] == 1 {
                assert(occ(k, rt, 1, 2));
            } else if s@[10] == 1 {
                assert(occ(k, rt, 2, 2));
            } else {
                assert(occ(k, rt, 3, 2));
            }
        }
        2
    } else if s[1] == 1 || s[5] == 1 || s[9] == 1 || s[13] == 1 {
        proof {
            if s@[1] == 1 {
                assert(occ(k, rt, 0, 1));
            } else if s@[5] == 1 {
                assert(occ(k, rt, 1, 1));
            } else if s@[9] == 1 {
                assert(occ(k, rt, 2, 1));
            } else {
                assert(occ(k, rt, 3, 1));
            }
        }
        1
    } else {
        0
    }
}

/// Row of the lowest occupied cell of the mask of piece `kind` in rotation
/// `rot` (0 if the mask is empty).
fn bottom_edge(kind: u8, rot: u8) -> (r: i8)
    requires
        kind <= 7,
        rot <= 3,
    ensures
        r as int == down_off(kind as int, rot as int),
        0 <= r <= 3,
{
    let s = shape_of(kind, rot);
    let ghost k = kind as int;
    let ghost rt = rot as int;
    if s[12] == 1 || s[13] == 1 || s[14] == 1 || s[15] == 1 {
        proof {
            if s@[12] == 1 {
                assert(occ(k, rt, 3, 0));
            } else if s@[13] == 1 {
                assert(occ(k, rt, 3, 1));
            } else if s@[14] == 1 {
                assert(occ(k, rt, 3, 2));
            } else {
                assert(occ(k, rt, 3, 3));
            }
        }
        3
    } else if s[8] == 1 || s[9] == 1 || s[10] == 1 || s[11] == 1 {
        proof {
            if s@[8] == 1 {
                assert(occ(k, rt, 2, 0));
            } else if s@[9] == 1 {
                assert(occ(k, rt, 2, 1));
            } else if s@[10] == 1 {
                assert(occ(k, rt, 2, 2));
            } else {
                assert(occ(k, rt, 2, 3));
            }
        }
        2
    } else if s[4] == 1 || s[5] == 1 || s[6] == 1 || s[7] == 1 {
        proof {
            if s@[4] == 1 {
                assert(occ(k, rt, 1, 0));
            } else if s@[5] == 1 {
                assert(occ(k, rt, 1, 1));
            } else if s@[6] == 1 {
                assert(occ(k, rt, 1, 2));
            } else {
                assert(occ(k, rt, 1, 3));
            }
        }
        1
    } else {
        0
    }
}

/// Scan every occupied cell of piece `kind` in rotation `rot`, anchored at
/// (row, col), and report whether any lies off the board or on an occupied
/// board cell.
#[verifier::loop_isolation(false)]
fn check_overlap(map: &Vec<Vec<Node>>, kind: u8, rot: u8, row: i8, col: i8) -> (r: bool)
    requires
        map_wf(map_view(map@)),
        kind <= 7,
        rot <= 3,
        -8 <= row <= 24,
        -8 <= col <= 16,
    ensures
        r == collides(map_view(map@), kind as int, rot as int, row as int, col as int),
{
    let shape = shape_of(kind, rot);
    let ghost m = map_view(map@);
    for y in 0..4usize
        invariant
            forall|y2: int, x2: int|
                y2 < y && #[trigger] occ(kind as int, rot as int, y2, x2) ==> in_bounds(
                    row + y2,
                    col + x2,
                ) && !cell_occupied(m, row + y2, col + x2),
    {
        for x in 0..4usize
            invariant
                forall|y2: int, x2: int|
                    y2 < y && #[trigger] occ(kind as int, rot as int, y2, x2) ==> in_bounds(
                        row + y2,
                        col + x2,
                    ) && !cell_occupied(m, row + y2, col + x2),
                forall|x2: int|
                    x2 < x && #[trigger] occ(kind as int, rot as int, y as int, x2) ==> in_bounds(
                        row + y,
                        col + x2,
                    ) && !cell_occupied(m, row + y, col + x2),
        {
            if shape[4 * y + x] == 1 {
                proof {
                    assert(occ(kind as int, rot as int, y as int, x as int));
                }
                let rr: i8 = row + y as i8;
                let cc: i8 = col + x as i8;
                if rr < 0 || rr > 19 || cc < 0 || cc > 9 {
                    return true;
                }
                proof {
                    assert(m[rr as int] == map@[rr as int]@);
                    assert(m[rr as int].len() == 10);
                }
                if map[rr as usize][cc as usize].kind == 1 {
                    proof {
                        assert(cell_occupied(m, rr as int, cc as int));
                    }
                    return true;
                }
            }
        }
    }
    false
}

} // verus!
