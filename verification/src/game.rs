use vstd::prelude::*;

use std::collections::VecDeque;
use vstd::multiset::Multiset;
use crate::utils::{
    Node, Block, BlockModel, map_wf, map_view, block_wf, collides, place, rotate_block, in_bounds,
    is_rest_row, rest_row, lemma_rest_row_unique, shifted_block,
};

verus! {

/// One logical player action, as the input source reports it.
#[derive(Clone, Copy)]
pub enum Action {
    Quit,
    RotateCw,
    RotateCcw,
    MoveLeft,
    MoveRight,
    SoftDrop,
    HardDrop,
}

/// The multiset holding each of the seven real piece kinds once.
pub open spec fn all_kinds() -> Multiset<u8> {
    seq![1u8, 2, 3, 4, 5, 6, 7].to_multiset()
}

/// The sequence splits into consecutive runs of seven, each of which holds
/// every piece kind exactly once.
pub open spec fn chunks_are_perms(s: Seq<u8>) -> bool {
    &&& s.len() % 7 == 0
    &&& forall|i: int|
        0 <= i < s.len() / 7 ==> #[trigger] s.subrange(7 * i, 7 * i + 7).to_multiset()
            == all_kinds()
}

/// Taking the first `i` elements of a sequence, then swapping position `x`
/// (with `x < i`) out to position `i - 1` and keeping only the first `i - 1`,
/// drops exactly one occurrence of the element that stood at `x`.
proof fn lemma_swap_shrink_multiset(s: Seq<u8>, i: int, x: int)
    requires
        1 <= i <= s.len(),
        0 <= x < i,
    ensures
        s.update(x, s[i - 1]).update(i - 1, s[x]).take(i - 1).to_multiset().insert(s[x])
            == s.take(i).to_multiset(),
{
    broadcast use vstd::seq_lib::group_to_multiset_ensures;

    let w = s[i - 1];
    let v = s[x];
    let t = s.update(x, w).update(i - 1, v);
    let a = s.take(i - 1);
    assert(s.take(i) =~= a.push(w));
    if x == i - 1 {
        assert(t.take(i - 1) =~= a);
        assert(s.take(i).to_multiset() == a.to_multiset().insert(w));
    } else {
        let l = t.take(i - 1);
        assert(l =~= a.update(x, w));
        assert(l.remove(x) =~= a.remove(x));
        assert(l.to_multiset() == l.remove(x).to_multiset().insert(w)) by {
            assert(l.remove(x).to_multiset() == l.to_multiset().remove(l[x]));
            assert(l.contains(w)) by {
                assert(l[x] == w);
            }
            assert(l.to_multiset().count(w) > 0);
            assert(l.to_multiset().remove(w).insert(w) =~= l.to_multiset());
        }
        assert(a.to_multiset() == a.remove(x).to_multiset().insert(v)) by {
            assert(a.remove(x).to_multiset() == a.to_multiset().remove(a[x]));
            assert(a.contains(v)) by {
                assert(a[x] == v);
            }
            assert(a.to_multiset().count(v) > 0);
            assert(a.to_multiset().remove(v).insert(v) =~= a.to_multiset());
        }
        assert(s.take(i).to_multiset() == a.to_multiset().insert(w));
        assert(a.remove(x).to_multiset().insert(v).insert(w) =~= a.remove(x).to_multiset().insert(
            w,
        ).insert(v));
    }
}

/// Every element of a sequence whose multiset is the seven kinds lies
/// between 1 and 7.
proof fn lemma_perm_elements(s: Seq<u8>)
    requires
        s.to_multiset() == all_kinds(),
    ensures
        forall|j: int| 0 <= j < s.len() ==> 1 <= #[trigger] s[j] <= 7,
{
    broadcast use vstd::seq_lib::group_to_multiset_ensures;

    let kinds = seq![1u8, 2, 3, 4, 5, 6, 7];
    assert forall|j: int| 0 <= j < s.len() implies 1 <= #[trigger] s[j] <= 7 by {
        assert(s.contains(s[j]));
        assert(s.to_multiset().count(s[j]) > 0);
        assert(kinds.to_multiset().count(s[j]) > 0);
        assert(kinds.contains(s[j]));
        let e = choose|e: int| 0 <= e < kinds.len() && kinds[e] == s[j];
        assert(1 <= kinds[e] <= 7);
    }
}

/// Appending a run that holds every kind exactly once to a sequence that
/// splits into such runs yields a sequence that still splits into such runs.
proof fn lemma_chunks_append(s: Seq<u8>, fresh: Seq<u8>)
    requires
        chunks_are_perms(s),
        fresh.len() == 7,
        fresh.to_multiset() == all_kinds(),
    ensures
        chunks_are_perms(s + fresh),
{
    let t = s + fresh;
    assert(t.len() == s.len() + 7);
    assert(t.len() % 7 == 0);
    assert forall|i: int| 0 <= i < t.len() / 7 implies #[trigger] t.subrange(7 * i, 7 * i + 7)
        .to_multiset() == all_kinds() by {
        if i < s.len() / 7 {
            assert(t.subrange(7 * i, 7 * i + 7) =~= s.subrange(7 * i, 7 * i + 7));
        } else {
            assert(7 * i == s.len());
            assert(t.subrange(7 * i, 7 * i + 7) =~= fresh);
        }
    }
}

/// Every run of seven consecutive draws aligned to refill boundaries holds
/// each of the seven kinds exactly once. The game invariant `wf` keeps the
/// draw history followed by the queue in `chunks_are_perms` shape at all
/// times, so this applies to any such run of a game's draws.
pub proof fn lemma_bag_run_is_permutation(s: Seq<u8>, i: int)
    requires
        chunks_are_perms(s),
        0 <= i,
        7 * i + 7 <= s.len(),
    ensures
        s.subrange(7 * i, 7 * i + 7).to_multiset() == all_kinds(),
{
    assert(i < s.len() / 7) by (nonlinear_arith)
        requires
            7 * i + 7 <= s.len(),
            s.len() % 7 == 0,
    ;
}

/// Relies on rand::random: one pseudorandom machine word, about whose value
/// nothing is promised.
#[verifier::external_body]
fn random_usize() -> usize {
    rand::random::<usize>()
}

/// The whole game: the board of locked cells, the falling piece, the queue
/// of upcoming piece kinds, the score, and the quit flag.
pub struct Game {
    map: Vec<Vec<Node>>,
    now_block: Block,
    packs: VecDeque<u8>,
    score: i32,
    end_flag: u8,
    drawn: Ghost<Seq<u8>>,
}

impl Game {
    /// The board of locked cells, row by row.
    pub closed spec fn spec_map(&self) -> Seq<Seq<Node>> {
        map_view(self.map@)
    }

    /// The falling piece.
    pub closed spec fn spec_block(&self) -> BlockModel {
        self.now_block@
    }

    /// The queue of upcoming piece kinds, front first.
    pub closed spec fn spec_packs(&self) -> Seq<u8> {
        self.packs@
    }

    /// Every kind drawn from the queue so far, in draw order.
    pub closed spec fn spec_drawn(&self) -> Seq<u8> {
        self.drawn@
    }

    /// The score counter.
    pub closed spec fn spec_score(&self) -> int {
        self.score as int
    }

    /// The quit flag has been raised.
    pub closed spec fn spec_end(&self) -> bool {
        self.end_flag == 1
    }

    /// A well-formed game: a 20x10 board, a well-formed falling piece of a
    /// real kind, and a draw history plus queue that split into runs of
    /// seven holding each kind exactly once, with at least seven kinds
    /// queued.
    pub open spec fn wf(&self) -> bool {
        &&& map_wf(self.spec_map())
        &&& block_wf(self.spec_block())
        &&& 1 <= self.spec_block().kind
        &&& chunks_are_perms(self.spec_drawn() + self.spec_packs())
        &&& self.spec_packs().len() >= 7
        &&& forall|j: int|
            0 <= j < self.spec_packs().len() ==> 1 <= #[trigger] self.spec_packs()[j] <= 7
    }

    /// Append a fresh shuffle of the seven kinds to the queue: the queue
    /// keeps its old front and gains seven entries that hold each kind
    /// exactly once.
    #[verifier::loop_isolation(false)]
    fn create_packs(&mut self)
        ensures
            final(self).packs@.len() == old(self).packs@.len() + 7,
            final(self).packs@.subrange(0, old(self).packs@.len() as int) == old(self).packs@,
            final(self).packs@.subrange(
                old(self).packs@.len() as int,
                final(self).packs@.len() as int,
            ).to_multiset() == all_kinds(),
            final(self).map == old(self).map,
            final(self).now_block == old(self).now_block,
            final(self).score == old(self).score,
            final(self).end_flag == old(self).end_flag,
            final(self).drawn == old(self).drawn,
    {
        broadcast use vstd::seq_lib::group_to_multiset_ensures;

        let ghost start = self.packs@.len() as int;
        let mut tmp_vec: Vec<u8> = Vec::new();
        tmp_vec.push(1);
        tmp_vec.push(2);
        tmp_vec.push(3);
        tmp_vec.push(4);
        tmp_vec.push(5);
        tmp_vec.push(6);
        tmp_vec.push(7);
        proof {
            assert(tmp_vec@ =~= seq![1u8, 2, 3, 4, 5, 6, 7]);
            assert(tmp_vec@.take(7) =~= tmp_vec@);
            assert(self.packs@.subrange(start, start) =~= Seq::<u8>::empty());
            assert(Seq::<u8>::empty().to_multiset() =~= Multiset::<u8>::empty());
            assert(Multiset::<u8>::empty().add(tmp_vec@.take(7).to_multiset()) =~= tmp_vec@.take(
                7,
            ).to_multiset());
        }
        let mut i: usize = 7;
        while i >= 1
            invariant
                i <= 7,
                tmp_vec@.len() == 7,
                self.packs@.len() == start + (7 - i),
                self.packs@.subrange(0, start) == old(self).packs@,
                self.packs@.subrange(start, self.packs@.len() as int).to_multiset().add(
                    tmp_vec@.take(i as int).to_multiset(),
                ) == all_kinds(),
                self.map == old(self).map,
                self.now_block == old(self).now_block,
                self.score == old(self).score,
                self.end_flag == old(self).end_flag,
                self.drawn == old(self).drawn,
            decreases i,
        {
            let x = random_usize() % i;
            let ghost packs_before = self.packs@;
            let ghost tmp_before = tmp_vec@;
            let picked = tmp_vec[x];
            let last = tmp_vec[i - 1];
            self.packs.push_back(picked);
            tmp_vec[i - 1] = picked;
            tmp_vec[x] = last;
            proof {
                assert(tmp_vec@ =~= tmp_before.update(x as int, last).update(
                    i - 1,
                    tmp_before[x as int],
                ));
                lemma_swap_shrink_multiset(tmp_before, i as int, x as int);
                let app_old = packs_before.subrange(start, packs_before.len() as int);
                let app_new = self.packs@.subrange(start, self.packs@.len() as int);
                assert(app_new =~= app_old.push(picked));
                assert(app_new.to_multiset() == app_old.to_multiset().insert(picked));
                assert(self.packs@.subrange(0, start) =~= packs_before.subrange(0, start));
                assert(app_new.to_multiset().add(tmp_vec@.take(i - 1).to_multiset()) =~= app_old
                    .to_multiset().add(tmp_before.take(i as int).to_multiset()));
            }
            i = i - 1;
        }
        proof {
            let app = self.packs@.subrange(start, self.packs@.len() as int);
            assert(tmp_vec@.take(0) =~= Seq::<u8>::empty());
            assert(app.to_multiset().add(Multiset::<u8>::empty()) =~= app.to_multiset());
        }
    }

    /// Draw the next piece kind: pop the front of the queue, and refill the
    /// queue with a fresh shuffle of the seven kinds whenever fewer than
    /// seven remain, so a draw is always possible.
    pub fn pick_next_block(&mut self) -> (out: u8)
        requires
            old(self).wf(),
        ensures
            final(self).wf(),
            1 <= out <= 7,
            out == old(self).spec_packs()[0],
            final(self).spec_drawn() == old(self).spec_drawn().push(out),
            final(self).spec_map() == old(self).spec_map(),
            final(self).spec_block() == old(self).spec_block(),
            final(self).spec_score() == old(self).spec_score(),
            final(self).spec_end() == old(self).spec_end(),
            old(self).spec_packs().len() > 7 ==> final(self).spec_packs() == old(
                self,
            ).spec_packs().subrange(1, old(self).spec_packs().len() as int),
            old(self).spec_packs().len() == 7 ==> final(self).spec_packs().len() == 13
                && final(self).spec_packs().subrange(0, 6) == old(self).spec_packs().subrange(1, 7)
                && final(self).spec_packs().subrange(6, 13).to_multiset() == all_kinds(),
    {
        let ghost drawn0 = self.drawn@;
        let ghost packs0 = self.packs@;
        let out = self.packs.pop_front().unwrap();
        proof {
            self.drawn@ = self.drawn@.push(out);
            assert(drawn0.push(out) + self.packs@ =~= drawn0 + packs0);
        }
        let flag = self.packs.len() < 7;
        if flag {
            let ghost tail = self.packs@;
            self.create_packs();
            proof {
                let fresh = self.packs@.subrange(tail.len() as int, self.packs@.len() as int);
                lemma_chunks_append(drawn0 + packs0, fresh);
                lemma_perm_elements(fresh);
                assert(self.drawn@ + self.packs@ =~= (drawn0 + packs0) + fresh);
                assert(self.packs@.subrange(0, tail.len() as int) =~= tail);
                assert forall|j: int| 0 <= j < self.packs@.len() implies 1 <= #[trigger] self
                    .packs@[j] <= 7 by {
                    if j < tail.len() {
                        assert(self.packs@[j] == self.packs@.subrange(0, tail.len() as int)[j]);
                        assert(tail[j] == packs0[j + 1]);
                    } else {
                        assert(self.packs@[j] == fresh[j - tail.len()]);
                    }
                }
                assert(self.packs@.subrange(0, 6) =~= packs0.subrange(1, 7));
                assert(self.packs@.subrange(6, 13) =~= fresh);
            }
        }
        out
    }

    /// A fresh game: an empty white board, score 0, the quit flag down, a
    /// queue pre-filled with a shuffle of the seven kinds, and the falling
    /// piece spawned from the first draw.
    #[verifier::loop_isolation(false)]
    pub fn init() -> (g: Game)
        ensures
            g.wf(),
            forall|r: int, c: int|
                in_bounds(r, c) ==> g.spec_map()[r][c] == (Node {
                    col: (255u8, 255u8, 255u8),
                    kind: 0u8,
                }),
            g.spec_score() == 0,
            !g.spec_end(),
            g.spec_drawn().len() == 1,
            1 <= g.spec_drawn()[0] <= 7,
            g.spec_block() == (BlockModel {
                kind: g.spec_drawn()[0] as int,
                rot: 0,
                row: 0,
                col: 3,
            }),
    {
        let mut map: Vec<Vec<Node>> = Vec::new();
        for r in 0..20usize
            invariant
                map@.len() == r,
                forall|r2: int| 0 <= r2 < r ==> (#[trigger] map@[r2]@).len() == 10,
                forall|r2: int, c: int|
                    0 <= r2 < r && 0 <= c < 10 ==> #[trigger] map@[r2]@[c] == (Node {
                        col: (255u8, 255u8, 255u8),
                        kind: 0u8,
                    }),
        {
            let mut row: Vec<Node> = Vec::new();
            for c in 0..10usize
                invariant
                    row@.len() == c,
                    forall|c2: int|
                        0 <= c2 < c ==> #[trigger] row@[c2] == (Node {
                            col: (255u8, 255u8, 255u8),
                            kind: 0u8,
                        }),
            {
                row.push(Node::init((255, 255, 255), 0));
            }
            map.push(row);
        }
        let now_block = Block::init(1, (1, 4), 0);
        let packs: VecDeque<u8> = VecDeque::new();
        let mut g = Game {
            map,
            now_block,
            packs,
            score: 0,
            end_flag: 0,
            drawn: Ghost(Seq::empty()),
        };
        proof {
            assert(map_wf(g.spec_map()));
            assert(block_wf(g.spec_block()));
        }
        g.create_packs();
        proof {
            let fresh = g.packs@.subrange(0, 7);
            assert(fresh =~= g.packs@);
            lemma_chunks_append(Seq::<u8>::empty(), fresh);
            lemma_perm_elements(fresh);
            assert(g.drawn@ + g.packs@ =~= Seq::<u8>::empty() + fresh);
            assert forall|j: int| 0 <= j < g.packs@.len() implies 1 <= #[trigger] g.packs@[j]
                <= 7 by {
                assert(g.packs@[j] == fresh[j]);
            }
        }
        let k = g.pick_next_block();
        g.now_block.next(k);
        g
    }

    /// The board of locked cells.
    pub fn get_map(&self) -> (m: &Vec<Vec<Node>>)
        ensures
            map_view(m@) == self.spec_map(),
    {
        &self.map
    }

    /// The falling piece.
    pub fn get_block(&self) -> (b: &Block)
        ensures
            b@ == self.spec_block(),
    {
        &self.now_block
    }

    /// The score counter.
    pub fn get_score(&self) -> (s: i32)
        ensures
            s as int == self.spec_score(),
    {
        self.score
    }

    /// The quit flag has been raised.
    pub fn is_ended(&self) -> (r: bool)
        ensures
            r == self.spec_end(),
    {
        self.end_flag == 1
    }

    /// Drive the game by one player action: quit raises the quit flag; the
    /// rotations and shifts move the falling piece against the board; a soft
    /// drop descends one row, and a hard drop descends to rest; a descent
    /// that locks the piece writes it into the board and spawns the next
    /// drawn kind.
    pub fn apply(&mut self, action: Action)
        requires
            old(self).wf(),
        ensures
            final(self).wf(),
            match action {
                Action::Quit => {
                    &&& final(self).spec_end()
                    &&& final(self).spec_map() == old(self).spec_map()
                    &&& final(self).spec_block() == old(self).spec_block()
                    &&& final(self).spec_packs() == old(self).spec_packs()
                    &&& final(self).spec_drawn() == old(self).spec_drawn()
                    &&& final(self).spec_score() == old(self).spec_score()
                },
                Action::RotateCw => {
                    &&& final(self).spec_block() == rotate_block(
                        old(self).spec_map(),
                        old(self).spec_block(),
                        (old(self).spec_block().rot + 1) % 4,
                    )
                    &&& holds_rest(*old(self), *final(self))
                },
                Action::RotateCcw => {
                    &&& final(self).spec_block() == rotate_block(
                        old(self).spec_map(),
                        old(self).spec_block(),
                        (old(self).spec_block().rot + 3) % 4,
                    )
                    &&& holds_rest(*old(self), *final(self))
                },
                Action::MoveLeft => {
                    &&& final(self).spec_block() == shifted_block(
                        old(self).spec_map(),
                        old(self).spec_block(),
                        -1,
                    )
                    &&& holds_rest(*old(self), *final(self))
                },
                Action::MoveRight => {
                    &&& final(self).spec_block() == shifted_block(
                        old(self).spec_map(),
                        old(self).spec_block(),
                        1,
                    )
                    &&& holds_rest(*old(self), *final(self))
                },
                Action::SoftDrop => {
                    if collides(
                        old(self).spec_map(),
                        old(self).spec_block().kind,
                        old(self).spec_block().rot,
                        old(self).spec_block().row + 1,
                        old(self).spec_block().col,
                    ) {
                        locked_and_respawned(
                            *old(self),
                            *final(self),
                            old(self).spec_block().row,
                        )
                    } else {
                        &&& final(self).spec_block() == (BlockModel {
                            kind: old(self).spec_block().kind,
                            rot: old(self).spec_block().rot,
                            row: old(self).spec_block().row + 1,
                            col: old(self).spec_block().col,
                        })
                        &&& holds_rest(*old(self), *final(self))
                    }
                },
                Action::HardDrop => {
                    &&& is_rest_row(
                        old(self).spec_map(),
                        old(self).spec_block(),
                        rest_row(old(self).spec_map(), old(self).spec_block()),
                    )
                    &&& locked_and_respawned(
                        *old(self),
                        *final(self),
                        rest_row(old(self).spec_map(), old(self).spec_block()),
                    )
                },
            },
    {
        match action {
            Action::Quit => {
                self.end_flag = 1;
            },
            Action::RotateCw => {
                self.now_block.rotate(&self.map);
            },
            Action::RotateCcw => {
                self.now_block.invrot(&self.map);
            },
            Action::MoveLeft => {
                self.now_block.left(&self.map);
            },
            Action::MoveRight => {
                self.now_block.right(&self.map);
            },
            Action::SoftDrop => {
                if self.now_block.down(&mut self.map) {
                    let k = self.pick_next_block();
                    self.now_block.next(k);
                }
            },
            Action::HardDrop => {
                let ghost m0 = self.spec_map();
                let ghost b0 = self.spec_block();
                self.now_block.quick_down(&mut self.map);
                proof {
                    assert(is_rest_row(m0, b0, self.spec_block().row));
                    lemma_rest_row_unique(m0, b0, self.spec_block().row, rest_row(m0, b0));
                }
                let k = self.pick_next_block();
                self.now_block.next(k);
            },
        }
    }
}

/// Board, queue, draw history, score and quit flag are unchanged.
pub open spec fn holds_rest(pre: Game, post: Game) -> bool {
    &&& post.spec_map() == pre.spec_map()
    &&& post.spec_packs() == pre.spec_packs()
    &&& post.spec_drawn() == pre.spec_drawn()
    &&& post.spec_score() == pre.spec_score()
    &&& post.spec_end() == pre.spec_end()
}

/// The old piece is locked into the board at row `fr`, and the next drawn
/// kind spawns at the top.
pub open spec fn locked_and_respawned(pre: Game, post: Game, fr: int) -> bool {
    &&& post.spec_map() == place(
        pre.spec_map(),
        pre.spec_block().kind,
        pre.spec_block().rot,
        fr,
        pre.spec_block().col,
    )
    &&& post.spec_block() == (BlockModel {
        kind: pre.spec_packs()[0] as int,
        rot: 0,
        row: 0,
        col: 3,
    })
    &&& post.spec_drawn() == pre.spec_drawn().push(pre.spec_packs()[0])
    &&& post.spec_score() == pre.spec_score()
    &&& post.spec_end() == pre.spec_end()
}

} // verus!
