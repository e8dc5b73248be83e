//! Monte-Carlo tree search over the board engine.

use vstd::prelude::*;
use crate::board::{
    at, component, count, end_bonus, gain, in_grid, is_group_of, lemma_group_len, lemma_legal_append, lemma_legal_push, lemma_replay_append,
    legal_line, replay,
    some_pair, PopStarEngine, EMPTY,
};
use crate::laws::lemma_no_moves_iff_lone_tiles;
use rand::seq::IndexedRandom;
use rand::rngs::StdRng;

verus! {

/// A legal move: the clicked cell and its connected group.
pub type Move = ((usize, usize), Vec<(usize, usize)>);

/// `rand`'s standard generator, carried through the search unopened.
#[verifier::external_type_specification]
#[verifier::external_body]
pub struct ExStdRng(StdRng);

/// `m` is a legal move on board `b`: its group is the connected group of its
/// cell and holds two tiles or more.
pub open spec fn legal_move(b: Seq<i8>, m: Move) -> bool {
    is_group_of(b, m.0, m.1@) && m.1@.len() >= 2
}

/// The sampling weight of a move: the square of its group's size.
pub fn move_weight(m: &Move) -> (w: u128)
    ensures
        w == m.1@.len() * m.1@.len(),
{
    let n = m.1.len() as u128;
    assert(n * n <= u128::MAX) by (nonlinear_arith)
        requires
            n <= usize::MAX,
    ;
    n * n
}

/// The largest outcome a game can reach: every score the board allows, plus
/// the largest end bonus.
pub const OUTCOME_BOUND: i64 = 52000;

/// A node of the search tree, held in the solver's arena.
struct Node {
    engine: PopStarEngine,
    parent: Option<usize>,
    children: Vec<usize>,
    action: Option<(usize, usize)>,
    visits: u32,
    value: i64,
    untried_actions: Vec<Move>,
}

impl Node {
    fn new(engine: PopStarEngine, parent: Option<usize>, action: Option<(usize, usize)>) -> (n: Node)
        requires
            engine.wf(),
        ensures
            n.engine == engine,
            n.parent == parent,
            n.action == action,
            n.children@.len() == 0,
            n.visits == 0,
            n.value == 0,
            all_moves(engine.board@, n.untried_actions@),
    {
        let untried = get_all_moves(&engine);
        Node { engine, parent, children: Vec::new(), action, visits: 0, value: 0, untried_actions: untried }
    }
}

/// `n` is `o` with its statistics unchanged, or, when `j` lies above
/// `floor`, with one more visit that brought `result`.
spec fn bumped_above(n: Node, o: Node, j: int, floor: int, result: i64) -> bool {
    &&& n.engine == o.engine
    &&& n.parent == o.parent
    &&& n.children == o.children
    &&& n.action == o.action
    &&& n.untried_actions == o.untried_actions
    &&& (n.visits == o.visits && n.value == o.value) || (j > floor && n.visits == o.visits + 1 && n.value
        == o.value + result)
}

/// `n` is `o` with one more visit that brought `result` when `bump` holds,
/// and with its statistics unchanged otherwise.
spec fn visited(n: Node, o: Node, bump: bool, result: i64) -> bool {
    &&& bump ==> n.visits == o.visits + 1 && n.value == o.value + result
    &&& !bump ==> n.visits == o.visits && n.value == o.value
}

/// The Monte-Carlo tree search: an arena of nodes, the root first, each node
/// after its parent.
pub struct PopStarSolver {
    nodes: Vec<Node>,
    root_idx: usize,
    rounds: Ghost<nat>,
}

impl PopStarSolver {
    /// The cells played from the root to node `i`.
    spec fn line_to(&self, i: int) -> Seq<(usize, usize)>
        decreases i,
    {
        if 0 <= i < self.nodes@.len() {
            match self.nodes@[i].parent {
                Some(p) => if p < i {
                    self.line_to(p as int).push(self.nodes@[i].action->0)
                } else {
                    Seq::empty()
                },
                None => Seq::empty(),
            }
        } else {
            Seq::empty()
        }
    }

    /// Two arenas that agree on every parent and action agree on every line.
    proof fn lemma_line_same(a: &Self, b: &Self, i: int)
        requires
            0 <= i < a.nodes@.len() <= b.nodes@.len(),
            forall|j: int|
                0 <= j < a.nodes@.len() ==> (#[trigger] b.nodes@[j]).parent == a.nodes@[j].parent
                    && b.nodes@[j].action == a.nodes@[j].action,
        ensures
            a.line_to(i) == b.line_to(i),
        decreases i,
    {
        assert(b.nodes@[i].parent == a.nodes@[i].parent);
        match a.nodes@[i].parent {
            Some(p) => {
                if p < i {
                    Self::lemma_line_same(a, b, p as int);
                }
            },
            None => {},
        }
    }

    /// Node `j` lies on the way from node `i` up to the root, `i` included.
    spec fn on_way_up(&self, i: int, j: int) -> bool
        decreases i,
    {
        if 0 <= i < self.nodes@.len() {
            i == j || match self.nodes@[i].parent {
                Some(p) => p < i && self.on_way_up(p as int, j),
                None => false,
            }
        } else {
            false
        }
    }

    proof fn lemma_way_below(&self, i: int, j: int)
        requires
            self.on_way_up(i, j),
        ensures
            j <= i,
        decreases i,
    {
        if i != j {
            let p = self.nodes@[i].parent->0;
            self.lemma_way_below(p as int, j);
        }
    }

    proof fn lemma_way_parent(&self, leaf: int, i: int, p: usize)
        requires
            self.on_way_up(leaf, i),
            self.nodes@[i].parent == Some(p),
            p < i,
        ensures
            self.on_way_up(leaf, p as int),
        decreases leaf,
    {
        if leaf == i {
            assert(self.on_way_up(p as int, p as int));
        } else {
            let q = self.nodes@[leaf].parent->0;
            self.lemma_way_parent(q as int, i, p);
        }
    }

    /// The root's child at position `b` has the most visits, and is the last
    /// of the children with that many.
    spec fn most_visited_child(&self, b: int) -> bool {
        let ch = self.nodes@[0].children@;
        &&& 0 <= b < ch.len()
        &&& forall|j: int|
            0 <= j < ch.len() ==> self.nodes@[#[trigger] ch[j] as int].visits <= self.nodes@[ch[b] as int].visits
        &&& forall|j: int|
            b < j < ch.len() ==> self.nodes@[#[trigger] ch[j] as int].visits < self.nodes@[ch[b] as int].visits
    }

    /// Node `i` is in order: its links point within the arena and to later
    /// nodes, its untried moves are legal, its statistics are in range, and
    /// its position is the root's after the line that leads to it.
    spec fn node_ok(&self, i: int) -> bool {
        let nodes = self.nodes@;
        let n = nodes[i];
        let root = nodes[0];
        &&& n.engine.wf()
        &&& (i == 0) == (n.parent is None)
        &&& i == 0 ==> n.action is None
        &&& (n.parent matches Some(p) ==> p < i)
        &&& forall|k: int| 0 <= k < n.children@.len() ==> i < #[trigger] n.children@[k] < nodes.len()
        &&& forall|k: int|
            0 <= k < n.children@.len() ==> nodes[#[trigger] n.children@[k] as int].parent == Some(i as usize)
        &&& forall|k: int|
            0 <= k < n.untried_actions@.len() ==> legal_move(n.engine.board@, #[trigger] n.untried_actions@[k])
        &&& n.visits <= self.rounds@
        &&& 0 <= n.value <= n.visits * OUTCOME_BOUND
        &&& i != 0 ==> n.action is Some && n.engine.total_score >= root.engine.total_score + 20
        &&& n.parent == Some(0usize) ==> component(root.engine.board@, n.action->0).len() >= 2
        &&& (n.engine.board@, n.engine.total_score as int) == replay(
            root.engine.board@,
            root.engine.total_score as int,
            self.line_to(i),
        )        &&& legal_line(root.engine.board@, root.engine.total_score as int, self.line_to(i))
    }

    /// The arena is well formed.
    pub closed spec fn wf(&self) -> bool {
        &&& self.root_idx == 0
        &&& self.nodes@.len() >= 1
        &&& self.rounds@ <= u32::MAX
        &&& forall|i: int| 0 <= i < self.nodes@.len() ==> #[trigger] self.node_ok(i)
        &&& some_pair(self.root_board()) ==> self.nodes@[0].untried_actions@.len() > 0
            || self.nodes@[0].children@.len() > 0
        &&& !some_pair(self.root_board()) ==> self.nodes@[0].children@.len() == 0
    }

    /// The board the search starts from.
    pub closed spec fn root_board(&self) -> Seq<i8> {
        self.nodes@[0].engine.board@
    }

    /// The score the search starts from.
    pub closed spec fn root_total(&self) -> int {
        self.nodes@[0].engine.total_score as int
    }

    /// Number of rounds of search run so far.
    pub closed spec fn rounds(&self) -> nat {
        self.rounds@
    }

    /// No move has been expanded yet.
    pub closed spec fn fresh(&self) -> bool {
        self.nodes@[0].children@.len() == 0
    }

    /// The arena holds one node, the root: the position `e`, with no parent,
    /// action, child or visit, and every legal move of `e` untried.
    pub closed spec fn only_root(&self, e: PopStarEngine) -> bool {
        let root = self.nodes@[0];
        &&& self.nodes@.len() == 1
        &&& self.root_idx == 0
        &&& root.engine == e
        &&& root.parent is None
        &&& root.action is None
        &&& root.children@.len() == 0
        &&& root.visits == 0
        &&& root.value == 0
        &&& all_moves(e.board@, root.untried_actions@)
    }

    /// A solver whose tree holds only the given position.
    pub fn new(engine: PopStarEngine) -> (s: Self)
        requires
            engine.wf(),
        ensures
            s.wf(),
            s.only_root(engine),
            s.fresh(),
            s.rounds() == 0,
            s.root_board() == engine.board@,
            s.root_total() == engine.total_score,
    {
        let root = Node::new(engine, None, None);
        let mut nodes: Vec<Node> = Vec::new();
        nodes.push(root);
        let s = PopStarSolver { nodes, root_idx: 0, rounds: Ghost(0) };
        assert(s.node_ok(0));
        s
    }

    /// Plays weighted random moves on `engine` until none is left. Returns the
    /// points gained, end bonus included, and the cells played.
    fn simulate(engine: &mut PopStarEngine, rng: &mut StdRng) -> (res: (i32, Vec<(usize, usize)>))
        requires
            old(engine).wf(),
        ensures
            final(engine).wf(),
            !some_pair(final(engine).board@),
            final(engine).total_score >= old(engine).total_score,
            res.0 == final(engine).total_score + end_bonus(count(final(engine).board@) as int)
                - old(engine).total_score,
            !some_pair(old(engine).board@) ==> res.1@.len() == 0,
            (final(engine).board@, final(engine).total_score as int) == replay(
                old(engine).board@,
                old(engine).total_score as int,
                res.1@,
            ),
            legal_line(old(engine).board@, old(engine).total_score as int, res.1@),
            res.1@.len() * 2 <= count(old(engine).board@),
    {
        let initial_score = engine.total_score;
        let mut path: Vec<(usize, usize)> = Vec::new();
        loop
            invariant
                engine.wf(),
                engine.total_score >= initial_score,
                initial_score == old(engine).total_score,
                !some_pair(old(engine).board@) ==> path@.len() == 0 && engine.board@ == old(engine).board@,
                (engine.board@, engine.total_score as int) == replay(
                    old(engine).board@,
                    old(engine).total_score as int,
                    path@,
                ),
                legal_line(old(engine).board@, old(engine).total_score as int, path@),
                count(engine.board@) + path@.len() * 2 <= count(old(engine).board@),
            ensures
                engine.wf(),
                engine.total_score >= initial_score,
                !some_pair(engine.board@),
                !some_pair(old(engine).board@) ==> path@.len() == 0,
                (engine.board@, engine.total_score as int) == replay(
                    old(engine).board@,
                    old(engine).total_score as int,
                    path@,
                ),
                legal_line(old(engine).board@, old(engine).total_score as int, path@),
                count(engine.board@) + path@.len() * 2 <= count(old(engine).board@),
            decreases count(engine.board@),
        {
            let mut moves = get_all_moves(engine);
            if moves.len() == 0 {
                break;
            }
            proof {
                assert forall|k: int| 0 <= k < moves@.len() implies 1 <= (#[trigger] moves@[k]).1@.len() <= 100 by {
                    lemma_group_bound(engine.board@, moves@[k]);
                }
            }
            let k = pick_move(&moves, rng);
            let ghost m = moves@[k as int];
            let (cell, group) = moves.swap_remove(k);
            proof {
                assert(legal_move(engine.board@, m));
                lemma_group_len(engine.board@, cell, group@);
            }
            engine.eliminate(cell.0, cell.1, Some(group));
            let ghost before_path = path@;
            path.push(cell);
            assert(path@.drop_last() =~= before_path);
            proof {
                lemma_legal_push(old(engine).board@, old(engine).total_score as int, before_path, cell);
            }
        }
        let bonus = engine.calculate_end_bonus();
        proof {
            engine.lemma_score_bound();
        }
        (engine.total_score + bonus - initial_score, path)
    }

    /// Adds one visit and `result` to the node `leaf_idx` and to each of its
    /// ancestors.
    fn backpropagate(&mut self, leaf_idx: usize, result: i64)
        requires
            old(self).wf(),
            leaf_idx < old(self).nodes@.len(),
            0 <= result <= OUTCOME_BOUND,
            old(self).rounds@ + 1 <= u32::MAX,
        ensures
            final(self).wf(),
            final(self).rounds@ == old(self).rounds@ + 1,
            final(self).nodes@.len() == old(self).nodes@.len(),
            final(self).root_board() == old(self).root_board(),
            final(self).root_total() == old(self).root_total(),
            final(self).fresh() == old(self).fresh(),
            forall|j: int|
                0 <= j < old(self).nodes@.len() ==> bumped_above(
                    #[trigger] final(self).nodes@[j],
                    old(self).nodes@[j],
                    j,
                    -1,
                    result,
                ) && visited(final(self).nodes@[j], old(self).nodes@[j], old(self).on_way_up(leaf_idx as int, j), result),
    {
        let ghost old_nodes = self.nodes@;
        let mut idx = leaf_idx;
        loop
            invariant_except_break
                forall|j: int|
                    0 <= j < old_nodes.len() ==> bumped_above(#[trigger] self.nodes@[j], old_nodes[j], j, idx as int, result),
                forall|j: int|
                    0 <= j < old_nodes.len() ==> visited(
                        #[trigger] self.nodes@[j],
                        old_nodes[j],
                        old(self).on_way_up(leaf_idx as int, j) && !old(self).on_way_up(idx as int, j),
                        result,
                    ),
                old(self).on_way_up(leaf_idx as int, idx as int),
            invariant
                self.nodes@.len() == old_nodes.len(),
                old_nodes == old(self).nodes@,
                old(self).wf(),
                idx < self.nodes@.len(),
                self.root_idx == old(self).root_idx,
                self.rounds == old(self).rounds,
                0 <= result <= OUTCOME_BOUND,
                old(self).rounds@ + 1 <= u32::MAX,
            ensures
                forall|j: int|
                    0 <= j < old_nodes.len() ==> bumped_above(#[trigger] self.nodes@[j], old_nodes[j], j, -1, result),
                forall|j: int|
                    0 <= j < old_nodes.len() ==> visited(
                        #[trigger] self.nodes@[j],
                        old_nodes[j],
                        old(self).on_way_up(leaf_idx as int, j),
                        result,
                    ),
            decreases idx,
        {
            proof {
                assert(old(self).node_ok(idx as int));
                let o = old_nodes[idx as int];
                assert(o.value + result <= (o.visits + 1) * OUTCOME_BOUND) by (nonlinear_arith)
                    requires
                        o.value <= o.visits * OUTCOME_BOUND,
                        result <= OUTCOME_BOUND,
                ;
                assert((o.visits + 1) * OUTCOME_BOUND <= (u32::MAX as int) * OUTCOME_BOUND) by (nonlinear_arith)
                    requires
                        o.visits + 1 <= u32::MAX,
                ;
            }
            let ghost before = self.nodes@;
            self.nodes[idx].visits = self.nodes[idx].visits + 1;
            self.nodes[idx].value = self.nodes[idx].value + result;
            match self.nodes[idx].parent {
                Some(p) => {
                    proof {
                        assert forall|j: int| 0 <= j < old_nodes.len() implies bumped_above(
                            #[trigger] self.nodes@[j],
                            old_nodes[j],
                            j,
                            p as int,
                            result,
                        ) by {
                            if j != idx {
                                assert(self.nodes@[j] == before[j]);
                                assert(bumped_above(before[j], old_nodes[j], j, idx as int, result));
                            }
                        }
                        assert(old(self).node_ok(idx as int));
                        old(self).lemma_way_parent(leaf_idx as int, idx as int, p);
                        assert forall|j: int| 0 <= j < old_nodes.len() implies visited(
                            #[trigger] self.nodes@[j],
                            old_nodes[j],
                            old(self).on_way_up(leaf_idx as int, j) && !old(self).on_way_up(p as int, j),
                            result,
                        ) by {
                            if old(self).on_way_up(p as int, j) {
                                old(self).lemma_way_below(p as int, j);
                            }
                            if j != idx {
                                assert(self.nodes@[j] == before[j]);
                                assert(visited(
                                    before[j],
                                    old_nodes[j],
                                    old(self).on_way_up(leaf_idx as int, j) && !old(self).on_way_up(idx as int, j),
                                    result,
                                ));
                            } else {
                                assert(old(self).on_way_up(idx as int, idx as int));
                                assert(before[j] == old_nodes[j]) by {
                                    assert(visited(
                                        before[j],
                                        old_nodes[j],
                                        old(self).on_way_up(leaf_idx as int, j) && !old(self).on_way_up(idx as int, j),
                                        result,
                                    ));
                                    assert(bumped_above(before[j], old_nodes[j], j, idx as int, result));
                                }
                            }
                        }
                    }
                    idx = p;
                },
                None => {
                    proof {
                        assert forall|j: int| 0 <= j < old_nodes.len() implies bumped_above(
                            #[trigger] self.nodes@[j],
                            old_nodes[j],
                            j,
                            -1,
                            result,
                        ) by {
                            if j != idx {
                                assert(self.nodes@[j] == before[j]);
                                assert(bumped_above(before[j], old_nodes[j], j, idx as int, result));
                            }
                        }
                        assert forall|j: int| 0 <= j < old_nodes.len() implies visited(
                            #[trigger] self.nodes@[j],
                            old_nodes[j],
                            old(self).on_way_up(leaf_idx as int, j),
                            result,
                        ) by {
                            if j != idx {
                                assert(self.nodes@[j] == before[j]);
                                assert(visited(
                                    before[j],
                                    old_nodes[j],
                                    old(self).on_way_up(leaf_idx as int, j) && !old(self).on_way_up(idx as int, j),
                                    result,
                                ));
                            } else {
                                assert(old(self).on_way_up(idx as int, idx as int));
                            }
                        }
                    }
                    break;
                },
            }
        }
        self.rounds = Ghost(self.rounds@ + 1);
        proof {
            assert forall|j: int| 0 <= j < old_nodes.len() implies (#[trigger] self.nodes@[j]).parent
                == old_nodes[j].parent && self.nodes@[j].action == old_nodes[j].action by {
                assert(bumped_above(self.nodes@[j], old_nodes[j], j, -1, result));
            }
            assert(bumped_above(self.nodes@[0], old_nodes[0], 0, -1, result));
            assert forall|i: int| 0 <= i < self.nodes@.len() implies #[trigger] self.node_ok(i) by {
                assert(old(self).node_ok(i));
                Self::lemma_line_same(old(self), self, i);
                let n = self.nodes@[i];
                let o = old_nodes[i];
                assert(bumped_above(n, o, i, -1, result));
                if n.visits == o.visits + 1 {
                    assert(n.value <= n.visits * OUTCOME_BOUND) by (nonlinear_arith)
                        requires
                            o.value <= o.visits * OUTCOME_BOUND,
                            n.value == o.value + result,
                            result <= OUTCOME_BOUND,
                            n.visits == o.visits + 1,
                    ;
                }
            }
        }
    }

    /// The recommendation: the first cell of the best line found, with the
    /// line; failing that, the most visited child of the root (the last of
    /// equals), with the line to it; nothing when the root has no child.
    fn get_final_recommendation(&self, best_path: &Vec<(usize, usize)>) -> (res: (
        Option<(usize, usize)>,
        Vec<(usize, usize)>,
    ))
        requires
            self.wf(),
            best_path@.len() > 0 ==> component(self.root_board(), best_path@[0]).len() >= 2,
        ensures
            self.fresh() ==> res.0 is None && res.1@.len() == 0,
            !self.fresh() ==> res.0 is Some && res.1@.len() > 0 && res.1@[0] == res.0->0 && component(
                self.root_board(),
                res.0->0,
            ).len() >= 2,
            !self.fresh() && best_path@.len() > 0 ==> res.1@ == best_path@,
            legal_line(self.root_board(), self.root_total(), best_path@) ==> legal_line(
                self.root_board(),
                self.root_total(),
                res.1@,
            ),
            !self.fresh() && best_path@.len() == 0 ==> exists|b: int|
                #[trigger] self.most_visited_child(b) && res.0 == self.nodes@[self.nodes@[0].children@[b] as int].action
                    && res.1@ == self.line_to(self.nodes@[0].children@[b] as int),
    {
        let root = &self.nodes[self.root_idx];
        if root.children.len() == 0 {
            return (None, Vec::new());
        }
        if best_path.len() > 0 {
            let mut copy: Vec<(usize, usize)> = Vec::new();
            let mut i: usize = 0;
            while i < best_path.len()
                invariant
                    i <= best_path@.len(),
                    copy@ == best_path@.subrange(0, i as int),
                decreases best_path@.len() - i,
            {
                copy.push(best_path[i]);
                i = i + 1;
            }
            assert(best_path@.subrange(0, best_path@.len() as int) =~= best_path@);
            return (Some(best_path[0]), copy);
        }
        assert(self.node_ok(0));
        let mut best_child = root.children[0];
        let ghost mut bk: int = 0;
        let mut k: usize = 1;
        while k < root.children.len()
            invariant
                self.wf(),
                root == self.nodes@[0],
                1 <= k <= root.children@.len(),
                best_child < self.nodes@.len(),
                self.nodes@[best_child as int].parent == Some(0usize),
                0 <= bk < k,
                root.children@[bk] == best_child,
                forall|j: int|
                    0 <= j < k ==> self.nodes@[#[trigger] root.children@[j] as int].visits <= self.nodes@[best_child as int].visits,
                forall|j: int|
                    bk < j < k ==> self.nodes@[#[trigger] root.children@[j] as int].visits < self.nodes@[best_child as int].visits,
            decreases root.children@.len() - k,
        {
            assert(self.node_ok(0));
            let c = root.children[k];
            if self.nodes[c].visits >= self.nodes[best_child].visits {
                best_child = c;
                proof {
                    bk = k as int;
                }
            }
            k = k + 1;
        }
        proof {
            assert(self.node_ok(best_child as int));
            assert(self.line_to(0) == Seq::<(usize, usize)>::empty());
            assert(self.line_to(best_child as int) == seq![self.nodes@[best_child as int].action->0]);
        }
        let path = self.reconstruct_path(best_child);
        assert(self.most_visited_child(bk));
        (self.nodes[best_child].action, path)
    }

    /// Runs `iterations` rounds of search from the root and returns the
    /// recommended cell, the best score found and the line that reached it.
    ///
    /// A round descends from the root, through nodes whose moves have all been
    /// tried, to the child that `select` picks: it is given the parent's visits
    /// and each child's visits and summed outcome, and answers a position among
    /// the children (an answer past the end picks the last child). It then
    /// expands one untried move, plays a weighted random game from there with
    /// `rng`, and adds the outcome over the root's score to every node on the
    /// way back. A root without a move gives no cell, a score of zero and an
    /// empty line.
    pub fn solve<F>(&mut self, iterations: usize, rng: &mut StdRng, select: F) -> (res: (
        Option<(usize, usize)>,
        i32,
        Vec<(usize, usize)>,
    )) where F: Fn(u32, Vec<(u32, i64)>) -> usize
        requires
            old(self).wf(),
            old(self).rounds() + iterations <= u32::MAX,
            forall|v: u32, s: Vec<(u32, i64)>| select.requires((v, s)),
        ensures
            final(self).wf(),
            final(self).rounds() == old(self).rounds() + iterations,
            final(self).root_board() == old(self).root_board(),
            final(self).fresh() ==> res.0 is None && res.1 == 0 && res.2@.len() == 0,
            !final(self).fresh() ==> res.0 is Some && res.2@.len() > 0 && res.2@[0] == res.0->0 && component(
                old(self).root_board(),
                res.0->0,
            ).len() >= 2,
            !some_pair(old(self).root_board()) ==> final(self).fresh(),
            old(self).fresh() && iterations == 0 ==> final(self).fresh(),
            iterations > 0 && some_pair(old(self).root_board()) ==> !final(self).fresh() && res.1
                >= old(self).root_total() + 20,
            legal_line(old(self).root_board(), old(self).root_total(), res.2@),
            iterations > 0 && some_pair(old(self).root_board()) ==> ({
                let end = replay(old(self).root_board(), old(self).root_total(), res.2@);
                &&& !some_pair(end.0)
                &&& res.1 == end.1 + end_bonus(count(end.0) as int)
            }),
    {
        let mut max_score_found: i32 = 0;
        let mut best_path_found: Vec<(usize, usize)> = Vec::new();
        let mut it: usize = 0;
        while it < iterations
            invariant
                self.wf(),
                it <= iterations,
                self.rounds() == old(self).rounds() + it,
                old(self).rounds() + iterations <= u32::MAX,
                self.root_board() == old(self).root_board(),
                self.root_total() == old(self).root_total(),
                forall|v: u32, s: Vec<(u32, i64)>| select.requires((v, s)),
                0 <= max_score_found,
                best_path_found@.len() > 0 ==> component(self.root_board(), best_path_found@[0]).len() >= 2,
                old(self).fresh() && it == 0 ==> self.fresh(),
                !old(self).fresh() ==> !self.fresh(),
                it > 0 && some_pair(self.root_board()) ==> !self.fresh() && max_score_found >= self.root_total()
                    + 20,
                some_pair(self.root_board()) && max_score_found > 0 ==> best_path_found@.len() > 0,
                legal_line(self.root_board(), self.root_total(), best_path_found@),
                best_path_found@.len() > 0 ==> ({
                    let end = replay(self.root_board(), self.root_total(), best_path_found@);
                    &&& !some_pair(end.0)
                    &&& max_score_found == end.1 + end_bonus(count(end.0) as int)
                }),
            decreases iterations - it,
        {
            // Selection.
            let mut node_idx: usize = self.root_idx;
            loop
                invariant
                    self.wf(),
                    node_idx < self.nodes@.len(),
                    forall|v: u32, s: Vec<(u32, i64)>| select.requires((v, s)),
                    node_idx == 0 || !self.fresh(),
                ensures
                    node_idx == 0 && some_pair(self.root_board()) ==> self.nodes@[0].untried_actions@.len() > 0,
                    node_idx == 0 || !self.fresh(),
                decreases self.nodes@.len() - node_idx,
            {
                assert(self.node_ok(node_idx as int));
                if self.nodes[node_idx].untried_actions.len() > 0 {
                    break;
                }
                let n_children = self.nodes[node_idx].children.len();
                if n_children == 0 {
                    break;
                }
                let mut stats: Vec<(u32, i64)> = Vec::new();
                let mut k: usize = 0;
                while k < n_children
                    invariant
                        self.wf(),
                        node_idx < self.nodes@.len(),
                        n_children == self.nodes@[node_idx as int].children@.len(),
                        k <= n_children,
                    decreases n_children - k,
                {
                    assert(self.node_ok(node_idx as int));
                    let ch = self.nodes[node_idx].children[k];
                    stats.push((self.nodes[ch].visits, self.nodes[ch].value));
                    k = k + 1;
                }
                let picked = select(self.nodes[node_idx].visits, stats);
                let pos = if picked < n_children { picked } else { n_children - 1 };
                node_idx = self.nodes[node_idx].children[pos];
            }
            // Expansion.
            let mut curr_idx = node_idx;
            if self.nodes[curr_idx].untried_actions.len() > 0 {
                let ghost before = *self;
                proof {
                    assert(before.node_ok(curr_idx as int));
                    assert(before.node_ok(0));
                }
                let (cell, group) = self.nodes[curr_idx].untried_actions.pop().unwrap();
                let ghost gm = group@;
                let mut next_engine = self.nodes[curr_idx].engine.clone();
                let ghost parent_engine = next_engine;
                proof {
                    let ua = before.nodes@[curr_idx as int].untried_actions@;
                    assert(legal_move(parent_engine.board@, ua[ua.len() - 1]));
                    lemma_group_len(next_engine.board@, cell, group@);
                    crate::laws::lemma_gain_positive(gm.len() as int);
                    if curr_idx == 0 {
                        lemma_has_pair(parent_engine.board@, cell);
                    }
                }
                next_engine.eliminate(cell.0, cell.1, Some(group));
                let new_node = Node::new(next_engine, Some(curr_idx), Some(cell));
                let new_idx = self.nodes.len();
                self.nodes.push(new_node);
                self.nodes[curr_idx].children.push(new_idx);
                proof {
                    let bn = before.nodes@;
                    assert(self.nodes@[0].engine == bn[0].engine);
                    assert forall|j: int| 0 <= j < bn.len() implies (#[trigger] self.nodes@[j]).parent
                        == bn[j].parent && self.nodes@[j].action == bn[j].action by {
                        if j != curr_idx {
                            assert(self.nodes@[j] == bn[j]);
                        }
                    }
                    Self::lemma_line_same(&before, self, curr_idx as int);
                    let line = self.line_to(curr_idx as int);
                    assert(self.line_to(new_idx as int) == line.push(cell));
                    assert(line.push(cell).drop_last() =~= line);
                    assert(before.node_ok(curr_idx as int));
                    assert(legal_line(self.root_board(), self.root_total(), line));
                    lemma_legal_push(self.root_board(), self.root_total(), line, cell);
                    assert forall|i: int| 0 <= i < self.nodes@.len() implies #[trigger] self.node_ok(i) by {
                        if i < bn.len() {
                            assert(before.node_ok(i));
                            Self::lemma_line_same(&before, self, i);
                        }
                        if i < bn.len() && i != curr_idx {
                            assert(self.nodes@[i] == bn[i]);
                            let n = bn[i];
                            assert forall|k: int| 0 <= k < n.children@.len() implies self.nodes@[
                                #[trigger] n.children@[k] as int].parent == Some(i as usize) by {
                                assert(bn[n.children@[k] as int].parent == Some(i as usize));
                                assert(n.children@[k] != new_idx);
                            }
                        }
                        if i == curr_idx {
                            let n = self.nodes@[i];
                            let o = bn[i];
                            assert(n.children@ == o.children@.push(new_idx));
                            assert forall|k: int| 0 <= k < n.untried_actions@.len() implies legal_move(
                                n.engine.board@,
                                #[trigger] n.untried_actions@[k],
                            ) by {
                                assert(n.untried_actions@[k] == o.untried_actions@[k]);
                            }
                            assert forall|k: int| 0 <= k < n.children@.len() implies self.nodes@[
                                #[trigger] n.children@[k] as int].parent == Some(i as usize) by {
                                if k < o.children@.len() {
                                    assert(bn[o.children@[k] as int].parent == Some(i as usize));
                                }
                            }
                        }
                    }
                }
                curr_idx = new_idx;
            }
            // Simulation.
            assert(self.node_ok(curr_idx as int));
            assert(curr_idx == 0 ==> !some_pair(self.root_board()));
            let mut sim_engine = self.nodes[curr_idx].engine.clone();
            let (sim_delta, rollout) = Self::simulate(&mut sim_engine, rng);
            proof {
                sim_engine.lemma_score_bound();
                let k = count(sim_engine.board@) as int;
                if k > 0 {
                    crate::laws::lemma_end_bonus_shape(0, if k < 10 { k } else { 10 });
                }
            }
            let current_total = self.nodes[curr_idx].engine.total_score + sim_delta;
            assert(self.node_ok(0));
            if current_total > max_score_found {
                max_score_found = current_total;
                let mut path = self.reconstruct_path(curr_idx);
                let ghost line = path@;
                let ghost played = rollout@;
                let mut tail = rollout;
                path.append(&mut tail);
                proof {
                    assert(path@ == line + played);
                    lemma_replay_append(self.root_board(), self.root_total(), line, played);
                    lemma_legal_append(self.root_board(), self.root_total(), line, played);
                }
                best_path_found = path;
            }
            // Backpropagation.
            let score_delta = (current_total - self.nodes[self.root_idx].engine.total_score) as i64;
            self.backpropagate(curr_idx, score_delta);
            it = it + 1;
        }
        assert(self.node_ok(0));
        assert(iterations > 0 && some_pair(self.root_board()) ==> best_path_found@.len() > 0);
        let (best_action, final_path) = self.get_final_recommendation(&best_path_found);
        if best_action.is_none() {
            return (None, 0, final_path);
        }
        (best_action, max_score_found, final_path)
    }

    /// The cells played from the root to node `node_idx`.
    fn reconstruct_path(&self, node_idx: usize) -> (path: Vec<(usize, usize)>)
        requires
            self.wf(),
            node_idx < self.nodes@.len(),
        ensures
            node_idx != 0 ==> path@.len() > 0 && component(self.root_board(), path@[0]).len() >= 2,
            node_idx == 0 ==> path@.len() == 0,
            path@ == self.line_to(node_idx as int),
    {
        let ghost full = self.line_to(node_idx as int);
        let mut rev: Vec<(usize, usize)> = Vec::new();
        let mut idx = node_idx;
        loop
            invariant
                self.wf(),
                idx < self.nodes@.len(),
                full == self.line_to(node_idx as int),
                self.line_to(idx as int).len() + rev@.len() == full.len(),
                full.subrange(0, self.line_to(idx as int).len() as int) == self.line_to(idx as int),
                forall|j: int| 0 <= j < rev@.len() ==> rev@[j] == full[full.len() - 1 - j],
                idx == 0 && node_idx != 0 ==> rev@.len() > 0 && component(self.root_board(), rev@.last()).len()
                    >= 2,
                node_idx == 0 ==> idx == 0 && rev@.len() == 0,
            ensures
                node_idx != 0 ==> rev@.len() > 0 && component(self.root_board(), rev@.last()).len() >= 2,
                node_idx == 0 ==> rev@.len() == 0,
                rev@.len() == full.len(),
                forall|j: int| 0 <= j < rev@.len() ==> rev@[j] == full[full.len() - 1 - j],
            decreases idx,
        {
            assert(self.node_ok(idx as int));
            let ghost here = self.line_to(idx as int);
            if let Some(a) = self.nodes[idx].action {
                proof {
                    let p = self.nodes@[idx as int].parent->0;
                    let up = self.line_to(p as int);
                    assert(here == up.push(a));
                    assert(full.subrange(0, here.len() as int)[here.len() - 1] == a);
                    assert(full.subrange(0, up.len() as int) =~= up) by {
                        assert forall|j: int| 0 <= j < up.len() implies full[j] == up[j] by {
                            assert(full.subrange(0, here.len() as int)[j] == here[j]);
                        }
                    }
                }
                rev.push(a);
            }
            match self.nodes[idx].parent {
                Some(p) => {
                    idx = p;
                },
                None => {
                    break;
                },
            }
        }
        let mut path: Vec<(usize, usize)> = Vec::new();
        let mut k = rev.len();
        while k > 0
            invariant
                k <= rev@.len(),
                path@.len() == rev@.len() - k,
                forall|j: int| 0 <= j < path@.len() ==> path@[j] == rev@[rev@.len() - 1 - j],
            decreases k,
        {
            k = k - 1;
            path.push(rev[k]);
        }
        assert(path@ =~= full);
        path
    }
}

/// Relies on `IndexedRandom::choose_weighted`: on success it hands out one of
/// the moves, drawn with probability proportional to its weight; the move is
/// reported by its cell. It succeeds when the list is not empty and every
/// weight is positive, as `WeightedIndex::new` fails only on an empty list, a
/// negative weight, a zero total or a total past `u128` (here at most
/// `10_000` per move).
#[verifier::external_body]
fn choose_weighted_cell(moves: &Vec<Move>, rng: &mut StdRng) -> (r: Option<(usize, usize)>)
    ensures
        r matches Some(a) ==> exists|i: int| 0 <= i < moves@.len() && (#[trigger] moves@[i]).0 == a,
        moves@.len() > 0 && (forall|k: int| 0 <= k < moves@.len() ==> 1 <= (#[trigger] moves@[k]).1@.len() <= 100)
            ==> r is Some,
{
    moves.choose_weighted(rng, |m| move_weight(m)).ok().map(|m| m.0)
}

/// A legal move shows a pair of equal neighbouring tiles.
proof fn lemma_has_pair(b: Seq<i8>, p: (usize, usize))
    requires
        component(b, p).len() >= 2,
    ensures
        some_pair(b),
{
    lemma_no_moves_iff_lone_tiles(b);
    if !in_grid(p) || at(b, p) == EMPTY {
        assert(component(b, p) == Set::<(usize, usize)>::empty());
    }
}

/// `moves` lists the legal moves of board `b`, one for each group of two
/// tiles or more, keyed by the group's first cell in row-major order and
/// listed in that order; the list is empty exactly when the board has no
/// pair of equal neighbours.
pub open spec fn all_moves(b: Seq<i8>, moves: Seq<Move>) -> bool {
    &&& forall|k: int| 0 <= k < moves.len() ==> legal_move(b, #[trigger] moves[k])
    &&& moves.len() == 0 <==> !some_pair(b)
    &&& forall|q: (usize, usize)|
        in_grid(q) && #[trigger] component(b, q).len() >= 2 ==> exists|k: int|
            0 <= k < moves.len() && (#[trigger] moves[k]).1@.contains(q)
    &&& forall|k: int, x: (usize, usize)|
        0 <= k < moves.len() && #[trigger] component(b, moves[k].0).contains(x) ==> cell_pos(moves[k].0)
            <= cell_pos(x)
    &&& forall|k1: int, k2: int|
        0 <= k1 < k2 < moves.len() ==> cell_pos(#[trigger] moves[k1].0) < cell_pos(#[trigger] moves[k2].0)
    &&& forall|k1: int, k2: int, x: (usize, usize)|
        #![trigger moves[k1].1@.contains(x), moves[k2].1@.contains(x)]
        0 <= k1 < k2 < moves.len() && moves[k1].1@.contains(x) ==> !moves[k2].1@.contains(x)
}

/// Picks a move by weight and returns its position.
fn pick_move(moves: &Vec<Move>, rng: &mut StdRng) -> (k: usize)
    requires
        moves@.len() > 0,
        forall|k: int| 0 <= k < moves@.len() ==> 1 <= (#[trigger] moves@[k]).1@.len() <= 100,
    ensures
        k < moves@.len(),
{
    match choose_weighted_cell(moves, rng) {
        Some(a) => {
            let mut i: usize = 0;
            while i < moves.len()
                invariant
                    i <= moves@.len(),
                    forall|j: int| 0 <= j < i ==> (#[trigger] moves@[j]).0 != a,
                decreases moves@.len() - i,
            {
                if moves[i].0.0 == a.0 && moves[i].0.1 == a.1 {
                    return i;
                }
                i = i + 1;
            }
            proof {
                let j = choose|j: int| 0 <= j < moves@.len() && (#[trigger] moves@[j]).0 == a;
                assert(moves@[j].0 != a);
            }
            0
        },
        None => {
            assert(false);
            0
        },
    }
}

/// A legal move's group lies in the grid, so it holds at most every cell.
proof fn lemma_group_bound(b: Seq<i8>, m: Move)
    requires
        legal_move(b, m),
    ensures
        2 <= m.1@.len() <= 100,
{
    crate::laws::lemma_component_finite(b, m.0);
    crate::laws::all_cells().lemma_cardinality_of_set();
    vstd::set_lib::lemma_len_subset(component(b, m.0), crate::laws::all_cells().to_set());
    m.1@.unique_seq_to_set();
}

/// Row-major position of cell `q`.
pub open spec fn cell_pos(q: (usize, usize)) -> int {
    q.0 * 10 + q.1
}

/// Cell `q` comes before cell `(r, c)` in row-major order.
spec fn scanned(q: (usize, usize), r: int, c: int) -> bool {
    q.0 < r || (q.0 == r && q.1 < c)
}

/// What a scan of `b` in row-major order up to `(r, c)` has established:
/// the marked cells are whole groups, every tile passed is marked, the moves
/// found are legal, keyed by their first cell, in order, and hold every
/// marked cell of a group of two or more.
spec fn scan_ok(b: Seq<i8>, vis: Seq<bool>, moves: Seq<Move>, r: int, c: int) -> bool {
    &&& vis.len() == 100
    &&& forall|k: int| 0 <= k < moves.len() ==> legal_move(b, #[trigger] moves[k])
    &&& forall|q: (usize, usize), x: (usize, usize)|
        in_grid(q) && vis[cell_pos(q)] && #[trigger] component(b, q).contains(x) ==> vis[cell_pos(x)]
    &&& forall|q: (usize, usize)|
        in_grid(q) && scanned(q, r, c) && at(b, q) != EMPTY ==> #[trigger] vis[cell_pos(q)]
    &&& forall|k: int| 0 <= k < moves.len() ==> scanned(#[trigger] moves[k].0, r, c)
    &&& forall|k1: int, k2: int|
        0 <= k1 < k2 < moves.len() ==> cell_pos(#[trigger] moves[k1].0) < cell_pos(#[trigger] moves[k2].0)
    &&& forall|q: (usize, usize)|
        in_grid(q) && vis[cell_pos(q)] && #[trigger] component(b, q).len() >= 2 ==> exists|k: int|
            0 <= k < moves.len() && (#[trigger] moves[k]).1@.contains(q)
    &&& forall|k: int, x: (usize, usize)|
        0 <= k < moves.len() && #[trigger] component(b, moves[k].0).contains(x) ==> cell_pos(moves[k].0)
            <= cell_pos(x)
}

proof fn lemma_scan_skip(b: Seq<i8>, vis: Seq<bool>, moves: Seq<Move>, r: int, c: int)
    requires
        scan_ok(b, vis, moves, r, c),
        0 <= r < 10,
        0 <= c < 10,
        at(b, (r as usize, c as usize)) == EMPTY || vis[r * 10 + c],
    ensures
        scan_ok(b, vis, moves, r, c + 1),
{
    assert forall|q: (usize, usize)|
        in_grid(q) && scanned(q, r, c + 1) && at(b, q) != EMPTY implies #[trigger] vis[cell_pos(q)] by {
        if !scanned(q, r, c) {
            assert(q == (r as usize, c as usize));
        }
    }
}

proof fn lemma_scan_row(b: Seq<i8>, vis: Seq<bool>, moves: Seq<Move>, r: int)
    requires
        scan_ok(b, vis, moves, r, 10),
    ensures
        scan_ok(b, vis, moves, r + 1, 0),
{
    assert forall|q: (usize, usize)|
        in_grid(q) && scanned(q, r + 1, 0) && at(b, q) != EMPTY implies #[trigger] vis[cell_pos(q)] by {
        assert(scanned(q, r, 10));
    }
    assert forall|k: int| 0 <= k < moves.len() implies scanned(#[trigger] moves[k].0, r + 1, 0) by {
        assert(scanned(moves[k].0, r, 10));
    }
}

proof fn lemma_scan_step(
    b: Seq<i8>,
    vis0: Seq<bool>,
    vis: Seq<bool>,
    moves0: Seq<Move>,
    moves: Seq<Move>,
    r: int,
    c: int,
    g: Seq<(usize, usize)>,
)
    requires
        scan_ok(b, vis0, moves0, r, c),
        0 <= r < 10,
        0 <= c < 10,
        at(b, (r as usize, c as usize)) != EMPTY,
        !vis0[r * 10 + c],
        vis.len() == 100,
        g.to_set() == component(b, (r as usize, c as usize)),
        g.to_set().len() == g.len(),
        g.no_duplicates(),
        forall|q: (usize, usize)| in_grid(q) ==> #[trigger] vis[cell_pos(q)] == (vis0[cell_pos(q)] || g.contains(q)),
        moves.len() == moves0.len() + (if g.len() >= 2 { 1int } else { 0int }),
        forall|k: int| 0 <= k < moves0.len() ==> #[trigger] moves[k] == moves0[k],
        g.len() >= 2 ==> moves[moves.len() - 1].0 == (r as usize, c as usize) && moves[moves.len()
            - 1].1@ == g,
    ensures
        scan_ok(b, vis, moves, r, c + 1),
{
    let p = (r as usize, c as usize);
    let comp = component(b, p);
    crate::board::lemma_component_has_self(b, p);
    assert forall|k: int| 0 <= k < moves.len() implies legal_move(b, #[trigger] moves[k]) by {
        if k < moves0.len() {
            assert(legal_move(b, moves0[k]));
        }
    }
    assert forall|q: (usize, usize), x: (usize, usize)|
        in_grid(q) && vis[cell_pos(q)] && #[trigger] component(b, q).contains(x) implies vis[cell_pos(x)] by {
        crate::board::lemma_component_cells(b, q, x);
        if vis0[cell_pos(q)] {
            assert(vis0[cell_pos(x)]);
        } else {
            assert(g.to_set().contains(q));
            crate::board::lemma_same_component(b, p, q);
            assert(g.to_set().contains(x));
        }
    }
    assert forall|q: (usize, usize)|
        in_grid(q) && scanned(q, r, c + 1) && at(b, q) != EMPTY implies #[trigger] vis[cell_pos(q)] by {
        if !scanned(q, r, c) {
            assert(q == p);
            assert(g.to_set().contains(p));
        } else {
            assert(vis0[cell_pos(q)]);
        }
    }
    assert forall|k: int| 0 <= k < moves.len() implies scanned(#[trigger] moves[k].0, r, c + 1) by {
        if k < moves0.len() {
            assert(scanned(moves0[k].0, r, c));
        }
    }
    assert forall|k1: int, k2: int|
        0 <= k1 < k2 < moves.len() implies cell_pos(#[trigger] moves[k1].0) < cell_pos(
        #[trigger] moves[k2].0,
    ) by {
        assert(moves[k1] == moves0[k1]);
        assert(legal_move(b, moves0[k1]));
        let key = moves0[k1].0;
        if !in_grid(key) || at(b, key) == EMPTY {
            assert(component(b, key) == Set::<(usize, usize)>::empty());
            moves0[k1].1@.unique_seq_to_set();
        }
        assert(scanned(moves0[k1].0, r, c));
        if k2 < moves0.len() {
            assert(moves[k2] == moves0[k2]);
        }
    }
    assert forall|q: (usize, usize)|
        in_grid(q) && vis[cell_pos(q)] && #[trigger] component(b, q).len() >= 2 implies exists|k: int|
        0 <= k < moves.len() && (#[trigger] moves[k]).1@.contains(q) by {
        if vis0[cell_pos(q)] {
            let k = choose|k: int| 0 <= k < moves0.len() && (#[trigger] moves0[k]).1@.contains(q);
            assert(moves[k] == moves0[k]);
        } else {
            assert(g.to_set().contains(q));
            crate::board::lemma_same_component(b, p, q);
            assert(moves[moves.len() - 1].1@.contains(q));
        }
    }
    assert forall|k: int, x: (usize, usize)|
        0 <= k < moves.len() && #[trigger] component(b, moves[k].0).contains(x) implies cell_pos(moves[k].0)
        <= cell_pos(x) by {
        if k < moves0.len() {
            assert(moves[k] == moves0[k]);
        } else {
            if cell_pos(x) < cell_pos(p) {
                crate::board::lemma_component_cells(b, p, x);
                assert(scanned(x, r, c));
                assert(vis0[cell_pos(x)]);
                crate::board::lemma_same_component(b, p, x);
                assert(component(b, x).contains(p));
                assert(vis0[cell_pos(p)]);
            }
        }
    }
}

proof fn lemma_scan_done(b: Seq<i8>, vis: Seq<bool>, moves: Seq<Move>)
    requires
        scan_ok(b, vis, moves, 10, 0),
    ensures
        all_moves(b, moves),
{
    assert forall|q: (usize, usize)|
        in_grid(q) && #[trigger] component(b, q).len() >= 2 implies exists|k: int|
        0 <= k < moves.len() && (#[trigger] moves[k]).1@.contains(q) by {
        if at(b, q) == EMPTY {
            assert(component(b, q) == Set::<(usize, usize)>::empty());
        }
        assert(scanned(q, 10, 0));
        assert(vis[cell_pos(q)]);
    }
    assert forall|k1: int, k2: int, x: (usize, usize)|
        #![trigger moves[k1].1@.contains(x), moves[k2].1@.contains(x)]
        0 <= k1 < k2 < moves.len() && moves[k1].1@.contains(x) implies !moves[k2].1@.contains(x) by {
        if moves[k2].1@.contains(x) {
            let a = moves[k1].0;
            let c = moves[k2].0;
            assert(legal_move(b, moves[k1]));
            assert(legal_move(b, moves[k2]));
            assert(moves[k1].1@.to_set().contains(x));
            assert(moves[k2].1@.to_set().contains(x));
            crate::board::lemma_same_component(b, a, x);
            crate::board::lemma_same_component(b, c, x);
            crate::board::lemma_component_cells(b, c, x);
            crate::board::lemma_component_has_self(b, c);
            crate::board::lemma_component_cells(b, a, x);
            crate::board::lemma_component_has_self(b, a);
            assert(component(b, a).contains(c));
            assert(component(b, c).contains(a));
        }
    }
    lemma_no_moves_iff_lone_tiles(b);
    if moves.len() > 0 {
        assert(legal_move(b, moves[0]));
        moves[0].1@.unique_seq_to_set();
        lemma_has_pair(b, moves[0].0);
    } else {
        assert forall|q: (usize, usize)| in_grid(q) && at(b, q) != EMPTY implies #[trigger] component(b, q).len()
            == 1 by {
            crate::board::lemma_component_has_self(b, q);
            crate::laws::lemma_component_finite(b, q);
            if component(b, q).len() == 0 {
                assert(component(b, q).contains(q));
            }
        }
    }
}

/// Every legal move of the board, one for each group of two tiles or more,
/// each listed with its group.
fn get_all_moves(engine: &PopStarEngine) -> (moves: Vec<Move>)
    ensures
        all_moves(engine.board@, moves@),
{
    let ghost b = engine.board@;
    let mut moves: Vec<Move> = Vec::new();
    let mut visited: [bool; 100] = [false; 100];
    let mut r: usize = 0;
    while r < 10
        invariant
            r <= 10,
            b == engine.board@,
            scan_ok(b, visited@, moves@, r as int, 0),
        decreases 10 - r,
    {
        let mut c: usize = 0;
        while c < 10
            invariant
                r < 10,
                c <= 10,
                b == engine.board@,
                scan_ok(b, visited@, moves@, r as int, c as int),
            decreases 10 - c,
        {
            let idx = r * 10 + c;
            let ghost p = (r, c);
            let ghost vis0 = visited@;
            let ghost moves0 = moves@;
            if engine.board[idx] != EMPTY && !visited[idx] {
                let group = engine.get_connected_group(r, c);
                proof {
                    group@.unique_seq_to_set();
                }
                let mut j: usize = 0;
                while j < group.len()
                    invariant
                        visited@.len() == 100,
                        j <= group@.len(),
                        group@.to_set() == component(b, p),
                        r < 10,
                        c < 10,
                        p == (r, c),
                        b == engine.board@,
                        vis0.len() == 100,
                        forall|q: (usize, usize)|
                            in_grid(q) ==> #[trigger] visited@[cell_pos(q)] == (vis0[cell_pos(q)]
                                || group@.subrange(0, j as int).contains(q)),
                    decreases group@.len() - j,
                {
                    let (gr, gc) = group[j];
                    proof {
                        assert(group@.to_set().contains(group@[j as int]));
                        crate::board::lemma_component_cells(b, p, (gr, gc));
                    }
                    let ghost before = visited@;
                    visited[gr * 10 + gc] = true;
                    proof {
                        let pre = group@.subrange(0, j as int);
                        let post = group@.subrange(0, j as int + 1);
                        assert(post =~= pre.push((gr, gc)));
                        assert forall|q: (usize, usize)|
                            in_grid(q) implies #[trigger] visited@[cell_pos(q)] == (vis0[cell_pos(q)]
                                || post.contains(q)) by {
                            if q == (gr, gc) {
                                assert(post[j as int] == q);
                            } else {
                                assert(cell_pos(q) != cell_pos((gr, gc)));
                                assert(visited@[cell_pos(q)] == before[cell_pos(q)]);
                                if post.contains(q) {
                                    let k = choose|k: int| 0 <= k < post.len() && post[k] == q;
                                    assert(pre[k] == q);
                                }
                                if pre.contains(q) {
                                    let k = choose|k: int| 0 <= k < pre.len() && pre[k] == q;
                                    assert(post[k] == q);
                                }
                            }
                        }
                    }
                    j = j + 1;
                }
                proof {
                    assert(group@.subrange(0, group@.len() as int) =~= group@);
                    crate::board::lemma_component_has_self(b, p);
                }
                if group.len() >= 2 {
                    moves.push(((r, c), group));
                }
                proof {
                    lemma_scan_step(b, vis0, visited@, moves0, moves@, r as int, c as int, group@);
                }
            } else {
                proof {
                    lemma_scan_skip(b, visited@, moves@, r as int, c as int);
                }
            }
            c = c + 1;
        }
        proof {
            lemma_scan_row(b, visited@, moves@, r as int);
        }
        r = r + 1;
    }
    proof {
        lemma_scan_done(b, visited@, moves@);
    }
    moves
}

} // verus!
