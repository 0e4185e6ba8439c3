//! The exact solver: a breadth-first search over the island graph that finds
//! a solution with as few moves as possible. Boards with more than 256
//! islands are refused.
use vstd::prelude::*;
use vstd::set_lib::*;
use smallvec::SmallVec;
use crate::bitset::{InlineBitSet, CAPACITY};
use crate::board::{
    cell_of, in_grid, in_island, is_chain, is_uniform, lemma_cell_of, lemma_chain_transfer,
    lemma_chain_within, lemma_grid_connected, lemma_island_cell, lemma_island_extend,
    lemma_island_symmetric, lemma_island_transitive, lemma_recolor_cell, lemma_recolor_keeps_island,
    lemma_self_in_island_board, lemma_uniform_island, recolor, replay, tag_at, touching, Board,
};
use crate::util::{lemma_cell_index, lemma_square_bound};
use crate::color::{Color, NUM_COLORS};
use crate::graph::{
    distinct_islands, generate_graph, has_cell, idn, lemma_distinct_islands_bounded,
    lemma_self_in_island, represents, Graph, MAX_NODES,
};
use crate::solver::{Solution, Solver};
use crate::util::ColorSet;
use crate::game::{
    colored, frontier, full, gstep, lemma_exhaust_first, lemma_full_frontier, lemma_play_is_run,
    lemma_solvable_mono, lemma_solvable_pad_to, lemma_some_color_helps, play, reach, run, solvable_in,
    step,
};

verus! {

/// The color tags of a list of moves, held inline for up to 16 moves.
#[verifier::external_body]
pub struct MoveList {
    inner: SmallVec<[u8; 16]>,
}

/// The items held by a move list.
pub uninterp spec fn moves_of(v: MoveList) -> Seq<u8>;

/// Relies on `SmallVec::new`: an empty vector.
#[verifier::external_body]
fn moves_new() -> (r: MoveList)
    ensures
        moves_of(r) == Seq::<u8>::empty(),
{
    MoveList { inner: SmallVec::new() }
}

/// Relies on `Clone` for `SmallVec`: a vector with the same items.
#[verifier::external_body]
fn moves_clone(v: &MoveList) -> (r: MoveList)
    ensures
        moves_of(r) == moves_of(*v),
{
    MoveList { inner: v.inner.clone() }
}

/// Relies on `SmallVec::push`: appends one item (it panics only when the
/// length would overflow).
#[verifier::external_body]
fn moves_push(v: &mut MoveList, c: u8)
    requires
        moves_of(*old(v)).len() < CAPACITY,
    ensures
        moves_of(*final(v)) == moves_of(*old(v)).push(c),
{
    v.inner.push(c)
}

/// Relies on `SmallVec::into_vec`: the items, in order.
#[verifier::external_body]
fn moves_into_vec(v: MoveList) -> (r: Vec<u8>)
    ensures
        r@ == moves_of(v),
{
    v.inner.into_vec()
}

/// Relies on `slice::sort_by_key`: reorders the states, ascending by the key,
/// which is descending by the number of owned nodes.
#[verifier::external_body]
fn sort_by_owned(states: &mut Vec<State>)
    ensures
        final(states)@.to_multiset() == old(states)@.to_multiset(),
        final(states)@.len() == old(states)@.len(),
        forall|i: int, j: int|
            0 <= i < j < final(states)@.len() ==> (#[trigger] final(states)@[i]).owned@.len() >= (
            #[trigger] final(states)@[j]).owned@.len(),
{
    states.sort_by_key(unowned_key)
}

/// Sort key of a state: how many of the 256 possible nodes it does not own.
fn unowned_key(s: &State) -> (r: usize)
    ensures
        r == CAPACITY - s.owned@.len(),
{
    CAPACITY - s.owned.len()
}

/// The exact solver.
pub struct Exact;

/// A position in the game tree: the moves so far, the nodes owned, and the
/// nodes touching the owned ones.
pub struct State {
    pub moves: MoveList,
    pub adjacent: InlineBitSet,
    pub owned: InlineBitSet,
}

impl State {
    /// Owned and adjacent nodes are nodes of `g` and do not overlap; node 0
    /// is owned; the moves are colors, one per level of `depth`, and each of
    /// them won at least one node; the owned and adjacent nodes are those
    /// that playing the moves on `g` gives, and some node is still adjacent.
    pub open spec fn wf(&self, g: Graph, depth: int) -> bool {
        &&& self.owned@.subset_of(set_int_range(0, g.nodes.len() as int))
        &&& self.adjacent@.subset_of(set_int_range(0, g.nodes.len() as int))
        &&& self.owned@.disjoint(self.adjacent@)
        &&& self.owned@.contains(0)
        &&& self.owned@.len() >= depth + 1
        &&& moves_of(self.moves).len() == depth
        &&& forall|k: int| 0 <= k < depth ==> #[trigger] moves_of(self.moves)[k] < NUM_COLORS
        &&& play(g, moves_of(self.moves)) == (self.owned@, self.adjacent@)
        &&& self.adjacent@ != Set::<int>::empty()
    }
}

/// The color tags of a list of moves.
pub open spec fn tags_of(moves: Seq<Color>) -> Seq<u8> {
    moves.map_values(|c: Color| c.tag)
}

/// Playing moves on the graph of a board mirrors drenching the board: the
/// island of the top-left cell is made of the cells of the owned nodes,
/// cells of other nodes keep their colors, and the adjacent nodes are the
/// neighbors of the owned ones.
pub proof fn lemma_simulation(g: Graph, side: int, t0: Seq<u8>, mv: Seq<Color>)
    requires
        side >= 1,
        t0.len() == side * side,
        g.wf(),
        represents(g, side, t0),
    ensures
        replay(side, t0, mv).len() == t0.len(),
        play(g, tags_of(mv)).0.contains(0),
        play(g, tags_of(mv)).1 == reach(g, play(g, tags_of(mv)).0).difference(play(g, tags_of(mv)).0),
        forall|p: (int, int)|
            in_grid(side, p) ==> (#[trigger] in_island(side, replay(side, t0, mv), (0, 0), p)
                <==> play(g, tags_of(mv)).0.contains(idn(side, g.cells@, p))),
        forall|p: (int, int)|
            in_grid(side, p) && !play(g, tags_of(mv)).0.contains(idn(side, g.cells@, p)) ==> #[trigger] tag_at(
                side,
                replay(side, t0, mv),
                p,
            ) == tag_at(side, t0, p),
    decreases mv.len(),
{
    let m = g.cells@;
    lemma_self_in_island_board(side, t0);
    if mv.len() == 0 {
        assert(tags_of(mv) =~= Seq::<u8>::empty());
        let o = set![0int];
        assert(play(g, tags_of(mv)).0 == o);
        assert(reach(g, o) =~= g.nodes@[0].adjacent@) by {
            assert forall|x: int| g.nodes@[0].adjacent@.contains(x) implies reach(g, o).contains(x) by {
                assert(o.contains(0));
            }
        }
        assert forall|p: (int, int)| in_grid(side, p) implies (#[trigger] in_island(side, t0, (0, 0), p)
            <==> o.contains(idn(side, m, p))) by {
            assert(in_grid(side, (0int, 0int)));
            assert(idn(side, m, (0int, 0int)) == idn(side, m, p) <==> in_island(side, t0, (0int, 0int), p));
        }
    } else {
        let prev = mv.drop_last();
        let col = mv.last().tag;
        lemma_simulation(g, side, t0, prev);
        let t = replay(side, t0, prev);
        let t2 = replay(side, t0, mv);
        assert(t2 == recolor(side, t, col));
        assert(tags_of(mv).drop_last() =~= tags_of(prev));
        let o = play(g, tags_of(prev)).0;
        let a = play(g, tags_of(prev)).1;
        let w = a.intersect(colored(g, col as int));
        let o2 = o.union(w);
        let a2 = a.union(reach(g, w)).difference(o2);
        assert(play(g, tags_of(mv)) == (o2, a2));
        lemma_recolor_cell(side, t, col, (0, 0));
        // the adjacent nodes are the neighbors of the owned ones
        assert(a2 =~= reach(g, o2).difference(o2)) by {
            assert forall|x: int| reach(g, o2).contains(x) implies reach(g, o).contains(x) || reach(g, w).contains(x) by {
                let j = choose|j: int| #[trigger] o2.contains(j) && 0 <= j < g.nodes.len() && g.nodes@[j].adjacent@.contains(x);
                if o.contains(j) {
                    assert(reach(g, o).contains(x));
                } else {
                    assert(reach(g, w).contains(x));
                }
            }
            assert forall|x: int| reach(g, o).contains(x) implies reach(g, o2).contains(x) by {
                let j = choose|j: int| #[trigger] o.contains(j) && 0 <= j < g.nodes.len() && g.nodes@[j].adjacent@.contains(x);
                assert(o2.contains(j));
            }
            assert forall|x: int| reach(g, w).contains(x) implies reach(g, o2).contains(x) by {
                let j = choose|j: int| #[trigger] w.contains(j) && 0 <= j < g.nodes.len() && g.nodes@[j].adjacent@.contains(x);
                assert(o2.contains(j));
            }
        }
        // cells outside the owned nodes keep their colors
        assert forall|p: (int, int)|
            in_grid(side, p) && !o2.contains(idn(side, m, p)) implies #[trigger] tag_at(side, t2, p) == tag_at(side, t0, p) by {
            lemma_recolor_cell(side, t, col, p);
            assert(!in_island(side, t, (0, 0), p));
            assert(tag_at(side, t, p) == tag_at(side, t0, p));
        }
        // owned cells are in the new island
        assert forall|p: (int, int)| in_grid(side, p) && o2.contains(idn(side, m, p)) implies #[trigger] in_island(side, t2, (0, 0), p) by {
            let k = idn(side, m, p);
            if o.contains(k) {
                assert(in_island(side, t, (0, 0), p));
                lemma_recolor_keeps_island(side, t, col, p);
            } else {
                assert(w.contains(k));
                assert(a.contains(k));
                assert(reach(g, o).contains(k));
                let j = choose|j: int| #[trigger] o.contains(j) && 0 <= j < g.nodes.len() && g.nodes@[j].adjacent@.contains(k);
                let (p1, q1) = choose|p1: (int, int), q1: (int, int)|
                    #![trigger idn(side, m, p1), idn(side, m, q1)]
                    in_grid(side, p1) && in_grid(side, q1) && touching(p1, q1) && idn(side, m, p1) == j && idn(
                        side,
                        m,
                        q1,
                    ) == k;
                assert(in_island(side, t, (0, 0), p1));
                lemma_recolor_keeps_island(side, t, col, p1);
                // q1 has the color played
                lemma_recolor_cell(side, t, col, q1);
                assert(!in_island(side, t, (0, 0), q1));
                assert(tag_at(side, t2, q1) == tag_at(side, t0, q1));
                assert(g.nodes@[idn(side, m, q1)].color.tag == tag_at(side, t0, q1));
                assert(tag_at(side, t2, (0, 0)) == col);
                lemma_island_extend(side, t2, (0, 0), p1, q1);
                // the island of q1 in the first board is that of p, all of the played color
                assert(idn(side, m, q1) == idn(side, m, p));
                assert(in_island(side, t0, q1, p));
                let (c, par) = choose|c: Seq<(int, int)>, par: Seq<int>|
                    #[trigger] is_chain(side, t0, q1, c, par) && c.contains(p);
                assert forall|i: int| 0 <= i < c.len() implies tag_at(side, t2, #[trigger] c[i]) == tag_at(side, t2, q1) by {
                    let r = c[i];
                    assert(c.contains(r));
                    assert(in_island(side, t0, q1, r));
                    assert(in_grid(side, r));
                    assert(idn(side, m, q1) == idn(side, m, r));
                    lemma_recolor_cell(side, t, col, r);
                    assert(!in_island(side, t, (0, 0), r));
                    assert(tag_at(side, t, r) == tag_at(side, t0, r));
                    assert(tag_at(side, t0, r) == tag_at(side, t0, q1));
                }
                lemma_chain_transfer(side, t0, t2, q1, c, par);
                assert(in_island(side, t2, q1, p));
                lemma_island_transitive(side, t2, (0, 0), q1, p);
            }
        }
        // cells of the new island are owned
        let sset = Set::new(|p: (int, int)| in_grid(side, p) && o2.contains(idn(side, m, p)));
        assert(in_grid(side, (0int, 0int)));
        assert(sset.contains((0int, 0int)));
        assert forall|q: (int, int), p: (int, int)|
            #[trigger] sset.contains(q) && in_grid(side, p) && touching(q, p) && tag_at(side, t2, p) == tag_at(side, t2, (0, 0))
                implies #[trigger] sset.contains(p) by {
            let kq = idn(side, m, q);
            let kp = idn(side, m, p);
            if kp != kq && !o.contains(kp) {
                assert(g.nodes@[kq].adjacent@.contains(kp));
                lemma_recolor_cell(side, t, col, p);
                assert(!in_island(side, t, (0, 0), p));
                assert(tag_at(side, t0, p) == col);
                assert(g.nodes@[kp].color.tag == tag_at(side, t0, p));
                assert(colored(g, col as int).contains(kp));
                if o.contains(kq) {
                    assert(reach(g, o).contains(kp));
                    assert(a.contains(kp));
                } else {
                    assert(w.contains(kq));
                    assert(g.nodes@[kq].color.tag == tag_at(side, t0, q));
                    lemma_self_in_island(side, t0, q);
                    lemma_island_extend(side, t0, q, q, p);
                    assert(idn(side, m, q) == idn(side, m, p));
                }
            }
        }
        assert forall|p: (int, int)| in_grid(side, p) && #[trigger] in_island(side, t2, (0, 0), p) implies o2.contains(idn(side, m, p)) by {
            let (c, par) = choose|c: Seq<(int, int)>, par: Seq<int>|
                #[trigger] is_chain(side, t2, (0, 0), c, par) && c.contains(p);
            lemma_chain_within(side, t2, (0, 0), c, par, sset, c.len() as int);
            let i = choose|i: int| 0 <= i < c.len() && c[i] == p;
            assert(sset.contains(c[i]));
        }
    }
}

/// A move list that leaves no node adjacent to the owned ones drenches the
/// board.
pub proof fn lemma_frontier_empty_drenches(g: Graph, side: int, t0: Seq<u8>, mv: Seq<Color>)
    requires
        side >= 1,
        t0.len() == side * side,
        g.wf(),
        represents(g, side, t0),
        play(g, tags_of(mv)).1 == Set::<int>::empty(),
    ensures
        is_uniform(replay(side, t0, mv)),
{
    let m = g.cells@;
    lemma_simulation(g, side, t0, mv);
    let t = replay(side, t0, mv);
    let o = play(g, tags_of(mv)).0;
    let sset = Set::new(|p: (int, int)| in_grid(side, p) && o.contains(idn(side, m, p)));
    assert(in_grid(side, (0int, 0int)));
    assert forall|p: (int, int)| in_grid(side, p) implies #[trigger] in_island(side, t, (0, 0), p) by {
        if !sset.contains(p) {
            let (p1, q1) = lemma_grid_connected(side, sset, p);
            assert(g.nodes@[idn(side, m, p1)].adjacent@.contains(idn(side, m, q1)));
            assert(reach(g, o).contains(idn(side, m, q1)));
            assert(play(g, tags_of(mv)).1.contains(idn(side, m, q1)));
        }
    }
    lemma_self_in_island_board(side, t);
    assert forall|i: int| 0 <= i < t.len() implies #[trigger] t[i] == t[0] by {
        lemma_cell_of(side, i);
        let p = cell_of(side, i);
        lemma_island_cell(side, t, (0, 0), p);
        lemma_cell_index(side, 0, 0);
    }
}

/// Whether some state of `states` can own every node in `k` moves.
pub open spec fn covered(g: Graph, states: Seq<State>, k: int) -> bool {
    exists|i: int| 0 <= i < states.len() && #[trigger] solvable_in(g, states[i].owned@, k)
}

/// If `a` covers `k + 1` moves then `b` covers `k`.
pub open spec fn covered_next(g: Graph, a: Seq<State>, b: Seq<State>, k: int) -> bool {
    covered(g, a, k + 1) ==> covered(g, b, k)
}

/// Whether some state of `states` owns exactly `o`.
pub open spec fn has_child(states: Seq<State>, o: Set<int>) -> bool {
    exists|i: int| 0 <= i < states.len() && #[trigger] states[i].owned@ == o
}

/// All unowned nodes of color `e` are adjacent, and there is one.
pub open spec fn exhaustible(g: Graph, o: Set<int>, e: int) -> bool {
    colored(g, e).difference(o).subset_of(frontier(g, o)) && colored(g, e).difference(o) != Set::<int>::empty()
}

/// Whether `s` drenches the board of side `side` with tags `tags` in as
/// few moves as any move list does.
pub open spec fn is_optimal(side: int, tags: Seq<u8>, s: Seq<Color>) -> bool {
    &&& is_uniform(replay(side, tags, s))
    &&& forall|t: Seq<Color>| #[trigger] is_uniform(replay(side, tags, t)) ==> s.len() <= t.len()
}

/// Two optimal move lists for one board have the same length; in
/// particular the solutions found with and without dropping dominated
/// states do.
pub proof fn lemma_optimal_lengths_agree(side: int, tags: Seq<u8>, s1: Seq<Color>, s2: Seq<Color>)
    requires
        is_optimal(side, tags, s1),
        is_optimal(side, tags, s2),
    ensures
        s1.len() == s2.len(),
{
    assert(is_uniform(replay(side, tags, s1)));
    assert(is_uniform(replay(side, tags, s2)));
}

/// A move list that drenches the board owns every node of its graph.
pub proof fn lemma_drenching_is_full(g: Graph, side: int, t0: Seq<u8>, s: Seq<Color>)
    requires
        side >= 1,
        t0.len() == side * side,
        g.wf(),
        represents(g, side, t0),
        is_uniform(replay(side, t0, s)),
    ensures
        full(g, run(g, set![0int], tags_of(s))),
{
    lemma_simulation(g, side, t0, s);
    lemma_play_is_run(g, tags_of(s));
    let t = replay(side, t0, s);
    lemma_uniform_island(side, t);
    let o = run(g, set![0int], tags_of(s));
    assert forall|k: int| 0 <= k < g.nodes.len() implies #[trigger] o.contains(k) by {
        assert(has_cell(side, g.cells@, k));
        let p = choose|p: (int, int)| in_grid(side, p) && #[trigger] idn(side, g.cells@, p) == k;
        assert(in_island(side, t, (0, 0), p));
    }
}

/// A copy of `s`.
fn copy_state(s: &State) -> (r: State)
    ensures
        moves_of(r.moves) == moves_of(s.moves),
        r.adjacent == s.adjacent,
        r.owned == s.owned,
{
    State { moves: moves_clone(&s.moves), adjacent: s.adjacent, owned: s.owned }
}

/// Whether the owned nodes of `s` are a subset of those of a state of `kept`.
pub open spec fn dominated_by(s: State, kept: Seq<State>) -> bool {
    exists|k: int| 0 <= k < kept.len() && s.owned@.subset_of(#[trigger] kept[k].owned@)
}

/// Keeps, in order, each state whose owned nodes are not a subset of those of
/// a state kept before it.
fn prune_dominated(states: &Vec<State>, Ghost(g): Ghost<Graph>, Ghost(depth): Ghost<int>) -> (r: Vec<State>)
    requires
        forall|i: int| 0 <= i < states.len() ==> (#[trigger] states@[i]).wf(g, depth),
    ensures
        r.len() <= states.len(),
        forall|k: int| 0 <= k < r.len() ==> (#[trigger] r@[k]).wf(g, depth),
        states.len() > 0 ==> r.len() > 0,
        forall|i: int| 0 <= i < states.len() ==> #[trigger] dominated_by(states@[i], r@),
{
    let mut kept: Vec<State> = Vec::new();
    let mut i: usize = 0;
    while i < states.len()
        invariant
            i <= states.len(),
            kept.len() <= i,
            forall|i: int| 0 <= i < states.len() ==> (#[trigger] states@[i]).wf(g, depth),
            forall|k: int| 0 <= k < kept.len() ==> (#[trigger] kept@[k]).wf(g, depth),
            i > 0 ==> kept.len() > 0,
            forall|l: int| 0 <= l < i ==> #[trigger] dominated_by(states@[l], kept@),
        decreases states.len() - i,
    {
        let mut dominated = false;
        let mut a: usize = 0;
        let ghost mut witness: int = 0;
        while a < kept.len() && !dominated
            invariant
                a <= kept.len(),
                i < states.len(),
                dominated ==> 0 <= witness < kept.len() && states@[i as int].owned@.subset_of(
                    kept@[witness].owned@,
                ),
            decreases kept.len() - a,
        {
            if states[i].owned.is_subset_of(&kept[a].owned) {
                dominated = true;
                proof {
                    witness = a as int;
                }
            }
            a = a + 1;
        }
        let ghost kept0 = kept@;
        if !dominated {
            kept.push(copy_state(&states[i]));
            proof {
                assert(kept@[kept.len() - 1].owned@ == states@[i as int].owned@);
            }
        }
        proof {
            assert forall|l: int| 0 <= l < i + 1 implies #[trigger] dominated_by(states@[l], kept@) by {
                if l < i {
                    assert(dominated_by(states@[l], kept0));
                    let k = choose|k: int|
                        0 <= k < kept0.len() && states@[l].owned@.subset_of(#[trigger] kept0[k].owned@);
                    assert(kept@[k] == kept0[k]);
                } else if dominated {
                    assert(kept@[witness] == kept0[witness]);
                } else {
                    assert(states@[l].owned@.subset_of(kept@[kept.len() - 1].owned@));
                }
            }
            assert forall|k: int| 0 <= k < kept.len() implies (#[trigger] kept@[k]).wf(g, depth) by {
                if k < kept0.len() {
                    assert(kept@[k] == kept0[k]);
                }
            }
        }
        i = i + 1;
    }
    kept
}

impl Exact {
    /// Searches the game tree of `g` level by level for a move list after
    /// which no node is adjacent to the owned ones; with `prune`, states whose
    /// owned nodes are a subset of another state's owned nodes are dropped at
    /// each level. Gives the first move list found, as color tags, and `None`
    /// only when node 0 has no neighbor to start with.
    pub fn search(g: &Graph, prune: bool) -> (r: Option<Vec<u8>>)
        requires
            g.wf(),
        ensures
            r matches Some(m) ==> play(*g, m@).1 == Set::<int>::empty() && 1 <= m.len() < g.nodes.len()
                && forall|k: int| 0 <= k < m.len() ==> #[trigger] m@[k] < NUM_COLORS,
            r is None <==> play(*g, Seq::empty()).1 == Set::<int>::empty(),
            r matches Some(m) ==> forall|s: Seq<u8>| #[trigger] full(*g, run(*g, set![0int], s)) ==> m.len() <= s.len(),
    {
        let n = g.len();
        let ghost nn = n as int;
        let ghost gg = *g;
        let mut colored_nodes: Vec<InlineBitSet> = Vec::new();
        let mut c: u8 = 0;
        while c < NUM_COLORS
            invariant
                c <= NUM_COLORS,
                colored_nodes.len() == c,
                forall|t: int| 0 <= t < c ==> (#[trigger] colored_nodes@[t])@ == Set::<int>::empty(),
            decreases NUM_COLORS - c,
        {
            colored_nodes.push(InlineBitSet::empty());
            c = c + 1;
        }
        let mut node_id: usize = 0;
        while node_id < n
            invariant
                g.wf(),
                gg == *g,
                n == g.nodes.len(),
                node_id <= n,
                colored_nodes.len() == NUM_COLORS,
                forall|t: int| 0 <= t < NUM_COLORS ==> (#[trigger] colored_nodes@[t])@ == Set::new(
                    |i: int| 0 <= i < node_id && g.nodes@[i].color.tag == t,
                ),
            decreases n - node_id,
        {
            let t = g.nodes[node_id].color.tag as usize;
            let mut set = colored_nodes[t];
            set.insert(node_id as u8);
            let ghost before = colored_nodes@;
            colored_nodes.set(t, set);
            proof {
                assert forall|u: int| 0 <= u < NUM_COLORS implies (#[trigger] colored_nodes@[u])@ == Set::new(
                    |i: int| 0 <= i < node_id + 1 && g.nodes@[i].color.tag == u,
                ) by {
                    assert(colored_nodes@[u]@ =~= Set::new(
                        |i: int| 0 <= i < node_id + 1 && g.nodes@[i].color.tag == u,
                    ));
                }
            }
            node_id = node_id + 1;
        }
        proof {
            assert forall|t: int| 0 <= t < NUM_COLORS implies (#[trigger] colored_nodes@[t])@ == colored(gg, t) by {
                assert(colored_nodes@[t]@ =~= colored(gg, t));
            }
        }
        let owned = InlineBitSet::with_only_first();
        let mut adjacent = g.nodes[0].adjacent;
        adjacent.without(&owned);
        let first = State { moves: moves_new(), adjacent: adjacent, owned: owned };
        proof {
            g.nodes@[0].adjacent.lemma_bounded();
            assert(first.owned@.subset_of(set_int_range(0, nn)));
            assert(first.adjacent@.subset_of(set_int_range(0, nn)));
            assert(first.owned@.len() == 1) by {
                assert(first.owned@ =~= Set::<int>::empty().insert(0));
            }
            assert(play(gg, moves_of(first.moves)) == (first.owned@, first.adjacent@));
        }
        let mut states: Vec<State> = Vec::new();
        if first.adjacent.is_empty() {
            return None;
        }
        proof {
            assert(first.owned@.disjoint(first.adjacent@));
            assert(play(gg, Seq::empty()).1 != Set::<int>::empty());
        }
        states.push(first);
        let mut depth: usize = 0;
        proof {
            assert forall|k: int| k >= 0 && solvable_in(gg, set![0int], depth + k) implies #[trigger] covered(gg, states@, k) by {
                assert(first.owned@ =~= set![0int]);
                assert(states@[0] == first);
                assert(solvable_in(gg, states@[0].owned@, k));
            }
        }
        while states.len() > 0
            invariant
                g.wf(),
                gg == *g,
                n == g.nodes.len(),
                nn == n,
                colored_nodes.len() == NUM_COLORS,
                forall|t: int| 0 <= t < NUM_COLORS ==> (#[trigger] colored_nodes@[t])@ == colored(gg, t),
                depth <= n,
                states.len() > 0,
                play(gg, Seq::empty()).1 != Set::<int>::empty(),
                forall|i: int| 0 <= i < states.len() ==> (#[trigger] states@[i]).wf(gg, depth as int),
                forall|k: int| k >= 0 && solvable_in(gg, set![0int], depth + k) ==> #[trigger] covered(gg, states@, k),
            decreases n + 1 - depth,
        {
            proof {
                lemma_int_range(0, nn);
                let s0 = states@[0];
                lemma_len_subset(s0.owned@, set_int_range(0, nn));
            }
            let ghost before = states@;
            sort_by_owned(&mut states);
            proof {
                broadcast use vstd::seq_lib::group_to_multiset_ensures;
                assert forall|i: int| 0 <= i < states.len() implies (#[trigger] states@[i]).wf(gg, depth as int) by {
                    assert(states@.contains(states@[i]));
                    assert(before.to_multiset().count(states@[i]) > 0);
                    assert(before.contains(states@[i]));
                    let j = choose|j: int| 0 <= j < before.len() && before[j] == states@[i];
                    assert(before[j].wf(gg, depth as int));
                }
                assert(states@.len() == before.len());
                assert forall|k: int| k >= 0 && solvable_in(gg, set![0int], depth + k) implies #[trigger] covered(gg, states@, k) by {
                    assert(covered(gg, before, k));
                    let j = choose|j: int| 0 <= j < before.len() && #[trigger] solvable_in(gg, before[j].owned@, k);
                    assert(before.contains(before[j]));
                    assert(states@.to_multiset().count(before[j]) > 0);
                    assert(states@.contains(before[j]));
                    let i = choose|i: int| 0 <= i < states@.len() && states@[i] == before[j];
                    assert(solvable_in(gg, states@[i].owned@, k));
                }
            }
            let ghost sorted = states@;
            if prune {
                states = prune_dominated(&states, Ghost(gg), Ghost(depth as int));
            }
            proof {
                assert forall|k: int| k >= 0 && solvable_in(gg, set![0int], depth + k) implies #[trigger] covered(gg, states@, k) by {
                    if prune {
                        assert(covered(gg, sorted, k));
                        let j = choose|j: int| 0 <= j < sorted.len() && #[trigger] solvable_in(gg, sorted[j].owned@, k);
                        assert(dominated_by(sorted[j], states@));
                        let i = choose|i: int| 0 <= i < states@.len() && sorted[j].owned@.subset_of(#[trigger] states@[i].owned@);
                        lemma_solvable_mono(gg, sorted[j].owned@, states@[i].owned@, k);
                    }
                }
                // no shorter solution exists than the next level
                assert forall|s: Seq<u8>| #[trigger] full(gg, run(gg, set![0int], s)) implies s.len() > depth by {
                    if s.len() <= depth {
                        assert(solvable_in(gg, set![0int], s.len() as int));
                        lemma_solvable_pad_to(gg, set![0int], s.len() as int, depth as int);
                        assert(solvable_in(gg, set![0int], depth + 0));
                        assert(covered(gg, states@, 0));
                        let i = choose|i: int| 0 <= i < states@.len() && #[trigger] solvable_in(gg, states@[i].owned@, 0);
                        let w = choose|w: Seq<u8>| w.len() == 0 && #[trigger] full(gg, run(gg, states@[i].owned@, w));
                        assert(states@[i].wf(gg, depth as int));
                        lemma_play_is_run(gg, moves_of(states@[i].moves));
                        lemma_full_frontier(gg, states@[i].owned@);
                    }
                }
            }
            let mut new_states: Vec<State> = Vec::new();
            let mut i: usize = 0;
            proof {
                assert forall|kk: int| kk >= 0 implies #[trigger] covered_next(gg, states@.take(0), new_states@, kk) by {
                    assert(states@.take(0).len() == 0);
                }
            }
            while i < states.len()
                invariant
                    g.wf(),
                    gg == *g,
                    n == g.nodes.len(),
                    nn == n,
                    colored_nodes.len() == NUM_COLORS,
                    forall|t: int| 0 <= t < NUM_COLORS ==> (#[trigger] colored_nodes@[t])@ == colored(gg, t),
                    depth < n,
                    i <= states.len(),
                    states.len() > 0,
                    i > 0 ==> new_states.len() > 0,
                    play(gg, Seq::empty()).1 != Set::<int>::empty(),
                    forall|i: int| 0 <= i < states.len() ==> (#[trigger] states@[i]).wf(gg, depth as int),
                    forall|k: int| 0 <= k < new_states.len() ==> (#[trigger] new_states@[k]).wf(gg, depth + 1),
                    forall|s: Seq<u8>| #[trigger] full(gg, run(gg, set![0int], s)) ==> s.len() > depth,
                    forall|k: int| k >= 0 && solvable_in(gg, set![0int], depth + k) ==> #[trigger] covered(gg, states@, k),
                    forall|k: int| k >= 0 ==> #[trigger] covered_next(gg, states@.take(i as int), new_states@, k),
                decreases states.len() - i,
            {
                let state = &states[i];
                let ghost o = state.owned@;
                let ghost ns0 = new_states@;
                proof {
                    assert(state.wf(gg, depth as int));
                    lemma_play_is_run(gg, moves_of(state.moves));
                    assert(state.adjacent@ == frontier(gg, o));
                }
                let mut adj_colors = ColorSet::new();
                let mut color: u8 = 0;
                let mut exhausts = false;
                while color < NUM_COLORS && !exhausts
                    invariant
                        color <= NUM_COLORS,
                        colored_nodes.len() == NUM_COLORS,
                        forall|t: int| 0 <= t < NUM_COLORS ==> (#[trigger] colored_nodes@[t])@ == colored(gg, t),
                        state.owned@ == o,
                        state.adjacent@ == frontier(gg, o),
                        state.owned@.disjoint(state.adjacent@),
                        forall|t: int| #[trigger] adj_colors@.contains(t) ==> 0 <= t < NUM_COLORS
                            && state.adjacent@.intersect(colored_nodes@[t]@).len() > 0,
                        exhausts ==> adj_colors@ != Set::<int>::empty(),
                        exhausts ==> exists|e: int| 0 <= e < NUM_COLORS && adj_colors@ == set![e] && #[trigger] exhaustible(gg, o, e),
                        !exhausts ==> forall|t: int| 0 <= t < color && state.adjacent@.intersect(colored_nodes@[t]@).len() > 0
                            ==> #[trigger] adj_colors@.contains(t),
                        !exhausts ==> forall|t: int| #[trigger] adj_colors@.contains(t) ==> t < color,
                    decreases NUM_COLORS - color,
                {
                    let num_adj = InlineBitSet::count_common_elements(&state.adjacent, &colored_nodes[color as usize]);
                    let num_remaining = InlineBitSet::count_elements_only_in_first(&colored_nodes[color as usize], &state.owned);
                    if num_adj == num_remaining && num_adj > 0 {
                        adj_colors.clear();
                        adj_colors.set(Color::new(color));
                        exhausts = true;
                        assert(adj_colors@.contains(color as int));
                        proof {
                            let cset = colored_nodes@[color as int]@;
                            let x = state.adjacent@.intersect(cset);
                            let y = cset.difference(o);
                            state.adjacent.lemma_bounded();
                            colored_nodes@[color as int].lemma_bounded();
                            lemma_len_subset(x, state.adjacent@);
                            lemma_len_subset(y, cset);
                            assert(x.subset_of(y));
                            lemma_subset_equality(x, y);
                            assert(y.subset_of(frontier(gg, o)));
                            assert(y != Set::<int>::empty()) by {
                                if y == Set::<int>::empty() {
                                    assert(y.len() == 0);
                                }
                            }
                            assert(exhaustible(gg, o, color as int));
                            assert(adj_colors@ =~= set![color as int]);
                        }
                    } else if num_adj > 0 {
                        adj_colors.set(Color::new(color));
                    }
                    color = color + 1;
                }
                proof {
                    assert(exists|j: int| state.adjacent@.contains(j)) by {
                        if !(exists|j: int| state.adjacent@.contains(j)) {
                            assert(state.adjacent@ =~= Set::<int>::empty());
                        }
                    }
                    let j = choose|j: int| state.adjacent@.contains(j);
                    let t = gg.nodes@[j].color.tag as int;
                    assert(colored_nodes@[t]@.contains(j));
                    state.adjacent.lemma_bounded();
                    lemma_len_subset(state.adjacent@.intersect(colored_nodes@[t]@), state.adjacent@);
                    assert(state.adjacent@.intersect(colored_nodes@[t]@).contains(j));
                    if !exhausts {
                        assert(adj_colors@.contains(t));
                    }
                    assert(exists|u: int| adj_colors@.contains(u)) by {
                        if exhausts && !(exists|u: int| adj_colors@.contains(u)) {
                            assert(adj_colors@ =~= Set::<int>::empty());
                        }
                    }
                }
                let candidates = adj_colors.colors();
                proof {
                    let u = choose|u: int| adj_colors@.contains(u);
                    assert(adj_colors@.contains(u));
                    assert(candidates.len() > 0);
                }
                let mut k: usize = 0;
                while k < candidates.len()
                    invariant
                        g.wf(),
                        gg == *g,
                        n == g.nodes.len(),
                        nn == n,
                        colored_nodes.len() == NUM_COLORS,
                        forall|t: int| 0 <= t < NUM_COLORS ==> (#[trigger] colored_nodes@[t])@ == colored(gg, t),
                        depth < n,
                        state.wf(gg, depth as int),
                        k <= candidates.len(),
                        candidates.len() > 0,
                        k > 0 || i > 0 ==> new_states.len() > 0,
                        play(gg, Seq::empty()).1 != Set::<int>::empty(),
                        forall|j: int| 0 <= j < candidates.len() ==> #[trigger] adj_colors@.contains(candidates@[j].tag as int),
                        forall|t: int| #[trigger] adj_colors@.contains(t) ==> 0 <= t < NUM_COLORS
                            && state.adjacent@.intersect(colored_nodes@[t]@).len() > 0,
                        forall|j: int| 0 <= j < new_states.len() ==> (#[trigger] new_states@[j]).wf(gg, depth + 1),
                        forall|s: Seq<u8>| #[trigger] full(gg, run(gg, set![0int], s)) ==> s.len() > depth,
                        state.owned@ == o,
                        state.adjacent@ == frontier(gg, o),
                        new_states.len() >= ns0.len(),
                        forall|j: int| 0 <= j < ns0.len() ==> #[trigger] new_states@[j] == ns0[j],
                        forall|j: int| 0 <= j < k ==> #[trigger] has_child(new_states@, gstep(gg, o, candidates@[j].tag as int)),
                    decreases candidates.len() - k,
                {
                    let color = candidates[k];
                    assert(adj_colors@.contains(color.tag as int));
                    let colored_adj = InlineBitSet::intersection(&state.adjacent, &colored_nodes[color.tag as usize]);
                    let new_owned = InlineBitSet::union(&state.owned, &colored_adj);
                    let mut new_adj = state.adjacent;
                    let neighbors = colored_adj.members();
                    let mut m: usize = 0;
                    while m < neighbors.len()
                        invariant
                            g.wf(),
                            gg == *g,
                            n == g.nodes.len(),
                            nn == n,
                            state.wf(gg, depth as int),
                            colored_adj@.subset_of(state.adjacent@),
                            m <= neighbors.len(),
                            forall|j: int| 0 <= j < neighbors.len() ==> colored_adj@.contains(#[trigger] neighbors@[j] as int),
                            new_adj@ == state.adjacent@.union(reach(gg, Set::new(|j: int| exists|l: int| 0 <= l < m && neighbors@[l] == j))),
                            new_adj@.subset_of(set_int_range(0, nn)),
                        decreases neighbors.len() - m,
                    {
                        let id = neighbors[m] as usize;
                        assert(colored_adj@.contains(id as int));
                        assert(g.nodes@[id as int].adjacent@.subset_of(set_int_range(0, nn))) by {
                            assert forall|j: int| #[trigger] g.nodes@[id as int].adjacent@.contains(j) implies set_int_range(0, nn).contains(j) by {
                            }
                        }
                        let ghost before_adj = new_adj@;
                        new_adj.union_with(&g.nodes[id].adjacent);
                        proof {
                            let s_old = Set::new(|j: int| exists|l: int| 0 <= l < m && neighbors@[l] == j);
                            let s_new = Set::new(|j: int| exists|l: int| 0 <= l < m + 1 && neighbors@[l] == j);
                            assert(s_new =~= s_old.insert(id as int)) by {
                                assert(neighbors@[m as int] == id);
                                assert forall|j: int| s_old.contains(j) implies s_new.contains(j) by {
                                    let l = choose|l: int| 0 <= l < m && neighbors@[l] == j;
                                }
                            }
                            assert forall|x: int| #[trigger] new_adj@.contains(x) == state.adjacent@.union(reach(gg, s_new)).contains(x) by {
                                if reach(gg, s_new).contains(x) {
                                    let j = choose|j: int| #[trigger] s_new.contains(j) && 0 <= j < gg.nodes.len() && gg.nodes@[j].adjacent@.contains(x);
                                    if j != id {
                                        assert(s_old.contains(j));
                                        assert(reach(gg, s_old).contains(x));
                                    }
                                }
                                if reach(gg, s_old).contains(x) {
                                    let j = choose|j: int| #[trigger] s_old.contains(j) && 0 <= j < gg.nodes.len() && gg.nodes@[j].adjacent@.contains(x);
                                    assert(s_new.contains(j));
                                }
                                if g.nodes@[id as int].adjacent@.contains(x) {
                                    assert(s_new.contains(id as int));
                                }
                            }
                            assert(new_adj@ =~= state.adjacent@.union(reach(gg, s_new)));
                        }
                        m = m + 1;
                    }
                    proof {
                        let s_all = Set::new(|j: int| exists|l: int| 0 <= l < neighbors.len() && neighbors@[l] == j);
                        assert(s_all =~= colored_adj@) by {
                            assert forall|j: int| colored_adj@.contains(j) implies s_all.contains(j) by {
                                let l = choose|l: int| 0 <= l < neighbors.len() && neighbors@[l] == j;
                            }
                            assert forall|j: int| s_all.contains(j) implies colored_adj@.contains(j) by {
                                let l = choose|l: int| 0 <= l < neighbors.len() && neighbors@[l] == j;
                            }
                        }
                    }
                    new_adj.without(&new_owned);
                    let mut new_moves = moves_clone(&state.moves);
                    proof {
                        lemma_int_range(0, nn);
                        lemma_len_subset(state.owned@, set_int_range(0, nn));
                    }
                    moves_push(&mut new_moves, color.tag);
                    let child = State { moves: new_moves, adjacent: new_adj, owned: new_owned };
                    proof {
                        let extra = colored_adj@;
                        assert(extra.len() > 0);
                        assert(state.owned@.disjoint(extra));
                        state.owned.lemma_bounded();
                        colored_adj.lemma_bounded();
                        vstd::set_lib::lemma_set_disjoint_lens(state.owned@, extra);
                        assert(child.owned@.len() >= depth + 2);
                        assert forall|j: int| 0 <= j < depth + 1 implies #[trigger] moves_of(child.moves)[j] < NUM_COLORS by {
                            if j < depth {
                                assert(moves_of(child.moves)[j] == moves_of(state.moves)[j]);
                            }
                        }
                        assert(child.owned@.subset_of(set_int_range(0, nn)));
                        assert(child.owned@.contains(0));
                        let ms = moves_of(child.moves);
                        assert(ms.drop_last() =~= moves_of(state.moves));
                        assert(colored_nodes@[color.tag as int]@ == colored(gg, color.tag as int));
                        assert(play(gg, ms) == step(gg, state.owned@, state.adjacent@, color.tag as int));
                        assert(child.owned@ =~= step(gg, state.owned@, state.adjacent@, color.tag as int).0);
                        assert(child.adjacent@ =~= step(gg, state.owned@, state.adjacent@, color.tag as int).1);
                    }
                    if new_adj.is_empty() {
                        proof {
                            lemma_int_range(0, nn);
                            lemma_len_subset(child.owned@, set_int_range(0, nn));
                        }
                        let tags = moves_into_vec(child.moves);
                        proof {
                            assert forall|s: Seq<u8>| #[trigger] full(gg, run(gg, set![0int], s)) implies tags.len() <= s.len() by {
                                assert(s.len() > depth);
                            }
                        }
                        return Some(tags);
                    }
                    let ghost prev_states = new_states@;
                    new_states.push(child);
                    proof {
                        assert forall|j: int| 0 <= j < new_states.len() implies (#[trigger] new_states@[j]).wf(gg, depth + 1) by {
                            if j < new_states.len() - 1 {
                            }
                        }
                        assert(child.owned@ == gstep(gg, o, color.tag as int));
                        assert forall|j: int| 0 <= j < k + 1 implies #[trigger] has_child(new_states@, gstep(gg, o, candidates@[j].tag as int)) by {
                            if j < k {
                                assert(has_child(prev_states, gstep(gg, o, candidates@[j].tag as int)));
                                let x = choose|x: int| 0 <= x < prev_states.len() && #[trigger] prev_states[x].owned@ == gstep(gg, o, candidates@[j].tag as int);
                                assert(new_states@[x] == prev_states[x]);
                            } else {
                                assert(new_states@[new_states.len() - 1].owned@ == gstep(gg, o, candidates@[j].tag as int));
                            }
                        }
                    }
                    k = k + 1;
                }
                proof {
                    assert forall|kk: int| kk >= 0 implies #[trigger] covered_next(gg, states@.take(i + 1), new_states@, kk) by {
                        if covered(gg, states@.take(i + 1), kk + 1) {
                            let j = choose|j: int| 0 <= j < states@.take(i + 1).len() && #[trigger] solvable_in(gg, states@.take(i + 1)[j].owned@, kk + 1);
                            if j < i {
                                assert(states@.take(i as int)[j] == states@.take(i + 1)[j]);
                                assert(solvable_in(gg, states@.take(i as int)[j].owned@, kk + 1));
                                assert(covered(gg, states@.take(i as int), kk + 1));
                                assert(covered_next(gg, states@.take(i as int), ns0, kk));
                                let x = choose|x: int| 0 <= x < ns0.len() && #[trigger] solvable_in(gg, ns0[x].owned@, kk);
                                assert(new_states@[x] == ns0[x]);
                                assert(solvable_in(gg, new_states@[x].owned@, kk));
                            } else {
                                assert(states@.take(i + 1)[j] == states@[i as int]);
                                assert(solvable_in(gg, o, kk + 1));
                                if exhausts {
                                    let e = choose|e: int| 0 <= e < NUM_COLORS && adj_colors@ == set![e] && #[trigger] exhaustible(gg, o, e);
                                    lemma_exhaust_first(gg, o, e, kk);
                                    assert(adj_colors@.contains(e));
                                    let ci = choose|ci: int| 0 <= ci < candidates.len() && candidates@[ci].tag == e;
                                    assert(has_child(new_states@, gstep(gg, o, candidates@[ci].tag as int)));
                                    let x = choose|x: int| 0 <= x < new_states@.len() && #[trigger] new_states@[x].owned@ == gstep(gg, o, e);
                                    assert(solvable_in(gg, new_states@[x].owned@, kk));
                                } else {
                                    assert forall|ii: int| 0 <= ii < gg.nodes.len() implies (#[trigger] gg.nodes@[ii]).color.tag < 6 by {
                                        assert(gg.nodes@[ii].color.is_valid());
                                    }
                                    lemma_some_color_helps(gg, o, kk);
                                    let t = choose|t: int|
                                        0 <= t < 6 && #[trigger] frontier(gg, o).intersect(colored(gg, t)) != Set::<int>::empty()
                                            && solvable_in(gg, gstep(gg, o, t), kk);
                                    let inter = state.adjacent@.intersect(colored_nodes@[t]@);
                                    state.adjacent.lemma_bounded();
                                    lemma_len_subset(inter, state.adjacent@);
                                    assert(inter.len() > 0) by {
                                        if inter.len() == 0 {
                                            vstd::set_lib::lemma_set_empty_equivalency_len(inter);
                                        }
                                    }
                                    assert(adj_colors@.contains(t));
                                    let ci = choose|ci: int| 0 <= ci < candidates.len() && candidates@[ci].tag == t;
                                    assert(has_child(new_states@, gstep(gg, o, candidates@[ci].tag as int)));
                                    let x = choose|x: int| 0 <= x < new_states@.len() && #[trigger] new_states@[x].owned@ == gstep(gg, o, t);
                                    assert(solvable_in(gg, new_states@[x].owned@, kk));
                                }
                            }
                        }
                    }
                }
                i = i + 1;
            }
            proof {
                let s0 = new_states@[0];
                lemma_int_range(0, nn);
                lemma_len_subset(s0.owned@, set_int_range(0, nn));
                assert(states@.take(states.len() as int) =~= states@);
                assert forall|k: int| k >= 0 && solvable_in(gg, set![0int], (depth + 1) + k) implies #[trigger] covered(gg, new_states@, k) by {
                    assert(solvable_in(gg, set![0int], depth + (k + 1)));
                    assert(covered(gg, states@, k + 1));
                    assert(covered_next(gg, states@.take(states.len() as int), new_states@, k));
                }
            }
            states = new_states;
            depth = depth + 1;
        }
        None
    }

    /// Solves `b` with as few moves as possible, with or without dropping
    /// dominated states. A board with more than 256 islands is refused with
    /// an empty `Err`.
    pub fn solve_with(&self, b: Board, prune: bool) -> (r: Result<Solution, Solution>)
        requires
            b.wf(),
        ensures
            r matches Ok(s) ==> is_optimal(b.side(), b.tags(), s@),
            is_uniform(b.tags()) ==> (r matches Ok(s) && s@.len() == 0),
            b.side() * b.side() <= MAX_NODES ==> r is Ok,
            r matches Err(s) ==> s@.len() == 0,
            r is Err ==> exists|reps: Seq<(int, int)>|
                reps.len() == MAX_NODES + 1 && #[trigger] distinct_islands(b.side(), b.tags(), reps),
            forall|reps: Seq<(int, int)>|
                reps.len() > MAX_NODES && #[trigger] distinct_islands(b.side(), b.tags(), reps) ==> r is Err,
            r matches Ok(s) ==> forall|k: int| 0 <= k < s.len() ==> (#[trigger] s@[k]).is_valid(),
    {
        if b.is_drenched() {
            let empty: Solution = Vec::new();
            assert(replay(b.side(), b.tags(), empty@) == b.tags());
            assert(is_optimal(b.side(), b.tags(), empty@));
            proof {
                lemma_square_bound(b.side());
                lemma_uniform_island(b.side(), b.tags());
                assert forall|reps: Seq<(int, int)>|
                    reps.len() > MAX_NODES && #[trigger] distinct_islands(b.side(), b.tags(), reps) implies false by {
                    assert(in_grid(b.side(), reps[0]) && in_grid(b.side(), reps[1]));
                    assert(in_island(b.side(), b.tags(), (0, 0), reps[0]));
                    assert(in_island(b.side(), b.tags(), (0, 0), reps[1]));
                    lemma_island_symmetric(b.side(), b.tags(), (0, 0), reps[0]);
                    lemma_island_transitive(b.side(), b.tags(), reps[0], (0, 0), reps[1]);
                }
            }
            return Ok(empty);
        }
        match generate_graph(&b) {
            None => Err(Vec::new()),
            Some(g) => {
                proof {
                    assert forall|reps: Seq<(int, int)>|
                        reps.len() > MAX_NODES && #[trigger] distinct_islands(b.side(), b.tags(), reps) implies false by {
                        lemma_distinct_islands_bounded(g, b.side(), b.tags(), reps);
                    }
                    lemma_square_bound(b.side());
                    if play(g, Seq::empty()).1 == Set::<int>::empty() {
                        assert(tags_of(Seq::<Color>::empty()) =~= Seq::<u8>::empty());
                        lemma_frontier_empty_drenches(g, b.side(), b.tags(), Seq::empty());
                        assert(replay(b.side(), b.tags(), Seq::<Color>::empty()) == b.tags());
                    }
                }
                match Self::search(&g, prune) {
                    None => Err(Vec::new()),
                    Some(tags) => {
                        let mut moves: Solution = Vec::new();
                        let mut k: usize = 0;
                        while k < tags.len()
                            invariant
                                k <= tags.len(),
                                moves.len() == k,
                                forall|j: int| 0 <= j < tags.len() ==> #[trigger] tags@[j] < NUM_COLORS,
                                forall|j: int| 0 <= j < k ==> (#[trigger] moves@[j]).tag == tags@[j],
                            decreases tags.len() - k,
                        {
                            moves.push(Color::new(tags[k]));
                            k = k + 1;
                        }
                        proof {
                            assert(tags_of(moves@) =~= tags@);
                            lemma_frontier_empty_drenches(g, b.side(), b.tags(), moves@);
                            assert forall|t: Seq<Color>| #[trigger] is_uniform(replay(b.side(), b.tags(), t)) implies moves@.len() <= t.len() by {
                                lemma_drenching_is_full(g, b.side(), b.tags(), t);
                                assert(full(g, run(g, set![0int], tags_of(t))));
                            }
                        }
                        Ok(moves)
                    },
                }
            },
        }
    }
}

impl Solver for Exact {
    /// Solves `b` with as few moves as possible, dropping dominated states
    /// as it searches.
    fn solve(&self, b: Board) -> (r: Result<Solution, Solution>)
        ensures
            r matches Ok(s) ==> is_optimal(b.side(), b.tags(), s@),
            is_uniform(b.tags()) ==> (r matches Ok(s) && s@.len() == 0),
            b.side() * b.side() <= MAX_NODES ==> r is Ok,
            r matches Err(s) ==> s@.len() == 0,
            r is Err ==> exists|reps: Seq<(int, int)>|
                reps.len() == MAX_NODES + 1 && #[trigger] distinct_islands(b.side(), b.tags(), reps),
            forall|reps: Seq<(int, int)>|
                reps.len() > MAX_NODES && #[trigger] distinct_islands(b.side(), b.tags(), reps) ==> r is Err,
            r matches Ok(s) ==> forall|k: int| 0 <= k < s.len() ==> (#[trigger] s@[k]).is_valid(),
    {
        self.solve_with(b, true)
    }
}

} // verus!
