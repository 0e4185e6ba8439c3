//! The game played on the island graph: owned nodes grow by the adjacent
//! nodes of the color played.
use vstd::prelude::*;
use vstd::set_lib::*;
use crate::graph::{symmetric, Graph};

verus! {

/// The nodes of `g` of color `c`.
pub open spec fn colored(g: Graph, c: int) -> Set<int> {
    Set::new(|i: int| 0 <= i < g.nodes.len() && g.nodes@[i].color.tag == c)
}

/// The nodes of `g` adjacent to a node of `s`.
pub open spec fn reach(g: Graph, s: Set<int>) -> Set<int> {
    Set::new(
        |i: int|
            exists|j: int| #[trigger] s.contains(j) && 0 <= j < g.nodes.len() && g.nodes@[j].adjacent@.contains(i),
    )
}

/// One move of the game played on `g`: from owned nodes `owned` and adjacent
/// nodes `adj`, playing color `c` wins the adjacent nodes of that color.
/// Gives the new owned and adjacent nodes.
pub open spec fn step(g: Graph, owned: Set<int>, adj: Set<int>, c: int) -> (Set<int>, Set<int>) {
    let won = adj.intersect(colored(g, c));
    let owned2 = owned.union(won);
    (owned2, adj.union(reach(g, won)).difference(owned2))
}

/// The owned and adjacent nodes after playing `moves` on `g` from node 0.
pub open spec fn play(g: Graph, moves: Seq<u8>) -> (Set<int>, Set<int>)
    decreases moves.len(),
{
    if moves.len() == 0 {
        (set![0int], g.nodes@[0].adjacent@.difference(set![0int]))
    } else {
        let prev = play(g, moves.drop_last());
        step(g, prev.0, prev.1, moves.last() as int)
    }
}

/// The nodes adjacent to owned nodes and not owned.
pub open spec fn frontier(g: Graph, o: Set<int>) -> Set<int> {
    reach(g, o).difference(o)
}

/// Owned nodes after playing color `c`.
pub open spec fn gstep(g: Graph, o: Set<int>, c: int) -> Set<int> {
    o.union(frontier(g, o).intersect(colored(g, c)))
}

/// Owned nodes after playing `moves` from owned nodes `o`.
pub open spec fn run(g: Graph, o: Set<int>, moves: Seq<u8>) -> Set<int>
    decreases moves.len(),
{
    if moves.len() == 0 {
        o
    } else {
        gstep(g, run(g, o, moves.drop_last()), moves.last() as int)
    }
}

/// Whether every node is owned.
pub open spec fn full(g: Graph, o: Set<int>) -> bool {
    forall|k: int| 0 <= k < g.nodes.len() ==> #[trigger] o.contains(k)
}

/// Whether `k` moves suffice to own every node from owned nodes `o`.
pub open spec fn solvable_in(g: Graph, o: Set<int>, k: int) -> bool {
    exists|s: Seq<u8>| s.len() == k && #[trigger] full(g, run(g, o, s))
}

/// Playing from node 0 is running from `{0}`, with the frontier as the
/// adjacent nodes.
pub proof fn lemma_play_is_run(g: Graph, moves: Seq<u8>)
    requires
        g.nodes.len() >= 1,
    ensures
        play(g, moves).0 == run(g, set![0int], moves),
        play(g, moves).1 == frontier(g, run(g, set![0int], moves)),
    decreases moves.len(),
{
    if moves.len() == 0 {
        assert(reach(g, set![0int]) =~= g.nodes@[0].adjacent@) by {
            assert forall|x: int| g.nodes@[0].adjacent@.contains(x) implies reach(g, set![0int]).contains(x) by {
                assert(set![0int].contains(0));
            }
        }
        assert(play(g, moves).1 =~= frontier(g, run(g, set![0int], moves)));
    } else {
        lemma_play_is_run(g, moves.drop_last());
        let o = run(g, set![0int], moves.drop_last());
        let c = moves.last() as int;
        let w = frontier(g, o).intersect(colored(g, c));
        let o2 = o.union(w);
        assert(step(g, o, frontier(g, o), c).0 =~= o2);
        assert(step(g, o, frontier(g, o), c).1 =~= frontier(g, o2)) by {
            assert forall|x: int| reach(g, o2).contains(x) implies reach(g, o).contains(x) || reach(g, w).contains(x) by {
                let j = choose|j: int| #[trigger] o2.contains(j) && 0 <= j < g.nodes.len() && g.nodes@[j].adjacent@.contains(x);
                if o.contains(j) {
                    assert(reach(g, o).contains(x));
                } else {
                    assert(reach(g, w).contains(x));
                }
            }
            assert forall|x: int| reach(g, o).contains(x) implies reach(g, o2).contains(x) by {
                let j = choose|j: int| #[trigger] o.contains(j) && 0 <= j < g.nodes.len() && g.nodes@[j].adjacent@.contains(x);
                assert(o2.contains(j));
            }
            assert forall|x: int| reach(g, w).contains(x) implies reach(g, o2).contains(x) by {
                let j = choose|j: int| #[trigger] w.contains(j) && 0 <= j < g.nodes.len() && g.nodes@[j].adjacent@.contains(x);
                assert(o2.contains(j));
            }
        }
    }
}

/// Playing a color keeps the owned nodes, and more owned nodes lead to more
/// owned nodes.
pub proof fn lemma_gstep_mono(g: Graph, o1: Set<int>, o2: Set<int>, c: int)
    requires
        o1.subset_of(o2),
    ensures
        o1.subset_of(gstep(g, o1, c)),
        gstep(g, o1, c).subset_of(gstep(g, o2, c)),
{
    assert forall|x: int| gstep(g, o1, c).contains(x) implies gstep(g, o2, c).contains(x) by {
        if !o1.contains(x) && !o2.contains(x) {
            let j = choose|j: int| #[trigger] o1.contains(j) && 0 <= j < g.nodes.len() && g.nodes@[j].adjacent@.contains(x);
            assert(o2.contains(j));
            assert(reach(g, o2).contains(x));
        }
    }
}

/// Running moves keeps the owned nodes, and is monotone in them.
pub proof fn lemma_run_mono(g: Graph, o1: Set<int>, o2: Set<int>, s: Seq<u8>)
    requires
        o1.subset_of(o2),
    ensures
        o1.subset_of(run(g, o1, s)),
        run(g, o1, s).subset_of(run(g, o2, s)),
    decreases s.len(),
{
    if s.len() > 0 {
        lemma_run_mono(g, o1, o2, s.drop_last());
        lemma_gstep_mono(g, run(g, o1, s.drop_last()), run(g, o2, s.drop_last()), s.last() as int);
    }
}

/// Running `s1 + s2` is running `s2` after `s1`.
pub proof fn lemma_run_split(g: Graph, o: Set<int>, s1: Seq<u8>, s2: Seq<u8>)
    ensures
        run(g, o, s1 + s2) == run(g, run(g, o, s1), s2),
    decreases s2.len(),
{
    if s2.len() == 0 {
        assert(s1 + s2 =~= s1);
    } else {
        lemma_run_split(g, o, s1, s2.drop_last());
        assert((s1 + s2).drop_last() =~= s1 + s2.drop_last());
    }
}

/// More owned nodes are solvable in no more moves.
pub proof fn lemma_solvable_mono(g: Graph, o1: Set<int>, o2: Set<int>, k: int)
    requires
        o1.subset_of(o2),
        solvable_in(g, o1, k),
    ensures
        solvable_in(g, o2, k),
{
    let s = choose|s: Seq<u8>| s.len() == k && #[trigger] full(g, run(g, o1, s));
    lemma_run_mono(g, o1, o2, s);
    assert(full(g, run(g, o2, s)));
}

/// What is solvable in `k` moves is solvable in `k + 1`.
pub proof fn lemma_solvable_pad(g: Graph, o: Set<int>, k: int)
    requires
        solvable_in(g, o, k),
    ensures
        solvable_in(g, o, k + 1),
{
    let s = choose|s: Seq<u8>| s.len() == k && #[trigger] full(g, run(g, o, s));
    let s2 = s.push(0u8);
    assert(s2.drop_last() =~= s);
    lemma_gstep_mono(g, run(g, o, s), run(g, o, s), 0);
    assert(full(g, run(g, o, s2)));
}

/// A node of color `e` that is not owned stays unowned by moves that never
/// play `e`.
pub proof fn lemma_run_misses(g: Graph, o: Set<int>, s: Seq<u8>, e: int, x: int)
    requires
        !o.contains(x),
        colored(g, e).contains(x),
        forall|i: int| 0 <= i < s.len() ==> s[i] as int != e,
    ensures
        !run(g, o, s).contains(x),
    decreases s.len(),
{
    if s.len() > 0 {
        lemma_run_misses(g, o, s.drop_last(), e, x);
    }
}

/// Playing `e` first, when all unowned nodes of color `e` are adjacent, saves
/// a move over any solution.
pub proof fn lemma_exhaust_first(g: Graph, o: Set<int>, e: int, k: int)
    requires
        colored(g, e).difference(o).subset_of(frontier(g, o)),
        colored(g, e).difference(o) != Set::<int>::empty(),
        solvable_in(g, o, k + 1),
        k >= 0,
    ensures
        solvable_in(g, gstep(g, o, e), k),
{
    let s = choose|s: Seq<u8>| s.len() == k + 1 && #[trigger] full(g, run(g, o, s));
    assert(exists|x: int| colored(g, e).difference(o).contains(x)) by {
        if !(exists|x: int| colored(g, e).difference(o).contains(x)) {
            assert(colored(g, e).difference(o) =~= Set::<int>::empty());
        }
    }
    let x = choose|x: int| colored(g, e).difference(o).contains(x);
    if forall|i: int| 0 <= i < s.len() ==> s[i] as int != e {
        lemma_run_misses(g, o, s, e, x);
        assert(run(g, o, s).contains(x));
    }
    let i = choose|i: int| 0 <= i < s.len() && s[i] as int == e;
    let pre = s.take(i);
    let post = s.skip(i + 1);
    let s2 = pre + post;
    assert(s =~= (pre.push(e as u8)) + post);
    lemma_run_split(g, o, pre.push(e as u8), post);
    assert(pre.push(e as u8).drop_last() =~= pre);
    let y0 = gstep(g, o, e);
    lemma_gstep_mono(g, o, o, e);
    lemma_run_split(g, y0, pre, post);
    let zi = run(g, o, pre);
    let yi = run(g, y0, pre);
    lemma_run_mono(g, o, y0, pre);
    lemma_run_mono(g, y0, y0, pre);
    assert(gstep(g, zi, e).subset_of(yi)) by {
        assert forall|v: int| gstep(g, zi, e).contains(v) implies yi.contains(v) by {
            if !zi.contains(v) {
                assert(colored(g, e).contains(v));
                if !o.contains(v) {
                    assert(y0.contains(v));
                } else {
                    assert(y0.contains(v));
                }
            }
        }
    }
    lemma_run_mono(g, gstep(g, zi, e), yi, post);
    assert(full(g, run(g, y0, s2)));
    assert(s2.len() == k);
}

/// Some color adjacent to the owned nodes brings a solvable position one
/// move closer.
pub proof fn lemma_some_color_helps(g: Graph, o: Set<int>, k: int)
    requires
        forall|i: int| 0 <= i < g.nodes.len() ==> (#[trigger] g.nodes@[i]).color.tag < 6,
        symmetric(g.nodes@),
        solvable_in(g, o, k + 1),
        k >= 0,
        frontier(g, o) != Set::<int>::empty(),
    ensures
        exists|t: int|
            0 <= t < 6 && #[trigger] frontier(g, o).intersect(colored(g, t)) != Set::<int>::empty()
                && solvable_in(g, gstep(g, o, t), k),
{
    let s = choose|s: Seq<u8>| s.len() == k + 1 && #[trigger] full(g, run(g, o, s));
    let c = s[0] as int;
    let rest = s.skip(1);
    let one = seq![s[0]];
    assert(s =~= one + rest);
    lemma_run_split(g, o, one, rest);
    assert(one.drop_last() =~= Seq::<u8>::empty());
    assert(run(g, o, one.drop_last()) == o);
    assert(one.last() == s[0]);
    assert(run(g, o, one) == gstep(g, o, c));
    assert(full(g, run(g, gstep(g, o, c), rest)));
    assert(solvable_in(g, gstep(g, o, c), k));
    if frontier(g, o).intersect(colored(g, c)) != Set::<int>::empty() {
        assert(exists|x: int| frontier(g, o).intersect(colored(g, c)).contains(x)) by {
            if !(exists|x: int| frontier(g, o).intersect(colored(g, c)).contains(x)) {
                assert(frontier(g, o).intersect(colored(g, c)) =~= Set::<int>::empty());
            }
        }
        let x = choose|x: int| frontier(g, o).intersect(colored(g, c)).contains(x);
        assert(0 <= c < 6);
    } else {
        assert(gstep(g, o, c) =~= o);
        assert(exists|j: int| frontier(g, o).contains(j)) by {
            if !(exists|j: int| frontier(g, o).contains(j)) {
                assert(frontier(g, o) =~= Set::<int>::empty());
            }
        }
        let j = choose|j: int| frontier(g, o).contains(j);
        let jj = choose|jj: int| #[trigger] o.contains(jj) && 0 <= jj < g.nodes.len() && g.nodes@[jj].adjacent@.contains(j);
        assert(0 <= j < g.nodes.len());
        let t = g.nodes@[j].color.tag as int;
        assert(frontier(g, o).intersect(colored(g, t)).contains(j));
        lemma_gstep_mono(g, o, o, t);
        lemma_solvable_mono(g, o, gstep(g, o, t), k);
    }
}

/// When every node is owned, no node is adjacent and unowned.
pub proof fn lemma_full_frontier(g: Graph, o: Set<int>)
    requires
        full(g, o),
        symmetric(g.nodes@),
    ensures
        frontier(g, o) == Set::<int>::empty(),
{
    assert forall|x: int| !frontier(g, o).contains(x) by {
        if frontier(g, o).contains(x) {
            let jj = choose|jj: int| #[trigger] o.contains(jj) && 0 <= jj < g.nodes.len() && g.nodes@[jj].adjacent@.contains(x);
        }
    }
    assert(frontier(g, o) =~= Set::<int>::empty());
}

/// What is solvable in `k1` moves is solvable in any `k2 >= k1`.
pub proof fn lemma_solvable_pad_to(g: Graph, o: Set<int>, k1: int, k2: int)
    requires
        solvable_in(g, o, k1),
        k1 <= k2,
    ensures
        solvable_in(g, o, k2),
    decreases k2 - k1,
{
    if k1 < k2 {
        lemma_solvable_pad(g, o, k1);
        lemma_solvable_pad_to(g, o, k1 + 1, k2);
    }
}

} // verus!
