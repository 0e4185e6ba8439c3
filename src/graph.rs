//! Islands of a board, and the graph whose nodes are the islands.
use vstd::prelude::*;
use vstd::set_lib::*;
use crate::bitset::InlineBitSet;
use crate::board::{
    cell_of, in_grid, in_island, is_chain, is_uniform, lemma_cell_of, lemma_chain_within,
    lemma_island_cell, lemma_island_symmetric, lemma_island_transitive, lemma_lists_drop_last,
    lemma_lists_push, lemma_uniform_island, lists, on_border, pt, tag_at, touching, Board,
};
use crate::color::Color;
use crate::util::{cell_index, lemma_cell_index, lemma_square_bound, CellMap};

verus! {

/// Row-major indices of the marked cells.
pub open spec fn marked(v: Seq<bool>) -> Set<int> {
    Set::new(|i: int| 0 <= i < v.len() && v[i])
}

proof fn lemma_marked_bounded(v: Seq<bool>)
    ensures
        marked(v).finite(),
        marked(v).len() <= v.len(),
{
    lemma_int_range(0, v.len() as int);
    lemma_len_subset(marked(v), set_int_range(0, v.len() as int));
}

/// Every marked cell is listed in one of the three lists, and every listed
/// cell is marked.
pub open spec fn coherent(
    v: CellMap<bool>,
    island: Seq<(u8, u8)>,
    adjacent: Seq<(u8, u8)>,
    stack: Seq<(u8, u8)>,
) -> bool {
    forall|p: (int, int)|
        in_grid(v.side(), p) ==> (#[trigger] v.value_at(p.0, p.1) <==> (lists(island, p) || lists(
            adjacent,
            p,
        ) || lists(stack, p)))
}

/// The cells waiting on the stack lie on the board, and once the island has
/// a cell each of them touches one.
pub open spec fn stack_ok(side: int, stack: Seq<(u8, u8)>, island: Seq<(u8, u8)>) -> bool {
    forall|k: int|
        0 <= k < stack.len() ==> in_grid(side, #[trigger] pt(stack[k])) && (island.len() > 0
            ==> exists|j: int| 0 <= j < island.len() && touching(pt(island[j]), pt(stack[k])))
}

/// No list names a cell twice, and no cell is named by two lists.
pub open spec fn separate(island: Seq<(u8, u8)>, adjacent: Seq<(u8, u8)>, stack: Seq<(u8, u8)>) -> bool {
    &&& island.no_duplicates()
    &&& adjacent.no_duplicates()
    &&& stack.no_duplicates()
    &&& forall|p: (int, int)| #[trigger] lists(island, p) ==> !lists(adjacent, p) && !lists(stack, p)
    &&& forall|p: (int, int)| #[trigger] lists(adjacent, p) ==> !lists(stack, p)
}

/// A list names a cell exactly when it holds it.
pub proof fn lemma_lists_contains(s: Seq<(u8, u8)>, x: (u8, u8))
    ensures
        lists(s, pt(x)) <==> s.contains(x),
{
    if lists(s, pt(x)) {
        let k = choose|k: int| 0 <= k < s.len() && #[trigger] pt(s[k]) == pt(x);
        assert(s[k] == x);
    }
    if s.contains(x) {
        let k = choose|k: int| 0 <= k < s.len() && s[k] == x;
        assert(pt(s[k]) == pt(x));
    }
}

/// Appending a cell that no list names keeps the lists separate.
proof fn lemma_no_dup_push(s: Seq<(u8, u8)>, x: (u8, u8))
    requires
        s.no_duplicates(),
        !s.contains(x),
    ensures
        s.push(x).no_duplicates(),
{
    assert forall|i: int, j: int| 0 <= i < s.len() + 1 && 0 <= j < s.len() + 1 && i != j implies s.push(x)[i]
        != s.push(x)[j] by {
        if i == s.len() {
            assert(s.push(x)[j] == s[j]);
        } else if j == s.len() {
            assert(s.push(x)[i] == s[i]);
        }
    }
}

/// Moving the top of the stack to the island or to the border keeps the
/// lists separate.
proof fn lemma_separate_pop(island: Seq<(u8, u8)>, adjacent: Seq<(u8, u8)>, stack: Seq<(u8, u8)>)
    requires
        separate(island, adjacent, stack),
        stack.len() > 0,
    ensures
        separate(island.push(stack.last()), adjacent, stack.drop_last()),
        separate(island, adjacent.push(stack.last()), stack.drop_last()),
{
    let x = stack.last();
    let rest = stack.drop_last();
    assert(rest.push(x) =~= stack);
    lemma_lists_push(rest, x);
    lemma_lists_push(island, x);
    lemma_lists_push(adjacent, x);
    assert(stack[stack.len() - 1] == x);
    assert(lists(stack, pt(x))) by {
        assert(pt(stack[stack.len() - 1]) == pt(x));
    }
    lemma_lists_contains(island, x);
    lemma_lists_contains(adjacent, x);
    lemma_lists_contains(rest, x);
    assert(!rest.contains(x)) by {
        if rest.contains(x) {
            let k = choose|k: int| 0 <= k < rest.len() && rest[k] == x;
            assert(stack[k] == stack[stack.len() - 1]);
        }
    }
    assert(rest.no_duplicates()) by {
        assert forall|i: int, j: int| 0 <= i < rest.len() && 0 <= j < rest.len() && i != j implies rest[i] != rest[j] by {
            assert(rest[i] == stack[i] && rest[j] == stack[j]);
        }
    }
    lemma_no_dup_push(island, x);
    lemma_no_dup_push(adjacent, x);
    assert forall|p: (int, int)| #[trigger] lists(rest, p) implies lists(stack, p) by {}
}

/// Marks cell `(x, y)` and pushes it onto `stack` unless it is marked already.
fn push_unvisited(
    visited: &mut CellMap<bool>,
    stack: &mut Vec<(u8, u8)>,
    x: u8,
    y: u8,
    Ghost(island): Ghost<Seq<(u8, u8)>>,
    Ghost(adjacent): Ghost<Seq<(u8, u8)>>,
)
    requires
        old(visited).wf(),
        x < old(visited).side(),
        y < old(visited).side(),
        coherent(*old(visited), island, adjacent, old(stack)@),
        stack_ok(old(visited).side(), old(stack)@, island),
        island.len() > 0,
        touching(pt(island.last()), (x as int, y as int)),
        marked(old(visited).values()).finite(),
        separate(island, adjacent, old(stack)@),
    ensures
        separate(island, adjacent, final(stack)@),
        final(visited).wf(),
        final(visited).side() == old(visited).side(),
        final(visited).value_at(x as int, y as int),
        forall|p: (int, int)|
            in_grid(old(visited).side(), p) && old(visited).value_at(p.0, p.1)
                ==> #[trigger] final(visited).value_at(p.0, p.1),
        coherent(*final(visited), island, adjacent, final(stack)@),
        stack_ok(old(visited).side(), final(stack)@, island),
        marked(final(visited).values()).finite(),
        marked(final(visited).values()).len() - marked(old(visited).values()).len()
            == final(stack).len() - old(stack).len(),
        final(stack).len() >= old(stack).len(),
{
    let ghost side = visited.side();
    let ghost stack0 = stack@;
    let seen = *visited.get(x, y);
    proof {
        lemma_cell_index(side, x as int, y as int);
    }
    if !seen {
        visited.set(x, y, true);
        stack.push((x, y));
        proof {
            let i = cell_index(side, x as int, y as int);
            assert(marked(visited.values()) =~= marked(old(visited).values()).insert(i));
            assert(!marked(old(visited).values()).contains(i));
            lemma_lists_push(stack0, (x, y));
            assert(!lists(stack0, (x as int, y as int)) && !lists(island, (x as int, y as int)) && !lists(
                adjacent,
                (x as int, y as int),
            ));
            assert(pt((x, y)) == (x as int, y as int));
            lemma_lists_contains(stack0, (x, y));
            lemma_no_dup_push(stack0, (x, y));
            assert forall|k: int| 0 <= k < stack@.len() implies in_grid(side, #[trigger] pt(stack@[k]))
                && (island.len() > 0 ==> exists|j: int|
                0 <= j < island.len() && touching(pt(island[j]), pt(stack@[k]))) by {
                if k < stack0.len() {
                    assert(stack@[k] == stack0[k]);
                } else {
                    assert(touching(pt(island[island.len() - 1]), pt(stack@[k])));
                }
            }
        }
    }
    proof {
        assert forall|p: (int, int)| in_grid(side, p) implies #[trigger] visited.value_at(p.0, p.1)
            == (old(visited).value_at(p.0, p.1) || p == (x as int, y as int)) by {
            lemma_cell_index(side, p.0, p.1);
        }
    }
}

/// What the flood fill has found once its stack is empty: the island and
/// its border.
proof fn lemma_island_lists(
    b: &Board,
    pos: (u8, u8),
    island: Seq<(u8, u8)>,
    adjacent: Seq<(u8, u8)>,
    par: Seq<int>,
    visited: CellMap<bool>,
)
    requires
        b.wf(),
        in_grid(b.side(), pt(pos)),
        visited.side() == b.side(),
        coherent(visited, island, adjacent, Seq::empty()),
        island.len() > 0,
        is_chain(b.side(), b.tags(), pt(pos), island.map_values(|q: (u8, u8)| pt(q)), par),
        forall|k: int|
            0 <= k < adjacent.len() ==> in_grid(b.side(), #[trigger] pt(adjacent[k])) && tag_at(
                b.side(),
                b.tags(),
                pt(adjacent[k]),
            ) != tag_at(b.side(), b.tags(), pt(pos)) && exists|j: int|
                0 <= j < island.len() && touching(pt(island[j]), pt(adjacent[k])),
        forall|j: int, p: (int, int)|
            0 <= j < island.len() && in_grid(b.side(), p) && touching(#[trigger] pt(island[j]), p)
                ==> #[trigger] visited.value_at(p.0, p.1),
    ensures
        forall|k: int|
            0 <= k < island.len() ==> in_island(b.side(), b.tags(), pt(pos), #[trigger] pt(island[k])),
        forall|p: (int, int)| #[trigger] in_island(b.side(), b.tags(), pt(pos), p) ==> lists(island, p),
        forall|k: int|
            0 <= k < adjacent.len() ==> on_border(b.side(), b.tags(), pt(pos), #[trigger] pt(adjacent[k])),
        forall|p: (int, int)| #[trigger] on_border(b.side(), b.tags(), pt(pos), p) ==> lists(adjacent, p),
{
    let side = b.side();
    let tags = b.tags();
    let start = pt(pos);
    let c = island.map_values(|q: (u8, u8)| pt(q));
    assert forall|k: int| 0 <= k < island.len() implies in_island(side, tags, start, #[trigger] pt(island[k])) by {
        assert(c[k] == pt(island[k]));
        assert(c.contains(pt(island[k])));
    }
    let s = Set::new(|p: (int, int)| lists(island, p));
    assert(pt(island[0]) == c[0]);
    assert(s.contains(start));
    assert forall|q: (int, int), p: (int, int)|
        #[trigger] s.contains(q) && in_grid(side, p) && touching(q, p) && tag_at(side, tags, p)
            == tag_at(side, tags, start) implies #[trigger] s.contains(p) by {
        let j = choose|j: int| 0 <= j < island.len() && #[trigger] pt(island[j]) == q;
        assert(visited.value_at(p.0, p.1));
        if lists(adjacent, p) {
            let k = choose|k: int| 0 <= k < adjacent.len() && #[trigger] pt(adjacent[k]) == p;
        }
    }
    assert forall|p: (int, int)| #[trigger] in_island(side, tags, start, p) implies lists(island, p) by {
        let (c2, par2) = choose|c2: Seq<(int, int)>, par2: Seq<int>|
            #[trigger] is_chain(side, tags, start, c2, par2) && c2.contains(p);
        lemma_chain_within(side, tags, start, c2, par2, s, c2.len() as int);
        let k = choose|k: int| 0 <= k < c2.len() && c2[k] == p;
        assert(s.contains(c2[k]));
    }
    assert forall|k: int| 0 <= k < adjacent.len() implies on_border(side, tags, start, #[trigger] pt(adjacent[k])) by {
        let p = pt(adjacent[k]);
        let j = choose|j: int| 0 <= j < island.len() && touching(pt(island[j]), pt(adjacent[k]));
        assert(in_island(side, tags, start, pt(island[j])));
        if in_island(side, tags, start, p) {
            assert(lists(island, p));
            let i = choose|i: int| 0 <= i < island.len() && #[trigger] pt(island[i]) == p;
            assert(c[i] == p);
        }
    }
    assert forall|p: (int, int)| #[trigger] on_border(side, tags, start, p) implies lists(adjacent, p) by {
        let q = choose|q: (int, int)| #[trigger] in_island(side, tags, start, q) && touching(q, p);
        assert(lists(island, q));
        let j = choose|j: int| 0 <= j < island.len() && #[trigger] pt(island[j]) == q;
        assert(visited.value_at(p.0, p.1));
        if lists(island, p) {
            let i = choose|i: int| 0 <= i < island.len() && #[trigger] pt(island[i]) == p;
            assert(in_island(side, tags, start, pt(island[i])));
        }
    }
}

/// The cells of the island of `pos` and the cells outside it that touch it.
/// A cell touching the island from several sides is listed once.
pub fn get_island(b: &Board, pos: (u8, u8)) -> (r: (Vec<(u8, u8)>, Vec<(u8, u8)>))
    requires
        b.wf(),
        pos.0 < b.side(),
        pos.1 < b.side(),
    ensures
        forall|k: int|
            0 <= k < r.0.len() ==> in_island(b.side(), b.tags(), pt(pos), #[trigger] pt(r.0@[k])),
        forall|p: (int, int)| #[trigger] in_island(b.side(), b.tags(), pt(pos), p) ==> lists(r.0@, p),
        forall|k: int|
            0 <= k < r.1.len() ==> on_border(b.side(), b.tags(), pt(pos), #[trigger] pt(r.1@[k])),
        forall|p: (int, int)| #[trigger] on_border(b.side(), b.tags(), pt(pos), p) ==> lists(r.1@, p),
        r.0@.no_duplicates(),
        r.1@.no_duplicates(),
{
    let ghost side = b.side();
    let ghost tags = b.tags();
    let ghost start = pt(pos);
    let size = b.size();
    let (x0, y0) = pos;
    let init_color = b.at(x0, y0);
    let mut to_visit: Vec<(u8, u8)> = Vec::new();
    to_visit.push((x0, y0));
    let mut visited: CellMap<bool> = CellMap::new(size, false);
    proof {
        assert forall|i: int| 0 <= i < visited.values().len() implies !visited.values()[i] by {
            assert(cloned(false, visited.values()[i]));
        }
        lemma_cell_index(side, x0 as int, y0 as int);
    }
    visited.set(x0, y0, true);
    let mut island: Vec<(u8, u8)> = Vec::new();
    let mut adjacent: Vec<(u8, u8)> = Vec::new();
    let ghost mut par: Seq<int> = Seq::empty();
    proof {
        assert forall|p: (int, int)| in_grid(side, p) implies (#[trigger] visited.value_at(p.0, p.1)
            <==> (lists(island@, p) || lists(adjacent@, p) || lists(to_visit@, p))) by {
            lemma_cell_index(side, p.0, p.1);
            if p == start {
                assert(pt(to_visit@[0]) == p);
            }
        }
        lemma_marked_bounded(visited.values());
        assert(separate(island@, adjacent@, to_visit@)) by {
            assert forall|i: int, j: int| 0 <= i < to_visit@.len() && 0 <= j < to_visit@.len() && i != j implies to_visit@[i] != to_visit@[j] by {}
        }
    }
    while to_visit.len() > 0
        invariant
            b.wf(),
            side == b.side(),
            tags == b.tags(),
            start == pt(pos),
            in_grid(side, start),
            size == side,
            init_color.tag == tag_at(side, tags, start),
            visited.wf(),
            visited.side() == side,
            coherent(visited, island@, adjacent@, to_visit@),
            stack_ok(side, to_visit@, island@),
            separate(island@, adjacent@, to_visit@),
            forall|k: int|
                0 <= k < to_visit.len() && island.len() == 0 ==> #[trigger] pt(to_visit@[k]) == start,
            island.len() == 0 ==> to_visit.len() == 1,
            island.len() > 0 ==> is_chain(
                side,
                tags,
                start,
                island@.map_values(|q: (u8, u8)| pt(q)),
                par,
            ),
            forall|k: int|
                0 <= k < adjacent.len() ==> in_grid(side, #[trigger] pt(adjacent@[k])) && tag_at(
                    side,
                    tags,
                    pt(adjacent@[k]),
                ) != init_color.tag && exists|j: int|
                    0 <= j < island.len() && touching(pt(island@[j]), pt(adjacent@[k])),
            forall|j: int, p: (int, int)|
                0 <= j < island.len() && in_grid(side, p) && touching(#[trigger] pt(island@[j]), p)
                    ==> #[trigger] visited.value_at(p.0, p.1),
            marked(visited.values()).finite(),
            marked(visited.values()).len() <= side * side,
        decreases (side * side - marked(visited.values()).len()) * 5 + to_visit.len(),
    {
        let ghost stack0 = to_visit@;
        let ghost island0 = island@;
        let ghost adjacent0 = adjacent@;
        let ghost marks0 = marked(visited.values());
        let ghost visited0 = visited;
        let cur = to_visit.pop().unwrap();
        proof {
            lemma_separate_pop(island0, adjacent0, stack0);
            lemma_lists_drop_last(stack0);
            assert(pt(stack0[stack0.len() - 1]) == pt(cur));
        }
        let (x, y) = cur;
        let c = b.at(x, y);
        if c.tag == init_color.tag {
            proof {
                if island.len() == 0 {
                    par = seq![0int];
                } else {
                    let j = choose|j: int|
                        0 <= j < island.len() && touching(pt(island@[j]), #[trigger] pt(stack0[stack0.len() - 1]));
                    par = par.push(j);
                }
                lemma_lists_push(island@, cur);
            }
            island.push(cur);
            proof {
                let c2 = island@.map_values(|q: (u8, u8)| pt(q));
                let c1 = island0.map_values(|q: (u8, u8)| pt(q));
                assert forall|k: int| 0 <= k < c2.len() implies in_grid(side, #[trigger] c2[k])
                    && tag_at(side, tags, c2[k]) == tag_at(side, tags, start) by {
                    if k < island0.len() {
                        assert(c2[k] == c1[k]);
                    }
                }
                assert forall|k: int| 0 < k < c2.len() implies 0 <= #[trigger] par[k] < k
                    && touching(c2[par[k]], c2[k]) by {
                    if k < island0.len() {
                        assert(c2[k] == c1[k]);
                        assert(c2[par[k]] == c1[par[k]]);
                    }
                }
                assert(is_chain(side, tags, start, c2, par));
            }
            let ghost visited1 = visited;
            proof {
                assert forall|k: int| 0 <= k < to_visit@.len() implies in_grid(side, #[trigger] pt(to_visit@[k]))
                    && (island@.len() > 0 ==> exists|j: int|
                    0 <= j < island@.len() && touching(pt(island@[j]), pt(to_visit@[k]))) by {
                    assert(to_visit@[k] == stack0[k]);
                    assert(in_grid(side, pt(stack0[k])));
                    if island0.len() > 0 {
                        let j = choose|j: int| 0 <= j < island0.len() && touching(pt(island0[j]), pt(stack0[k]));
                        assert(island@[j] == island0[j]);
                    }
                }
                assert(island@.last() == cur);
                assert forall|k: int| 0 <= k < adjacent.len() implies in_grid(side, #[trigger] pt(adjacent@[k])) && tag_at(
                    side,
                    tags,
                    pt(adjacent@[k]),
                ) != init_color.tag && exists|j: int|
                    0 <= j < island.len() && touching(pt(island@[j]), pt(adjacent@[k])) by {
                    let j = choose|j: int| 0 <= j < island0.len() && touching(pt(island0[j]), pt(adjacent@[k]));
                    assert(island@[j] == island0[j]);
                }
            }
            if x > 0 {
                push_unvisited(&mut visited, &mut to_visit, x - 1, y, Ghost(island@), Ghost(adjacent@));
            }
            if x < size - 1 {
                push_unvisited(&mut visited, &mut to_visit, x + 1, y, Ghost(island@), Ghost(adjacent@));
            }
            if y > 0 {
                push_unvisited(&mut visited, &mut to_visit, x, y - 1, Ghost(island@), Ghost(adjacent@));
            }
            if y < size - 1 {
                push_unvisited(&mut visited, &mut to_visit, x, y + 1, Ghost(island@), Ghost(adjacent@));
            }
            proof {
                assert forall|j: int, p: (int, int)|
                    0 <= j < island.len() && in_grid(side, p) && touching(#[trigger] pt(island@[j]), p)
                        implies #[trigger] visited.value_at(p.0, p.1) by {
                    if j < island0.len() {
                        assert(island@[j] == island0[j]);
                        assert(visited1.value_at(p.0, p.1));
                    }
                }
            }
        } else {
            proof {
                lemma_lists_push(adjacent@, cur);
                if island.len() == 0 {
                    assert(pt(stack0[stack0.len() - 1]) == start);
                }
            }
            adjacent.push(cur);
            proof {
                assert forall|k: int| 0 <= k < adjacent.len() implies in_grid(side, #[trigger] pt(adjacent@[k])) && tag_at(
                    side,
                    tags,
                    pt(adjacent@[k]),
                ) != init_color.tag && exists|j: int|
                    0 <= j < island.len() && touching(pt(island@[j]), pt(adjacent@[k])) by {
                    if k < adjacent0.len() {
                        assert(adjacent@[k] == adjacent0[k]);
                    } else {
                        assert(pt(stack0[stack0.len() - 1]) == pt(adjacent@[k]));
                    }
                }
                assert forall|k: int| 0 <= k < to_visit@.len() implies in_grid(side, #[trigger] pt(to_visit@[k]))
                    && (island@.len() > 0 ==> exists|j: int|
                    0 <= j < island@.len() && touching(pt(island@[j]), pt(to_visit@[k]))) by {
                    assert(to_visit@[k] == stack0[k]);
                }
            }
        }
        proof {
            lemma_marked_bounded(visited.values());
        }
    }
    proof {
        lemma_island_lists(b, pos, island@, adjacent@, par, visited);
    }
    (island, adjacent)
}

/// Row-major indices of the cells that have a node.
pub open spec fn named(v: Seq<Option<u8>>) -> Set<int> {
    Set::new(|i: int| 0 <= i < v.len() && v[i].is_some())
}

proof fn lemma_nodes_bounded(v: Seq<Option<u8>>, i: int)
    ensures
        named(v).finite(),
        named(v).len() <= v.len(),
        0 <= i < v.len() && v[i].is_none() ==> named(v).len() < v.len(),
{
    lemma_int_range(0, v.len() as int);
    lemma_len_subset(named(v), set_int_range(0, v.len() as int));
    if 0 <= i < v.len() && v[i].is_none() {
        lemma_len_subset(named(v).insert(i), set_int_range(0, v.len() as int));
    }
}

/// A cell is in its own island.
pub proof fn lemma_self_in_island(side: int, tags: Seq<u8>, p: (int, int))
    requires
        in_grid(side, p),
    ensures
        in_island(side, tags, p, p),
{
    let c = seq![p];
    let par = seq![0int];
    assert(is_chain(side, tags, p, c, par));
    assert(c.contains(p)) by {
        assert(c[0] == p);
    }
}

/// Every node has a color of the game.
pub open spec fn valid_colors(nodes: Seq<Node>) -> bool {
    forall|i: int| 0 <= i < nodes.len() ==> (#[trigger] nodes[i]).color.is_valid()
}

/// Edges lead to existing nodes, and each edge is recorded at both ends.
pub open spec fn symmetric(nodes: Seq<Node>) -> bool {
    forall|i: int, j: int|
        0 <= i < nodes.len() && #[trigger] nodes[i].adjacent@.contains(j) ==> 0 <= j < nodes.len()
            && nodes[j].adjacent@.contains(i)
}

/// Records an edge between nodes `a` and `b`.
fn add_edge(g: &mut Graph, a: u8, b: u8)
    requires
        a < old(g).nodes.len(),
        b < old(g).nodes.len(),
    ensures
        final(g).nodes.len() == old(g).nodes.len(),
        final(g).cells == old(g).cells,
        forall|i: int|
            0 <= i < old(g).nodes.len() ==> (#[trigger] final(g).nodes@[i]).color == old(g).nodes@[i].color
                && final(g).nodes@[i].adjacent@ == old(g).nodes@[i].adjacent@.union(
                if i == a {
                    set![b as int]
                } else {
                    Set::empty()
                },
            ).union(
                if i == b {
                    set![a as int]
                } else {
                    Set::empty()
                },
            ),
{
    let mut na = g.nodes[a as usize];
    na.adjacent.insert(b);
    g.nodes.set(a as usize, na);
    let mut nb = g.nodes[b as usize];
    nb.adjacent.insert(a);
    g.nodes.set(b as usize, nb);
    assert forall|i: int| 0 <= i < old(g).nodes.len() implies (#[trigger] g.nodes@[i]).adjacent@ == old(g).nodes@[i].adjacent@.union(
        if i == a {
            set![b as int]
        } else {
            Set::empty()
        },
    ).union(
        if i == b {
            set![a as int]
        } else {
            Set::empty()
        },
    ) by {
        assert(g.nodes@[i].adjacent@ =~= old(g).nodes@[i].adjacent@.union(
            if i == a {
                set![b as int]
            } else {
                Set::empty()
            },
        ).union(
            if i == b {
                set![a as int]
            } else {
                Set::empty()
            },
        ));
    }
}

/// One island of a board: its color and the ids of the islands it touches.
#[derive(Clone, Copy)]
pub struct Node {
    pub adjacent: InlineBitSet,
    pub color: Color,
}

/// The islands of a board, node 0 being the island of the top-left cell.
#[derive(Clone)]
pub struct Graph {
    pub nodes: Vec<Node>,
    /// For each cell, in row-major order, the id of the node of its island.
    pub cells: Ghost<Seq<Option<u8>>>,
}

/// Largest number of nodes a graph can have: node ids fit in a byte.
pub const MAX_NODES: usize = 256;

impl Graph {
    /// At least one and at most 256 nodes, each of a valid color, with
    /// symmetric adjacency between existing nodes.
    pub open spec fn wf(&self) -> bool {
        &&& 1 <= self.nodes.len() <= MAX_NODES
        &&& valid_colors(self.nodes@)
        &&& symmetric(self.nodes@)
    }

    /// Number of nodes.
    pub fn len(&self) -> (r: usize)
        ensures
            r == self.nodes.len(),
    {
        self.nodes.len()
    }
}

/// The node id recorded for cell `p`, or -1 when it has none.
pub open spec fn idn(side: int, m: Seq<Option<u8>>, p: (int, int)) -> int {
    match m[cell_index(side, p.0, p.1)] {
        Some(k) => k as int,
        None => -1,
    }
}

/// Node `k` stands for the island of cell `rep[k]` and has its color; a cell
/// has an id exactly when it lies in the island of a node, and then it is
/// that node's id; nodes whose cells touch are joined by an edge, and every
/// edge joins two distinct nodes with touching cells.
pub open spec fn consistent(
    side: int,
    tags: Seq<u8>,
    nodes: Seq<Node>,
    m: Seq<Option<u8>>,
    rep: Seq<(int, int)>,
) -> bool {
    &&& rep.len() == nodes.len()
    &&& m.len() == side * side
    &&& forall|k: int|
        0 <= k < nodes.len() ==> in_grid(side, #[trigger] rep[k]) && nodes[k].color.tag == tag_at(
            side,
            tags,
            rep[k],
        )
    &&& forall|p: (int, int)|
        in_grid(side, p) && #[trigger] idn(side, m, p) >= 0 ==> idn(side, m, p) < nodes.len()
            && in_island(side, tags, rep[idn(side, m, p)], p)
    &&& forall|p: (int, int), k: int|
        in_grid(side, p) && 0 <= k < nodes.len() && #[trigger] in_island(side, tags, rep[k], p) ==> idn(
            side,
            m,
            p,
        ) == k
    &&& forall|p: (int, int), q: (int, int)|
        #![trigger idn(side, m, p), idn(side, m, q)]
        in_grid(side, p) && in_grid(side, q) && touching(p, q) && idn(side, m, p) >= 0 && idn(side, m, q)
            >= 0 && idn(side, m, p) != idn(side, m, q) ==> nodes[idn(side, m, p)].adjacent@.contains(
            idn(side, m, q),
        )
    &&& forall|a: int, b: int|
        0 <= a < nodes.len() && #[trigger] nodes[a].adjacent@.contains(b) ==> a != b && exists|
            p: (int, int),
            q: (int, int),
        |
            #![trigger idn(side, m, p), idn(side, m, q)]
            in_grid(side, p) && in_grid(side, q) && touching(p, q) && idn(side, m, p) == a && idn(
                side,
                m,
                q,
            ) == b
}

/// A consistent graph is well formed in its colors and edges.
proof fn lemma_consistent_wf(
    side: int,
    tags: Seq<u8>,
    nodes: Seq<Node>,
    m: Seq<Option<u8>>,
    rep: Seq<(int, int)>,
)
    requires
        consistent(side, tags, nodes, m, rep),
        1 <= side,
        tags.len() == side * side,
        forall|i: int| 0 <= i < tags.len() ==> #[trigger] tags[i] < 6,
    ensures
        valid_colors(nodes),
        symmetric(nodes),
{
    assert forall|k: int| 0 <= k < nodes.len() implies (#[trigger] nodes[k]).color.is_valid() by {
        lemma_cell_index(side, rep[k].0, rep[k].1);
    }
    assert forall|a: int, b: int|
        0 <= a < nodes.len() && #[trigger] nodes[a].adjacent@.contains(b) implies 0 <= b < nodes.len()
            && nodes[b].adjacent@.contains(a) by {
        let (p, q) = choose|p: (int, int), q: (int, int)|
            #![trigger idn(side, m, p), idn(side, m, q)]
            in_grid(side, p) && in_grid(side, q) && touching(p, q) && idn(side, m, p) == a && idn(
                side,
                m,
                q,
            ) == b;
        nodes[a].adjacent.lemma_bounded();
        assert(idn(side, m, q) >= 0);
        assert(idn(side, m, q) < nodes.len());
        assert(touching(q, p));
    }
}

/// Adds the node for the island of the unnamed cell `(x, y)`, names the
/// island's cells with it, and joins it to the named islands it touches.
fn add_island(
    b: &Board,
    g: &mut Graph,
    map: &mut CellMap<Option<u8>>,
    x: u8,
    y: u8,
    Ghost(rep): Ghost<Seq<(int, int)>>,
)
    requires
        b.wf(),
        old(map).wf(),
        old(map).side() == b.side(),
        x < b.side(),
        y < b.side(),
        old(g).nodes.len() < MAX_NODES,
        idn(b.side(), old(map).values(), (x as int, y as int)) < 0,
        consistent(b.side(), b.tags(), old(g).nodes@, old(map).values(), rep),
        named(old(map).values()).finite(),
    ensures
        final(map).wf(),
        final(map).side() == b.side(),
        final(g).nodes.len() == old(g).nodes.len() + 1,
        consistent(b.side(), b.tags(), final(g).nodes@, final(map).values(), rep.push((x as int, y as int))),
        forall|p: (int, int)|
            in_grid(b.side(), p) && idn(b.side(), old(map).values(), p) >= 0 ==> #[trigger] idn(
                b.side(),
                final(map).values(),
                p,
            ) == idn(b.side(), old(map).values(), p),
        idn(b.side(), final(map).values(), (x as int, y as int)) >= 0,
        named(final(map).values()).finite(),
        named(old(map).values()).insert(cell_index(b.side(), x as int, y as int)).subset_of(
            named(final(map).values()),
        ),
        !named(old(map).values()).contains(cell_index(b.side(), x as int, y as int)),
{
    let ghost side = b.side();
    let ghost tags = b.tags();
    let ghost start = (x as int, y as int);
    let ghost rep2 = rep.push(start);
    let ghost m0 = map.values();
    let ghost nodes0 = g.nodes@;
    let (island, adjacent) = get_island(b, (x, y));
    proof {
        assert(pt((x, y)) == start);
        lemma_cell_index(side, x as int, y as int);
        lemma_self_in_island(side, tags, start);
        assert forall|p: (int, int)| in_grid(side, p) && #[trigger] in_island(side, tags, start, p) implies idn(
            side,
            m0,
            p,
        ) < 0 by {
            if idn(side, m0, p) >= 0 {
                let k = idn(side, m0, p);
                lemma_island_symmetric(side, tags, start, p);
                lemma_island_transitive(side, tags, rep[k], p, start);
                assert(idn(side, m0, start) == k);
            }
        }
    }
    let new_id = g.nodes.len() as u8;
    let color = b.at(x, y);
    g.nodes.push(Node { adjacent: InlineBitSet::empty(), color: color });
    let mut k: usize = 0;
    while k < island.len()
        invariant
            b.wf(),
            side == b.side(),
            tags == b.tags(),
            map.wf(),
            map.side() == side,
            k <= island.len(),
            forall|j: int| 0 <= j < island.len() ==> in_island(side, tags, start, #[trigger] pt(island@[j])),
            forall|p: (int, int)| #[trigger] in_island(side, tags, start, p) ==> lists(island@, p),
            forall|p: (int, int)|
                in_grid(side, p) ==> #[trigger] idn(side, map.values(), p) == if lists(island@.take(k as int), p) {
                    new_id as int
                } else {
                    idn(side, m0, p)
                },
        decreases island.len() - k,
    {
        let (ix, iy) = island[k];
        proof {
            lemma_island_cell(side, tags, start, pt(island@[k as int]));
            lemma_cell_index(side, ix as int, iy as int);
            lemma_lists_push(island@.take(k as int), island@[k as int]);
            assert(island@.take(k + 1) =~= island@.take(k as int).push(island@[k as int]));
        }
        let ghost before = map.values();
        map.set(ix, iy, Some(new_id));
        proof {
            assert forall|p: (int, int)| in_grid(side, p) implies #[trigger] idn(side, map.values(), p) == if lists(
                island@.take(k + 1),
                p,
            ) {
                new_id as int
            } else {
                idn(side, m0, p)
            } by {
                lemma_cell_index(side, p.0, p.1);
                assert(idn(side, before, p) == if lists(island@.take(k as int), p) {
                    new_id as int
                } else {
                    idn(side, m0, p)
                });
                assert(lists(island@.take(k + 1), p) == (lists(island@.take(k as int), p) || pt(island@[k as int]) == p));
            }
        }
        k = k + 1;
    }
    let ghost m1 = map.values();
    let ghost nodes1 = g.nodes@;
    proof {
        assert(island@.take(island.len() as int) =~= island@);
        assert forall|p: (int, int)| in_grid(side, p) implies #[trigger] idn(side, m1, p) == if in_island(
            side,
            tags,
            start,
            p,
        ) {
            new_id as int
        } else {
            idn(side, m0, p)
        } by {
            if lists(island@, p) {
                let j = choose|j: int| 0 <= j < island.len() && #[trigger] pt(island@[j]) == p;
                assert(in_island(side, tags, start, pt(island@[j])));
            }
        }
    }
    k = 0;
    while k < adjacent.len()
        invariant
            b.wf(),
            side == b.side(),
            tags == b.tags(),
            map.wf(),
            map.side() == side,
            map.values() == m1,
            consistent(side, tags, nodes0, m0, rep),
            nodes1.len() == nodes0.len() + 1,
            forall|p: (int, int)|
                in_grid(side, p) ==> #[trigger] idn(side, m1, p) == if in_island(side, tags, start, p) {
                    new_id as int
                } else {
                    idn(side, m0, p)
                },
            g.nodes.len() == nodes1.len(),
            new_id as int == nodes1.len() - 1,
            k <= adjacent.len(),
            forall|j: int| 0 <= j < adjacent.len() ==> on_border(side, tags, start, #[trigger] pt(adjacent@[j])),
            forall|i: int|
                0 <= i < nodes1.len() ==> (#[trigger] g.nodes@[i]).color == nodes1[i].color,
            forall|i: int, j: int|
                0 <= i < nodes1.len() ==> (#[trigger] g.nodes@[i].adjacent@.contains(j) <==> (
                nodes1[i].adjacent@.contains(j) || (i == new_id && exists|l: int|
                    0 <= l < k && idn(side, m1, #[trigger] pt(adjacent@[l])) == j && j >= 0) || (j
                    == new_id && exists|l: int|
                    0 <= l < k && idn(side, m1, #[trigger] pt(adjacent@[l])) == i))),
        decreases adjacent.len() - k,
    {
        let (ax, ay) = adjacent[k];
        assert(on_border(side, tags, start, pt(adjacent@[k as int])));
        proof {
            lemma_cell_index(side, ax as int, ay as int);
        }
        let ghost before = g.nodes@;
        let id = *map.get(ax, ay);
        match id {
            Some(id) => {
                proof {
                    assert(idn(side, m1, pt(adjacent@[k as int])) == id);
                    assert(id < nodes1.len() - 1) by {
                        let q = pt(adjacent@[k as int]);
                        assert(!in_island(side, tags, start, q));
                        assert(idn(side, m1, q) == idn(side, m0, q));
                    }
                }
                add_edge(g, id, new_id);
            },
            None => {},
        }
        proof {
            assert forall|i: int, j: int|
                0 <= i < nodes1.len() implies (#[trigger] g.nodes@[i].adjacent@.contains(j) <==> (
                nodes1[i].adjacent@.contains(j) || (i == new_id && exists|l: int|
                    0 <= l < k + 1 && idn(side, m1, #[trigger] pt(adjacent@[l])) == j && j >= 0) || (j
                    == new_id && exists|l: int|
                    0 <= l < k + 1 && idn(side, m1, #[trigger] pt(adjacent@[l])) == i))) by {
                if i == new_id && idn(side, m1, pt(adjacent@[k as int])) == j && j >= 0 {
                    assert(g.nodes@[i].adjacent@.contains(j));
                }
                if j == new_id && idn(side, m1, pt(adjacent@[k as int])) == i {
                    assert(g.nodes@[i].adjacent@.contains(j));
                }
                if g.nodes@[i].adjacent@.contains(j) && !before[i].adjacent@.contains(j) {
                    assert(idn(side, m1, pt(adjacent@[k as int])) >= 0);
                }
            }
        }
        k = k + 1;
    }
    proof {
        lemma_add_island_consistent(b, g.nodes@, nodes0, nodes1, m0, m1, rep, start, adjacent@);
        lemma_nodes_bounded(m1, 0);
        let c = cell_index(side, x as int, y as int);
        assert(idn(side, m1, start) >= 0);
        assert(named(m0).insert(c).subset_of(named(m1))) by {
            assert forall|i: int| named(m0).insert(c).contains(i) implies named(m1).contains(i) by {
                if i != c {
                    lemma_cell_of(side, i);
                    let p = cell_of(side, i);
                    assert(idn(side, m0, p) >= 0);
                    assert(idn(side, m1, p) >= 0);
                }
            }
        }
    }
}

/// The state after `add_island` is consistent again.
proof fn lemma_add_island_consistent(
    b: &Board,
    nodes: Seq<Node>,
    nodes0: Seq<Node>,
    nodes1: Seq<Node>,
    m0: Seq<Option<u8>>,
    m1: Seq<Option<u8>>,
    rep: Seq<(int, int)>,
    start: (int, int),
    adjacent: Seq<(u8, u8)>,
)
    requires
        b.wf(),
        in_grid(b.side(), start),
        consistent(b.side(), b.tags(), nodes0, m0, rep),
        nodes1.len() == nodes0.len() + 1,
        forall|i: int| 0 <= i < nodes0.len() ==> #[trigger] nodes1[i] == nodes0[i],
        nodes1.last().adjacent@ == Set::<int>::empty(),
        nodes1.last().color.tag == b.tag_of(start),
        m1.len() == m0.len(),
        forall|p: (int, int)|
            in_grid(b.side(), p) ==> #[trigger] idn(b.side(), m1, p) == if in_island(b.side(), b.tags(), start, p) {
                nodes0.len() as int
            } else {
                idn(b.side(), m0, p)
            },
        forall|p: (int, int)| in_grid(b.side(), p) && #[trigger] in_island(b.side(), b.tags(), start, p) ==> idn(b.side(), m0, p) < 0,
        forall|p: (int, int)| #[trigger] on_border(b.side(), b.tags(), start, p) ==> lists(adjacent, p),
        forall|j: int| 0 <= j < adjacent.len() ==> on_border(b.side(), b.tags(), start, #[trigger] pt(adjacent[j])),
        nodes.len() == nodes1.len(),
        forall|i: int| 0 <= i < nodes1.len() ==> (#[trigger] nodes[i]).color == nodes1[i].color,
        forall|i: int, j: int|
            0 <= i < nodes1.len() ==> (#[trigger] nodes[i].adjacent@.contains(j) <==> (
            nodes1[i].adjacent@.contains(j) || (i == nodes0.len() && exists|l: int|
                0 <= l < adjacent.len() && idn(b.side(), m1, #[trigger] pt(adjacent[l])) == j && j >= 0) || (j
                == nodes0.len() && exists|l: int|
                0 <= l < adjacent.len() && idn(b.side(), m1, #[trigger] pt(adjacent[l])) == i))),
    ensures
        consistent(b.side(), b.tags(), nodes, m1, rep.push(start)),
{
    let side = b.side();
    let tags = b.tags();
    let rep2 = rep.push(start);
    let nid = nodes0.len() as int;
    lemma_self_in_island(side, tags, start);
    assert forall|k: int| 0 <= k < nodes.len() implies in_grid(side, #[trigger] rep2[k]) && nodes[k].color.tag == tag_at(
        side,
        tags,
        rep2[k],
    ) by {
        if k < nid {
            assert(nodes[k].color == nodes0[k].color);
        }
    }
    assert forall|p: (int, int)|
        in_grid(side, p) && #[trigger] idn(side, m1, p) >= 0 implies idn(side, m1, p) < nodes.len()
            && in_island(side, tags, rep2[idn(side, m1, p)], p) by {
    }
    assert forall|p: (int, int), k: int|
        in_grid(side, p) && 0 <= k < nodes.len() && #[trigger] in_island(side, tags, rep2[k], p) implies idn(
            side,
            m1,
            p,
        ) == k by {
        if k < nid {
            assert(idn(side, m0, p) == k);
            assert(!in_island(side, tags, start, p));
        }
    }
    assert forall|p: (int, int), q: (int, int)|
        #![trigger idn(side, m1, p), idn(side, m1, q)]
        in_grid(side, p) && in_grid(side, q) && touching(p, q) && idn(side, m1, p) >= 0 && idn(side, m1, q)
            >= 0 && idn(side, m1, p) != idn(side, m1, q) implies nodes[idn(side, m1, p)].adjacent@.contains(
            idn(side, m1, q),
        ) by {
        let a = idn(side, m1, p);
        let c = idn(side, m1, q);
        if a == nid {
            assert(in_island(side, tags, start, p));
            assert(!in_island(side, tags, start, q));
            assert(on_border(side, tags, start, q));
            let l = choose|l: int| 0 <= l < adjacent.len() && #[trigger] pt(adjacent[l]) == q;
            assert(idn(side, m1, pt(adjacent[l])) == c);
        } else if c == nid {
            assert(in_island(side, tags, start, q));
            assert(!in_island(side, tags, start, p));
            assert(touching(q, p));
            assert(on_border(side, tags, start, p));
            let l = choose|l: int| 0 <= l < adjacent.len() && #[trigger] pt(adjacent[l]) == p;
            assert(idn(side, m1, pt(adjacent[l])) == a);
        } else {
            assert(idn(side, m0, p) == a);
            assert(idn(side, m0, q) == c);
            assert(nodes0[a].adjacent@.contains(c));
            assert(nodes1[a] == nodes0[a]);
        }
    }
    assert forall|a: int, c: int|
        0 <= a < nodes.len() && #[trigger] nodes[a].adjacent@.contains(c) implies a != c && exists|
            p: (int, int),
            q: (int, int),
        |
            #![trigger idn(side, m1, p), idn(side, m1, q)]
            in_grid(side, p) && in_grid(side, q) && touching(p, q) && idn(side, m1, p) == a && idn(
                side,
                m1,
                q,
            ) == c by {
        if nodes1[a].adjacent@.contains(c) {
            if a < nid {
                assert(nodes1[a] == nodes0[a]);
                assert(nodes0[a].adjacent@.contains(c));
                let (p, q) = choose|p: (int, int), q: (int, int)|
                    #![trigger idn(side, m0, p), idn(side, m0, q)]
                    in_grid(side, p) && in_grid(side, q) && touching(p, q) && idn(side, m0, p) == a && idn(
                        side,
                        m0,
                        q,
                    ) == c;
                nodes0[a].adjacent.lemma_bounded();
                if in_island(side, tags, start, p) {
                    assert(idn(side, m0, p) < 0);
                }
                if in_island(side, tags, start, q) {
                    assert(idn(side, m0, q) < 0);
                }
                assert(idn(side, m1, p) == a);
                assert(idn(side, m1, q) == c);
            }
        } else if a == nid && exists|l: int| 0 <= l < adjacent.len() && idn(side, m1, #[trigger] pt(adjacent[l])) == c && c >= 0 {
            let l = choose|l: int| 0 <= l < adjacent.len() && idn(side, m1, #[trigger] pt(adjacent[l])) == c && c >= 0;
            let q = pt(adjacent[l]);
            assert(on_border(side, tags, start, q));
            let p = choose|p: (int, int)| #[trigger] in_island(side, tags, start, p) && touching(p, q);
            lemma_island_cell(side, tags, start, p);
            assert(idn(side, m1, p) == a);
            assert(!in_island(side, tags, start, q));
        } else {
            let l = choose|l: int| 0 <= l < adjacent.len() && idn(side, m1, #[trigger] pt(adjacent[l])) == a;
            let q = pt(adjacent[l]);
            assert(on_border(side, tags, start, q));
            let p = choose|p: (int, int)| #[trigger] in_island(side, tags, start, p) && touching(p, q);
            lemma_island_cell(side, tags, start, p);
            assert(idn(side, m1, p) == c);
            assert(!in_island(side, tags, start, q));
            assert(touching(q, p));
        }
    }
}

/// What a graph says about the board with side `side` and tags `tags`: each
/// cell carries the id of a node; two cells carry the same id exactly when
/// they are in one island; a node has the color of its cells; node 0 is the
/// island of the top-left cell; nodes are joined exactly when cells of them
/// touch; and every node has a cell.
pub open spec fn represents(g: Graph, side: int, tags: Seq<u8>) -> bool {
    let m = g.cells@;
    &&& m.len() == side * side
    &&& forall|p: (int, int)| in_grid(side, p) ==> 0 <= #[trigger] idn(side, m, p) < g.nodes.len()
    &&& forall|p: (int, int), q: (int, int)|
        #![trigger idn(side, m, p), idn(side, m, q)]
        in_grid(side, p) && in_grid(side, q) ==> (idn(side, m, p) == idn(side, m, q) <==> in_island(
            side,
            tags,
            p,
            q,
        ))
    &&& forall|p: (int, int)|
        in_grid(side, p) ==> g.nodes@[#[trigger] idn(side, m, p)].color.tag == tag_at(side, tags, p)
    &&& idn(side, m, (0, 0)) == 0
    &&& forall|p: (int, int), q: (int, int)|
        #![trigger idn(side, m, p), idn(side, m, q)]
        in_grid(side, p) && in_grid(side, q) && touching(p, q) && idn(side, m, p) != idn(side, m, q)
            ==> g.nodes@[idn(side, m, p)].adjacent@.contains(idn(side, m, q))
    &&& forall|a: int, b: int|
        0 <= a < g.nodes.len() && #[trigger] g.nodes@[a].adjacent@.contains(b) ==> a != b && exists|
            p: (int, int),
            q: (int, int),
        |
            #![trigger idn(side, m, p), idn(side, m, q)]
            in_grid(side, p) && in_grid(side, q) && touching(p, q) && idn(side, m, p) == a && idn(
                side,
                m,
                q,
            ) == b
    &&& forall|k: int| 0 <= k < g.nodes.len() ==> #[trigger] has_cell(side, m, k)
}

/// Whether some cell carries node id `k`.
pub open spec fn has_cell(side: int, m: Seq<Option<u8>>, k: int) -> bool {
    exists|p: (int, int)| in_grid(side, p) && #[trigger] idn(side, m, p) == k
}

/// Cells of the board that lie in pairwise different islands.
pub open spec fn distinct_islands(side: int, tags: Seq<u8>, reps: Seq<(int, int)>) -> bool {
    &&& forall|i: int| 0 <= i < reps.len() ==> in_grid(side, #[trigger] reps[i])
    &&& forall|i: int, j: int|
        0 <= i < reps.len() && 0 <= j < reps.len() && i != j ==> !in_island(side, tags, #[trigger] reps[i], #[trigger] reps[j])
}

/// Builds the graph of the islands of `b`: one node per island, with its
/// color, and an edge between each two islands that touch. Gives `None` when
/// the board has more than 256 islands.
pub fn generate_graph(b: &Board) -> (r: Option<Graph>)
    requires
        b.wf(),
    ensures
        r matches Some(g) ==> g.wf() && represents(g, b.side(), b.tags()),
        r is None ==> exists|reps: Seq<(int, int)>|
            reps.len() == MAX_NODES + 1 && #[trigger] distinct_islands(b.side(), b.tags(), reps),
        b.side() * b.side() <= MAX_NODES ==> r.is_some(),
{
    let size = b.size();
    let ghost side = b.side();
    let ghost tags = b.tags();
    let mut map: CellMap<Option<u8>> = CellMap::new(size, None);
    proof {
        assert forall|i: int| 0 <= i < map.values().len() implies map.values()[i].is_none() by {
            assert(cloned(None::<u8>, map.values()[i]));
        }
        lemma_nodes_bounded(map.values(), 0);
        assert(named(map.values()) =~= Set::<int>::empty());
        assert forall|p: (int, int)| in_grid(side, p) implies #[trigger] idn(side, map.values(), p) < 0 by {
            lemma_cell_index(side, p.0, p.1);
        }
    }
    let mut g = Graph { nodes: Vec::new(), cells: Ghost(map.values()) };
    let ghost mut rep: Seq<(int, int)> = Seq::empty();
    let mut x: u8 = 0;
    while x < size
        invariant
            b.wf(),
            side == b.side(),
            tags == b.tags(),
            size == side,
            map.wf(),
            map.side() == side,
            x <= size,
            consistent(side, tags, g.nodes@, map.values(), rep),
            g.nodes.len() <= named(map.values()).len(),
            named(map.values()).finite(),
            g.nodes.len() <= MAX_NODES,
            g.nodes.len() >= 1 ==> rep[0] == (0int, 0int),
            forall|p: (int, int)| in_grid(side, p) && p.0 < x ==> #[trigger] idn(side, map.values(), p) >= 0,
        decreases size - x,
    {
        let mut y: u8 = 0;
        while y < size
            invariant
                b.wf(),
                side == b.side(),
                tags == b.tags(),
                size == side,
                map.wf(),
                map.side() == side,
                x < size,
                y <= size,
                consistent(side, tags, g.nodes@, map.values(), rep),
                g.nodes.len() <= named(map.values()).len(),
                named(map.values()).finite(),
                g.nodes.len() <= MAX_NODES,
                g.nodes.len() >= 1 ==> rep[0] == (0int, 0int),
                forall|p: (int, int)|
                    in_grid(side, p) && (p.0 < x || (p.0 == x && p.1 < y)) ==> #[trigger] idn(side, map.values(), p) >= 0,
            decreases size - y,
        {
            proof {
                lemma_cell_index(side, x as int, y as int);
            }
            if map.get(x, y).is_none() {
                proof {
                    assert(idn(side, map.values(), (x as int, y as int)) < 0);
                    if g.nodes.len() == 0 {
                        assert forall|p: (int, int)| in_grid(side, p) && (p.0 < x || (p.0 == x && p.1 < y)) implies false by {
                            assert(idn(side, map.values(), p) >= 0);
                        }
                        assert(x == 0 && y == 0) by {
                            if x > 0 {
                                assert(in_grid(side, (0int, 0int)));
                            } else if y > 0 {
                                assert(in_grid(side, (0int, 0int)));
                            }
                        }
                    }
                }
                if g.nodes.len() == MAX_NODES {
                    proof {
                        lemma_nodes_bounded(map.values(), cell_index(side, x as int, y as int));
                        let reps = rep.push((x as int, y as int));
                        let m = map.values();
                        assert forall|i: int, j: int|
                            0 <= i < reps.len() && 0 <= j < reps.len() && i != j implies !in_island(
                                side,
                                tags,
                                #[trigger] reps[i],
                                #[trigger] reps[j],
                            ) by {
                            if in_island(side, tags, reps[i], reps[j]) {
                                if j < rep.len() {
                                    lemma_self_in_island(side, tags, rep[j]);
                                    assert(idn(side, m, rep[j]) == j);
                                    if i < rep.len() {
                                        assert(idn(side, m, rep[j]) == i);
                                    } else {
                                        lemma_island_symmetric(side, tags, reps[i], reps[j]);
                                        assert(idn(side, m, (x as int, y as int)) == j);
                                    }
                                } else {
                                    assert(reps[j] == (x as int, y as int));
                                    assert(idn(side, m, (x as int, y as int)) == i);
                                }
                            }
                        }
                        assert(distinct_islands(side, tags, reps));
                    }
                    return None;
                }
                let ghost named0 = named(map.values());
                let ghost m0 = map.values();
                let ghost len0 = g.nodes.len();
                add_island(b, &mut g, &mut map, x, y, Ghost(rep));
                proof {
                    rep = rep.push((x as int, y as int));
                    let c = cell_index(side, x as int, y as int);
                    lemma_len_subset(named0.insert(c), named(map.values()));
                    assert forall|p: (int, int)|
                        in_grid(side, p) && (p.0 < x || (p.0 == x && p.1 < y + 1)) implies #[trigger] idn(side, map.values(), p) >= 0 by {
                        if p != (x as int, y as int) {
                            assert(idn(side, m0, p) >= 0);
                        }
                    }
                }
            }
            y = y + 1;
        }
        x = x + 1;
    }
    let ghost m = map.values();
    let g = Graph { nodes: g.nodes, cells: Ghost(m) };
    proof {
        assert(in_grid(side, (0int, 0int)));
        assert(idn(side, m, (0int, 0int)) >= 0);
        lemma_square_bound(side);
        lemma_consistent_wf(side, tags, g.nodes@, m, rep);
        lemma_represents(side, tags, g, rep);
    }
    Some(g)
}

/// A consistent graph in which every cell has an id represents the board.
proof fn lemma_represents(side: int, tags: Seq<u8>, g: Graph, rep: Seq<(int, int)>)
    requires
        1 <= side,
        tags.len() == side * side,
        g.nodes.len() >= 1,
        rep[0] == (0int, 0int),
        consistent(side, tags, g.nodes@, g.cells@, rep),
        forall|p: (int, int)| in_grid(side, p) ==> #[trigger] idn(side, g.cells@, p) >= 0,
    ensures
        represents(g, side, tags),
{
    let m = g.cells@;
    assert forall|p: (int, int), q: (int, int)|
        #![trigger idn(side, m, p), idn(side, m, q)]
        in_grid(side, p) && in_grid(side, q) implies (idn(side, m, p) == idn(side, m, q) <==> in_island(
            side,
            tags,
            p,
            q,
        )) by {
        let a = idn(side, m, p);
        let c = idn(side, m, q);
        assert(in_island(side, tags, rep[a], p));
        assert(in_island(side, tags, rep[c], q));
        if a == c {
            lemma_island_symmetric(side, tags, rep[a], p);
            lemma_island_transitive(side, tags, p, rep[a], q);
        }
        if in_island(side, tags, p, q) {
            lemma_island_transitive(side, tags, rep[a], p, q);
        }
    }
    assert forall|p: (int, int)| in_grid(side, p) implies g.nodes@[#[trigger] idn(side, m, p)].color.tag == tag_at(
        side,
        tags,
        p,
    ) by {
        let a = idn(side, m, p);
        lemma_island_cell(side, tags, rep[a], p);
    }
    lemma_self_in_island(side, tags, (0, 0));
    assert(in_island(side, tags, rep[0], (0int, 0int)));
    assert forall|k: int| 0 <= k < g.nodes.len() implies #[trigger] has_cell(side, m, k) by {
        lemma_self_in_island(side, tags, rep[k]);
        assert(idn(side, m, rep[k]) == k);
    }
}

/// The graph of a board of one color has a single node and no edges.
pub proof fn lemma_uniform_graph(g: Graph, side: int, tags: Seq<u8>)
    requires
        1 <= side,
        tags.len() == side * side,
        represents(g, side, tags),
        is_uniform(tags),
    ensures
        g.nodes.len() == 1,
        g.nodes@[0].adjacent@ == Set::<int>::empty(),
{
    let m = g.cells@;
    lemma_uniform_island(side, tags);
    assert(in_grid(side, (0int, 0int)));
    assert forall|p: (int, int)| in_grid(side, p) implies #[trigger] idn(side, m, p) == 0 by {
        assert(in_island(side, tags, (0, 0), p));
        assert(idn(side, m, (0int, 0int)) == idn(side, m, p));
    }
    if g.nodes.len() > 1 {
        assert(has_cell(side, m, 1));
        let p = choose|p: (int, int)| in_grid(side, p) && #[trigger] idn(side, m, p) == 1;
    }
    assert forall|j: int| !g.nodes@[0].adjacent@.contains(j) by {
        if g.nodes@[0].adjacent@.contains(j) {
            let (p, q) = choose|p: (int, int), q: (int, int)|
                #![trigger idn(side, m, p), idn(side, m, q)]
                in_grid(side, p) && in_grid(side, q) && touching(p, q) && idn(side, m, p) == 0 && idn(
                    side,
                    m,
                    q,
                ) == j;
        }
    }
    assert(g.nodes@[0].adjacent@ =~= Set::<int>::empty());
}

/// A graph that represents a board has at least as many nodes as the board
/// has cells in pairwise different islands.
pub proof fn lemma_distinct_islands_bounded(g: Graph, side: int, tags: Seq<u8>, reps: Seq<(int, int)>)
    requires
        represents(g, side, tags),
        distinct_islands(side, tags, reps),
    ensures
        reps.len() <= g.nodes.len(),
{
    let m = g.cells@;
    let ids = Seq::new(reps.len(), |i: int| idn(side, m, reps[i]));
    assert(ids.no_duplicates()) by {
        assert forall|i: int, j: int| 0 <= i < ids.len() && 0 <= j < ids.len() && i != j implies ids[i] != ids[j] by {
            assert(in_grid(side, reps[i]) && in_grid(side, reps[j]));
            assert(!in_island(side, tags, reps[i], reps[j]));
            assert(idn(side, m, reps[i]) == idn(side, m, reps[j]) <==> in_island(side, tags, reps[i], reps[j]));
        }
    }
    ids.unique_seq_to_set();
    assert(ids.to_set().subset_of(set_int_range(0, g.nodes.len() as int))) by {
        assert forall|x: int| ids.to_set().contains(x) implies set_int_range(0, g.nodes.len() as int).contains(x) by {
            let i = choose|i: int| 0 <= i < ids.len() && ids[i] == x;
            assert(in_grid(side, reps[i]));
            assert(0 <= idn(side, m, reps[i]) < g.nodes.len());
        }
    }
    lemma_int_range(0, g.nodes.len() as int);
    lemma_len_subset(ids.to_set(), set_int_range(0, g.nodes.len() as int));
}

} // verus!
