//! Simple strategies that play the game without searching: a random walk, a
//! greedy choice by the colors around the island, and cycling through the
//! colors. The random walk gives up after 1000 moves; the other two stop at a
//! budget of moves that they are proved never to reach.
use vstd::prelude::*;
use crate::board::{
    is_border_tag, island_indices, is_uniform, lemma_border_exists, lemma_drench_grows,
    lemma_drench_no_growth, lemma_island_indices_bounded, lemma_lists_push, lists, on_border, pt,
    random_below, recolor, replay, tag_at, Board,
};
use crate::color::{Color, NUM_COLORS};
use crate::solver::{Solution, Solver};
use crate::util::{cell_index, lemma_cell_index, lemma_square_bound};
use crate::graph::lemma_lists_contains;

verus! {

/// Moves the random walk tries before giving up.
pub const MAX_MOVES: usize = 1000;

/// Plays random colors.
pub struct Random;

/// Plays the color that most cells around the island have.
pub struct Heuristic;

/// Plays the colors in turn: 0, 1, ..., 5, 0, ...
pub struct ModCount;

/// The color that the most listed cells of `b` have; on a tie, the lowest tag.
pub fn most_common_color(b: &Board, cells: &Vec<(u8, u8)>) -> (r: Color)
    requires
        b.wf(),
        forall|k: int| 0 <= k < cells.len() ==> (#[trigger] cells@[k]).0 < b.side() && cells@[k].1 < b.side(),
    ensures
        r.is_valid(),
        forall|t: int| 0 <= t < NUM_COLORS ==> #[trigger] count_tag(b, cells@, t) <= count_tag(b, cells@, r.tag as int),
        forall|t: int| 0 <= t < r.tag ==> #[trigger] count_tag(b, cells@, t) < count_tag(b, cells@, r.tag as int),
{
    let mut counts: Vec<usize> = Vec::new();
    while counts.len() < 6
        invariant
            counts.len() <= 6,
            forall|t: int| 0 <= t < counts.len() ==> #[trigger] counts@[t] == 0,
        decreases 6 - counts.len(),
    {
        counts.push(0);
    }
    assert(cells@.take(0) =~= Seq::<(u8, u8)>::empty());
    let mut k: usize = 0;
    while k < cells.len()
        invariant
            b.wf(),
            k <= cells.len(),
            counts.len() == NUM_COLORS,
            forall|k: int| 0 <= k < cells.len() ==> (#[trigger] cells@[k]).0 < b.side() && cells@[k].1 < b.side(),
            forall|t: int| 0 <= t < NUM_COLORS ==> #[trigger] counts@[t] == count_tag(b, cells@.take(k as int), t),
            forall|t: int| 0 <= t < NUM_COLORS ==> #[trigger] counts@[t] <= k,
        decreases cells.len() - k,
    {
        let (x, y) = cells[k];
        let c = b.at(x, y);
        proof {
            assert(cells@.take(k + 1).drop_last() =~= cells@.take(k as int));
            lemma_cell_index(b.side(), x as int, y as int);
            assert(b.tags()[cell_index(b.side(), x as int, y as int)] < NUM_COLORS);
        }
        let t = c.tag as usize;
        let ghost before = counts@;
        counts.set(t, counts[t] + 1);
        proof {
            assert forall|s: int| 0 <= s < NUM_COLORS implies #[trigger] counts@[s] == count_tag(b, cells@.take(k + 1), s) by {
                assert(cells@.take(k + 1).last() == cells@[k as int]);
                assert(before[s] == count_tag(b, cells@.take(k as int), s));
            }
        }
        k = k + 1;
    }
    assert(cells@.take(cells.len() as int) =~= cells@);
    let mut best: u8 = 0;
    let mut t: u8 = 1;
    while t < NUM_COLORS
        invariant
            1 <= t <= NUM_COLORS,
            best < t,
            counts.len() == NUM_COLORS,
            forall|s: int| 0 <= s < t ==> counts@[s] <= counts@[best as int],
            forall|s: int| 0 <= s < best ==> counts@[s] < counts@[best as int],
        decreases NUM_COLORS - t,
    {
        if counts[t as usize] > counts[best as usize] {
            best = t;
        }
        t = t + 1;
    }
    assert forall|s: int| 0 <= s < NUM_COLORS implies #[trigger] count_tag(b, cells@, s) == counts@[s] by {
        assert(counts@[s] == count_tag(b, cells@.take(cells.len() as int), s));
    }
    Color::new(best)
}

/// How many of the listed cells of `b` have tag `t`.
pub open spec fn count_tag(b: &Board, cells: Seq<(u8, u8)>, t: int) -> nat
    decreases cells.len(),
{
    if cells.len() == 0 {
        0
    } else {
        count_tag(b, cells.drop_last(), t) + if b.tag_of((cells.last().0 as int, cells.last().1 as int)) == t {
            1nat
        } else {
            0nat
        }
    }
}

/// No move list that stops before the end of `s` drenches the board.
pub open spec fn no_prefix_drenches(side: int, tags: Seq<u8>, s: Seq<Color>) -> bool {
    forall|k: int| 0 <= k < s.len() ==> !is_uniform(#[trigger] replay(side, tags, s.take(k)))
}

/// One more move after a list that has not drenched the board keeps every
/// proper prefix short of drenching it.
proof fn lemma_prefix_extend(side: int, tags: Seq<u8>, s: Seq<Color>, c: Color)
    requires
        no_prefix_drenches(side, tags, s),
        !is_uniform(replay(side, tags, s)),
    ensures
        no_prefix_drenches(side, tags, s.push(c)),
        replay(side, tags, s.push(c)) == recolor(side, replay(side, tags, s), c.tag),
{
    let s2 = s.push(c);
    assert(s2.drop_last() =~= s);
    assert forall|k: int| 0 <= k < s2.len() implies !is_uniform(#[trigger] replay(side, tags, s2.take(k))) by {
        if k < s.len() {
            assert(s2.take(k) =~= s.take(k));
        } else {
            assert(s2.take(k) =~= s);
        }
    }
}

impl Solver for Random {
    /// Plays random colors until the board is drenched or 1000 moves are
    /// played.
    fn solve(&self, b: Board) -> (r: Result<Solution, Solution>)
        ensures
            r matches Ok(s) ==> s@.len() <= MAX_MOVES && no_prefix_drenches(b.side(), b.tags(), s@),
            r matches Err(s) ==> s@.len() == MAX_MOVES && !is_uniform(replay(b.side(), b.tags(), s@))
                && no_prefix_drenches(b.side(), b.tags(), s@),
    {
        let ghost side = b.side();
        let ghost tags0 = b.tags();
        let mut b = b;
        let mut solution: Solution = Vec::new();
        while !b.is_drenched() && solution.len() < MAX_MOVES
            invariant
                b.wf(),
                b.side() == side,
                solution.len() <= MAX_MOVES,
                b.tags() == replay(side, tags0, solution@),
                no_prefix_drenches(side, tags0, solution@),
            decreases MAX_MOVES - solution.len(),
        {
            let color = Color::new(random_below(NUM_COLORS));
            proof {
                lemma_prefix_extend(side, tags0, solution@, color);
            }
            b.drench(color);
            solution.push(color);
        }
        if b.is_drenched() {
            Ok(solution)
        } else {
            Err(solution)
        }
    }
}

/// A listed cell of tag `t` makes the count of `t` positive, and a positive
/// count has a listed cell of tag `t`.
proof fn lemma_count_tag_positive(b: &Board, cells: Seq<(u8, u8)>, t: int)
    ensures
        count_tag(b, cells, t) > 0 <==> exists|k: int|
            0 <= k < cells.len() && b.tag_of(#[trigger] pt(cells[k])) == t,
    decreases cells.len(),
{
    if cells.len() > 0 {
        let prev = cells.drop_last();
        lemma_count_tag_positive(b, prev, t);
        if exists|k: int| 0 <= k < prev.len() && b.tag_of(#[trigger] pt(prev[k])) == t {
            let k = choose|k: int| 0 <= k < prev.len() && b.tag_of(#[trigger] pt(prev[k])) == t;
            assert(pt(cells[k]) == pt(prev[k]));
        }
        if exists|k: int| 0 <= k < cells.len() && b.tag_of(#[trigger] pt(cells[k])) == t {
            let k = choose|k: int| 0 <= k < cells.len() && b.tag_of(#[trigger] pt(cells[k])) == t;
            if k < prev.len() {
                assert(pt(prev[k]) == pt(cells[k]));
            } else {
                assert(cells.last() == cells[k]);
            }
        }
        if b.tag_of(pt(cells.last())) == t {
            assert(cells.last() == cells[cells.len() - 1]);
            assert(b.tag_of(pt(cells[cells.len() - 1])) == t);
        }
    }
}

/// The listed cells of `b` with tag `t`.
pub open spec fn tagged(b: &Board, cells: Seq<(u8, u8)>, t: int) -> Set<(int, int)> {
    Set::new(|p: (int, int)| lists(cells, p) && b.tag_of(p) == t)
}

/// Over a list without repeats, the count of a tag is the number of listed
/// cells with that tag.
proof fn lemma_count_tag_set(b: &Board, cells: Seq<(u8, u8)>, t: int)
    requires
        cells.no_duplicates(),
    ensures
        tagged(b, cells, t).finite(),
        count_tag(b, cells, t) == tagged(b, cells, t).len(),
    decreases cells.len(),
{
    if cells.len() == 0 {
        assert(tagged(b, cells, t) =~= Set::<(int, int)>::empty());
    } else {
        let prev = cells.drop_last();
        let x = cells.last();
        assert(prev.no_duplicates()) by {
            assert forall|i: int, j: int| 0 <= i < prev.len() && 0 <= j < prev.len() && i != j implies prev[i] != prev[j] by {
                assert(prev[i] == cells[i] && prev[j] == cells[j]);
            }
        }
        lemma_count_tag_set(b, prev, t);
        assert(prev.push(x) =~= cells);
        lemma_lists_push(prev, x);
        lemma_lists_contains(prev, x);
        assert(!prev.contains(x)) by {
            if prev.contains(x) {
                let k = choose|k: int| 0 <= k < prev.len() && prev[k] == x;
                assert(cells[k] == cells[cells.len() - 1]);
            }
        }
        if b.tag_of(pt(x)) == t {
            assert(tagged(b, cells, t) =~= tagged(b, prev, t).insert(pt(x)));
        } else {
            assert(tagged(b, cells, t) =~= tagged(b, prev, t));
        }
    }
}

/// How many cells of tag `t` touch the island of the top-left cell.
pub open spec fn border_count(side: int, tags: Seq<u8>, t: int) -> nat {
    Set::new(|p: (int, int)| on_border(side, tags, (0, 0), p) && tag_at(side, tags, p) == t).len()
}

/// Whether color `c` is the one that most cells around the island have, the
/// lowest such tag on a tie.
pub open spec fn greedy_choice(side: int, tags: Seq<u8>, c: int) -> bool {
    &&& 0 <= c < 6
    &&& forall|u: int| 0 <= u < 6 ==> #[trigger] border_count(side, tags, u) <= border_count(side, tags, c)
    &&& forall|u: int| 0 <= u < c ==> #[trigger] border_count(side, tags, u) < border_count(side, tags, c)
}

impl Solver for Heuristic {
    /// Plays, while the board is not drenched, the color that most cells
    /// around the island have. Each move adds a cell to the island, so it
    /// always succeeds.
    fn solve(&self, b: Board) -> (r: Result<Solution, Solution>)
        ensures
            r is Ok,
            r matches Ok(s) ==> no_prefix_drenches(b.side(), b.tags(), s@) && s@.len() < b.side() * b.side()
                && forall|i: int| 0 <= i < s.len() ==> greedy_choice(
                    b.side(),
                    #[trigger] replay(b.side(), b.tags(), s@.take(i)),
                    s@[i].tag as int,
                ),
    {
        let ghost side = b.side();
        let ghost tags0 = b.tags();
        let mut b = b;
        let size = b.size();
        proof {
            lemma_square_bound(side);
        }
        let budget: usize = (size as usize) * (size as usize);
        let mut solution: Solution = Vec::new();
        proof {
            lemma_island_indices_bounded(side, b.tags());
            assert(island_indices(side, b.tags()).len() >= 1) by {
                assert(island_indices(side, b.tags()).contains(0));
            }
        }
        while !b.is_drenched() && solution.len() < budget
            invariant
                b.wf(),
                b.side() == side,
                budget == side * side,
                solution.len() <= budget,
                b.tags() == replay(side, tags0, solution@),
                island_indices(side, b.tags()).finite(),
                island_indices(side, b.tags()).len() >= solution.len() + 1,
                no_prefix_drenches(side, tags0, solution@),
                forall|i: int| 0 <= i < solution.len() ==> greedy_choice(
                    side,
                    #[trigger] replay(side, tags0, solution@.take(i)),
                    solution@[i].tag as int,
                ),
            decreases budget - solution.len(),
        {
            let (_, border) = b.field_coords();
            proof {
                assert forall|k: int| 0 <= k < border.len() implies (#[trigger] border@[k]).0 < b.side() && border@[k].1 < b.side() by {
                    assert(on_border(b.side(), b.tags(), (0, 0), pt(border@[k])));
                }
            }
            let color = most_common_color(&b, &border);
            let ghost tags1 = b.tags();
            proof {
                assert forall|u: int| 0 <= u < 6 implies #[trigger] count_tag(&b, border@, u) == border_count(side, tags1, u) by {
                    lemma_count_tag_set(&b, border@, u);
                    assert(tagged(&b, border@, u) =~= Set::new(
                        |p: (int, int)| on_border(side, tags1, (0, 0), p) && tag_at(side, tags1, p) == u,
                    )) by {
                        assert forall|p: (int, int)| #[trigger] lists(border@, p) implies on_border(side, tags1, (0, 0), p) by {
                            let k = choose|k: int| 0 <= k < border.len() && #[trigger] pt(border@[k]) == p;
                        }
                    }
                }
                let c = color.tag as int;
                assert(count_tag(&b, border@, c) == border_count(side, tags1, c));
                assert forall|u: int| 0 <= u < 6 implies #[trigger] border_count(side, tags1, u) <= border_count(side, tags1, c) by {
                    assert(count_tag(&b, border@, u) == border_count(side, tags1, u));
                    assert(count_tag(&b, border@, u) <= count_tag(&b, border@, c));
                }
                assert forall|u: int| 0 <= u < c implies #[trigger] border_count(side, tags1, u) < border_count(side, tags1, c) by {
                    assert(count_tag(&b, border@, u) == border_count(side, tags1, u));
                    assert(count_tag(&b, border@, u) < count_tag(&b, border@, c));
                }
                assert(greedy_choice(side, tags1, color.tag as int));
                let s2 = solution@.push(color);
                lemma_prefix_extend(side, tags0, solution@, color);
                assert forall|i: int| 0 <= i < s2.len() implies greedy_choice(
                    side,
                    #[trigger] replay(side, tags0, s2.take(i)),
                    s2[i].tag as int,
                ) by {
                    if i < solution.len() {
                        assert(s2.take(i) =~= solution@.take(i));
                    } else {
                        assert(s2.take(i) =~= solution@);
                    }
                }
                let q = lemma_border_exists(side, tags1);
                let k = choose|k: int| 0 <= k < border.len() && #[trigger] pt(border@[k]) == q;
                lemma_count_tag_positive(&b, border@, b.tag_of(q) as int);
                assert(b.tag_of(q) < NUM_COLORS) by {
                    lemma_cell_index(side, q.0, q.1);
                }
                assert(count_tag(&b, border@, color.tag as int) > 0);
                lemma_count_tag_positive(&b, border@, color.tag as int);
                let k2 = choose|k2: int| 0 <= k2 < border.len() && b.tag_of(#[trigger] pt(border@[k2])) == color.tag as int;
                let q2 = pt(border@[k2]);
                assert(on_border(side, tags1, (0, 0), q2));
                lemma_drench_grows(side, tags1, q2);
                lemma_island_indices_bounded(side, recolor(side, tags1, color.tag));
                let iq = cell_index(side, q2.0, q2.1);
                vstd::set_lib::lemma_len_subset(
                    island_indices(side, tags1).insert(iq),
                    island_indices(side, recolor(side, tags1, color.tag)),
                );
            }
            b.drench(color);
            solution.push(color);
        }
        proof {
            lemma_island_indices_bounded(side, b.tags());
        }
        if b.is_drenched() {
            Ok(solution)
        } else {
            Err(solution)
        }
    }
}

/// Whether `u` is one of the last `g` colors played when `tag` is the next
/// color of the cycle.
pub open spec fn recent(tag: int, g: int, u: int) -> bool {
    exists|j: int| 0 <= j < g && #[trigger] ((u + 1 + j) % 6) == tag
}

/// The last six colors of the cycle are all six colors.
proof fn lemma_recent_all(tag: int, u: int)
    requires
        0 <= tag < 6,
        0 <= u < 6,
    ensures
        recent(tag, 6, u),
{
    let j = if tag > u {
        tag - u - 1
    } else {
        tag + 5 - u
    };
    assert((u + 1 + j) % 6 == tag);
}

/// A color recently played before moving on from `tag` is `tag` or one
/// played before it.
proof fn lemma_recent_next(tag: int, g: int, u: int)
    requires
        0 <= tag < 6,
        0 <= u < 6,
        g >= 0,
        recent((tag + 1) % 6, g + 1, u),
    ensures
        u == tag || recent(tag, g, u),
{
    let j = choose|j: int| 0 <= j < g + 1 && #[trigger] ((u + 1 + j) % 6) == (tag + 1) % 6;
    if j > 0 {
        assert((u + 1 + (j - 1)) % 6 == tag);
    }
}

impl Solver for ModCount {
    /// Plays the colors in turn while the board is not drenched. Within any
    /// six moves the island grows, so it always succeeds.
    #[verifier::rlimit(60)]
    fn solve(&self, b: Board) -> (r: Result<Solution, Solution>)
        ensures
            r is Ok,
            r matches Ok(s) ==> no_prefix_drenches(b.side(), b.tags(), s@) && forall|i: int|
                0 <= i < s.len() ==> (#[trigger] s@[i]).tag == i % 6,
    {
        let ghost side = b.side();
        let ghost tags0 = b.tags();
        let mut b = b;
        let size = b.size();
        proof {
            lemma_square_bound(side);
            lemma_island_indices_bounded(side, b.tags());
        }
        let budget: usize = (size as usize) * (size as usize) * 6;
        let mut solution: Solution = Vec::new();
        let mut tag: u8 = 0;
        let ghost mut since: int = 0;
        while !b.is_drenched() && solution.len() < budget
            invariant
                b.wf(),
                b.side() == side,
                tag < NUM_COLORS,
                budget == side * side * 6,
                solution.len() <= budget,
                b.tags() == replay(side, tags0, solution@),
                island_indices(side, b.tags()).finite(),
                island_indices(side, b.tags()).len() >= 1,
                0 <= since <= 6,
                6 * (island_indices(side, b.tags()).len() - 1) + since >= solution.len(),
                no_prefix_drenches(side, tags0, solution@),
                tag == solution.len() % 6,
                forall|i: int| 0 <= i < solution.len() ==> (#[trigger] solution@[i]).tag == i % 6,
                forall|u: int|
                    0 <= u < 6 && #[trigger] recent(tag as int, since, u) ==> !is_border_tag(side, b.tags(), u),
            decreases budget - solution.len(),
        {
            let color = Color::new(tag);
            let ghost t1 = b.tags();
            let ghost since1 = since;
            let ghost next = if tag + 1 == NUM_COLORS {
                0int
            } else {
                tag + 1
            };
            proof {
                let q0 = lemma_border_exists(side, t1);
                lemma_cell_index(side, q0.0, q0.1);
                let u0 = tag_at(side, t1, q0) as int;
                assert(is_border_tag(side, t1, u0));
                if since == 6 {
                    lemma_recent_all(tag as int, u0);
                }
                assert(since <= 5);
                if is_border_tag(side, t1, tag as int) {
                    let q = choose|q: (int, int)| #[trigger] on_border(side, t1, (0, 0), q) && tag_at(side, t1, q) == tag as int;
                    lemma_drench_grows(side, t1, q);
                    lemma_island_indices_bounded(side, recolor(side, t1, tag));
                    vstd::set_lib::lemma_len_subset(
                        island_indices(side, t1).insert(cell_index(side, q.0, q.1)),
                        island_indices(side, recolor(side, t1, tag)),
                    );
                    since = 0;
                } else {
                    lemma_drench_no_growth(side, t1, tag);
                    since = since + 1;
                    assert forall|u: int|
                        0 <= u < 6 && #[trigger] recent(next, since, u) implies !is_border_tag(side, recolor(side, t1, tag), u) by {
                        assert(next == (tag + 1) % 6);
                        lemma_recent_next(tag as int, since1, u);
                    }
                }
            }
            proof {
                lemma_prefix_extend(side, tags0, solution@, color);
            }
            b.drench(color);
            solution.push(color);
            tag = if tag + 1 == NUM_COLORS {
                0
            } else {
                tag + 1
            };
        }
        proof {
            lemma_island_indices_bounded(side, b.tags());
            if !is_uniform(b.tags()) {
                let q = lemma_border_exists(side, b.tags());
                lemma_cell_index(side, q.0, q.1);
                let u = tag_at(side, b.tags(), q) as int;
                assert(is_border_tag(side, b.tags(), u));
                if since == 6 {
                    lemma_recent_all(tag as int, u);
                }
            }
        }
        if b.is_drenched() {
            Ok(solution)
        } else {
            Err(solution)
        }
    }
}

} // verus!
