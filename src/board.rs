//! The square board of colored cells, and the islands that drenching works on.
use vstd::prelude::*;
use crate::color::{Color, NUM_COLORS};
use crate::graph::get_island;
use rand::distributions::{IndependentSample, Range};
use rand::{IsaacRng, SeedableRng};
use crate::util::{cell_index, lemma_cell_index, lemma_square_bound, ColorSet};

verus! {

#[verifier::external_type_specification]
#[verifier::external_body]
pub struct ExIsaacRng(IsaacRng);

/// Relies on rand's `Range::new(0, n)` (which panics unless `0 < n`) sampled
/// by `ind_sample` with the thread's generator: a number below `n`.
#[verifier::external_body]
pub(crate) fn random_below(n: u8) -> (r: u8)
    requires
        n > 0,
    ensures
        r < n,
{
    Range::new(0u8, n).ind_sample(&mut rand::thread_rng())
}

/// The `k`-th number (from 0) that `Range::new(0, n).ind_sample` draws from
/// an `IsaacRng` seeded with `seed`, every earlier draw using the same range.
/// A seeded generator always gives the same sequence.
pub uninterp spec fn seeded_draw(seed: Seq<u32>, n: u8, k: nat) -> u8;

/// A seeded generator that draws numbers below `bound`, with its seed and
/// the count of numbers drawn so far.
pub struct SeededRng {
    rng: IsaacRng,
    bound: u8,
    seed: Ghost<Seq<u32>>,
    drawn: Ghost<nat>,
}

impl SeededRng {
    /// The words the generator was seeded with.
    pub closed spec fn seed(&self) -> Seq<u32> {
        self.seed@
    }

    /// How many numbers it has drawn.
    pub closed spec fn drawn(&self) -> nat {
        self.drawn@
    }

    /// The numbers it draws are below this bound.
    pub closed spec fn bound(&self) -> u8 {
        self.bound
    }

    /// Relies on `IsaacRng::from_seed`: a generator seeded with the four
    /// words, that has drawn nothing.
    #[verifier::external_body]
    pub(crate) fn new(seed: [u32; 4], bound: u8) -> (r: SeededRng)
        ensures
            r.seed() == seed@,
            r.drawn() == 0,
            r.bound() == bound,
    {
        SeededRng { rng: IsaacRng::from_seed(&seed[..]), bound: bound, seed: Ghost(seed@), drawn: Ghost(0) }
    }

    /// Relies on rand's `Range::new(0, bound)` (which panics unless
    /// `0 < bound`) sampled by `ind_sample` with the seeded generator: the
    /// next number of the seeded sequence, below the bound.
    #[verifier::external_body]
    pub(crate) fn next(&mut self) -> (r: u8)
        requires
            old(self).bound() > 0,
        ensures
            r == seeded_draw(old(self).seed(), old(self).bound(), old(self).drawn()),
            r < old(self).bound(),
            final(self).seed() == old(self).seed(),
            final(self).bound() == old(self).bound(),
            final(self).drawn() == old(self).drawn() + 1,
    {
        Range::new(0u8, self.bound).ind_sample(&mut self.rng)
    }
}

/// The four seed words of the board with number `id`.
pub open spec fn seed_of(id: u64) -> Seq<u32> {
    let w = (id & 0xffff_ffffu64) as u32;
    seq![w, w.wrapping_add(42), w.wrapping_add(27), w.wrapping_add(1337)]
}

/// Whether `p` is a cell of a square of side `side`.
pub open spec fn in_grid(side: int, p: (int, int)) -> bool {
    0 <= p.0 < side && 0 <= p.1 < side
}

/// Whether two cells share an edge.
pub open spec fn touching(p: (int, int), q: (int, int)) -> bool {
    (p.0 == q.0 && (p.1 == q.1 + 1 || q.1 == p.1 + 1)) || (p.1 == q.1 && (p.0 == q.0 + 1 || q.0
        == p.0 + 1))
}

/// The color tag of cell `p`, with the tags in row-major order.
pub open spec fn tag_at(side: int, tags: Seq<u8>, p: (int, int)) -> u8 {
    tags[cell_index(side, p.0, p.1)]
}

/// `c` lists cells of the color of `start`, beginning at `start`, where each
/// later cell touches the earlier cell `c[par[k]]`: every listed cell is
/// joined to `start` through cells of its color.
pub open spec fn is_chain(
    side: int,
    tags: Seq<u8>,
    start: (int, int),
    c: Seq<(int, int)>,
    par: Seq<int>,
) -> bool {
    &&& c.len() > 0
    &&& par.len() == c.len()
    &&& c[0] == start
    &&& forall|k: int|
        0 <= k < c.len() ==> in_grid(side, #[trigger] c[k]) && tag_at(side, tags, c[k]) == tag_at(
            side,
            tags,
            start,
        )
    &&& forall|k: int| 0 < k < c.len() ==> 0 <= #[trigger] par[k] < k && touching(c[par[k]], c[k])
}

/// Whether `p` belongs to the island of `start`: the largest edge-connected
/// region of cells of the color of `start` that holds `start`.
pub open spec fn in_island(side: int, tags: Seq<u8>, start: (int, int), p: (int, int)) -> bool {
    exists|c: Seq<(int, int)>, par: Seq<int>|
        #[trigger] is_chain(side, tags, start, c, par) && c.contains(p)
}

/// Whether `p` lies outside the island of `start` and touches it.
pub open spec fn on_border(side: int, tags: Seq<u8>, start: (int, int), p: (int, int)) -> bool {
    &&& in_grid(side, p)
    &&& !in_island(side, tags, start, p)
    &&& exists|q: (int, int)| #[trigger] in_island(side, tags, start, q) && touching(q, p)
}

/// The cell at row-major index `i`.
pub open spec fn cell_of(side: int, i: int) -> (int, int) {
    (i % side, i / side)
}

/// The tags after drenching with `c`: the island of the top-left cell takes
/// color `c`, every other cell keeps its color.
pub open spec fn recolor(side: int, tags: Seq<u8>, c: u8) -> Seq<u8> {
    Seq::new(
        tags.len(),
        |i: int|
            if in_island(side, tags, (0, 0), cell_of(side, i)) {
                c
            } else {
                tags[i]
            },
    )
}

/// The tags after drenching with each color of `moves` in turn.
pub open spec fn replay(side: int, tags: Seq<u8>, moves: Seq<Color>) -> Seq<u8>
    decreases moves.len(),
{
    if moves.len() == 0 {
        tags
    } else {
        recolor(side, replay(side, tags, moves.drop_last()), moves.last().tag)
    }
}

/// Whether all cells have one color.
pub open spec fn is_uniform(tags: Seq<u8>) -> bool {
    forall|i: int| 0 <= i < tags.len() ==> #[trigger] tags[i] == tags[0]
}

/// The `i`-th base-6 digit of `n`, least significant first.
pub open spec fn digit6(n: u64, i: nat) -> u8
    decreases i,
{
    if i == 0 {
        (n % 6) as u8
    } else {
        digit6(n / 6, (i - 1) as nat)
    }
}

/// Cell `(x, y)` as a point with integer coordinates.
pub open spec fn pt(p: (u8, u8)) -> (int, int) {
    (p.0 as int, p.1 as int)
}

/// Whether the list `s` names the cell `p`.
pub open spec fn lists(s: Seq<(u8, u8)>, p: (int, int)) -> bool {
    exists|k: int| 0 <= k < s.len() && #[trigger] pt(s[k]) == p
}

/// Listing one more cell.
pub proof fn lemma_lists_push(s: Seq<(u8, u8)>, x: (u8, u8))
    ensures
        forall|p: (int, int)| #[trigger] lists(s.push(x), p) == (lists(s, p) || pt(x) == p),
{
    assert forall|p: (int, int)| #[trigger] lists(s.push(x), p) == (lists(s, p) || pt(x) == p) by {
        if lists(s, p) {
            let k = choose|k: int| 0 <= k < s.len() && #[trigger] pt(s[k]) == p;
            assert(pt(s.push(x)[k]) == p);
        }
        if pt(x) == p {
            assert(pt(s.push(x)[s.len() as int]) == p);
        }
        if lists(s.push(x), p) {
            let k = choose|k: int| 0 <= k < s.len() + 1 && #[trigger] pt(s.push(x)[k]) == p;
            if k < s.len() {
                assert(pt(s[k]) == p);
            }
        }
    }
}

/// Taking the last cell off a list.
pub proof fn lemma_lists_drop_last(s: Seq<(u8, u8)>)
    requires
        s.len() > 0,
    ensures
        forall|p: (int, int)| #[trigger] lists(s, p) == (lists(s.drop_last(), p) || pt(s.last()) == p),
{
    lemma_lists_push(s.drop_last(), s.last());
    assert(s.drop_last().push(s.last()) =~= s);
}

/// The row-major index of a cell and the cell of an index agree.
pub proof fn lemma_cell_of(side: int, i: int)
    requires
        0 < side,
        0 <= i < side * side,
    ensures
        in_grid(side, cell_of(side, i)),
        cell_index(side, cell_of(side, i).0, cell_of(side, i).1) == i,
{
    vstd::arithmetic::div_mod::lemma_fundamental_div_mod(i, side);
    vstd::arithmetic::div_mod::lemma_div_pos_is_pos(i, side);
    vstd::arithmetic::div_mod::lemma_mod_bound(i, side);
    vstd::arithmetic::div_mod::lemma_div_is_ordered(i, side * side, side);
    assert((side * side) / side == side) by {
        vstd::arithmetic::div_mod::lemma_div_by_multiple(side, side);
    }
    if i / side == side {
        assert(side * (i / side) + i % side >= side * side);
    }
    vstd::arithmetic::mul::lemma_mul_is_commutative(i / side, side);
}

/// Every cell of a chain lies in any set that holds `start` and, with each
/// cell, each touching cell of the color of `start`.
pub proof fn lemma_chain_within(
    side: int,
    tags: Seq<u8>,
    start: (int, int),
    c: Seq<(int, int)>,
    par: Seq<int>,
    s: Set<(int, int)>,
    n: int,
)
    requires
        is_chain(side, tags, start, c, par),
        s.contains(start),
        forall|q: (int, int), p: (int, int)|
            #[trigger] s.contains(q) && in_grid(side, p) && touching(q, p) && tag_at(side, tags, p)
                == tag_at(side, tags, start) ==> #[trigger] s.contains(p),
        0 <= n <= c.len(),
    ensures
        forall|k: int| 0 <= k < n ==> s.contains(#[trigger] c[k]),
    decreases n,
{
    if n > 0 {
        lemma_chain_within(side, tags, start, c, par, s, n - 1);
        let k = n - 1;
        if k > 0 {
            assert(s.contains(c[par[k]]));
            assert(in_grid(side, c[k]));
        }
    }
}

/// A cell of an island lies on the board and has the color of the start.
pub proof fn lemma_island_cell(side: int, tags: Seq<u8>, start: (int, int), p: (int, int))
    requires
        in_island(side, tags, start, p),
    ensures
        in_grid(side, p),
        tag_at(side, tags, p) == tag_at(side, tags, start),
{
    let (c, par) = choose|c: Seq<(int, int)>, par: Seq<int>|
        #[trigger] is_chain(side, tags, start, c, par) && c.contains(p);
    let k = choose|k: int| 0 <= k < c.len() && c[k] == p;
    assert(in_grid(side, c[k]));
}

/// A walk over all cells in row-major order in which each cell after the
/// first touches an earlier one.
pub proof fn lemma_grid_walk(side: int) -> (r: (Seq<(int, int)>, Seq<int>))
    requires
        side >= 1,
    ensures
        r.0.len() == side * side,
        r.1.len() == side * side,
        r.0[0] == (0int, 0int),
        forall|k: int| 0 <= k < r.0.len() ==> in_grid(side, #[trigger] r.0[k]),
        forall|k: int| 0 < k < r.0.len() ==> 0 <= #[trigger] r.1[k] < k && touching(r.0[r.1[k]], r.0[k]),
        forall|p: (int, int)|
            in_grid(side, p) ==> 0 <= #[trigger] cell_index(side, p.0, p.1) < side * side && r.0[cell_index(
                side,
                p.0,
                p.1,
            )] == p,
{
    let n = side * side;
    let c = Seq::new(n as nat, |i: int| cell_of(side, i));
    let par = Seq::new(n as nat, |i: int| if i % side > 0 { i - 1 } else { i - side });
    lemma_cell_index(side, 0, 0);
    assert forall|k: int| 0 <= k < n implies in_grid(side, #[trigger] c[k]) by {
        lemma_cell_of(side, k);
    }
    assert forall|k: int| 0 < k < n implies 0 <= #[trigger] par[k] < k && touching(c[par[k]], c[k]) by {
        lemma_cell_of(side, k);
        let q = k / side;
        let r = k % side;
        if r > 0 {
            vstd::arithmetic::div_mod::lemma_fundamental_div_mod_converse(k - 1, side, q, r - 1);
        } else {
            assert(q >= 1) by (nonlinear_arith)
                requires
                    k == q * side,
                    k > 0,
                    side >= 1,
            ;
            assert(k - side == (q - 1) * side) by (nonlinear_arith)
                requires
                    k == q * side,
            ;
            vstd::arithmetic::div_mod::lemma_fundamental_div_mod_converse(k - side, side, q - 1, 0);
        }
    }
    vstd::arithmetic::div_mod::lemma_fundamental_div_mod_converse(0, side, 0, 0);
    assert forall|p: (int, int)| in_grid(side, p) implies 0 <= #[trigger] cell_index(side, p.0, p.1) < side * side
        && c[cell_index(side, p.0, p.1)] == p by {
        let i = cell_index(side, p.0, p.1);
        lemma_cell_index(side, p.0, p.1);
        vstd::arithmetic::div_mod::lemma_fundamental_div_mod_converse(i, side, p.1, p.0);
    }
    (c, par)
}

/// On a board of one color, every cell is in the island of the top-left cell.
pub proof fn lemma_uniform_island(side: int, tags: Seq<u8>)
    requires
        side >= 1,
        tags.len() == side * side,
        is_uniform(tags),
    ensures
        forall|p: (int, int)| in_grid(side, p) ==> #[trigger] in_island(side, tags, (0, 0), p),
{
    let (c, par) = lemma_grid_walk(side);
    lemma_cell_index(side, 0, 0);
    assert forall|k: int| 0 <= k < c.len() implies in_grid(side, #[trigger] c[k]) && tag_at(side, tags, c[k])
        == tag_at(side, tags, (0, 0)) by {
        lemma_cell_index(side, c[k].0, c[k].1);
    }
    assert(is_chain(side, tags, (0, 0), c, par));
    assert forall|p: (int, int)| in_grid(side, p) implies #[trigger] in_island(side, tags, (0, 0), p) by {
        let i = cell_index(side, p.0, p.1);
        assert(c[i] == p);
        assert(c.contains(p));
    }
}

/// A set of cells that holds the top-left cell but not every cell has a
/// cell that touches a cell outside it.
pub proof fn lemma_grid_connected(side: int, s: Set<(int, int)>, out: (int, int)) -> (r: ((int, int), (int, int)))
    requires
        side >= 1,
        s.contains((0int, 0int)),
        in_grid(side, out),
        !s.contains(out),
    ensures
        in_grid(side, r.0),
        in_grid(side, r.1),
        touching(r.0, r.1),
        s.contains(r.0),
        !s.contains(r.1),
{
    let (c, par) = lemma_grid_walk(side);
    let i = cell_index(side, out.0, out.1);
    assert(c[i] == out);
    lemma_first_outside(c, par, s, 0, i)
}

proof fn lemma_first_outside(
    c: Seq<(int, int)>,
    par: Seq<int>,
    s: Set<(int, int)>,
    k: int,
    i: int,
) -> (r: ((int, int), (int, int)))
    requires
        0 <= k <= i < c.len(),
        par.len() == c.len(),
        forall|j: int| 0 < j < c.len() ==> 0 <= #[trigger] par[j] < j && touching(c[par[j]], c[j]),
        forall|j: int| 0 <= j < k ==> s.contains(#[trigger] c[j]),
        s.contains(c[0]),
        !s.contains(c[i]),
    ensures
        exists|j: int| 0 < j < c.len() && r == (c[par[j]], c[j]),
        touching(r.0, r.1),
        s.contains(r.0),
        !s.contains(r.1),
    decreases i - k,
{
    if s.contains(c[k]) {
        lemma_first_outside(c, par, s, k + 1, i)
    } else {
        assert(k > 0);
        assert(s.contains(c[par[k]]));
        (c[par[k]], c[k])
    }
}

/// The color of a cell after drenching with `c`.
pub proof fn lemma_recolor_cell(side: int, tags: Seq<u8>, c: u8, p: (int, int))
    requires
        side >= 1,
        tags.len() == side * side,
        in_grid(side, p),
    ensures
        recolor(side, tags, c).len() == tags.len(),
        tag_at(side, recolor(side, tags, c), p) == if in_island(side, tags, (0, 0), p) {
            c
        } else {
            tag_at(side, tags, p)
        },
{
    let i = cell_index(side, p.0, p.1);
    lemma_cell_index(side, p.0, p.1);
    vstd::arithmetic::div_mod::lemma_fundamental_div_mod_converse(i, side, p.1, p.0);
    assert(cell_of(side, i) == p);
}

/// A chain stays a chain under other tags in which its cells keep one color.
pub proof fn lemma_chain_transfer(
    side: int,
    ta: Seq<u8>,
    tb: Seq<u8>,
    start: (int, int),
    c: Seq<(int, int)>,
    par: Seq<int>,
)
    requires
        is_chain(side, ta, start, c, par),
        forall|k: int| 0 <= k < c.len() ==> tag_at(side, tb, #[trigger] c[k]) == tag_at(side, tb, start),
    ensures
        is_chain(side, tb, start, c, par),
{
}

/// Drenching keeps every cell of the island of the top-left cell in it.
pub proof fn lemma_recolor_keeps_island(side: int, tags: Seq<u8>, col: u8, p: (int, int))
    requires
        side >= 1,
        tags.len() == side * side,
        in_island(side, tags, (0, 0), p),
    ensures
        in_island(side, recolor(side, tags, col), (0, 0), p),
{
    let t2 = recolor(side, tags, col);
    let (c, par) = choose|c: Seq<(int, int)>, par: Seq<int>|
        #[trigger] is_chain(side, tags, (0, 0), c, par) && c.contains(p);
    lemma_self_in_island_board(side, tags);
    lemma_recolor_cell(side, tags, col, (0, 0));
    assert forall|k: int| 0 <= k < c.len() implies tag_at(side, t2, #[trigger] c[k]) == tag_at(side, t2, (0, 0)) by {
        assert(c.contains(c[k]));
        assert(in_island(side, tags, (0, 0), c[k]));
        lemma_recolor_cell(side, tags, col, c[k]);
    }
    lemma_chain_transfer(side, tags, t2, (0, 0), c, par);
}

/// The top-left cell is in its own island.
pub proof fn lemma_self_in_island_board(side: int, tags: Seq<u8>)
    requires
        side >= 1,
    ensures
        in_island(side, tags, (0, 0), (0, 0)),
{
    let c = seq![(0int, 0int)];
    let par = seq![0int];
    assert(is_chain(side, tags, (0, 0), c, par));
    assert(c[0] == (0int, 0int));
}

/// The indices met when walking parent links from `k` down to 0.
pub open spec fn ancestors(par: Seq<int>, k: int) -> Seq<int>
    decreases k,
{
    if k > 0 && 0 <= par[k] < k {
        seq![k] + ancestors(par, par[k])
    } else {
        seq![k]
    }
}

proof fn lemma_ancestors(
    side: int,
    tags: Seq<u8>,
    start: (int, int),
    c: Seq<(int, int)>,
    par: Seq<int>,
    k: int,
)
    requires
        is_chain(side, tags, start, c, par),
        0 <= k < c.len(),
    ensures
        ancestors(par, k).len() >= 1,
        ancestors(par, k)[0] == k,
        ancestors(par, k).last() == 0,
        forall|j: int| 0 <= j < ancestors(par, k).len() ==> 0 <= #[trigger] ancestors(par, k)[j] < c.len(),
        forall|j: int|
            0 <= j < ancestors(par, k).len() - 1 ==> touching(
                c[#[trigger] ancestors(par, k)[j]],
                c[ancestors(par, k)[j + 1]],
            ),
    decreases k,
{
    if k > 0 {
        let q = par[k];
        lemma_ancestors(side, tags, start, c, par, q);
        let a = ancestors(par, k);
        let b = ancestors(par, q);
        assert(a == seq![k] + b);
        assert forall|j: int| 0 <= j < a.len() implies 0 <= #[trigger] a[j] < c.len() by {
            if j > 0 {
                assert(a[j] == b[j - 1]);
            }
        }
        assert forall|j: int| 0 <= j < a.len() - 1 implies touching(c[#[trigger] a[j]], c[a[j + 1]]) by {
            if j > 0 {
                assert(a[j] == b[j - 1]);
                assert(a[j + 1] == b[j]);
                assert(touching(c[b[j - 1]], c[b[j]]));
            } else {
                assert(a[1] == b[0]);
                assert(touching(c[par[k]], c[k]));
            }
        }
    }
}

/// Islands are symmetric: if `p` is in the island of `s`, then `s` is in the
/// island of `p`.
pub proof fn lemma_island_symmetric(side: int, tags: Seq<u8>, s: (int, int), p: (int, int))
    requires
        in_island(side, tags, s, p),
    ensures
        in_island(side, tags, p, s),
{
    let (c, par) = choose|c: Seq<(int, int)>, par: Seq<int>|
        #[trigger] is_chain(side, tags, s, c, par) && c.contains(p);
    let k = choose|k: int| 0 <= k < c.len() && c[k] == p;
    lemma_ancestors(side, tags, s, c, par, k);
    let a = ancestors(par, k);
    let d = Seq::new(a.len(), |j: int| c[a[j]]);
    let dpar = Seq::new(a.len(), |j: int| j - 1);
    assert forall|j: int| 0 <= j < d.len() implies in_grid(side, #[trigger] d[j]) && tag_at(side, tags, d[j])
        == tag_at(side, tags, p) by {
        assert(0 <= a[j] < c.len());
    }
    assert forall|j: int| 0 < j < d.len() implies 0 <= #[trigger] dpar[j] < j && touching(d[dpar[j]], d[j]) by {
        assert(touching(c[a[j - 1]], c[a[j]]));
    }
    assert(is_chain(side, tags, p, d, dpar));
    assert(d[d.len() - 1] == s);
    assert(d.contains(s));
}

/// Islands are transitive: a cell of the island of a cell of the island of
/// `s` is in the island of `s`.
pub proof fn lemma_island_transitive(
    side: int,
    tags: Seq<u8>,
    s: (int, int),
    a: (int, int),
    p: (int, int),
)
    requires
        in_island(side, tags, s, a),
        in_island(side, tags, a, p),
    ensures
        in_island(side, tags, s, p),
{
    let (c1, p1) = choose|c: Seq<(int, int)>, par: Seq<int>|
        #[trigger] is_chain(side, tags, s, c, par) && c.contains(a);
    let (c2, p2) = choose|c: Seq<(int, int)>, par: Seq<int>|
        #[trigger] is_chain(side, tags, a, c, par) && c.contains(p);
    let ka = choose|k: int| 0 <= k < c1.len() && c1[k] == a;
    let kp = choose|k: int| 0 <= k < c2.len() && c2[k] == p;
    let n1 = c1.len() as int;
    let c = c1 + c2.drop_first();
    let par = Seq::new(
        c.len(),
        |k: int|
            if k < n1 {
                p1[k]
            } else if p2[k - n1 + 1] == 0 {
                ka
            } else {
                n1 + p2[k - n1 + 1] - 1
            },
    );
    assert forall|k: int| 0 <= k < c.len() implies in_grid(side, #[trigger] c[k]) && tag_at(side, tags, c[k])
        == tag_at(side, tags, s) by {
        if k >= n1 {
            assert(c[k] == c2[k - n1 + 1]);
        }
    }
    assert forall|k: int| 0 < k < c.len() implies 0 <= #[trigger] par[k] < k && touching(c[par[k]], c[k]) by {
        if k >= n1 {
            let j = k - n1 + 1;
            assert(c[k] == c2[j]);
            if p2[j] == 0 {
                assert(c[ka] == c2[0]);
            } else {
                assert(c[n1 + p2[j] - 1] == c2[p2[j]]);
            }
        }
    }
    assert(is_chain(side, tags, s, c, par));
    if kp == 0 {
        assert(c[ka] == p);
    } else {
        assert(c[n1 + kp - 1] == p);
    }
    assert(c.contains(p));
}

/// A cell of the color of `s` that touches the island of `s` is in it.
pub proof fn lemma_island_extend(
    side: int,
    tags: Seq<u8>,
    s: (int, int),
    q: (int, int),
    p: (int, int),
)
    requires
        in_island(side, tags, s, q),
        in_grid(side, p),
        touching(q, p),
        tag_at(side, tags, p) == tag_at(side, tags, s),
    ensures
        in_island(side, tags, s, p),
{
    let (c, par) = choose|c: Seq<(int, int)>, par: Seq<int>|
        #[trigger] is_chain(side, tags, s, c, par) && c.contains(q);
    let k = choose|k: int| 0 <= k < c.len() && c[k] == q;
    let c2 = c.push(p);
    let par2 = par.push(k);
    assert forall|j: int| 0 <= j < c2.len() implies in_grid(side, #[trigger] c2[j]) && tag_at(side, tags, c2[j])
        == tag_at(side, tags, s) by {
        if j < c.len() {
            assert(c2[j] == c[j]);
        }
    }
    assert forall|j: int| 0 < j < c2.len() implies 0 <= #[trigger] par2[j] < j && touching(c2[par2[j]], c2[j]) by {
        if j < c.len() {
            assert(c2[j] == c[j]);
            assert(c2[par2[j]] == c[par[j]]);
        } else {
            assert(c2[k] == q);
        }
    }
    assert(is_chain(side, tags, s, c2, par2));
    assert(c2[c.len() as int] == p);
    assert(c2.contains(p));
}

/// Row-major indices of the cells of the island of the top-left cell.
pub open spec fn island_indices(side: int, tags: Seq<u8>) -> Set<int> {
    Set::new(|i: int| 0 <= i < side * side && in_island(side, tags, (0, 0), cell_of(side, i)))
}

/// The island of the top-left cell holds at most every cell.
pub proof fn lemma_island_indices_bounded(side: int, tags: Seq<u8>)
    requires
        side >= 1,
    ensures
        island_indices(side, tags).finite(),
        island_indices(side, tags).len() <= side * side,
        island_indices(side, tags).contains(0),
{
    vstd::set_lib::lemma_int_range(0, side * side);
    vstd::set_lib::lemma_len_subset(island_indices(side, tags), vstd::set_lib::set_int_range(0, side * side));
    lemma_square_bound(side);
    lemma_cell_of(side, 0);
    vstd::arithmetic::div_mod::lemma_fundamental_div_mod_converse(0, side, 0, 0);
    lemma_self_in_island_board(side, tags);
}

/// A board whose cells do not all share one color has a cell on the border
/// of the island of the top-left cell.
pub proof fn lemma_border_exists(side: int, tags: Seq<u8>) -> (q: (int, int))
    requires
        side >= 1,
        tags.len() == side * side,
        !is_uniform(tags),
    ensures
        on_border(side, tags, (0, 0), q),
{
    let sset = Set::new(|p: (int, int)| in_grid(side, p) && in_island(side, tags, (0, 0), p));
    lemma_self_in_island_board(side, tags);
    lemma_cell_index(side, 0, 0);
    if forall|p: (int, int)| in_grid(side, p) ==> #[trigger] in_island(side, tags, (0, 0), p) {
        assert forall|i: int| 0 <= i < tags.len() implies #[trigger] tags[i] == tags[0] by {
            lemma_cell_of(side, i);
            lemma_island_cell(side, tags, (0, 0), cell_of(side, i));
        }
        assert(false);
    }
    let out = choose|p: (int, int)| in_grid(side, p) && !in_island(side, tags, (0, 0), p);
    lemma_self_in_island_board(side, tags);
    let (p, q) = lemma_grid_connected(side, sset, out);
    assert(in_island(side, tags, (0, 0), p));
    q
}

/// Drenching with the color of a border cell adds that cell to the island
/// and keeps the island's cells.
pub proof fn lemma_drench_grows(side: int, tags: Seq<u8>, q: (int, int))
    requires
        side >= 1,
        tags.len() == side * side,
        on_border(side, tags, (0, 0), q),
    ensures
        island_indices(side, tags).insert(cell_index(side, q.0, q.1)).subset_of(
            island_indices(side, recolor(side, tags, tag_at(side, tags, q))),
        ),
        !island_indices(side, tags).contains(cell_index(side, q.0, q.1)),
{
    let c = tag_at(side, tags, q);
    let t2 = recolor(side, tags, c);
    let p = choose|p: (int, int)| #[trigger] in_island(side, tags, (0, 0), p) && touching(p, q);
    lemma_recolor_keeps_island(side, tags, c, p);
    lemma_recolor_cell(side, tags, c, q);
    lemma_self_in_island_board(side, tags);
    lemma_recolor_cell(side, tags, c, (0, 0));
    lemma_island_extend(side, t2, (0, 0), p, q);
    let iq = cell_index(side, q.0, q.1);
    lemma_cell_index(side, q.0, q.1);
    vstd::arithmetic::div_mod::lemma_fundamental_div_mod_converse(iq, side, q.1, q.0);
    assert(cell_of(side, iq) == q);
    assert forall|i: int| island_indices(side, tags).insert(iq).contains(i) implies island_indices(side, t2).contains(i) by {
        if i != iq {
            lemma_cell_of(side, i);
            lemma_recolor_keeps_island(side, tags, c, cell_of(side, i));
        }
    }
}

/// Whether a cell of tag `u` lies on the border of the island of the
/// top-left cell.
pub open spec fn is_border_tag(side: int, tags: Seq<u8>, u: int) -> bool {
    exists|q: (int, int)| #[trigger] on_border(side, tags, (0, 0), q) && tag_at(side, tags, q) == u
}

/// Drenching with a color that no border cell has leaves the island, its
/// border and the border's colors as they were.
pub proof fn lemma_drench_no_growth(side: int, tags: Seq<u8>, c: u8)
    requires
        side >= 1,
        tags.len() == side * side,
        !is_border_tag(side, tags, c as int),
    ensures
        forall|p: (int, int)|
            in_grid(side, p) ==> (#[trigger] in_island(side, recolor(side, tags, c), (0, 0), p) <==> in_island(
                side,
                tags,
                (0, 0),
                p,
            )),
        island_indices(side, recolor(side, tags, c)) == island_indices(side, tags),
        forall|u: int| #[trigger] is_border_tag(side, recolor(side, tags, c), u) <==> is_border_tag(side, tags, u),
{
    let t2 = recolor(side, tags, c);
    lemma_self_in_island_board(side, tags);
    lemma_recolor_cell(side, tags, c, (0, 0));
    let sset = Set::new(|p: (int, int)| in_grid(side, p) && in_island(side, tags, (0, 0), p));
    assert(sset.contains((0int, 0int)));
    assert forall|q: (int, int), p: (int, int)|
        #[trigger] sset.contains(q) && in_grid(side, p) && touching(q, p) && tag_at(side, t2, p) == tag_at(side, t2, (0, 0))
            implies #[trigger] sset.contains(p) by {
        lemma_recolor_cell(side, tags, c, p);
        if !in_island(side, tags, (0, 0), p) {
            assert(on_border(side, tags, (0, 0), p));
        }
    }
    assert forall|p: (int, int)|
        in_grid(side, p) implies (#[trigger] in_island(side, t2, (0, 0), p) <==> in_island(side, tags, (0, 0), p)) by {
        if in_island(side, t2, (0, 0), p) {
            let (ch, par) = choose|ch: Seq<(int, int)>, par: Seq<int>|
                #[trigger] is_chain(side, t2, (0, 0), ch, par) && ch.contains(p);
            lemma_chain_within(side, t2, (0, 0), ch, par, sset, ch.len() as int);
            let i = choose|i: int| 0 <= i < ch.len() && ch[i] == p;
            assert(sset.contains(ch[i]));
        }
        if in_island(side, tags, (0, 0), p) {
            lemma_recolor_keeps_island(side, tags, c, p);
        }
    }
    assert(island_indices(side, t2) =~= island_indices(side, tags)) by {
        assert forall|i: int| 0 <= i < side * side implies (island_indices(side, t2).contains(i)
            <==> island_indices(side, tags).contains(i)) by {
            lemma_cell_of(side, i);
        }
    }
    assert forall|u: int| #[trigger] is_border_tag(side, t2, u) <==> is_border_tag(side, tags, u) by {
        if is_border_tag(side, t2, u) {
            let q = choose|q: (int, int)| #[trigger] on_border(side, t2, (0, 0), q) && tag_at(side, t2, q) == u;
            let r = choose|r: (int, int)| #[trigger] in_island(side, t2, (0, 0), r) && touching(r, q);
            lemma_island_cell(side, t2, (0, 0), r);
            lemma_recolor_cell(side, tags, c, q);
            assert(in_island(side, tags, (0, 0), r));
            assert(on_border(side, tags, (0, 0), q));
        }
        if is_border_tag(side, tags, u) {
            let q = choose|q: (int, int)| #[trigger] on_border(side, tags, (0, 0), q) && tag_at(side, tags, q) == u;
            let r = choose|r: (int, int)| #[trigger] in_island(side, tags, (0, 0), r) && touching(r, q);
            lemma_island_cell(side, tags, (0, 0), r);
            lemma_recolor_cell(side, tags, c, q);
            assert(in_island(side, t2, (0, 0), r));
            assert(on_border(side, t2, (0, 0), q));
        }
    }
}

/// A square board of colored cells.
#[derive(Clone)]
pub struct Board {
    size: u8,
    cells: Vec<Color>,
}

impl Board {
    /// Side length.
    pub closed spec fn side(&self) -> int {
        self.size as int
    }

    /// Color tags of the cells in row-major order.
    pub closed spec fn tags(&self) -> Seq<u8> {
        self.cells@.map_values(|c: Color| c.tag)
    }

    /// A board of at least one cell, one tag per cell, every tag a color.
    pub open spec fn wf(&self) -> bool {
        &&& 1 <= self.side() <= 255
        &&& self.tags().len() == self.side() * self.side()
        &&& forall|i: int| 0 <= i < self.tags().len() ==> #[trigger] self.tags()[i] < NUM_COLORS
    }

    /// The color tag of cell `p`.
    pub open spec fn tag_of(&self, p: (int, int)) -> u8 {
        tag_at(self.side(), self.tags(), p)
    }

    /// Whether a cell of color `t` touches the island of the top-left cell.
    pub open spec fn border_color(&self, t: u8) -> bool {
        exists|p: (int, int)| #[trigger] on_border(self.side(), self.tags(), (0, 0), p) && self.tag_of(p) == t
    }

    /// A board of `size` × `size` cells, all of color 0.
    pub fn uniform(size: u8) -> (r: Board)
        requires
            size >= 1,
        ensures
            r.wf(),
            r.side() == size,
            forall|i: int| 0 <= i < r.tags().len() ==> #[trigger] r.tags()[i] == 0,
    {
        proof {
            lemma_square_bound(size as int);
        }
        let n: usize = (size as usize) * (size as usize);
        let mut cells: Vec<Color> = Vec::new();
        while cells.len() < n
            invariant
                cells.len() <= n,
                forall|i: int| 0 <= i < cells.len() ==> #[trigger] cells@[i].tag == 0,
            decreases n - cells.len(),
        {
            cells.push(Color::new(0));
        }
        Board { size: size, cells: cells }
    }

    /// A board of `size` × `size` cells of colors drawn at random.
    pub fn random(size: u8) -> (r: Board)
        requires
            size >= 1,
        ensures
            r.wf(),
            r.side() == size,
    {
        proof {
            lemma_square_bound(size as int);
        }
        let n: usize = (size as usize) * (size as usize);
        let mut cells: Vec<Color> = Vec::new();
        while cells.len() < n
            invariant
                cells.len() <= n,
                forall|i: int| 0 <= i < cells.len() ==> #[trigger] cells@[i].tag < NUM_COLORS,
            decreases n - cells.len(),
        {
            cells.push(Color::new(random_below(NUM_COLORS)));
        }
        Board { size: size, cells: cells }
    }

    /// A board of `size` × `size` cells of colors drawn from a generator
    /// seeded by the low 32 bits of `id`: cell `i` (row-major) has the `i`-th
    /// color drawn, so the same `id` gives the same board.
    pub fn deterministic_random(size: u8, id: u64) -> (r: Board)
        requires
            size >= 1,
        ensures
            r.wf(),
            r.side() == size,
            forall|i: int|
                0 <= i < r.tags().len() ==> #[trigger] r.tags()[i] == seeded_draw(seed_of(id), NUM_COLORS, i as nat),
    {
        proof {
            lemma_square_bound(size as int);
        }
        let w = (id & 0xffff_ffffu64) as u32;
        let seed = [w, w.wrapping_add(42), w.wrapping_add(27), w.wrapping_add(1337)];
        assert(seed@ =~= seed_of(id));
        let mut rng = SeededRng::new(seed, NUM_COLORS);
        let n: usize = (size as usize) * (size as usize);
        let mut cells: Vec<Color> = Vec::new();
        while cells.len() < n
            invariant
                cells.len() <= n,
                rng.seed() == seed_of(id),
                rng.bound() == NUM_COLORS,
                rng.drawn() == cells.len(),
                forall|i: int| 0 <= i < cells.len() ==> #[trigger] cells@[i].tag < NUM_COLORS,
                forall|i: int|
                    0 <= i < cells.len() ==> #[trigger] cells@[i].tag == seeded_draw(seed_of(id), NUM_COLORS, i as nat),
            decreases n - cells.len(),
        {
            cells.push(Color::new(rng.next()));
        }
        let r = Board { size: size, cells: cells };
        assert forall|i: int| 0 <= i < r.tags().len() implies #[trigger] r.tags()[i] == seeded_draw(
            seed_of(id),
            NUM_COLORS,
            i as nat,
        ) by {
            assert(r.tags()[i] == cells@[i].tag);
        }
        r
    }

    pub fn size(&self) -> (r: u8)
        ensures
            r == self.side(),
    {
        self.size
    }

    /// The `n`-th of the 6^(size²) boards of side `size`: cell `i` (row-major)
    /// has the `i`-th base-6 digit of `n` as its color.
    pub fn permutation(size: u8, n: u64) -> (r: Board)
        requires
            size >= 1,
        ensures
            r.wf(),
            r.side() == size,
            forall|i: int| 0 <= i < r.tags().len() ==> #[trigger] r.tags()[i] == digit6(n, i as nat),
    {
        proof {
            lemma_square_bound(size as int);
        }
        let total: usize = (size as usize) * (size as usize);
        let mut cells: Vec<Color> = Vec::new();
        let mut rest: u64 = n;
                while cells.len() < total
            invariant
                cells.len() <= total,
                forall|i: int| 0 <= i < cells.len() ==> #[trigger] cells@[i].tag == digit6(n, i as nat),
                forall|j: nat| #[trigger] digit6(rest, j) == digit6(n, (j + cells.len()) as nat),
            decreases total - cells.len(),
        {
            let ghost k = cells.len();
            assert(digit6(rest, 0) == digit6(n, k as nat));
            cells.push(Color::new((rest % 6) as u8));
            let ghost old_rest = rest;
            rest = rest / 6;
            assert forall|j: nat| #[trigger] digit6(rest, j) == digit6(n, (j + cells.len()) as nat) by {
                assert(digit6(old_rest, (j + 1) as nat) == digit6(n, (j + 1 + k) as nat));
            }
        }
        let r = Board { size: size, cells: cells };
        assert forall|i: int| 0 <= i < r.tags().len() implies #[trigger] r.tags()[i] < NUM_COLORS by {
            assert(r.tags()[i] == cells@[i].tag);
            assert(cells@[i].tag == digit6(n, i as nat));
            lemma_digit_bound(n, i as nat);
        }
        r
    }

    /// The color of cell `(x, y)`.
    pub fn at(&self, x: u8, y: u8) -> (r: Color)
        requires
            self.wf(),
            x < self.side(),
            y < self.side(),
        ensures
            r.tag == self.tag_of((x as int, y as int)),
    {
        proof {
            lemma_cell_index(self.side(), x as int, y as int);
        }
        self.cells[(y as usize) * (self.size as usize) + (x as usize)]
    }

    fn set_at(&mut self, x: u8, y: u8, c: Color)
        requires
            old(self).wf(),
            x < old(self).side(),
            y < old(self).side(),
            c.is_valid(),
        ensures
            final(self).wf(),
            final(self).side() == old(self).side(),
            final(self).tags() == old(self).tags().update(
                cell_index(old(self).side(), x as int, y as int),
                c.tag,
            ),
    {
        proof {
            lemma_cell_index(self.side(), x as int, y as int);
        }
        let i = (y as usize) * (self.size as usize) + (x as usize);
        self.cells.set(i, c);
        assert(self.tags() =~= old(self).tags().update(i as int, c.tag));
    }

    /// Whether all cells share one color.
    pub fn is_drenched(&self) -> (r: bool)
        requires
            self.wf(),
        ensures
            r == is_uniform(self.tags()),
    {
        proof {
            lemma_square_bound(self.side());
        }
        let first = self.cells[0].tag;
        let mut i: usize = 0;
        while i < self.cells.len()
            invariant
                self.wf(),
                first == self.tags()[0],
                i <= self.cells.len(),
                forall|j: int| 0 <= j < i ==> #[trigger] self.tags()[j] == first,
            decreases self.cells.len() - i,
        {
            if self.cells[i].tag != first {
                assert(self.tags()[i as int] != self.tags()[0]);
                return false;
            }
            i = i + 1;
        }
        true
    }

    /// The island of the top-left cell, and the cells outside it that touch
    /// it. Each list names every such cell once, in no particular order.
    pub fn field_coords(&self) -> (r: (Vec<(u8, u8)>, Vec<(u8, u8)>))
        requires
            self.wf(),
        ensures
            forall|k: int| 0 <= k < r.0.len() ==> in_island(self.side(), self.tags(), (0, 0), #[trigger] pt(r.0@[k])),
            forall|p: (int, int)| #[trigger] in_island(self.side(), self.tags(), (0, 0), p) ==> lists(r.0@, p),
            forall|k: int|
                0 <= k < r.1.len() ==> on_border(self.side(), self.tags(), (0, 0), #[trigger] pt(r.1@[k])),
            forall|p: (int, int)| #[trigger] on_border(self.side(), self.tags(), (0, 0), p) ==> lists(r.1@, p),
            r.0@.no_duplicates(),
            r.1@.no_duplicates(),
    {
        assert(pt((0u8, 0u8)) == (0int, 0int));
        get_island(self, (0, 0))
    }

    /// Drenches the board with `new`: the island of the top-left cell takes
    /// color `new`.
    pub fn drench(&mut self, new: Color)
        requires
            old(self).wf(),
            new.is_valid(),
        ensures
            final(self).wf(),
            final(self).side() == old(self).side(),
            final(self).tags() == recolor(old(self).side(), old(self).tags(), new.tag),
    {
        let ghost side = self.side();
        let ghost tags0 = self.tags();
        proof {
            lemma_square_bound(side);
        }
        if new.tag != self.at(0, 0).tag {
            let (owned, _) = self.field_coords();
            let mut k: usize = 0;
            while k < owned.len()
                invariant
                    self.wf(),
                    self.side() == side,
                    new.is_valid(),
                    0 <= k <= owned.len(),
                    forall|j: int| 0 <= j < owned.len() ==> in_island(side, tags0, (0, 0), #[trigger] pt(owned@[j])),
                    forall|p: (int, int)| in_grid(side, p) ==> #[trigger] tag_at(side, self.tags(), p) == if lists(owned@.take(k as int), p) {
                        new.tag
                    } else {
                        tag_at(side, tags0, p)
                    },
                decreases owned.len() - k,
            {
                let (x, y) = owned[k];
                proof {
                    lemma_island_cell(side, tags0, (0, 0), pt(owned@[k as int]));
                }
                let ghost before = self.tags();
                self.set_at(x, y, new);
                proof {
                    lemma_lists_push(owned@.take(k as int), owned@[k as int]);
                    assert(owned@.take(k + 1) =~= owned@.take(k as int).push(owned@[k as int]));
                    lemma_cell_index(side, x as int, y as int);
                    assert forall|p: (int, int)| in_grid(side, p) implies #[trigger] tag_at(side, self.tags(), p) == if lists(owned@.take(k + 1), p) {
                        new.tag
                    } else {
                        tag_at(side, tags0, p)
                    } by {
                        lemma_cell_index(side, p.0, p.1);
                        assert(tag_at(side, before, p) == if lists(owned@.take(k as int), p) {
                            new.tag
                        } else {
                            tag_at(side, tags0, p)
                        });
                        assert(lists(owned@.take(k + 1), p) == (lists(owned@.take(k as int), p) || pt(owned@[k as int]) == p));
                    }
                }
                k = k + 1;
            }
            proof {
                assert(owned@.take(owned.len() as int) =~= owned@);
                assert forall|i: int| 0 <= i < self.tags().len() implies #[trigger] self.tags()[i] == recolor(side, tags0, new.tag)[i] by {
                    lemma_cell_of(side, i);
                    let p = cell_of(side, i);
                    assert(tag_at(side, self.tags(), p) == self.tags()[i]);
                }
                assert(self.tags() =~= recolor(side, tags0, new.tag));
            }
        } else {
            proof {
                assert forall|i: int| 0 <= i < tags0.len() implies #[trigger] tags0[i] == recolor(side, tags0, new.tag)[i] by {
                    lemma_cell_of(side, i);
                    let p = cell_of(side, i);
                    if in_island(side, tags0, (0, 0), p) {
                        lemma_island_cell(side, tags0, (0, 0), p);
                        lemma_cell_index(side, 0, 0);
                    }
                }
                assert(tags0 =~= recolor(side, tags0, new.tag));
            }
        }
    }

    /// The colors of the cells that touch the island of the top-left cell,
    /// by ascending tag, each once.
    pub fn adjacent_colors(&self) -> (r: Vec<Color>)
        requires
            self.wf(),
        ensures
            forall|k: int| 0 <= k < r.len() ==> self.border_color(#[trigger] r@[k].tag),
            forall|p: (int, int)| #[trigger] on_border(self.side(), self.tags(), (0, 0), p) ==> exists|k: int|
                0 <= k < r.len() && r@[k].tag == self.tag_of(p),
            forall|k: int, l: int| 0 <= k < l < r.len() ==> r@[k].tag < r@[l].tag,
    {
        let (_, border) = self.field_coords();
        let mut colors = ColorSet::new();
        let mut k: usize = 0;
        while k < border.len()
            invariant
                self.wf(),
                k <= border.len(),
                forall|j: int| 0 <= j < border.len() ==> on_border(self.side(), self.tags(), (0, 0), #[trigger] pt(border@[j])),
                forall|t: int| #[trigger] colors@.contains(t) <==> exists|j: int| 0 <= j < k && self.tag_of(pt(border@[j])) == t,
            decreases border.len() - k,
        {
            let (x, y) = border[k];
            assert(on_border(self.side(), self.tags(), (0, 0), pt(border@[k as int])));
            let c = self.at(x, y);
            proof {
                lemma_cell_index(self.side(), x as int, y as int);
            }
            let ghost before = colors@;
            colors.set(c);
            proof {
                assert forall|t: int| #[trigger] colors@.contains(t) <==> exists|j: int| 0 <= j < k + 1 && self.tag_of(pt(border@[j])) == t by {
                    if colors@.contains(t) && t != c.tag {
                        assert(before.contains(t));
                    }
                    if exists|j: int| 0 <= j < k + 1 && self.tag_of(pt(border@[j])) == t {
                        let j = choose|j: int| 0 <= j < k + 1 && self.tag_of(pt(border@[j])) == t;
                        if j < k {
                            assert(before.contains(t));
                        }
                    }
                }
            }
            k = k + 1;
        }
        let r = colors.colors();
        proof {
            assert forall|k: int| 0 <= k < r.len() implies self.border_color(#[trigger] r@[k].tag) by {
                assert(colors@.contains(r@[k].tag as int));
                let j = choose|j: int| 0 <= j < border.len() && self.tag_of(pt(border@[j])) == r@[k].tag as int;
                assert(on_border(self.side(), self.tags(), (0, 0), pt(border@[j])));
                assert(r@[k].tag == self.tag_of(pt(border@[j])));
            }
            assert forall|p: (int, int)| #[trigger] on_border(self.side(), self.tags(), (0, 0), p) implies exists|k: int|
                0 <= k < r.len() && r@[k].tag == self.tag_of(p) by {
                let j = choose|j: int| 0 <= j < border.len() && #[trigger] pt(border@[j]) == p;
                assert(colors@.contains(self.tag_of(p) as int));
            }
        }
        r
    }
}

/// A base-6 digit is a color tag.
proof fn lemma_digit_bound(n: u64, i: nat)
    ensures
        digit6(n, i) < 6,
    decreases i,
{
    if i > 0 {
        lemma_digit_bound(n / 6, (i - 1) as nat);
    }
}

} // verus!
