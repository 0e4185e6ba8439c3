//! Small containers used by the solvers: a set of colors and a per-cell map.
use vstd::prelude::*;
use crate::color::{Color, NUM_COLORS};

verus! {

proof fn lemma_u8_bit_set(d: u8, t: u8, j: u8)
    requires
        t < 8,
        j < 8,
    ensures
        ((d | (1u8 << t)) >> j) & 1u8 == 1u8 <==> (j == t || (d >> j) & 1u8 == 1u8),
{
    assert(((d | (1u8 << t)) >> j) & 1u8 == 1u8 <==> (j == t || (d >> j) & 1u8 == 1u8))
        by (bit_vector)
        requires
            t < 8,
            j < 8,
    ;
}

/// A set of colors, one bit per color tag.
pub struct ColorSet {
    data: u8,
}

impl View for ColorSet {
    type V = Set<int>;

    closed spec fn view(&self) -> Set<int> {
        Set::new(|t: int| 0 <= t < 6 && (self.data >> (t as u8)) & 1u8 == 1u8)
    }
}

impl ColorSet {
    pub fn new() -> (r: Self)
        ensures
            r@ == Set::<int>::empty(),
    {
        let r = ColorSet { data: 0 };
        assert forall|t: u8| t < 8 implies (0u8 >> t) & 1u8 != 1u8 by {
            assert((0u8 >> t) & 1u8 != 1u8) by (bit_vector);
        }
        assert(r@ =~= Set::<int>::empty());
        r
    }

    pub fn set(&mut self, c: Color)
        requires
            c.is_valid(),
        ensures
            final(self)@ == old(self)@.insert(c.tag as int),
    {
        let ghost d = self.data;
        let ghost before = self@;
        self.data = self.data | (1u8 << c.tag);
        assert forall|t: int| #[trigger] self@.contains(t) == before.insert(c.tag as int).contains(t) by {
            if 0 <= t < 6 {
                lemma_u8_bit_set(d, c.tag, t as u8);
            }
        }
        assert(self@ =~= before.insert(c.tag as int));
    }

    pub fn is_set(&self, c: Color) -> (r: bool)
        requires
            c.is_valid(),
        ensures
            r == self@.contains(c.tag as int),
    {
        let d = self.data;
        let t = c.tag;
        assert((d & (1u8 << t) != 0) <==> (d >> t) & 1u8 == 1u8) by (bit_vector)
            requires
                t < 8,
        ;
        d & (1u8 << t) != 0
    }

    pub fn clear(&mut self)
        ensures
            final(self)@ == Set::<int>::empty(),
    {
        *self = ColorSet::new();
    }

    /// The colors in the set, by ascending tag.
    pub fn colors(&self) -> (r: Vec<Color>)
        ensures
            forall|k: int| 0 <= k < r.len() ==> self@.contains(#[trigger] r@[k].tag as int),
            forall|t: int| #[trigger] self@.contains(t) ==> exists|k: int|
                0 <= k < r.len() && r@[k].tag == t,
            forall|k: int, l: int| 0 <= k < l < r.len() ==> r@[k].tag < r@[l].tag,
    {
        let mut out: Vec<Color> = Vec::new();
        let mut t: u8 = 0;
        while t < NUM_COLORS
            invariant
                t <= NUM_COLORS,
                forall|k: int| 0 <= k < out.len() ==> self@.contains(#[trigger] out@[k].tag as int),
                forall|k: int| 0 <= k < out.len() ==> #[trigger] out@[k].tag < t,
                forall|j: int| 0 <= j < t && #[trigger] self@.contains(j) ==> exists|k: int|
                    0 <= k < out.len() && out@[k].tag == j,
                forall|k: int, l: int| 0 <= k < l < out.len() ==> out@[k].tag < out@[l].tag,
            decreases NUM_COLORS - t,
        {
            let ghost prev = out@;
            if self.is_set(Color::new(t)) {
                out.push(Color::new(t));
            }
            proof {
                assert forall|j: int| 0 <= j < t + 1 && #[trigger] self@.contains(j) implies exists|k: int|
                    0 <= k < out.len() && out@[k].tag == j by {
                    if j == t {
                        assert(out@[out.len() - 1].tag == j);
                    } else {
                        let k = choose|k: int| 0 <= k < prev.len() && prev[k].tag == j;
                        assert(out@[k].tag == j);
                    }
                }
            }
            t = t + 1;
        }
        proof {
            assert forall|j: int| #[trigger] self@.contains(j) implies exists|k: int|
                0 <= k < out.len() && out@[k].tag == j by {
                assert(0 <= j < 6);
            }
        }
        out
    }
}

/// Index of the cell `(x, y)` in the row-major cell sequence of a square of
/// side `side`.
pub open spec fn cell_index(side: int, x: int, y: int) -> int {
    y * side + x
}

/// Cell indices of a square are in range and tell cells apart.
pub proof fn lemma_cell_index(side: int, x: int, y: int)
    requires
        0 <= x < side,
        0 <= y < side,
    ensures
        0 <= cell_index(side, x, y) < side * side,
        side <= 255 ==> side * side <= 65025,
        forall|x2: int, y2: int|
            0 <= x2 < side && 0 <= y2 < side && #[trigger] cell_index(side, x2, y2) == cell_index(
                side,
                x,
                y,
            ) ==> x2 == x && y2 == y,
{
    assert(0 <= y * side + x < side * side) by (nonlinear_arith)
        requires
            0 <= x < side,
            0 <= y < side,
    ;
    lemma_square_bound(side);
    assert forall|x2: int, y2: int|
        0 <= x2 < side && 0 <= y2 < side && #[trigger] cell_index(side, x2, y2) == cell_index(
            side,
            x,
            y,
        ) implies x2 == x && y2 == y by {
        if y2 < y {
            assert(y2 * side + x2 < y * side + x) by (nonlinear_arith)
                requires
                    0 <= x2 < side,
                    0 <= x,
                    y2 < y,
            ;
        } else if y < y2 {
            assert(y * side + x < y2 * side + x2) by (nonlinear_arith)
                requires
                    0 <= x < side,
                    0 <= x2,
                    y < y2,
            ;
        }
    }
}

/// The square of a side that fits in a byte is at most 65025.
pub proof fn lemma_square_bound(side: int)
    ensures
        0 <= side <= 255 ==> 0 <= side * side <= 65025,
        1 <= side ==> side <= side * side,
{
    if 1 <= side {
        assert(side <= side * side) by (nonlinear_arith)
            requires
                1 <= side,
        ;
    }
    if 0 <= side <= 255 {
        assert(side * side <= 255 * 255) by (nonlinear_arith)
            requires
                0 <= side <= 255,
        ;
    }
}

/// A value for each cell of a square board, addressed by `(x, y)`.
pub struct CellMap<T> {
    size: u8,
    cells: Vec<T>,
}

impl<T> CellMap<T> {
    /// Side length of the square.
    pub closed spec fn side(&self) -> int {
        self.size as int
    }

    /// The values in row-major order.
    pub closed spec fn values(&self) -> Seq<T> {
        self.cells@
    }

    pub open spec fn wf(&self) -> bool {
        self.values().len() == self.side() * self.side()
    }

    /// The value at `(x, y)`.
    pub open spec fn value_at(&self, x: int, y: int) -> T {
        self.values()[cell_index(self.side(), x, y)]
    }

    pub fn new(size: u8, obj: T) -> (r: Self) where T: Clone
        ensures
            r.wf(),
            r.side() == size,
            forall|i: int| 0 <= i < r.values().len() ==> cloned(obj, #[trigger] r.values()[i]),
    {
        proof {
            lemma_square_bound(size as int);
        }
        let n: usize = (size as usize) * (size as usize);
        CellMap { size: size, cells: vec![obj; n] }
    }

    /// A map whose every value is what `T::default()` gives.
    pub fn default(size: u8) -> (r: Self) where T: Default
        ensures
            r.wf(),
            r.side() == size,
            forall|i: int| 0 <= i < r.values().len() ==> call_ensures(T::default, (), #[trigger] r.values()[i]),
    {
        proof {
            lemma_square_bound(size as int);
        }
        let n: usize = (size as usize) * (size as usize);
        let mut cells: Vec<T> = Vec::new();
        while cells.len() < n
            invariant
                cells.len() <= n,
                forall|i: int| 0 <= i < cells.len() ==> call_ensures(T::default, (), #[trigger] cells@[i]),
            decreases n - cells.len(),
        {
            cells.push(T::default());
        }
        CellMap { size: size, cells: cells }
    }

    pub fn get(&self, x: u8, y: u8) -> (r: &T)
        requires
            self.wf(),
            x < self.side(),
            y < self.side(),
        ensures
            *r == self.value_at(x as int, y as int),
    {
        proof {
            lemma_cell_index(self.side(), x as int, y as int);
        }
        &self.cells[(y as usize) * (self.size as usize) + (x as usize)]
    }

    pub fn set(&mut self, x: u8, y: u8, v: T)
        requires
            old(self).wf(),
            x < old(self).side(),
            y < old(self).side(),
        ensures
            final(self).side() == old(self).side(),
            final(self).values() == old(self).values().update(
                cell_index(old(self).side(), x as int, y as int),
                v,
            ),
            final(self).wf(),
    {
        proof {
            lemma_cell_index(self.side(), x as int, y as int);
        }
        let i = (y as usize) * (self.size as usize) + (x as usize);
        self.cells.set(i, v);
    }
}

} // verus!
