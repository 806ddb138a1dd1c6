use vstd::prelude::*;
use std::ops::RangeInclusive;
use vstd::arithmetic::div_mod::lemma_fundamental_div_mod_converse;

verus! {

/// A position on the board, 0-based, `x` the column and `y` the row.
#[derive(Debug, Clone, Copy, PartialEq, Eq, Hash, Structural)]
pub struct Coord {
    pub x: u8,
    pub y: u8,
}

impl Coord {
    pub fn new(x: u8, y: u8) -> (r: Self)
        ensures
            r.x == x,
            r.y == y,
    {
        Self { x, y }
    }

    /// Both components lie in `0..size`.
    pub open spec fn in_bounds(self, size: int) -> bool {
        self.x < size && self.y < size
    }
}

/// The index of the cell at `c` in a row-major board of the given width.
pub open spec fn index_of(size: int, c: Coord) -> int {
    c.x + size * c.y
}


/// A square on the board with its digit, its remaining candidates, and
/// whether the digit was part of the puzzle.
#[derive(Debug)]
pub struct Cell {
    pub coord: Coord,
    pub candidates: Vec<u8>,
    pub value: Option<u8>,
    pub is_given: bool,
}

impl Cell {
    /// The cell has no value yet.
    pub fn is_empty(&self) -> (r: bool)
        ensures
            r == self.value.is_none(),
    {
        self.value.is_none()
    }

    /// `v` is still possible for this cell.
    pub open spec fn has_candidate(self, v: u8) -> bool {
        self.candidates@.contains(v)
    }

    /// Candidates are distinct digits of `1..=size`, and a solved cell has none.
    pub open spec fn wf(self, size: int) -> bool {
        &&& self.coord.in_bounds(size)
        &&& self.candidates@.no_duplicates()
        &&& self.candidates.len() <= size
        &&& forall|k: int| 0 <= k < self.candidates.len() ==> 1 <= #[trigger] self.candidates@[k] <= size
        &&& self.value.is_some() ==> self.candidates.len() == 0
    }
}

/// The claim that the cell at `coord` holds `value`.
pub struct Solution {
    pub coord: Coord,
    pub value: u8,
}

impl Solution {
    pub fn new(coord: Coord, value: u8) -> (r: Self)
        ensures
            r.coord == coord,
            r.value == value,
    {
        Self { coord, value }
    }
}

/// The claim that the cell at `coord` cannot hold `candidate`.
pub struct Reduction {
    pub coord: Coord,
    pub candidate: u8,
}

impl Reduction {
    pub fn new(coord: Coord, candidate: u8) -> (r: Self)
        ensures
            r.coord == coord,
            r.candidate == candidate,
    {
        Self { coord, candidate }
    }
}

/// The row at height `y`.
#[derive(Debug, Clone, Copy, PartialEq, Eq, Structural)]
pub struct Row {
    pub y: u8,
}

/// The column at offset `x`.
#[derive(Debug, Clone, Copy, PartialEq, Eq, Structural)]
pub struct Column {
    pub x: u8,
}

/// A block of `size` by `size` cells whose upper left cell is `top_left`.
#[derive(Debug, Clone, Copy, PartialEq, Eq, Structural)]
pub struct Square {
    pub size: u8,
    pub top_left: Coord,
}

/// The shape of a region.
#[derive(Debug, Clone, Copy, PartialEq, Eq, Structural)]
pub enum RegionKind {
    Row(Row),
    Column(Column),
    Square(Square),
}

impl RegionKind {
    /// The shape lies inside a board of width `size`.
    pub open spec fn fits(self, size: int) -> bool {
        match self {
            RegionKind::Row(r) => r.y < size,
            RegionKind::Column(c) => c.x < size,
            RegionKind::Square(s) => s.top_left.x + s.size <= size && s.top_left.y + s.size <= size,
        }
    }

    /// How many cells the shape covers on a board of width `size`.
    pub open spec fn member_count(self, size: int) -> int {
        match self {
            RegionKind::Square(s) => s.size * s.size,
            _ => size,
        }
    }

    /// `c` belongs to the shape on a board of width `size`.
    pub open spec fn covers(self, size: int, c: Coord) -> bool {
        match self {
            RegionKind::Row(r) => c.y == r.y && c.x < size,
            RegionKind::Column(col) => c.x == col.x && c.y < size,
            RegionKind::Square(s) => s.top_left.x <= c.x < s.top_left.x + s.size && s.top_left.y
                <= c.y < s.top_left.y + s.size,
        }
    }
}

/// A row, column or block, with its member coordinates computed once.
#[derive(Debug, Clone)]
pub struct Region {
    pub kind: RegionKind,
    pub coords: Vec<Coord>,
}

impl Region {
    /// The member coordinates, in the order in which they were computed.
    pub open spec fn members(self) -> Seq<Coord> {
        self.coords@
    }

    /// `c` is a member of the region.
    pub open spec fn has(self, c: Coord) -> bool {
        self.members().contains(c)
    }

    /// The members are exactly the coordinates that the kind covers, each once.
    pub open spec fn wf(self, size: int) -> bool {
        &&& self.kind.fits(size)
        &&& self.members().no_duplicates()
        &&& self.members().len() == self.kind.member_count(size)
        &&& forall|c: Coord| #[trigger] self.has(c) <==> self.kind.covers(size, c)
        &&& row_major(size, self.members())
    }

    /// The region of the given shape, with its members computed from the
    /// board's width.
    pub fn new(kind: RegionKind, grid: &Grid) -> (r: Self)
        requires
            kind.fits(grid.size as int),
        ensures
            r.kind == kind,
            r.wf(grid.size as int),
    {
        let mut region = Self { kind, coords: Vec::new() };
        region.compute_coords(grid);
        region
    }

    pub(crate) fn contains(&self, cell: &Cell) -> (r: bool)
        ensures
            r == self.has(cell.coord),
    {
        self.contains_coord(&cell.coord)
    }

    pub(crate) fn contains_coord(&self, coord: &Coord) -> (r: bool)
        ensures
            r == self.has(*coord),
    {
        coords_contain(&self.coords, coord)
    }

    /// Every coordinate of `coords` is a member.
    fn contains_coords(&self, coords: &Vec<Coord>) -> (r: bool)
        ensures
            r == forall|k: int| 0 <= k < coords@.len() ==> self.has(#[trigger] coords@[k]),
    {
        let mut k: usize = 0;
        while k < coords.len()
            invariant
                k <= coords.len(),
                forall|j: int| 0 <= j < k ==> self.has(#[trigger] coords@[j]),
            decreases coords.len() - k,
        {
            if !self.contains_coord(&coords[k]) {
                return false;
            }
            k += 1;
        }
        true
    }

    /// The members whose cell still lists `candidate`, in member order.
    pub fn cells_with_candidate(&self, grid: &Grid, candidate: u8) -> (r: Vec<Coord>)
        requires
            grid.wf(),
            self.wf(grid.size as int),
        ensures
            r@.no_duplicates(),
            forall|c: Coord| #[trigger] r@.contains(c) <==> (self.has(c) && grid.cell(c).has_candidate(candidate)),
    {
        let cells = grid.cells_for_region(self);
        let mut coords: Vec<Coord> = Vec::new();
        let mut k: usize = 0;
        while k < cells.len()
            invariant
                grid.wf(),
                self.wf(grid.size as int),
                k <= cells@.len(),
                cells@.len() == self.members().len(),
                forall|j: int| 0 <= j < cells@.len() ==> *cells@[j] == grid.cell(#[trigger] self.members()[j]),
                coords@.no_duplicates(),
                forall|c: Coord| #[trigger] coords@.contains(c) <==> (self.members().take(k as int).contains(c)
                    && grid.cell(c).has_candidate(candidate)),
            decreases cells@.len() - k,
        {
            let cell = cells[k];
            let ghost m = self.members();
            proof {
                assert(self.has(m[k as int]));
                grid.lemma_cell(m[k as int]);
                assert(m.take(k + 1) == m.take(k as int).push(m[k as int]));
                lemma_push_fresh(m.take(k as int), m[k as int]);
                if m.take(k as int).contains(m[k as int]) {
                    let j = choose|j: int| 0 <= j < k && m.take(k as int)[j] == m[k as int];
                    assert(m[j] == m[k as int]);
                }
            }
            if vec_contains(&cell.candidates, candidate) {
                proof {
                    lemma_push_fresh(coords@, cell.coord);
                }
                coords.push(cell.coord);
            }
            k += 1;
        }
        proof {
            assert(self.members().take(k as int) == self.members());
        }
        coords
    }

    /// The member coordinates.
    pub fn cell_coords(&self) -> (r: Vec<Coord>)
        ensures
            r@ == self.members(),
    {
        self.coords.clone()
    }

    fn compute_coords(&mut self, grid: &Grid)
        requires
            old(self).coords.len() == 0,
            old(self).kind.fits(grid.size as int),
        ensures
            final(self).kind == old(self).kind,
            final(self).wf(grid.size as int),
    {
        let size = grid.size;
        match self.kind {
            RegionKind::Row(row) => {
                let mut x: u8 = 0;
                while x < size
                    invariant
                        x <= size,
                        self.coords.len() == x,
                        self.kind == RegionKind::Row(row),
                        self.coords@.no_duplicates(),
                        row_major(size as int, self.coords@),
                        forall|c: Coord| #[trigger] self.coords@.contains(c) <==> (c.y == row.y && c.x < x),
                    decreases size - x,
                {
                    let c = Coord { x, y: row.y };
                    proof {
                        lemma_push_fresh(self.coords@, c);
                        assert forall|i: int| 0 <= i < self.coords.len() implies index_of(size as int, #[trigger] self.coords@[i])
                            < index_of(size as int, c) by {
                            assert(self.coords@.contains(self.coords@[i]));
                            lemma_row_major(size as int, self.coords@[i], c);
                        }
                        lemma_push_sorted(size as int, self.coords@, c);
                    }
                    self.coords.push(c);
                    x += 1;
                }
            },
            RegionKind::Column(column) => {
                let mut y: u8 = 0;
                while y < size
                    invariant
                        y <= size,
                        self.coords.len() == y,
                        self.kind == RegionKind::Column(column),
                        column.x < size,
                        self.coords@.no_duplicates(),
                        row_major(size as int, self.coords@),
                        forall|c: Coord| #[trigger] self.coords@.contains(c) <==> (c.x == column.x && c.y < y),
                    decreases size - y,
                {
                    let c = Coord { x: column.x, y };
                    proof {
                        lemma_push_fresh(self.coords@, c);
                        assert forall|i: int| 0 <= i < self.coords.len() implies index_of(size as int, #[trigger] self.coords@[i])
                            < index_of(size as int, c) by {
                            assert(self.coords@.contains(self.coords@[i]));
                            lemma_row_major(size as int, self.coords@[i], c);
                        }
                        lemma_push_sorted(size as int, self.coords@, c);
                    }
                    self.coords.push(c);
                    y += 1;
                }
            },
            RegionKind::Square(subgrid) => {
                let tl = subgrid.top_left;
                let s = subgrid.size;
                let mut y: u8 = 0;
                while y < s
                    invariant
                        y <= s,
                        self.coords.len() == y * s,
                        tl.x + s <= size,
                        tl.y + s <= size,
                        self.kind == RegionKind::Square(subgrid),
                        subgrid.top_left == tl,
                        subgrid.size == s,
                        self.coords@.no_duplicates(),
                        row_major(size as int, self.coords@),
                        forall|c: Coord| #[trigger] self.coords@.contains(c) <==> (tl.x <= c.x < tl.x + s
                            && tl.y <= c.y < tl.y + y),
                    decreases s - y,
                {
                    let mut x: u8 = 0;
                    while x < s
                        invariant
                            x <= s,
                            y < s,
                            self.coords.len() == y * s + x,
                            tl.x + s <= size,
                            tl.y + s <= size,
                            self.kind == RegionKind::Square(subgrid),
                            self.coords@.no_duplicates(),
                            row_major(size as int, self.coords@),
                        row_major(size as int, self.coords@),
                            forall|c: Coord| #[trigger] self.coords@.contains(c) <==> ((tl.x <= c.x < tl.x + s
                                && tl.y <= c.y < tl.y + y) || (c.y == tl.y + y && tl.x <= c.x < tl.x + x)),
                        decreases s - x,
                    {
                        let c = Coord { x: tl.x + x, y: tl.y + y };
                        proof {
                        lemma_push_fresh(self.coords@, c);
                        assert forall|i: int| 0 <= i < self.coords.len() implies index_of(size as int, #[trigger] self.coords@[i])
                            < index_of(size as int, c) by {
                            assert(self.coords@.contains(self.coords@[i]));
                            lemma_row_major(size as int, self.coords@[i], c);
                        }
                        lemma_push_sorted(size as int, self.coords@, c);
                    }
                        self.coords.push(c);
                        x += 1;
                    }
                    assert(y * s + s == (y + 1) * s) by (nonlinear_arith);
                    y += 1;
                }
            },
        }
    }
}

/// Appending a value adds exactly that value, and keeps a sequence free of
/// duplicates when the value is new.
pub proof fn lemma_push_fresh<A>(s: Seq<A>, a: A)
    ensures
        forall|d: A| #[trigger] s.push(a).contains(d) <==> (s.contains(d) || d == a),
        s.no_duplicates() && !s.contains(a) ==> s.push(a).no_duplicates(),
{
    assert forall|d: A| #[trigger] s.push(a).contains(d) <==> (s.contains(d) || d == a) by {
        if s.contains(d) {
            let k = choose|k: int| 0 <= k < s.len() && s[k] == d;
            assert(s.push(a)[k] == d);
        }
        if d == a {
            assert(s.push(a)[s.len() as int] == d);
        }
        if s.push(a).contains(d) {
            let k = choose|k: int| 0 <= k < s.len() + 1 && s.push(a)[k] == d;
            if k < s.len() {
                assert(s[k] == d);
            }
        }
    }
    if s.no_duplicates() && !s.contains(a) {
        assert forall|i: int, j: int| 0 <= i < s.len() + 1 && 0 <= j < s.len() + 1 && i != j implies
            s.push(a)[i] != s.push(a)[j] by {
            if i < s.len() && j == s.len() {
                assert(s.contains(s[i]));
            }
            if j < s.len() && i == s.len() {
                assert(s.contains(s[j]));
            }
        }
    }
}

/// The digits `1..=size`, each once, in increasing order.
fn full_candidates(size: u8) -> (r: Vec<u8>)
    ensures
        r@.no_duplicates(),
        r@.len() == size,
        forall|v: u8| #[trigger] r@.contains(v) <==> 1 <= v <= size,
{
    let mut out: Vec<u8> = Vec::new();
    let mut v: u16 = 1;
    while v <= size as u16
        invariant
            1 <= v,
            v <= size + 1,
            out@.len() == v - 1,
            out@.no_duplicates(),
            forall|w: u8| #[trigger] out@.contains(w) <==> 1 <= w < v,
        decreases size + 1 - v,
    {
        proof {
            lemma_push_fresh(out@, v as u8);
        }
        out.push(v as u8);
        v += 1;
    }
    out
}

/// `coord` occurs in `coords`.
pub fn coords_contain(coords: &Vec<Coord>, coord: &Coord) -> (r: bool)
    ensures
        r == coords@.contains(*coord),
{
    let mut i: usize = 0;
    while i < coords.len()
        invariant
            0 <= i <= coords.len(),
            forall|k: int| 0 <= k < i ==> coords@[k] != *coord,
        decreases coords.len() - i,
    {
        if coords[i] == *coord {
            return true;
        }
        i += 1;
    }
    false
}

/// `v` occurs in `values`.
pub fn vec_contains(values: &Vec<u8>, v: u8) -> (r: bool)
    ensures
        r == values@.contains(v),
{
    let mut k: usize = 0;
    while k < values.len()
        invariant
            k <= values.len(),
            forall|j: int| 0 <= j < k ==> values@[j] != v,
        decreases values.len() - k,
    {
        if values[k] == v {
            return true;
        }
        k += 1;
    }
    false
}

/// The candidates without `v`, in the same order.
fn without(cands: &Vec<u8>, v: u8) -> (r: Vec<u8>)
    requires
        cands@.no_duplicates(),
    ensures
        r@.no_duplicates(),
        forall|w: u8| #[trigger] r@.contains(w) <==> (cands@.contains(w) && w != v),
        r@.len() == if cands@.contains(v) { cands@.len() - 1 } else { cands@.len() as int },
{
    let mut out: Vec<u8> = Vec::new();
    let mut k: usize = 0;
    while k < cands.len()
        invariant
            k <= cands.len(),
            cands@.no_duplicates(),
            out@.no_duplicates(),
            forall|w: u8| #[trigger] out@.contains(w) <==> (cands@.take(k as int).contains(w) && w != v),
            out@.len() == if cands@.take(k as int).contains(v) { k - 1 } else { k as int },
        decreases cands.len() - k,
    {
        let w = cands[k];
        proof {
            assert(cands@.take(k + 1) == cands@.take(k as int).push(w));
            lemma_push_fresh(cands@.take(k as int), w);
            if cands@.take(k as int).contains(w) {
                let j = choose|j: int| 0 <= j < k && cands@.take(k as int)[j] == w;
                assert(cands@[j] == cands@[k as int]);
            }
        }
        if w != v {
            proof {
                lemma_push_fresh(out@, w);
            }
            out.push(w);
        }
        k += 1;
    }
    proof {
        assert(cands@.take(cands.len() as int) == cands@);
    }
    out
}

/// The value that the last solution for `c` among `sols` gives, if any.
pub open spec fn solution_for(sols: Seq<Solution>, c: Coord) -> Option<u8>
    decreases sols.len(),
{
    if sols.len() == 0 {
        None
    } else if sols.last().coord == c {
        Some(sols.last().value)
    } else {
        solution_for(sols.drop_last(), c)
    }
}

/// A solution that `solution_for` finds is one of `sols`.
pub proof fn lemma_solution_for(sols: Seq<Solution>, c: Coord)
    ensures
        solution_for(sols, c) matches Some(v) ==> exists|k: int|
            0 <= k < sols.len() && (#[trigger] sols[k]).coord == c && sols[k].value == v,
        solution_for(sols, c) is None ==> forall|k: int| 0 <= k < sols.len() ==> (#[trigger] sols[k]).coord != c,
    decreases sols.len(),
{
    if sols.len() > 0 && sols.last().coord != c {
        lemma_solution_for(sols.drop_last(), c);
        if let Some(v) = solution_for(sols, c) {
            let k = choose|k: int| 0 <= k < sols.drop_last().len() && (#[trigger] sols.drop_last()[k]).coord == c
                && sols.drop_last()[k].value == v;
            assert(sols[k] == sols.drop_last()[k]);
        } else {
            assert forall|k: int| 0 <= k < sols.len() implies (#[trigger] sols[k]).coord != c by {
                if k < sols.len() - 1 {
                    assert(sols[k] == sols.drop_last()[k]);
                }
            }
        }
    } else if sols.len() > 0 {
        assert(sols[sols.len() - 1].coord == c);
    }
}

/// Why a board is not a valid solution.
#[derive(Debug, Clone, Copy, PartialEq, Eq, Structural)]
pub enum Flaw {
    /// The cell has no value.
    Unsolved,
    /// The value lies outside `1..=size`.
    OutOfRange,
    /// Another cell of one of the cell's regions holds the same value.
    Repeated,
}

/// The coordinates come in row-major order on a board of width `size`.
pub open spec fn row_major(size: int, s: Seq<Coord>) -> bool {
    forall|i: int, j: int| 0 <= i < j < s.len() ==> index_of(size, #[trigger] s[i]) < index_of(size, #[trigger] s[j])
}

/// A coordinate in an earlier row, or further left in the same row, comes
/// first in row-major order.
pub proof fn lemma_row_major(size: int, c: Coord, d: Coord)
    requires
        c.x < size,
        d.x < size,
        c.y < d.y || (c.y == d.y && c.x < d.x),
    ensures
        index_of(size, c) < index_of(size, d),
{
    if c.y < d.y {
        assert(c.x + size * c.y < d.x + size * d.y) by (nonlinear_arith)
            requires
                0 <= c.x < size,
                0 <= d.x,
                0 <= c.y < d.y,
        ;
    }
}

proof fn lemma_push_sorted(size: int, s: Seq<Coord>, c: Coord)
    requires
        row_major(size, s),
        forall|i: int| 0 <= i < s.len() ==> index_of(size, #[trigger] s[i]) < index_of(size, c),
    ensures
        row_major(size, s.push(c)),
{
    assert forall|i: int, j: int| 0 <= i < j < s.len() + 1 implies index_of(size, #[trigger] s.push(c)[i]) < index_of(
        size,
        #[trigger] s.push(c)[j],
    ) by {
        assert(s.push(c)[i] == s[i]);
        if j < s.len() {
            assert(s.push(c)[j] == s[j]);
        }
    }
}

/// The board: its width, its cells in row-major order, and its regions.
#[derive(Debug)]
pub struct Grid {
    pub size: u8,
    pub cells: Vec<Cell>,
    pub regions: Vec<Region>,
}


/// `n` has an integer square root.
pub open spec fn is_perfect_square(n: int) -> bool {
    exists|s: int| 0 <= s && #[trigger] (s * s) == n
}

/// The shape of the `k`-th block, counted row-major, on a board whose blocks
/// have side `s`.
pub open spec fn block_kind(s: int, k: int) -> RegionKind {
    RegionKind::Square(
        Square {
            size: s as u8,
            top_left: Coord { x: ((k % s) * s) as u8, y: ((k / s) * s) as u8 },
        },
    )
}

/// Returns the side of the blocks: the square root of `size`, when it is a
/// whole number.
fn subgrid_size(size: u8) -> (r: Option<u8>)
    ensures
        r matches Some(s) ==> s * s == size,
        r is None <==> !is_perfect_square(size as int),
{
    let mut s: u32 = 0;
    while s * s < size as u32
        invariant
            s <= 16,
            s * s <= 256,
            forall|t: int| 0 <= t < s ==> #[trigger] (t * t) < size,
        decreases 16 - s,
    {
        assert(s * s < 256);
        assert(s < 16) by (nonlinear_arith)
            requires
                s * s < 256,
        ;
        assert((s + 1) * (s + 1) <= 256) by (nonlinear_arith)
            requires
                s < 16,
        ;
        s += 1;
        assert forall|t: int| 0 <= t < s implies #[trigger] (t * t) < size by {
            if t == s - 1 {
            } else {
                assert(t < s - 1);
            }
        }
    }
    if s * s == size as u32 {
        Some(s as u8)
    } else {
        assert(!is_perfect_square(size as int)) by {
            if is_perfect_square(size as int) {
                let t = choose|t: int| 0 <= t && #[trigger] (t * t) == size;
                if t < s {
                } else {
                    assert(t * t >= s * s) by (nonlinear_arith)
                        requires
                            t >= s,
                            s >= 0,
                    ;
                }
            }
        }
        None
    }
}

/// Each coordinate of a board of width `size` has its own index below `size * size`.
pub proof fn lemma_index_of(size: int, c: Coord, d: Coord)
    requires
        c.in_bounds(size),
        d.in_bounds(size),
    ensures
        0 <= index_of(size, c) < size * size,
        index_of(size, c) == index_of(size, d) ==> c == d,
{
    assert(0 <= c.x + size * c.y < size * size) by (nonlinear_arith)
        requires
            0 <= c.x < size,
            0 <= c.y < size,
    ;
    if index_of(size, c) == index_of(size, d) {
        lemma_fundamental_div_mod_converse(index_of(size, c), size, c.y as int, c.x as int);
        lemma_fundamental_div_mod_converse(index_of(size, c), size, d.y as int, d.x as int);
    }
}

impl Grid {
    /// The cells lie in row-major order, each valid; the regions are valid.
    pub open spec fn wf(self) -> bool {
        &&& self.cells.len() == self.size * self.size
        &&& forall|i: int|
            0 <= i < self.cells.len() ==> (#[trigger] self.cells@[i]).wf(self.size as int)
                && index_of(self.size as int, self.cells@[i].coord) == i
        &&& forall|r: int| 0 <= r < self.regions.len() ==> (#[trigger] self.regions@[r]).wf(self.size as int)
    }

    /// The cell at `c`.
    pub open spec fn cell(self, c: Coord) -> Cell {
        self.cells@[index_of(self.size as int, c)]
    }

    /// The number of block regions that a board of this width has.
    pub open spec fn block_count(size: int) -> int {
        if is_perfect_square(size) { size } else { 0 }
    }

    pub proof fn lemma_cell(self, c: Coord)
        requires
            self.wf(),
            c.in_bounds(self.size as int),
        ensures
            0 <= index_of(self.size as int, c) < self.cells.len(),
            self.cell(c).coord == c,
    {
        lemma_index_of(self.size as int, c, c);
        let d = self.cell(c).coord;
        lemma_index_of(self.size as int, c, d);
    }

    /// An empty board of width `size`: no values, no candidates, a row and a
    /// column region for each line, and a block region per block when `size`
    /// has an integer square root.
    pub fn new(size: u8) -> (r: Self)
        ensures
            r.wf(),
            r.size == size,
            forall|i: int|
                0 <= i < r.cells.len() ==> (#[trigger] r.cells@[i]).value is None
                    && r.cells@[i].candidates.len() == 0 && !r.cells@[i].is_given,
            r.regions.len() == 2 * size + Self::block_count(size as int),
            forall|y: int|
                0 <= y < size ==> (#[trigger] r.regions@[2 * y]).kind == RegionKind::Row(Row { y: y as u8 })
                    && r.regions@[2 * y + 1].kind == RegionKind::Column(Column { x: y as u8 }),
            forall|s: int, k: int|
                0 <= s && s * s == size && 0 <= k < size ==> (#[trigger] r.regions@[2 * size + k]).kind
                    == #[trigger] block_kind(s, k),
            forall|k: int|
                0 <= k < r.regions.len() ==> ((#[trigger] r.regions@[k]).kind is Square <==> k >= 2 * size),
            forall|k: int|
                2 * size <= k < r.regions.len() ==> (#[trigger] r.regions@[k]).members().len() == size,
    {
        assert(size as usize * size as usize <= 255 * 255) by (nonlinear_arith);
        let mut grid = Grid { size, cells: Vec::with_capacity(size as usize * size as usize), regions: Vec::new() };
        let mut y: u8 = 0;
        while y < size
            invariant
                y <= size,
                grid.size == size,
                grid.cells.len() == size * y,
                grid.regions.len() == 2 * y,
                forall|i: int|
                    0 <= i < grid.cells.len() ==> (#[trigger] grid.cells@[i]).wf(size as int)
                        && index_of(size as int, grid.cells@[i].coord) == i
                        && grid.cells@[i].value is None
                        && grid.cells@[i].candidates.len() == 0 && !grid.cells@[i].is_given,
                forall|r: int| 0 <= r < grid.regions.len() ==> (#[trigger] grid.regions@[r]).wf(size as int),
                forall|t: int|
                    0 <= t < y ==> (#[trigger] grid.regions@[2 * t]).kind == RegionKind::Row(Row { y: t as u8 })
                        && grid.regions@[2 * t + 1].kind == RegionKind::Column(Column { x: t as u8 }),
            decreases size - y,
        {
            let mut x: u8 = 0;
            while x < size
                invariant
                    x <= size,
                    y < size,
                    grid.size == size,
                    grid.cells.len() == size * y + x,
                    grid.regions.len() == 2 * y,
                    forall|i: int|
                        0 <= i < grid.cells.len() ==> (#[trigger] grid.cells@[i]).wf(size as int)
                            && index_of(size as int, grid.cells@[i].coord) == i
                            && grid.cells@[i].value is None
                            && grid.cells@[i].candidates.len() == 0 && !grid.cells@[i].is_given,
                    forall|r: int| 0 <= r < grid.regions.len() ==> (#[trigger] grid.regions@[r]).wf(size as int),
                    forall|t: int|
                        0 <= t < y ==> (#[trigger] grid.regions@[2 * t]).kind == RegionKind::Row(Row { y: t as u8 })
                            && grid.regions@[2 * t + 1].kind == RegionKind::Column(Column { x: t as u8 }),
                decreases size - x,
            {
                grid.cells.push(Cell { coord: Coord { x, y }, candidates: Vec::new(), value: None, is_given: false });
                x += 1;
            }
            assert(size * y + size == size * (y + 1)) by (nonlinear_arith);
            // Since the loop runs over the width anyway, the row and column regions are set up here.
            grid.regions.push(Region::new(RegionKind::Row(Row { y }), &grid));
            grid.regions.push(Region::new(RegionKind::Column(Column { x: y }), &grid));
            y += 1;
        }
        if let Some(s) = subgrid_size(size) {
            let mut by: u8 = 0;
            while by < s
                invariant
                    by <= s,
                    s * s == size,
                    grid.size == size,
                    grid.cells.len() == size * size,
                    grid.regions.len() == 2 * size + by * s,
                    forall|i: int|
                        0 <= i < grid.cells.len() ==> (#[trigger] grid.cells@[i]).wf(size as int)
                            && index_of(size as int, grid.cells@[i].coord) == i
                            && grid.cells@[i].value is None
                            && grid.cells@[i].candidates.len() == 0 && !grid.cells@[i].is_given,
                    forall|r: int| 0 <= r < grid.regions.len() ==> (#[trigger] grid.regions@[r]).wf(size as int),
                    forall|t: int|
                        0 <= t < size ==> (#[trigger] grid.regions@[2 * t]).kind == RegionKind::Row(Row { y: t as u8 })
                            && grid.regions@[2 * t + 1].kind == RegionKind::Column(Column { x: t as u8 }),
                    forall|k: int| 0 <= k < by * s ==> (#[trigger] grid.regions@[2 * size + k]).kind == block_kind(s as int, k),
                decreases s - by,
            {
                let mut bx: u8 = 0;
                while bx < s
                    invariant
                        bx <= s,
                        by < s,
                        s * s == size,
                        grid.size == size,
                        grid.cells.len() == size * size,
                        grid.regions.len() == 2 * size + by * s + bx,
                        forall|i: int|
                            0 <= i < grid.cells.len() ==> (#[trigger] grid.cells@[i]).wf(size as int)
                                && index_of(size as int, grid.cells@[i].coord) == i
                                && grid.cells@[i].value is None
                                && grid.cells@[i].candidates.len() == 0 && !grid.cells@[i].is_given,
                        forall|r: int| 0 <= r < grid.regions.len() ==> (#[trigger] grid.regions@[r]).wf(size as int),
                        forall|t: int|
                            0 <= t < size ==> (#[trigger] grid.regions@[2 * t]).kind == RegionKind::Row(Row { y: t as u8 })
                                && grid.regions@[2 * t + 1].kind == RegionKind::Column(Column { x: t as u8 }),
                        forall|k: int| 0 <= k < by * s + bx ==> (#[trigger] grid.regions@[2 * size + k]).kind == block_kind(s as int, k),
                    decreases s - bx,
                {
                    assert(bx * s + s <= s * s && by * s + s <= s * s) by (nonlinear_arith)
                        requires
                            bx < s,
                            by < s,
                    ;
                    let kind = RegionKind::Square(Square { size: s, top_left: Coord { x: bx * s, y: by * s } });
                    proof {
                        let k = by * s + bx;
                        lemma_fundamental_div_mod_converse(k as int, s as int, by as int, bx as int);
                        assert(kind == block_kind(s as int, k as int));
                    }
                    grid.regions.push(Region::new(kind, &grid));
                    bx += 1;
                }
                assert(by * s + s == (by + 1) * s) by (nonlinear_arith);
                by += 1;
            }
            assert(is_perfect_square(size as int)) by {
                assert((s as int) * (s as int) == size);
            }
            assert(by * s == size);
            assert forall|t: int, k: int|
                0 <= t && t * t == size && 0 <= k < size implies (#[trigger] grid.regions@[2 * size + k]).kind
                    == #[trigger] block_kind(t, k) by {
                assert(t == s) by (nonlinear_arith)
                    requires
                        0 <= t,
                        t * t == s * s,
                        0 <= s,
                ;
            }
        }
        proof {
            assert forall|k: int| 0 <= k < grid.regions.len() implies ((#[trigger] grid.regions@[k]).kind is Square
                <==> k >= 2 * size) && (k >= 2 * size ==> grid.regions@[k].members().len() == size) by {
                if k < 2 * size {
                    let t = k / 2;
                    assert(k == 2 * t || k == 2 * t + 1);
                    assert(grid.regions@[2 * t].kind == RegionKind::Row(Row { y: t as u8 }));
                } else {
                    let t = choose|t: int| 0 <= t && #[trigger] (t * t) == size;
                    assert(t < 256) by (nonlinear_arith)
                        requires
                            0 <= t,
                            t * t == size,
                            size < 256,
                    ;
                    assert(grid.regions@[2 * size + (k - 2 * size)].kind == block_kind(t, k - 2 * size));
                    assert(grid.regions@[k].wf(size as int));
                }
            }
        }
        grid
    }
}

impl Grid {
    fn coord_to_cell_index(&self, coord: &Coord) -> (r: usize)
        requires
            self.wf(),
            coord.in_bounds(self.size as int),
        ensures
            r == index_of(self.size as int, *coord),
            r < self.cells.len(),
            self.cells@[r as int].coord == *coord,
    {
        proof {
            self.lemma_cell(*coord);
        }
        coord.x as usize + self.size as usize * coord.y as usize
    }

    /// Some region holds both `a` and `b`.
    pub open spec fn share_region(self, a: Coord, b: Coord) -> bool {
        exists|r: int| 0 <= r < self.regions.len() && (#[trigger] self.regions@[r]).has(a) && self.regions@[r].has(b)
    }

    /// `v` is the value of a solved cell that shares a region with `c`.
    pub open spec fn seen_from(self, c: Coord, v: u8) -> bool {
        exists|d: Coord| #[trigger] self.share_region(c, d) && self.cell(d).value == Some(v)
    }

    /// No cell lists a candidate that a solved cell in one of its regions holds.
    pub open spec fn sound(self) -> bool {
        forall|i: int, v: u8|
            0 <= i < self.cells.len() && #[trigger] self.cells@[i].has_candidate(v) ==> !self.seen_from(
                self.cells@[i].coord,
                v,
            )
    }

    /// `v` is the value of one of the first `n` members of region `r`.
    spec fn placed_in(self, r: int, n: int, v: u8) -> bool {
        exists|k: int| 0 <= k < n && #[trigger] self.cell(self.regions@[r].members()[k]).value == Some(v)
    }

    proof fn lemma_seen_from(self, c: Coord, v: u8)
        requires
            self.wf(),
        ensures
            self.seen_from(c, v) <==> exists|r: int|
                0 <= r < self.regions.len() && (#[trigger] self.regions@[r]).has(c) && self.placed_in(
                    r,
                    self.regions@[r].members().len() as int,
                    v,
                ),
    {
        if self.seen_from(c, v) {
            let d = choose|d: Coord| #[trigger] self.share_region(c, d) && self.cell(d).value == Some(v);
            let r = choose|r: int| 0 <= r < self.regions.len() && (#[trigger] self.regions@[r]).has(c) && self.regions@[r].has(d);
            let k = choose|k: int| 0 <= k < self.regions@[r].members().len() && self.regions@[r].members()[k] == d;
            assert(self.cell(self.regions@[r].members()[k]).value == Some(v));
        }
        if exists|r: int|
            0 <= r < self.regions.len() && (#[trigger] self.regions@[r]).has(c) && self.placed_in(
                r,
                self.regions@[r].members().len() as int,
                v,
            ) {
            let r = choose|r: int|
                0 <= r < self.regions.len() && (#[trigger] self.regions@[r]).has(c) && self.placed_in(
                    r,
                    self.regions@[r].members().len() as int,
                    v,
                );
            let k = choose|k: int|
                0 <= k < self.regions@[r].members().len() && #[trigger] self.cell(self.regions@[r].members()[k]).value == Some(v);
            let d = self.regions@[r].members()[k];
            assert(self.regions@[r].has(d));
            assert(self.share_region(c, d));
        }
    }

    fn grid_cell(&mut self, coord: Coord) -> (r: &mut Cell)
        requires
            old(self).wf(),
            coord.in_bounds(old(self).size as int),
        ensures
            *r == old(self).cell(coord),
            r.coord == coord,
            final(self).size == old(self).size,
            final(self).regions == old(self).regions,
            final(self).cells@ == old(self).cells@.update(index_of(old(self).size as int, coord), *final(r)),
    {
        let i = self.coord_to_cell_index(&coord);
        &mut self.cells[i]
    }

    /// Gives every unsolved cell the values of `1..=size` that no solved cell
    /// in one of its regions holds.
    pub fn compute_candidates(&mut self)
        requires
            old(self).wf(),
        ensures
            final(self).wf(),
            final(self).sound(),
            final(self).size == old(self).size,
            final(self).regions == old(self).regions,
            final(self).cells.len() == old(self).cells.len(),
            forall|i: int|
                0 <= i < old(self).cells.len() ==> (#[trigger] final(self).cells@[i]).coord == old(self).cells@[i].coord
                    && final(self).cells@[i].value == old(self).cells@[i].value
                    && final(self).cells@[i].is_given == old(self).cells@[i].is_given,
            forall|i: int|
                0 <= i < old(self).cells.len() && old(self).cells@[i].value is Some ==> (#[trigger] final(self).cells@[i]).candidates == old(self).cells@[i].candidates,
            forall|i: int, v: u8|
                0 <= i < old(self).cells.len() && old(self).cells@[i].value is None ==> (#[trigger] final(self).cells@[i].has_candidate(v) <==> (1 <= v <= old(self).size && !old(self).seen_from(
                    old(self).cells@[i].coord,
                    v,
                ))),
    {
        let ghost g0 = *self;
        let n = self.cells.len();
        let mut i: usize = 0;
        while i < n
            invariant
                g0.wf(),
                n == g0.cells.len(),
                0 <= i <= n,
                self.size == g0.size,
                self.regions == g0.regions,
                self.cells.len() == n,
                forall|j: int|
                    0 <= j < n ==> (#[trigger] self.cells@[j]).coord == g0.cells@[j].coord
                        && self.cells@[j].value == g0.cells@[j].value
                        && self.cells@[j].is_given == g0.cells@[j].is_given
                        && self.cells@[j].wf(g0.size as int),
                forall|j: int|
                    i <= j < n || (0 <= j < n && g0.cells@[j].value is Some) ==> (#[trigger] self.cells@[j]).candidates
                        == g0.cells@[j].candidates,
                forall|j: int, v: u8|
                    0 <= j < i && g0.cells@[j].value is None ==> (#[trigger] self.cells@[j].has_candidate(v) <==> (1
                        <= v <= g0.size && !g0.seen_from(g0.cells@[j].coord, v))),
            decreases n - i,
        {
            if self.cells[i].value.is_some() {
                i += 1;
                continue;
            }
            let coord = self.cells[i].coord;
            // Start out with every value.
            let mut cands = full_candidates(self.size);
            let mut r: usize = 0;
            while r < self.regions.len()
                invariant
                    g0.wf(),
                    n == g0.cells.len(),
                    i < n,
                    r <= g0.regions.len(),
                    coord == g0.cells@[i as int].coord,
                    self.size == g0.size,
                    self.regions == g0.regions,
                    self.cells.len() == n,
                    forall|j: int|
                        0 <= j < n ==> (#[trigger] self.cells@[j]).coord == g0.cells@[j].coord
                            && self.cells@[j].value == g0.cells@[j].value,
                    cands@.no_duplicates(),
                    cands.len() <= g0.size,
                    forall|v: u8|
                        #[trigger] cands@.contains(v) <==> (1 <= v <= g0.size && forall|rr: int|
                            0 <= rr < r && (#[trigger] g0.regions@[rr]).has(coord) ==> !g0.placed_in(
                                rr,
                                g0.regions@[rr].members().len() as int,
                                v,
                            )),
                decreases g0.regions.len() - r,
            {
                if self.regions[r].contains_coord(&coord) {
                    let mut k: usize = 0;
                    while k < self.regions[r].coords.len()
                        invariant
                            g0.wf(),
                            n == g0.cells.len(),
                            i < n,
                            r < g0.regions.len(),
                            g0.regions@[r as int].has(coord),
                            k <= g0.regions@[r as int].members().len(),
                            coord == g0.cells@[i as int].coord,
                            self.size == g0.size,
                            self.regions == g0.regions,
                            self.cells.len() == n,
                            forall|j: int|
                                0 <= j < n ==> (#[trigger] self.cells@[j]).coord == g0.cells@[j].coord
                                    && self.cells@[j].value == g0.cells@[j].value,
                            cands@.no_duplicates(),
                            cands.len() <= g0.size,
                            forall|v: u8|
                                #[trigger] cands@.contains(v) <==> (1 <= v <= g0.size && (forall|rr: int|
                                    0 <= rr < r && (#[trigger] g0.regions@[rr]).has(coord) ==> !g0.placed_in(
                                        rr,
                                        g0.regions@[rr].members().len() as int,
                                        v,
                                    )) && !g0.placed_in(r as int, k as int, v)),
                        decreases g0.regions@[r as int].members().len() - k,
                    {
                        let d = self.regions[r].coords[k];
                        proof {
                            assert(g0.regions@[r as int].wf(g0.size as int));
                            assert(g0.regions@[r as int].has(d));
                        }
                        proof {
                            g0.lemma_cell(d);
                        }
                        let j = d.x as usize + self.size as usize * d.y as usize;
                        if let Some(v) = self.cells[j].value {
                            cands = without(&cands, v);
                        }
                        proof {
                            assert forall|v: u8| g0.placed_in(r as int, k + 1, v) <==> (g0.placed_in(r as int, k as int, v)
                                || g0.cell(d).value == Some(v)) by {
                                if g0.cell(d).value == Some(v) {
                                    assert(g0.cell(g0.regions@[r as int].members()[k as int]).value == Some(v));
                                }
                            }
                        }
                        k += 1;
                    }
                }
                proof {
                    assert forall|v: u8| #[trigger] cands@.contains(v) <==> (1 <= v <= g0.size && forall|rr: int|
                        0 <= rr < r + 1 && (#[trigger] g0.regions@[rr]).has(coord) ==> !g0.placed_in(
                            rr,
                            g0.regions@[rr].members().len() as int,
                            v,
                        )) by {
                    }
                }
                r += 1;
            }
            proof {
                assert forall|v: u8| #[trigger] cands@.contains(v) <==> (1 <= v <= g0.size && !g0.seen_from(coord, v)) by {
                    g0.lemma_seen_from(coord, v);
                }
            }
            proof {
                assert forall|k: int| 0 <= k < cands.len() implies 1 <= #[trigger] cands@[k] <= g0.size by {
                    assert(cands@.contains(cands@[k]));
                }
            }
            self.cells[i].candidates = cands;
            i += 1;
        }
        proof {
            assert(self.wf());
            assert forall|j: int, v: u8|
                0 <= j < self.cells.len() && #[trigger] self.cells@[j].has_candidate(v) implies !self.seen_from(
                self.cells@[j].coord,
                v,
            ) by {
                if self.seen_from(self.cells@[j].coord, v) {
                    let d = choose|d: Coord| #[trigger] self.share_region(self.cells@[j].coord, d) && self.cell(d).value == Some(v);
                    assert(g0.share_region(g0.cells@[j].coord, d));
                    let r = choose|r: int| 0 <= r < self.regions.len() && (#[trigger] self.regions@[r]).has(self.cells@[j].coord) && self.regions@[r].has(d);
                    assert(self.regions@[r].wf(self.size as int));
                    g0.lemma_cell(d);
                    assert(g0.cell(d).value == Some(v));
                }
            }
        }
    }

    /// Some solution among `sols` puts `v` in a cell that shares a region with `c`.
    pub open spec fn excluded_by(self, sols: Seq<Solution>, c: Coord, v: u8) -> bool {
        exists|k: int| 0 <= k < sols.len() && (#[trigger] sols[k]).value == v && self.share_region(sols[k].coord, c)
    }

    /// Some reduction among `reds` takes `v` from the cell at `c`.
    pub open spec fn reduced_by(reds: Seq<Reduction>, c: Coord, v: u8) -> bool {
        exists|k: int| 0 <= k < reds.len() && (#[trigger] reds[k]).coord == c && reds[k].candidate == v
    }

    /// Each solution names a candidate of a cell on the board.
    pub open spec fn valid_solutions(self, sols: Seq<Solution>) -> bool {
        forall|k: int|
            0 <= k < sols.len() ==> (#[trigger] sols[k]).coord.in_bounds(self.size as int) && self.cell(
                sols[k].coord,
            ).has_candidate(sols[k].value)
    }

    /// Each reduction names a candidate of a cell on the board.
    pub open spec fn valid_reductions(self, reds: Seq<Reduction>) -> bool {
        forall|k: int|
            0 <= k < reds.len() ==> (#[trigger] reds[k]).coord.in_bounds(self.size as int) && self.cell(
                reds[k].coord,
            ).has_candidate(reds[k].candidate)
    }

    /// `next` is this board after the solutions `sols`, applied in order: a
    /// cell that some solution names holds the last such value and has no
    /// candidates; any other cell keeps its value and loses each value that a
    /// solution puts in a cell sharing a region with it.
    pub open spec fn after_solutions(self, next: Grid, sols: Seq<Solution>) -> bool {
        &&& next.size == self.size
        &&& next.regions == self.regions
        &&& next.cells.len() == self.cells.len()
        &&& forall|i: int|
            0 <= i < self.cells.len() ==> (#[trigger] next.cells@[i]).coord == self.cells@[i].coord
                && next.cells@[i].is_given == self.cells@[i].is_given
        &&& forall|i: int|
            0 <= i < self.cells.len() && solution_for(sols, self.cells@[i].coord) is Some
                ==> (#[trigger] next.cells@[i]).value == solution_for(sols, self.cells@[i].coord)
                && next.cells@[i].candidates.len() == 0
        &&& forall|i: int|
            0 <= i < self.cells.len() && solution_for(sols, self.cells@[i].coord) is None
                ==> (#[trigger] next.cells@[i]).value == self.cells@[i].value
        &&& forall|i: int, v: u8|
            0 <= i < self.cells.len() && solution_for(sols, self.cells@[i].coord) is None
                ==> (#[trigger] next.cells@[i].has_candidate(v) <==> (self.cells@[i].has_candidate(v)
                && !self.excluded_by(sols, self.cells@[i].coord, v)))
    }

    /// `next` is this board after the reductions `reds`: each cell keeps its
    /// value and loses the candidates that a reduction names for it.
    pub open spec fn after_reductions(self, next: Grid, reds: Seq<Reduction>) -> bool {
        &&& next.size == self.size
        &&& next.regions == self.regions
        &&& next.cells.len() == self.cells.len()
        &&& forall|i: int|
            0 <= i < self.cells.len() ==> (#[trigger] next.cells@[i]).coord == self.cells@[i].coord
                && next.cells@[i].is_given == self.cells@[i].is_given
                && next.cells@[i].value == self.cells@[i].value
        &&& forall|i: int, v: u8|
            0 <= i < self.cells.len() ==> (#[trigger] next.cells@[i].has_candidate(v) <==> (
            self.cells@[i].has_candidate(v) && !Self::reduced_by(reds, self.cells@[i].coord, v)))
    }

    /// On a well-formed board a cell with a value lists no candidates; every
    /// operation that changes a board keeps it well-formed.
    pub proof fn lemma_value_excludes_candidates(self)
        requires
            self.wf(),
        ensures
            forall|i: int|
                0 <= i < self.cells.len() && (#[trigger] self.cells@[i]).value is Some ==> self.cells@[i].candidates.len()
                    == 0,
    {
        assert forall|i: int| 0 <= i < self.cells.len() && (#[trigger] self.cells@[i]).value is Some implies self.cells@[i].candidates.len() == 0 by {
            assert(self.cells@[i].wf(self.size as int));
        }
    }

    /// Applying the same reductions a second time leaves every candidate as the
    /// first application left it.
    pub proof fn lemma_reductions_idempotent(self, once: Grid, twice: Grid, reds: Seq<Reduction>)
        requires
            self.after_reductions(once, reds),
            once.after_reductions(twice, reds),
        ensures
            forall|i: int, v: u8|
                0 <= i < once.cells.len() ==> (#[trigger] twice.cells@[i].has_candidate(v) <==> once.cells@[i].has_candidate(v)),
            forall|i: int| 0 <= i < once.cells.len() ==> (#[trigger] twice.cells@[i]).value == once.cells@[i].value,
    {
        assert forall|i: int, v: u8| 0 <= i < once.cells.len() implies (#[trigger] twice.cells@[i].has_candidate(v)
            <==> once.cells@[i].has_candidate(v)) by {
            if once.cells@[i].has_candidate(v) {
                assert(self.cells@[i].has_candidate(v) && !Self::reduced_by(reds, self.cells@[i].coord, v));
            }
        }
    }

    /// Every cell holds a value of `1..=size`, and no two cells of a region
    /// hold the same value.
    pub open spec fn is_valid_solution(self) -> bool {
        &&& forall|i: int|
            0 <= i < self.cells.len() ==> ((#[trigger] self.cells@[i]).value matches Some(v) && 1 <= v <= self.size)
        &&& forall|r: int, c: Coord, d: Coord|
            0 <= r < self.regions.len() && (#[trigger] self.regions@[r].has(c)) && #[trigger] self.regions@[r].has(d)
                && c != d ==> self.cell(c).value != self.cell(d).value
    }

    /// Checks that the board is solved and obeys every region; on failure names
    /// a cell at fault and why.
    pub fn validate(&self) -> (r: Result<(), (Flaw, Coord)>)
        requires
            self.wf(),
        ensures
            r is Ok <==> self.is_valid_solution(),
            r matches Err((Flaw::Unsolved, c)) ==> c.in_bounds(self.size as int) && self.cell(c).value is None,
            r matches Err((Flaw::OutOfRange, c)) ==> c.in_bounds(self.size as int) && (self.cell(c).value matches Some(v)
                && !(1 <= v <= self.size)),
            r matches Err((Flaw::Repeated, c)) ==> c.in_bounds(self.size as int) && exists|d: Coord|
                d != c && #[trigger] self.share_region(c, d) && self.cell(d).value == self.cell(c).value,
    {
        let mut i: usize = 0;
        while i < self.cells.len()
            invariant
                self.wf(),
                i <= self.cells.len(),
                forall|j: int| 0 <= j < i ==> ((#[trigger] self.cells@[j]).value matches Some(v) && 1 <= v <= self.size),
            decreases self.cells.len() - i,
        {
            let c = self.cells[i].coord;
            proof {
                assert(self.cells@[i as int].wf(self.size as int));
                self.lemma_cell(c);
                lemma_index_of(self.size as int, c, c);
            }
            match self.cells[i].value {
                None => {
                    return Err((Flaw::Unsolved, c));
                },
                Some(v) => {
                    if v < 1 || v > self.size {
                        return Err((Flaw::OutOfRange, c));
                    }
                },
            }
            i += 1;
        }
        let mut r: usize = 0;
        while r < self.regions.len()
            invariant
                self.wf(),
                r <= self.regions.len(),
                forall|j: int| 0 <= j < self.cells.len() ==> ((#[trigger] self.cells@[j]).value matches Some(v) && 1 <= v <= self.size),
                forall|r2: int, c: Coord, d: Coord|
                    0 <= r2 < r && (#[trigger] self.regions@[r2].has(c)) && #[trigger] self.regions@[r2].has(d)
                        && c != d ==> self.cell(c).value != self.cell(d).value,
            decreases self.regions.len() - r,
        {
            proof {
                assert(self.regions@[r as int].wf(self.size as int));
            }
            let cells = self.cells_for_region(&self.regions[r]);
            let ghost m = self.regions@[r as int].members();
            let mut k: usize = 0;
            while k < cells.len()
                invariant
                    self.wf(),
                    r < self.regions.len(),
                    m == self.regions@[r as int].members(),
                    self.regions@[r as int].wf(self.size as int),
                    cells@.len() == m.len(),
                    forall|j: int| 0 <= j < cells@.len() ==> *cells@[j] == self.cell(#[trigger] m[j]),
                    k <= cells@.len(),
                    forall|a: int, b: int| 0 <= a < b < k ==> self.cell(#[trigger] m[a]).value != self.cell(#[trigger] m[b]).value,
                decreases cells@.len() - k,
            {
                let mut j: usize = 0;
                while j < k
                    invariant
                        self.wf(),
                        r < self.regions.len(),
                        m == self.regions@[r as int].members(),
                        self.regions@[r as int].wf(self.size as int),
                        cells@.len() == m.len(),
                        forall|j: int| 0 <= j < cells@.len() ==> *cells@[j] == self.cell(#[trigger] m[j]),
                        k < cells@.len(),
                        j <= k,
                        forall|a: int| 0 <= a < j ==> self.cell(#[trigger] m[a]).value != self.cell(m[k as int]).value,
                    decreases k - j,
                {
                    if cells[j].value == cells[k].value {
                        proof {
                            let c = m[k as int];
                            let d = m[j as int];
                            assert(self.regions@[r as int].has(c));
                            assert(self.regions@[r as int].has(d));
                            assert(self.share_region(c, d));
                            assert(c.in_bounds(self.size as int));
                            assert(d.in_bounds(self.size as int));
                            self.lemma_cell(c);
                            self.lemma_cell(d);
                            assert(m[j as int] != m[k as int]);
                            assert(self.cell(d).value == self.cell(c).value);
                        }
                        return Err((Flaw::Repeated, cells[k].coord));
                    }
                    j += 1;
                }
                k += 1;
            }
            proof {
                assert forall|c: Coord, d: Coord|
                    (#[trigger] self.regions@[r as int].has(c)) && #[trigger] self.regions@[r as int].has(d)
                        && c != d implies self.cell(c).value != self.cell(d).value by {
                    let a = choose|a: int| 0 <= a < m.len() && m[a] == c;
                    let b = choose|b: int| 0 <= b < m.len() && m[b] == d;
                    if a > b {
                        assert(self.cell(m[b]).value != self.cell(m[a]).value);
                    }
                }
            }
            r += 1;
        }
        Ok(())
    }

    /// Adds a block of the board's block side with its upper left cell at
    /// `(x, y)`, when the width has an integer square root and the block fits.
    pub fn add_extra_square(&mut self, x: u8, y: u8) -> (r: bool)
        requires
            old(self).wf(),
        ensures
            final(self).wf(),
            final(self).size == old(self).size,
            final(self).cells == old(self).cells,
            r <==> exists|s: int| 0 <= s && #[trigger] (s * s) == old(self).size && x + s <= old(self).size && y + s <= old(self).size,
            !r ==> final(self).regions@ == old(self).regions@,
            r ==> final(self).regions@.len() == old(self).regions@.len() + 1
                && final(self).regions@.drop_last() == old(self).regions@
                && (final(self).regions@.last().kind matches RegionKind::Square(sq)
                && sq.top_left == Coord { x, y } && sq.size * sq.size == old(self).size),
    {
        match subgrid_size(self.size) {
            Some(s) => {
                if x as u16 + s as u16 <= self.size as u16 && y as u16 + s as u16 <= self.size as u16 {
                    let kind = RegionKind::Square(Square { size: s, top_left: Coord { x, y } });
                    let region = Region::new(kind, &*self);
                    self.regions.push(region);
                    proof {
                        assert(self.regions@.drop_last() == old(self).regions@);
                        assert((s as int) * (s as int) == self.size);
                    }
                    true
                } else {
                    proof {
                        assert forall|t: int| 0 <= t && #[trigger] (t * t) == self.size implies !(x + t <= self.size && y + t <= self.size) by {
                            assert(t == s) by (nonlinear_arith)
                                requires
                                    0 <= t,
                                    t * t == s * s,
                                    0 <= s,
                            ;
                        }
                    }
                    false
                }
            },
            None => false,
        }
    }

    /// Every cell has a value.
    pub open spec fn solved(self) -> bool {
        forall|i: int| 0 <= i < self.cells.len() ==> (#[trigger] self.cells@[i]).value is Some
    }

    /// Takes `v` from the candidates of the cell at `coord`; nothing else changes.
    fn remove_candidate(&mut self, coord: Coord, v: u8)
        requires
            old(self).wf(),
            coord.in_bounds(old(self).size as int),
        ensures
            final(self).wf(),
            final(self).size == old(self).size,
            final(self).regions == old(self).regions,
            final(self).cells.len() == old(self).cells.len(),
            forall|j: int|
                0 <= j < old(self).cells.len() && j != index_of(old(self).size as int, coord) ==> #[trigger] final(self).cells@[j]
                    == old(self).cells@[j],
            final(self).cell(coord).coord == coord,
            final(self).cell(coord).value == old(self).cell(coord).value,
            final(self).cell(coord).is_given == old(self).cell(coord).is_given,
            forall|w: u8| #[trigger] final(self).cell(coord).has_candidate(w) <==> (old(self).cell(coord).has_candidate(w) && w != v),
            final(self).cell(coord).candidates.len() == if old(self).cell(coord).has_candidate(v) {
                old(self).cell(coord).candidates.len() - 1
            } else {
                old(self).cell(coord).candidates.len() as int
            },
    {
        let ghost i = index_of(self.size as int, coord);
        proof {
            self.lemma_cell(coord);
        }
        let cell = self.grid_cell(coord);
        cell.candidates = without(&cell.candidates, v);
        proof {
            assert forall|k: int| 0 <= k < self.cells@[i].candidates.len() implies 1 <= #[trigger] self.cells@[i].candidates@[k]
                <= self.size by {
                assert(self.cells@[i].candidates@.contains(self.cells@[i].candidates@[k]));
                assert(old(self).cells@[i].wf(self.size as int));
                let m = choose|m: int| 0 <= m < old(self).cells@[i].candidates.len() && old(self).cells@[i].candidates@[m] == self.cells@[i].candidates@[k];
            }
            assert(self.cells@[i].wf(self.size as int));
        }
    }

    /// Marks the cell at `coord` as given with `value`; other cells keep
    /// their candidates until they are computed again.
    pub fn set_given_value(&mut self, coord: Coord, value: u8)
        requires
            old(self).wf(),
            coord.in_bounds(old(self).size as int),
        ensures
            final(self).wf(),
            final(self).size == old(self).size,
            final(self).regions == old(self).regions,
            final(self).cells.len() == old(self).cells.len(),
            forall|j: int|
                0 <= j < old(self).cells.len() && j != index_of(old(self).size as int, coord) ==> #[trigger] final(self).cells@[j]
                    == old(self).cells@[j],
            final(self).cell(coord).coord == coord,
            final(self).cell(coord).value == Some(value),
            final(self).cell(coord).is_given,
            final(self).cell(coord).candidates.len() == 0,
    {
        let index = self.coord_to_cell_index(&coord);
        self.cells[index].value = Some(value);
        self.cells[index].is_given = true;
        self.cells[index].candidates.clear();
    }

    /// Sets the value of each solution's cell and removes that value from the
    /// candidates of every cell that shares a region with it.
    pub fn apply_solutions(&mut self, solutions: &[Solution])
        requires
            old(self).wf(),
            forall|k: int| 0 <= k < solutions@.len() ==> (#[trigger] solutions@[k]).coord.in_bounds(old(self).size as int),
        ensures
            final(self).wf(),
            old(self).after_solutions(*final(self), solutions@),
            old(self).sound() ==> final(self).sound(),
    {
        let ghost g0 = *self;
        let mut n: usize = 0;
        while n < solutions.len()
            invariant
                g0.wf(),
                self.wf(),
                n <= solutions@.len(),
                forall|k: int| 0 <= k < solutions@.len() ==> (#[trigger] solutions@[k]).coord.in_bounds(g0.size as int),
                self.size == g0.size,
                self.regions == g0.regions,
                self.cells.len() == g0.cells.len(),
                forall|i: int|
                    0 <= i < g0.cells.len() ==> (#[trigger] self.cells@[i]).coord == g0.cells@[i].coord
                        && self.cells@[i].is_given == g0.cells@[i].is_given,
                forall|i: int|
                    0 <= i < g0.cells.len() && solution_for(solutions@.take(n as int), g0.cells@[i].coord) is Some
                        ==> (#[trigger] self.cells@[i]).value == solution_for(solutions@.take(n as int), g0.cells@[i].coord)
                        && self.cells@[i].candidates.len() == 0,
                forall|i: int|
                    0 <= i < g0.cells.len() && solution_for(solutions@.take(n as int), g0.cells@[i].coord) is None
                        ==> (#[trigger] self.cells@[i]).value == g0.cells@[i].value,
                forall|i: int, v: u8|
                    0 <= i < g0.cells.len() && solution_for(solutions@.take(n as int), g0.cells@[i].coord) is None
                        ==> (#[trigger] self.cells@[i].has_candidate(v) <==> (g0.cells@[i].has_candidate(v)
                        && !g0.excluded_by(solutions@.take(n as int), g0.cells@[i].coord, v))),
            decreases solutions@.len() - n,
        {
            let c = solutions[n].coord;
            let v = solutions[n].value;
            let ghost before = *self;
            let ghost ci = index_of(g0.size as int, c);
            proof {
                self.lemma_cell(c);
            }
            {
                let cell = self.grid_cell(c);
                cell.value = Some(v);
                cell.candidates.clear();
            }
            let ghost mid = *self;
            // Remove the value from every other cell that shares a region with the cell.
            let mut r: usize = 0;
            while r < self.regions.len()
                invariant
                    g0.wf(),
                    self.wf(),
                    c.in_bounds(g0.size as int),
                    0 <= ci < g0.cells.len(),
                    ci == index_of(g0.size as int, c),
                    r <= g0.regions.len(),
                    self.size == g0.size,
                    self.regions == g0.regions,
                    self.cells.len() == g0.cells.len(),
                    mid.cells.len() == g0.cells.len(),
                    forall|i: int|
                        0 <= i < g0.cells.len() ==> (#[trigger] self.cells@[i]).coord == mid.cells@[i].coord
                            && self.cells@[i].is_given == mid.cells@[i].is_given
                            && self.cells@[i].value == mid.cells@[i].value
                            && self.cells@[i].candidates.len() <= mid.cells@[i].candidates.len(),
                    forall|i: int, w: u8|
                        0 <= i < g0.cells.len() ==> (#[trigger] self.cells@[i].has_candidate(w) <==> (
                        mid.cells@[i].has_candidate(w) && !(w == v && exists|rr: int|
                            0 <= rr < r && (#[trigger] g0.regions@[rr]).has(c) && g0.regions@[rr].has(
                                g0.cells@[i].coord,
                            )))),
                decreases g0.regions.len() - r,
            {
                if self.regions[r].contains_coord(&c) {
                    let mut k: usize = 0;
                    while k < self.regions[r].coords.len()
                        invariant
                            g0.wf(),
                            self.wf(),
                            c.in_bounds(g0.size as int),
                            r < g0.regions.len(),
                            g0.regions@[r as int].has(c),
                            k <= g0.regions@[r as int].members().len(),
                            self.size == g0.size,
                            self.regions == g0.regions,
                            self.cells.len() == g0.cells.len(),
                            mid.cells.len() == g0.cells.len(),
                            forall|i: int|
                                0 <= i < g0.cells.len() ==> (#[trigger] self.cells@[i]).coord == mid.cells@[i].coord
                                    && self.cells@[i].is_given == mid.cells@[i].is_given
                                    && self.cells@[i].value == mid.cells@[i].value
                                    && self.cells@[i].candidates.len() <= mid.cells@[i].candidates.len(),
                            forall|i: int, w: u8|
                                0 <= i < g0.cells.len() ==> (#[trigger] self.cells@[i].has_candidate(w) <==> (
                                mid.cells@[i].has_candidate(w) && !(w == v && ((exists|rr: int|
                                    0 <= rr < r && (#[trigger] g0.regions@[rr]).has(c) && g0.regions@[rr].has(
                                        g0.cells@[i].coord,
                                    )) || g0.regions@[r as int].members().take(k as int).contains(g0.cells@[i].coord))))),
                        decreases g0.regions@[r as int].members().len() - k,
                    {
                        let d = self.regions[r].coords[k];
                        proof {
                            assert(g0.regions@[r as int].wf(g0.size as int));
                            assert(g0.regions@[r as int].has(d));
                            self.lemma_cell(d);
                            assert(g0.regions@[r as int].members().take(k + 1) == g0.regions@[r as int].members().take(k as int).push(d));
                            lemma_push_fresh(g0.regions@[r as int].members().take(k as int), d);
                        }
                        self.remove_candidate(d, v);
                        proof {
                            let di = index_of(g0.size as int, d);
                            assert forall|i: int, w: u8|
                                0 <= i < g0.cells.len() implies (#[trigger] self.cells@[i].has_candidate(w) <==> (
                                mid.cells@[i].has_candidate(w) && !(w == v && ((exists|rr: int|
                                    0 <= rr < r && (#[trigger] g0.regions@[rr]).has(c) && g0.regions@[rr].has(
                                        g0.cells@[i].coord,
                                    )) || g0.regions@[r as int].members().take(k + 1).contains(g0.cells@[i].coord))))) by {
                                g0.lemma_cell(d);
                                let x = g0.cells@[i].coord;
                                let m = g0.regions@[r as int].members();
                                assert(m.take(k + 1).contains(x) <==> (m.take(k as int).contains(x) || x == d));
                                if i != di {
                                    assert(x != d);
                                } else {
                                    assert(x == d);
                                }
                            }
                        }
                        k += 1;
                    }
                    proof {
                        assert(g0.regions@[r as int].members().take(k as int) == g0.regions@[r as int].members());
                    }
                }
                proof {
                    assert forall|i: int, w: u8|
                        0 <= i < g0.cells.len() implies (#[trigger] self.cells@[i].has_candidate(w) <==> (
                        mid.cells@[i].has_candidate(w) && !(w == v && exists|rr: int|
                            0 <= rr < r + 1 && (#[trigger] g0.regions@[rr]).has(c) && g0.regions@[rr].has(
                                g0.cells@[i].coord,
                            )))) by {
                    }
                }
                r += 1;
            }
            proof {
                let sn = solutions@.take(n as int);
                let sn1 = solutions@.take(n + 1);
                assert(sn1.drop_last() == sn);
                assert(sn1.last() == solutions@[n as int]);
                assert forall|i: int, w: u8|
                    0 <= i < g0.cells.len() && solution_for(sn1, g0.cells@[i].coord) is None
                        implies (#[trigger] self.cells@[i].has_candidate(w) <==> (g0.cells@[i].has_candidate(w)
                        && !g0.excluded_by(sn1, g0.cells@[i].coord, w))) by {
                    let x = g0.cells@[i].coord;
                    assert(x != c);
                    assert(i != ci);
                    if g0.excluded_by(sn1, x, w) && !g0.excluded_by(sn, x, w) {
                        let k = choose|k: int| 0 <= k < sn1.len() && (#[trigger] sn1[k]).value == w && g0.share_region(sn1[k].coord, x);
                        if k < n {
                            assert(sn[k] == sn1[k]);
                        }
                        assert(k == n);
                    }
                    if g0.excluded_by(sn, x, w) {
                        let k = choose|k: int| 0 <= k < sn.len() && (#[trigger] sn[k]).value == w && g0.share_region(sn[k].coord, x);
                        assert(sn1[k] == sn[k]);
                    }
                    if w == v && g0.share_region(c, x) {
                        assert(sn1[n as int].value == w);
                    }
                }
                assert forall|i: int|
                    0 <= i < g0.cells.len() && solution_for(sn1, g0.cells@[i].coord) is Some
                        implies (#[trigger] self.cells@[i]).value == solution_for(sn1, g0.cells@[i].coord)
                        && self.cells@[i].candidates.len() == 0 by {
                    if i == ci {
                        g0.lemma_cell(c);
                    }
                }
            }
            n += 1;
        }
        proof {
            assert(solutions@.take(n as int) == solutions@);
            if g0.sound() {
                assert forall|i: int, w: u8|
                    0 <= i < self.cells.len() && #[trigger] self.cells@[i].has_candidate(w) implies !self.seen_from(
                    self.cells@[i].coord,
                    w,
                ) by {
                    let x = self.cells@[i].coord;
                    if self.seen_from(x, w) {
                        let d = choose|d: Coord| #[trigger] self.share_region(x, d) && self.cell(d).value == Some(w);
                        let rr = choose|rr: int| 0 <= rr < self.regions.len() && (#[trigger] self.regions@[rr]).has(x) && self.regions@[rr].has(d);
                        assert(self.regions@[rr].wf(self.size as int));
                        g0.lemma_cell(d);
                        let di = index_of(g0.size as int, d);
                        lemma_solution_for(solutions@, d);
                        if solution_for(solutions@, d) is Some {
                            let k = choose|k: int| 0 <= k < solutions@.len() && (#[trigger] solutions@[k]).coord == d && solutions@[k].value == w;
                            assert(g0.share_region(solutions@[k].coord, x));
                        } else {
                            assert(g0.share_region(x, d));
                            assert(g0.seen_from(x, w));
                        }
                    }
                }
            }
        }
    }

    /// Removes each reduction's candidate from its cell, where present.
    pub fn apply_reductions(&mut self, reductions: &[Reduction])
        requires
            old(self).wf(),
            forall|k: int| 0 <= k < reductions@.len() ==> (#[trigger] reductions@[k]).coord.in_bounds(old(self).size as int),
        ensures
            final(self).wf(),
            old(self).after_reductions(*final(self), reductions@),
            old(self).sound() ==> final(self).sound(),
    {
        let ghost g0 = *self;
        let mut n: usize = 0;
        while n < reductions.len()
            invariant
                g0.wf(),
                self.wf(),
                n <= reductions@.len(),
                forall|k: int| 0 <= k < reductions@.len() ==> (#[trigger] reductions@[k]).coord.in_bounds(g0.size as int),
                self.size == g0.size,
                self.regions == g0.regions,
                self.cells.len() == g0.cells.len(),
                forall|i: int|
                    0 <= i < g0.cells.len() ==> (#[trigger] self.cells@[i]).coord == g0.cells@[i].coord
                        && self.cells@[i].is_given == g0.cells@[i].is_given
                        && self.cells@[i].value == g0.cells@[i].value,
                forall|i: int, v: u8|
                    0 <= i < g0.cells.len() ==> (#[trigger] self.cells@[i].has_candidate(v) <==> (
                    g0.cells@[i].has_candidate(v) && !Self::reduced_by(reductions@.take(n as int), g0.cells@[i].coord, v))),
            decreases reductions@.len() - n,
        {
            let c = reductions[n].coord;
            let v = reductions[n].candidate;
            proof {
                self.lemma_cell(c);
            }
            self.remove_candidate(c, v);
            proof {
                let rn = reductions@.take(n as int);
                let rn1 = reductions@.take(n + 1);
                assert forall|i: int, w: u8|
                    0 <= i < g0.cells.len() implies (#[trigger] self.cells@[i].has_candidate(w) <==> (
                    g0.cells@[i].has_candidate(w) && !Self::reduced_by(rn1, g0.cells@[i].coord, w))) by {
                    let x = g0.cells@[i].coord;
                    if Self::reduced_by(rn1, x, w) && !Self::reduced_by(rn, x, w) {
                        let k = choose|k: int| 0 <= k < rn1.len() && (#[trigger] rn1[k]).coord == x && rn1[k].candidate == w;
                        if k < n {
                            assert(rn[k] == rn1[k]);
                        }
                    }
                    if Self::reduced_by(rn, x, w) {
                        let k = choose|k: int| 0 <= k < rn.len() && (#[trigger] rn[k]).coord == x && rn[k].candidate == w;
                        assert(rn1[k] == rn[k]);
                    }
                    if x == c && w == v {
                        assert(rn1[n as int].coord == x);
                    }
                    if i != index_of(g0.size as int, c) {
                        g0.lemma_cell(c);
                        assert(x != c);
                    }
                }
            }
            n += 1;
        }
        proof {
            assert(reductions@.take(n as int) == reductions@);
            if g0.sound() {
                assert forall|i: int, w: u8|
                    0 <= i < self.cells.len() && #[trigger] self.cells@[i].has_candidate(w) implies !self.seen_from(
                    self.cells@[i].coord,
                    w,
                ) by {
                    let x = self.cells@[i].coord;
                    assert(g0.cells@[i].has_candidate(w));
                    if self.seen_from(x, w) {
                        let d = choose|d: Coord| #[trigger] self.share_region(x, d) && self.cell(d).value == Some(w);
                        let rr = choose|rr: int| 0 <= rr < self.regions.len() && (#[trigger] self.regions@[rr]).has(x) && self.regions@[rr].has(d);
                        assert(self.regions@[rr].wf(self.size as int));
                        g0.lemma_cell(d);
                        assert(g0.share_region(x, d));
                        assert(g0.seen_from(x, w));
                    }
                }
            }
        }
    }

    /// Every cell has a value.
    pub fn is_solved(&self) -> (r: bool)
        ensures
            r == self.solved(),
    {
        let mut i: usize = 0;
        while i < self.cells.len()
            invariant
                i <= self.cells.len(),
                forall|j: int| 0 <= j < i ==> (#[trigger] self.cells@[j]).value is Some,
            decreases self.cells.len() - i,
        {
            if self.cells[i].value.is_none() {
                return false;
            }
            i += 1;
        }
        true
    }

    /// The values that a cell may hold: `1..=size`.
    pub fn possible_values(&self) -> (r: RangeInclusive<u8>)
        ensures
            r@.start == 1,
            r@.end == self.size,
            !r@.exhausted,
    {
        RangeInclusive::new(1, self.size)
    }

    fn regions_for_cell(&self, cell: &Cell) -> (r: Vec<usize>)
        ensures
            forall|i: int| 0 <= i < r@.len() ==> (#[trigger] r@[i]) < self.regions.len(),
            forall|i: int, j: int| 0 <= i < j < r@.len() ==> r@[i] < r@[j],
            forall|k: usize| #[trigger] r@.contains(k) <==> (k < self.regions.len() && self.regions@[k as int].has(cell.coord)),
    {
        self.regions_for_coord(&cell.coord)
    }

    /// The indices of the regions that hold `coord`, in increasing order.
    pub(crate) fn regions_for_coord(&self, coord: &Coord) -> (r: Vec<usize>)
        ensures
            forall|i: int| 0 <= i < r@.len() ==> (#[trigger] r@[i]) < self.regions.len(),
            forall|i: int, j: int| 0 <= i < j < r@.len() ==> r@[i] < r@[j],
            forall|k: usize| #[trigger] r@.contains(k) <==> (k < self.regions.len() && self.regions@[k as int].has(*coord)),
    {
        let mut out: Vec<usize> = Vec::new();
        let mut k: usize = 0;
        while k < self.regions.len()
            invariant
                k <= self.regions.len(),
                forall|i: int| 0 <= i < out@.len() ==> (#[trigger] out@[i]) < k,
                forall|i: int, j: int| 0 <= i < j < out@.len() ==> out@[i] < out@[j],
                forall|m: usize| #[trigger] out@.contains(m) <==> (m < k && self.regions@[m as int].has(*coord)),
            decreases self.regions.len() - k,
        {
            if self.regions[k].contains_coord(coord) {
                proof {
                    lemma_push_fresh(out@, k);
                }
                out.push(k);
            }
            k += 1;
        }
        out
    }

    /// The indices of the regions that hold every coordinate of `coords`, in
    /// increasing order.
    pub fn regions_for_coords(&self, coords: &Vec<Coord>) -> (r: Vec<usize>)
        ensures
            forall|i: int| 0 <= i < r@.len() ==> (#[trigger] r@[i]) < self.regions.len(),
            forall|i: int, j: int| 0 <= i < j < r@.len() ==> r@[i] < r@[j],
            forall|k: usize| #[trigger] r@.contains(k) <==> (k < self.regions.len() && forall|j: int|
                0 <= j < coords@.len() ==> self.regions@[k as int].has(#[trigger] coords@[j])),
    {
        let mut out: Vec<usize> = Vec::new();
        let mut k: usize = 0;
        while k < self.regions.len()
            invariant
                k <= self.regions.len(),
                forall|i: int| 0 <= i < out@.len() ==> (#[trigger] out@[i]) < k,
                forall|i: int, j: int| 0 <= i < j < out@.len() ==> out@[i] < out@[j],
                forall|m: usize| #[trigger] out@.contains(m) <==> (m < k && forall|j: int|
                    0 <= j < coords@.len() ==> self.regions@[m as int].has(#[trigger] coords@[j])),
            decreases self.regions.len() - k,
        {
            if self.regions[k].contains_coords(coords) {
                proof {
                    lemma_push_fresh(out@, k);
                }
                out.push(k);
            }
            k += 1;
        }
        out
    }

    /// The cells of the region, each once, in row-major order.
    pub fn cells_for_region(&self, region: &Region) -> (r: Vec<&Cell>)
        requires
            self.wf(),
            region.wf(self.size as int),
        ensures
            r@.len() == region.members().len(),
            forall|k: int| 0 <= k < r@.len() ==> *r@[k] == self.cell(#[trigger] region.members()[k]),
            forall|k: int| 0 <= k < r@.len() ==> (#[trigger] r@[k]).coord == region.members()[k],
            forall|c: Coord| #[trigger] region.has(c) <==> exists|k: int| 0 <= k < r@.len() && r@[k].coord == c,
            forall|i: int, j: int|
                0 <= i < j < r@.len() ==> index_of(self.size as int, (#[trigger] r@[i]).coord) < index_of(
                    self.size as int,
                    (#[trigger] r@[j]).coord,
                ),
    {
        let mut out: Vec<&Cell> = Vec::new();
        let mut k: usize = 0;
        while k < region.coords.len()
            invariant
                self.wf(),
                region.wf(self.size as int),
                k <= region.coords.len(),
                out@.len() == k,
                forall|j: int| 0 <= j < k ==> *out@[j] == self.cell(#[trigger] region.members()[j]),
            decreases region.coords.len() - k,
        {
            proof {
                assert(region.has(region.coords@[k as int]));
            }
            let i = self.coord_to_cell_index(&region.coords[k]);
            out.push(&self.cells[i]);
            k += 1;
        }
        proof {
            assert forall|k: int| 0 <= k < out@.len() implies (#[trigger] out@[k]).coord == region.members()[k] by {
                assert(region.has(region.members()[k]));
                self.lemma_cell(region.members()[k]);
            }
            assert forall|c: Coord| #[trigger] region.has(c) implies exists|k: int| 0 <= k < out@.len() && out@[k].coord == c by {
                let k = choose|k: int| 0 <= k < region.members().len() && region.members()[k] == c;
                assert(out@[k].coord == c);
            }
        }
        out
    }
}

} // verus!
