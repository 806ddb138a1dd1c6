//! The text form of a puzzle: a line `size n`, then `n` lines of `n` values
//! separated by single spaces (`.` for an open cell), then optional lines
//! `extra square x,y` that add a block with its upper left cell at `(x, y)`.

use crate::data::{block_kind, index_of, Column, Coord, Grid, RegionKind, Row};
use vstd::prelude::*;

verus! {

/// The pieces of `s` between occurrences of `sep`, in order: one more than
/// there are separators.
pub open spec fn split(s: Seq<u8>, sep: u8) -> Seq<Seq<u8>>
    decreases s.len(),
{
    if s.len() == 0 {
        seq![Seq::empty()]
    } else {
        let rest = split(s.drop_last(), sep);
        if s.last() == sep {
            rest.push(Seq::empty())
        } else {
            rest.update(rest.len() - 1, rest.last().push(s.last()))
        }
    }
}

pub proof fn lemma_split_nonempty(s: Seq<u8>, sep: u8)
    ensures
        split(s, sep).len() >= 1,
    decreases s.len(),
{
    if s.len() > 0 {
        lemma_split_nonempty(s.drop_last(), sep);
    }
}

/// The byte strings that a list of vectors holds.
pub open spec fn views(v: Seq<Vec<u8>>) -> Seq<Seq<u8>> {
    v.map_values(|p: Vec<u8>| p@)
}

/// Splits `s` at each `sep`.
pub fn split_bytes(s: &[u8], sep: u8) -> (r: Vec<Vec<u8>>)
    ensures
        views(r@) == split(s@, sep),
{
    let mut pieces: Vec<Vec<u8>> = Vec::new();
    let mut cur: Vec<u8> = Vec::new();
    let mut k: usize = 0;
    while k < s.len()
        invariant
            k <= s@.len(),
            views(pieces@).push(cur@) == split(s@.take(k as int), sep),
        decreases s@.len() - k,
    {
        let b = s[k];
        proof {
            assert(s@.take(k + 1).drop_last() == s@.take(k as int));
            assert(s@.take(k + 1).last() == b);
            lemma_split_nonempty(s@.take(k as int), sep);
        }
        if b == sep {
            pieces.push(cur);
            cur = Vec::new();
            proof {
                assert(views(pieces@) == views(pieces@).drop_last().push(pieces@.last()@));
                assert(views(pieces@).push(cur@) == split(s@.take(k + 1), sep));
            }
        } else {
            let ghost before = views(pieces@).push(cur@);
            cur.push(b);
            proof {
                assert(views(pieces@).push(cur@) =~= before.update(before.len() - 1, before.last().push(b)));
            }
        }
        k += 1;
    }
    pieces.push(cur);
    proof {
        assert(s@.take(k as int) == s@);
        assert(views(pieces@) =~= views(pieces@.drop_last()).push(pieces@.last()@));
    }
    pieces
}


/// A line without the carriage return that may end it.
pub open spec fn strip_cr(line: Seq<u8>) -> Seq<u8> {
    if line.len() > 0 && line.last() == 13 {
        line.drop_last()
    } else {
        line
    }
}

/// The lines of `text`: the pieces between line feeds, each without a final
/// carriage return; a line feed at the very end opens no further line.
pub open spec fn lines_of(text: Seq<u8>) -> Seq<Seq<u8>> {
    let pieces = split(text, 10);
    let kept = if pieces.last().len() == 0 { pieces.drop_last() } else { pieces };
    kept.map_values(|l: Seq<u8>| strip_cr(l))
}

/// Splits `text` into lines.
pub fn text_lines(text: &[u8]) -> (r: Vec<Vec<u8>>)
    ensures
        views(r@) == lines_of(text@),
{
    let mut pieces = split_bytes(text, 10);
    proof {
        lemma_split_nonempty(text@, 10);
    }
    let ghost all = views(pieces@);
    let n = pieces.len();
    if pieces[n - 1].len() == 0 {
        pieces.pop();
        proof {
            assert(views(pieces@) =~= all.drop_last());
        }
    }
    let ghost kept = views(pieces@);
    let mut out: Vec<Vec<u8>> = Vec::new();
    let mut k: usize = 0;
    while k < pieces.len()
        invariant
            k <= pieces@.len(),
            kept == views(pieces@),
            views(out@) =~= kept.take(k as int).map_values(|l: Seq<u8>| strip_cr(l)),
        decreases pieces@.len() - k,
    {
        let line = &pieces[k];
        let mut copy: Vec<u8> = Vec::new();
        let mut end = line.len();
        if end > 0 && line[end - 1] == 13 {
            end -= 1;
        }
        let mut j: usize = 0;
        while j < end
            invariant
                j <= end,
                end <= line@.len(),
                copy@ =~= line@.take(j as int),
            decreases end - j,
        {
            copy.push(line[j]);
            j += 1;
        }
        proof {
            assert(kept[k as int] == line@);
            assert(copy@ =~= strip_cr(line@));
        }
        let ghost out0 = out@;
        out.push(copy);
        proof {
            assert(views(out@) =~= views(out0).push(copy@));
            assert(kept.take(k + 1).map_values(|l: Seq<u8>| strip_cr(l)) =~= kept.take(k as int).map_values(
                |l: Seq<u8>| strip_cr(l),
            ).push(strip_cr(kept[k as int])));
        }
        k += 1;
    }
    proof {
        assert(kept.take(k as int) == kept);
    }
    out
}

/// The value of a string of decimal digits.
pub open spec fn digits_value(d: Seq<u8>) -> int
    decreases d.len(),
{
    if d.len() == 0 {
        0
    } else {
        digits_value(d.drop_last()) * 10 + (d.last() - 48)
    }
}

/// Each byte is an ASCII digit.
pub open spec fn all_digits(d: Seq<u8>) -> bool {
    forall|k: int| 0 <= k < d.len() ==> 48 <= #[trigger] d[k] <= 57
}

/// The byte that `s` writes in decimal, with an optional leading `+`; `None`
/// when `s` writes no number or one above 255.
pub open spec fn number(s: Seq<u8>) -> Option<u8> {
    let d = if s.len() > 0 && s[0] == 43 { s.drop_first() } else { s };
    if d.len() > 0 && all_digits(d) && digits_value(d) <= 255 {
        Some(digits_value(d) as u8)
    } else {
        None
    }
}

proof fn lemma_digits_grow(d: Seq<u8>, k: int, j: int)
    requires
        all_digits(d),
        0 <= k <= j <= d.len(),
    ensures
        digits_value(d.take(k)) <= digits_value(d.take(j)),
    decreases j - k,
{
    if k < j {
        lemma_digits_grow(d, k, j - 1);
        assert(d.take(j).drop_last() == d.take(j - 1));
        assert(digits_value(d.take(j - 1)) >= 0) by {
            lemma_digits_nonneg(d.take(j - 1));
        }
    }
}

proof fn lemma_digits_nonneg(d: Seq<u8>)
    requires
        all_digits(d),
    ensures
        digits_value(d) >= 0,
    decreases d.len(),
{
    if d.len() > 0 {
        assert(all_digits(d.drop_last())) by {
            assert forall|k: int| 0 <= k < d.len() - 1 implies 48 <= #[trigger] d.drop_last()[k] <= 57 by {
                assert(d.drop_last()[k] == d[k]);
            }
        }
        lemma_digits_nonneg(d.drop_last());
        assert(48 <= d[d.len() - 1] <= 57);
    }
}

/// Reads a byte written in decimal.
pub fn parse_u8(s: &[u8]) -> (r: Option<u8>)
    ensures
        r == number(s@),
{
    let mut start: usize = 0;
    if s.len() > 0 && s[0] == 43 {
        start = 1;
    }
    let ghost d = if s@.len() > 0 && s@[0] == 43 { s@.drop_first() } else { s@ };
    if start >= s.len() {
        return None;
    }
    proof {
        assert(d =~= s@.subrange(start as int, s@.len() as int));
    }
    let mut acc: u32 = 0;
    let mut k: usize = start;
    while k < s.len()
        invariant
            start <= k <= s@.len(),
            d == s@.subrange(start as int, s@.len() as int),
            d == (if s@.len() > 0 && s@[0] == 43 { s@.drop_first() } else { s@ }),
            acc == digits_value(d.take(k - start)),
            acc <= 255,
            all_digits(d.take(k - start)),
        decreases s@.len() - k,
    {
        let b = s[k];
        proof {
            assert(d.take(k - start + 1).drop_last() == d.take(k - start));
            assert(d.take(k - start + 1).last() == b);
        }
        if b < 48 || b > 57 {
            proof {
                assert(!all_digits(d)) by {
                    assert(d[k - start] == b);
                }
                assert(d == (if s@.len() > 0 && s@[0] == 43 { s@.drop_first() } else { s@ }));
            }
            return None;
        }
        proof {
            assert(all_digits(d.take(k - start + 1)));
        }
        acc = acc * 10 + (b - 48) as u32;
        if acc > 255 {
            proof {
                assert(acc == digits_value(d.take(k - start + 1)));
                if all_digits(d) {
                    lemma_digits_grow(d, k - start + 1, d.len() as int);
                    assert(d.take(d.len() as int) == d);
                }
                assert(d == (if s@.len() > 0 && s@[0] == 43 { s@.drop_first() } else { s@ }));
            }
            return None;
        }
        k += 1;
    }
    proof {
        assert(d.take(k - start) == d);
    }
    Some(acc as u8)
}


/// Why a puzzle text could not be read.
#[derive(Debug, Clone, Copy, PartialEq, Eq, Structural)]
pub enum LoadError {
    /// The text has no line.
    Empty,
    /// The first line is not `size n`.
    NoSize,
    /// The size is not a number that fits in a byte.
    BadSize,
    /// The text ends before the row at this height.
    MissingRow(u8),
    /// The row at this height does not hold as many values as the size.
    WrongRowLength(u8),
    /// The row at this height holds a value that is neither `.` nor a number.
    BadValue(u8),
    /// A corner of an extra square is not a number that fits in a byte.
    BadExtraSquare,
    /// An extra square does not fit on the board, or the board has no blocks.
    ExtraSquareOutside,
}

/// The digits that the pattern `^size (\d+)$` captures in a line, when the
/// line matches it.
pub uninterp spec fn size_capture(line: Seq<u8>) -> Option<Seq<u8>>;

/// The two groups of digits that the pattern `^extra square (\d+),(\d+)$`
/// captures in a line, when the line matches it.
pub uninterp spec fn extra_capture(line: Seq<u8>) -> Option<(Seq<u8>, Seq<u8>)>;

/// Relies on `regex::Regex::new` and `regex::Regex::captures` with the
/// pattern `^size (\d+)$`: the text of its first group, when the line (read
/// as UTF-8 by `std::str::from_utf8`) matches. The pattern is valid, so
/// `unwrap` does not panic.
#[verifier::external_body]
fn capture_size(line: &[u8]) -> (r: Option<Vec<u8>>)
    ensures
        r is None <==> size_capture(line@) is None,
        r matches Some(d) ==> size_capture(line@) == Some(d@),
{
    let text = std::str::from_utf8(line).ok()?;
    let caps = regex::Regex::new(r"^size (\d+)$").unwrap().captures(text)?;
    Some(caps.get(1)?.as_str().as_bytes().to_vec())
}

/// Relies on `regex::Regex::new` and `regex::Regex::captures` with the
/// pattern `^extra square (\d+),(\d+)$`: the texts of its two groups, when
/// the line (read as UTF-8 by `std::str::from_utf8`) matches. The pattern is
/// valid, so `unwrap` does not panic.
#[verifier::external_body]
fn capture_extra(line: &[u8]) -> (r: Option<(Vec<u8>, Vec<u8>)>)
    ensures
        r is None <==> extra_capture(line@) is None,
        r matches Some((a, b)) ==> extra_capture(line@) == Some((a@, b@)),
{
    let text = std::str::from_utf8(line).ok()?;
    let caps = regex::Regex::new(r"^extra square (\d+),(\d+)$").unwrap().captures(text)?;
    Some((caps.get(1)?.as_str().as_bytes().to_vec(), caps.get(2)?.as_str().as_bytes().to_vec()))
}

/// The size that the first line gives, from what the size pattern captured.
pub fn size_from_capture(cap: &Option<Vec<u8>>) -> (r: Result<u8, LoadError>)
    ensures
        cap is None ==> r == Err::<u8, LoadError>(LoadError::NoSize),
        cap matches Some(d) ==> r == match number(d@) {
            Some(n) => Ok::<u8, LoadError>(n),
            None => Err(LoadError::BadSize),
        },
{
    match cap {
        None => Err(LoadError::NoSize),
        Some(d) => match parse_u8(d.as_slice()) {
            Some(n) => Ok(n),
            None => Err(LoadError::BadSize),
        },
    }
}

/// The corner that an extra square line gives, from what the extra pattern
/// captured: `None` when the line is no such line.
pub fn corner_from_capture(cap: &Option<(Vec<u8>, Vec<u8>)>) -> (r: Result<Option<(u8, u8)>, LoadError>)
    ensures
        cap is None ==> r == Ok::<Option<(u8, u8)>, LoadError>(None),
        cap matches Some((a, b)) ==> r == match (number(a@), number(b@)) {
            (Some(x), Some(y)) => Ok::<Option<(u8, u8)>, LoadError>(Some((x, y))),
            _ => Err(LoadError::BadExtraSquare),
        },
{
    match cap {
        None => Ok(None),
        Some((a, b)) => match (parse_u8(a.as_slice()), parse_u8(b.as_slice())) {
            (Some(x), Some(y)) => Ok(Some((x, y))),
            _ => Err(LoadError::BadExtraSquare),
        },
    }
}

/// What a value of a row stands for: `Some(None)` for an open cell, `Some(Some(v))`
/// for a given value, `None` when it is neither.
pub open spec fn cell_value(t: Seq<u8>) -> Option<Option<u8>> {
    if t == seq![46u8] {
        Some(None)
    } else {
        match number(t) {
            Some(v) => Some(Some(v)),
            None => None,
        }
    }
}

/// The row holds `size` values separated by single spaces, each `.` or a number.
pub open spec fn row_ok(line: Seq<u8>, size: int) -> bool {
    &&& split(line, 32).len() == size
    &&& forall|k: int| 0 <= k < size ==> #[trigger] cell_value(split(line, 32)[k]) is Some
}

/// Reads the values of the row at height `y`.
pub fn parse_row(line: &[u8], size: u8, y: u8) -> (r: Result<Vec<Option<u8>>, LoadError>)
    ensures
        r is Ok <==> row_ok(line@, size as int),
        r matches Ok(vals) ==> vals@.len() == size && forall|k: int|
            0 <= k < size ==> Some(#[trigger] vals@[k]) == cell_value(split(line@, 32)[k]),
        r == Err::<Vec<Option<u8>>, LoadError>(LoadError::WrongRowLength(y)) <==> split(line@, 32).len() != size,
        r is Err ==> r == Err::<Vec<Option<u8>>, LoadError>(LoadError::WrongRowLength(y)) || r == Err::<
            Vec<Option<u8>>,
            LoadError,
        >(LoadError::BadValue(y)),
{
    let tokens = split_bytes(line, 32);
    if tokens.len() != size as usize {
        return Err(LoadError::WrongRowLength(y));
    }
    let mut vals: Vec<Option<u8>> = Vec::new();
    let mut k: usize = 0;
    while k < tokens.len()
        invariant
            views(tokens@) == split(line@, 32),
            tokens@.len() == size,
            k <= size,
            vals@.len() == k,
            forall|j: int| 0 <= j < k ==> Some(#[trigger] vals@[j]) == cell_value(split(line@, 32)[j]),
        decreases size - k,
    {
        let t = &tokens[k];
        proof {
            assert(views(tokens@)[k as int] == t@);
        }
        if t.len() == 1 && t[0] == 46 {
            proof {
                assert(t@ =~= seq![46u8]);
            }
            vals.push(None);
        } else {
            proof {
                if t@ == seq![46u8] {
                    assert(t@.len() == 1 && t@[0] == 46);
                }
            }
            match parse_u8(t.as_slice()) {
                Some(v) => vals.push(Some(v)),
                None => {
                    proof {
                        assert(cell_value(split(line@, 32)[k as int]) is None);
                    }
                    return Err(LoadError::BadValue(y));
                },
            }
        }
        k += 1;
    }
    proof {
        assert forall|k: int| 0 <= k < size implies #[trigger] cell_value(split(line@, 32)[k]) is Some by {
            assert(Some(vals@[k]) == cell_value(split(line@, 32)[k]));
        }
    }
    Ok(vals)
}


/// The size that the first line of the text gives.
pub open spec fn puzzle_size(text: Seq<u8>) -> Option<u8> {
    let ls = lines_of(text);
    if ls.len() == 0 {
        None
    } else {
        match size_capture(ls[0]) {
            Some(d) => number(d),
            None => None,
        }
    }
}

/// The line is no extra square line, or it names a corner where a block of a
/// board of width `n` fits.
pub open spec fn extra_ok(line: Seq<u8>, n: int) -> bool {
    extra_capture(line) matches Some((a, b)) ==> (number(a) matches Some(x) && (number(b) matches Some(y)
        && exists|s: int| 0 <= s && #[trigger] (s * s) == n && x + s <= n && y + s <= n))
}

/// The text is a well-formed puzzle.
pub open spec fn puzzle_ok(text: Seq<u8>) -> bool {
    let ls = lines_of(text);
    &&& puzzle_size(text) is Some
    &&& ls.len() > puzzle_size(text).unwrap()
    &&& forall|y: int| 0 <= y < puzzle_size(text).unwrap() ==> #[trigger] row_ok(ls[y + 1], puzzle_size(text).unwrap() as int)
    &&& forall|j: int| puzzle_size(text).unwrap() + 1 <= j < ls.len() ==> #[trigger] extra_ok(ls[j], puzzle_size(text).unwrap() as int)
}

/// The value that the text gives the cell at `(x, y)`, if any.
pub open spec fn given_at(text: Seq<u8>, x: int, y: int) -> Option<u8> {
    match cell_value(split(lines_of(text)[y + 1], 32)[x]) {
        Some(v) => v,
        None => None,
    }
}

/// The corners that the extra square lines among `lines` give, in order.
pub open spec fn extra_corners(lines: Seq<Seq<u8>>) -> Seq<(u8, u8)>
    decreases lines.len(),
{
    if lines.len() == 0 {
        Seq::empty()
    } else {
        let rest = extra_corners(lines.drop_last());
        match extra_capture(lines.last()) {
            Some((a, b)) => match (number(a), number(b)) {
                (Some(x), Some(y)) => rest.push((x, y)),
                _ => rest,
            },
            None => rest,
        }
    }
}

/// The first regions of the board are its rows, columns and blocks, laid out
/// as `Grid::new` lays them out.
pub open spec fn standard_regions(g: Grid) -> bool {
    &&& g.regions.len() >= 2 * g.size + Grid::block_count(g.size as int)
    &&& forall|y: int|
        0 <= y < g.size ==> (#[trigger] g.regions@[2 * y]).kind == RegionKind::Row(Row { y: y as u8 })
            && g.regions@[2 * y + 1].kind == RegionKind::Column(Column { x: y as u8 })
    &&& forall|s: int, k: int|
        0 <= s && s * s == g.size && 0 <= k < g.size ==> (#[trigger] g.regions@[2 * g.size + k]).kind
            == #[trigger] block_kind(s, k)
}

/// After the standard regions, the board holds one block per extra corner,
/// in order.
pub open spec fn extra_regions(g: Grid, corners: Seq<(u8, u8)>) -> bool {
    &&& g.regions.len() == 2 * g.size + Grid::block_count(g.size as int) + corners.len()
    &&& forall|k: int|
        0 <= k < corners.len() ==> ((#[trigger] g.regions@[2 * g.size + Grid::block_count(g.size as int) + k]).kind
            matches RegionKind::Square(sq) && sq.top_left == (Coord { x: corners[k].0, y: corners[k].1 })
            && sq.size * sq.size == g.size)
}

/// Reads a puzzle: a board of the given size with the given values set and
/// the extra squares added. Candidates are left to `compute_candidates`.
pub fn load_puzzle(text: &[u8]) -> (r: Result<Grid, LoadError>)
    ensures
        r is Ok <==> puzzle_ok(text@),
        r matches Ok(g) ==> standard_regions(g) && extra_regions(
            g,
            extra_corners(lines_of(text@).subrange(g.size + 1, lines_of(text@).len() as int)),
        ),
        r matches Ok(g) ==> g.wf() && Some(g.size) == puzzle_size(text@) && forall|i: int|
            0 <= i < g.cells.len() ==> (#[trigger] g.cells@[i]).value == given_at(
                text@,
                g.cells@[i].coord.x as int,
                g.cells@[i].coord.y as int,
            ) && g.cells@[i].is_given == g.cells@[i].value is Some && g.cells@[i].candidates.len() == 0,
        r == Err::<Grid, LoadError>(LoadError::Empty) <==> lines_of(text@).len() == 0,
        r == Err::<Grid, LoadError>(LoadError::NoSize) ==> size_capture(lines_of(text@)[0]) is None,
        r == Err::<Grid, LoadError>(LoadError::BadSize) ==> (size_capture(lines_of(text@)[0]) matches Some(d)
            && number(d) is None),
        r matches Err(LoadError::MissingRow(y)) ==> (puzzle_size(text@) matches Some(n) && y < n
            && lines_of(text@).len() <= y + 1),
        r matches Err(LoadError::WrongRowLength(y)) ==> (puzzle_size(text@) matches Some(n) && y < n
            && y + 1 < lines_of(text@).len() && split(lines_of(text@)[y + 1], 32).len() != n),
        r matches Err(LoadError::BadValue(y)) ==> (puzzle_size(text@) matches Some(n) && y < n
            && y + 1 < lines_of(text@).len() && !row_ok(lines_of(text@)[y + 1], n as int)),
        r == Err::<Grid, LoadError>(LoadError::BadExtraSquare) || r == Err::<Grid, LoadError>(
            LoadError::ExtraSquareOutside,
        ) ==> (puzzle_size(text@) matches Some(n) && exists|j: int|
            n + 1 <= j < lines_of(text@).len() && !#[trigger] extra_ok(lines_of(text@)[j], n as int)),
{
    let lines = text_lines(text);
    let ghost ls = lines_of(text@);
    if lines.len() == 0 {
        return Err(LoadError::Empty);
    }
    proof {
        assert(views(lines@)[0] == lines@[0]@);
    }
    let size = match size_from_capture(&capture_size(lines[0].as_slice())) {
        Ok(n) => n,
        Err(e) => {
            return Err(e);
        },
    };
    let mut grid = Grid::new(size);
    let ghost fresh = grid;
    let mut y: u8 = 0;
    while (y as u16) < size as u16
        invariant
            ls == views(lines@),
            ls == lines_of(text@),
            ls.len() == lines@.len(),
            puzzle_size(text@) == Some(size),
            grid.wf(),
            grid.size == size,
            grid.regions == fresh.regions,
            standard_regions(fresh),
            fresh.regions.len() == 2 * size + Grid::block_count(size as int),
            fresh.size == size,
            y <= size,
            lines@.len() > y,
            forall|t: int| 0 <= t < y ==> #[trigger] row_ok(ls[t + 1], size as int),
            forall|i: int|
                0 <= i < grid.cells.len() ==> (#[trigger] grid.cells@[i]).candidates.len() == 0 && (if grid.cells@[i].coord.y
                    < y {
                    grid.cells@[i].value == given_at(text@, grid.cells@[i].coord.x as int, grid.cells@[i].coord.y as int)
                        && grid.cells@[i].is_given == grid.cells@[i].value is Some
                } else {
                    grid.cells@[i].value is None && !grid.cells@[i].is_given
                }),
        decreases size - y,
    {
        if y as usize + 1 >= lines.len() {
            return Err(LoadError::MissingRow(y));
        }
        let vals = match parse_row(lines[y as usize + 1].as_slice(), size, y) {
            Ok(v) => v,
            Err(e) => {
                proof {
                    assert(views(lines@)[y + 1] == lines@[y + 1]@);
                }
                return Err(e);
            },
        };
        proof {
            assert(views(lines@)[y + 1] == lines@[y + 1]@);
        }
        let mut x: u8 = 0;
        while (x as u16) < size as u16
            invariant
                ls == views(lines@),
                ls == lines_of(text@),
                ls[y + 1] == lines@[y + 1]@,
                y < size,
                grid.wf(),
                grid.size == size,
                grid.regions == fresh.regions,
                x <= size,
                vals@.len() == size,
                forall|k: int| 0 <= k < size ==> Some(#[trigger] vals@[k]) == cell_value(split(ls[y + 1], 32)[k]),
                forall|i: int|
                    0 <= i < grid.cells.len() ==> (#[trigger] grid.cells@[i]).candidates.len() == 0 && (if grid.cells@[i].coord.y
                        < y || (grid.cells@[i].coord.y == y && grid.cells@[i].coord.x < x) {
                        grid.cells@[i].value == given_at(text@, grid.cells@[i].coord.x as int, grid.cells@[i].coord.y as int)
                            && grid.cells@[i].is_given == grid.cells@[i].value is Some
                    } else {
                        grid.cells@[i].value is None && !grid.cells@[i].is_given
                    }),
            decreases size - x,
        {
            let c = Coord::new(x, y);
            proof {
                grid.lemma_cell(c);
                assert(given_at(text@, x as int, y as int) == vals@[x as int]);
            }
            if let Some(v) = vals[x as usize] {
                grid.set_given_value(c, v);
                proof {
                    assert forall|i: int| 0 <= i < grid.cells.len() implies (#[trigger] grid.cells@[i]).candidates.len() == 0 && (if grid.cells@[i].coord.y
                        < y || (grid.cells@[i].coord.y == y && grid.cells@[i].coord.x < x + 1) {
                        grid.cells@[i].value == given_at(text@, grid.cells@[i].coord.x as int, grid.cells@[i].coord.y as int)
                            && grid.cells@[i].is_given == grid.cells@[i].value is Some
                    } else {
                        grid.cells@[i].value is None && !grid.cells@[i].is_given
                    }) by {
                        if i == index_of(size as int, c) {
                        } else {
                            assert(grid.cells@[i].wf(size as int));
                            crate::data::lemma_index_of(size as int, grid.cells@[i].coord, c);
                        }
                    }
                }
            } else {
                proof {
                    assert forall|i: int| 0 <= i < grid.cells.len() implies (#[trigger] grid.cells@[i]).candidates.len() == 0 && (if grid.cells@[i].coord.y
                        < y || (grid.cells@[i].coord.y == y && grid.cells@[i].coord.x < x + 1) {
                        grid.cells@[i].value == given_at(text@, grid.cells@[i].coord.x as int, grid.cells@[i].coord.y as int)
                            && grid.cells@[i].is_given == grid.cells@[i].value is Some
                    } else {
                        grid.cells@[i].value is None && !grid.cells@[i].is_given
                    }) by {
                        assert(grid.cells@[i].wf(size as int));
                        if grid.cells@[i].coord == c {
                            assert(i == index_of(size as int, c));
                        }
                    }
                }
            }
            x += 1;
        }
        proof {
            assert forall|i: int| 0 <= i < grid.cells.len() implies (#[trigger] grid.cells@[i]).coord.y < y + 1 ==> grid.cells@[i].coord.y < y || (grid.cells@[i].coord.y == y && grid.cells@[i].coord.x < x) by {
                assert(grid.cells@[i].wf(size as int));
            }
        }
        y += 1;
    }
    let mut j: usize = size as usize + 1;
    let ghost rows = grid.cells;
    while j < lines.len()
        invariant
            ls == views(lines@),
            ls == lines_of(text@),
            ls.len() == lines@.len(),
            puzzle_size(text@) == Some(size),
            grid.wf(),
            grid.size == size,
            grid.cells == rows,
            standard_regions(fresh),
            fresh.regions.len() == 2 * size + Grid::block_count(size as int),
            fresh.size == size,
            grid.regions@.subrange(0, fresh.regions.len() as int) == fresh.regions@,
            extra_regions(grid, extra_corners(ls.subrange(size + 1, j as int))),
            size + 1 <= j <= lines@.len(),
            forall|t: int| size + 1 <= t < j ==> #[trigger] extra_ok(ls[t], size as int),
        decreases lines@.len() - j,
    {
        proof {
            assert(views(lines@)[j as int] == lines@[j as int]@);
        }
        let cap = capture_extra(lines[j].as_slice());
        let ghost before = grid;
        proof {
            assert(ls.subrange(size + 1, j + 1).drop_last() == ls.subrange(size + 1, j as int));
            assert(ls.subrange(size + 1, j + 1).last() == ls[j as int]);
        }
        match corner_from_capture(&cap) {
            Ok(None) => {},
            Ok(Some((cx, cy))) => {
                if !grid.add_extra_square(cx, cy) {
                    proof {
                        assert(!extra_ok(ls[j as int], size as int));
                    assert(!extra_ok(lines_of(text@)[j as int], size as int));
                    assert(size + 1 <= j < lines_of(text@).len());
                    }
                    return Err(LoadError::ExtraSquareOutside);
                }
            },
            Err(e) => {
                proof {
                    assert(!extra_ok(ls[j as int], size as int));
                    assert(!extra_ok(lines_of(text@)[j as int], size as int));
                    assert(size + 1 <= j < lines_of(text@).len());
                    assert(puzzle_size(text@) matches Some(n) && exists|j: int|
                        n + 1 <= j < lines_of(text@).len() && !#[trigger] extra_ok(lines_of(text@)[j], n as int));
                }
                return Err(e);
            },
        }
        proof {
            assert(grid.regions@.subrange(0, fresh.regions.len() as int) == fresh.regions@) by {
                if grid.regions@ != before.regions@ {
                    assert(grid.regions@.drop_last() == before.regions@);
                    assert(grid.regions@.subrange(0, fresh.regions.len() as int) =~= before.regions@.subrange(0, fresh.regions.len() as int));
                }
            }
            let ex = extra_corners(ls.subrange(size + 1, j + 1));
            let base = 2 * size + Grid::block_count(size as int);
            assert forall|k: int| 0 <= k < ex.len() implies ((#[trigger] grid.regions@[base + k]).kind
                matches RegionKind::Square(sq) && sq.top_left == (Coord { x: ex[k].0, y: ex[k].1 })
                && sq.size * sq.size == grid.size) by {
                if grid.regions@ != before.regions@ {
                    assert(grid.regions@.drop_last() == before.regions@);
                    if k < ex.len() - 1 {
                        assert(grid.regions@[base + k] == before.regions@[base + k]);
                    }
                }
            }
        }
        j += 1;
    }
    proof {
        assert forall|y: int| 0 <= y < grid.size implies (#[trigger] grid.regions@[2 * y]).kind == RegionKind::Row(Row { y: y as u8 })
            && grid.regions@[2 * y + 1].kind == RegionKind::Column(Column { x: y as u8 }) by {
            assert(grid.regions@[2 * y] == grid.regions@.subrange(0, fresh.regions.len() as int)[2 * y]);
            assert(grid.regions@[2 * y + 1] == grid.regions@.subrange(0, fresh.regions.len() as int)[2 * y + 1]);
        }
        assert forall|s: int, k: int| 0 <= s && s * s == grid.size && 0 <= k < grid.size implies (#[trigger] grid.regions@[2 * grid.size + k]).kind
            == #[trigger] block_kind(s, k) by {
            assert(Grid::block_count(size as int) == size) by {
                assert(crate::data::is_perfect_square(size as int));
            }
            assert(grid.regions@[2 * grid.size + k] == grid.regions@.subrange(0, fresh.regions.len() as int)[2 * grid.size + k]);
        }
    }
    Ok(grid)
}

} // verus!
