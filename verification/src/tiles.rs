//! Tiles on a grid, the axis-parallel lines between aligned tiles, and the
//! largest rectangle between two tiles whose border those lines enclose.

use vstd::prelude::*;

verus! {

/// A tile of the grid.
#[derive(Debug, Clone, Copy, PartialEq, Eq, Structural)]
pub struct Tile {
    pub x: u64,
    pub y: u64,
}

/// How a line lies on the grid.
#[derive(Debug, Clone, Copy, PartialEq, Eq, Structural)]
pub enum LineType {
    Horizontal,
    Vertical,
    Point,
}

/// A line between two aligned tiles; `a` is the end with the smaller coordinate.
#[derive(Debug, Clone, Copy, PartialEq, Eq, Structural)]
pub struct Line {
    pub a: Tile,
    pub b: Tile,
    pub line_type: LineType,
}

/// The distance between two coordinates.
pub open spec fn gap(a: u64, b: u64) -> int {
    if a >= b {
        a - b
    } else {
        b - a
    }
}

/// The number of tiles of the rectangle with corners `a` and `b`.
pub open spec fn area_of(a: Tile, b: Tile) -> int {
    (gap(a.x, b.x) + 1) * (gap(a.y, b.y) + 1)
}

/// The two tiles share a row or a column.
pub open spec fn aligned(t1: Tile, t2: Tile) -> bool {
    t1.x == t2.x || t1.y == t2.y
}

/// The line between two aligned tiles.
pub open spec fn line_between(t1: Tile, t2: Tile) -> Line {
    if t1.x == t2.x && t1.y == t2.y {
        Line { a: t1, b: t2, line_type: LineType::Point }
    } else if t1.x == t2.x {
        if t1.y > t2.y {
            Line { a: t2, b: t1, line_type: LineType::Vertical }
        } else {
            Line { a: t1, b: t2, line_type: LineType::Vertical }
        }
    } else {
        if t1.x > t2.x {
            Line { a: t2, b: t1, line_type: LineType::Horizontal }
        } else {
            Line { a: t1, b: t2, line_type: LineType::Horizontal }
        }
    }
}

/// The line is vertical and passes the row of the tile.
pub open spec fn passes_row(line: Line, tile: Tile) -> bool {
    line.line_type == LineType::Vertical && line.a.y <= tile.y && line.b.y >= tile.y
}

/// The line is horizontal and passes the column of the tile.
pub open spec fn passes_column(line: Line, tile: Tile) -> bool {
    line.line_type == LineType::Horizontal && line.a.x <= tile.x && line.b.x >= tile.x
}

/// Among the first `k` lines there is one on each of the four sides of the tile.
pub open spec fn east_of(lines: Seq<Line>, tile: Tile, k: int) -> bool {
    exists|i: int| 0 <= i < k && passes_row(#[trigger] lines[i], tile) && tile.x <= lines[i].a.x
}

pub open spec fn west_of(lines: Seq<Line>, tile: Tile, k: int) -> bool {
    exists|i: int| 0 <= i < k && passes_row(#[trigger] lines[i], tile) && lines[i].a.x <= tile.x
}

pub open spec fn north_of(lines: Seq<Line>, tile: Tile, k: int) -> bool {
    exists|i: int| 0 <= i < k && passes_column(#[trigger] lines[i], tile) && tile.y <= lines[i].a.y
}

pub open spec fn south_of(lines: Seq<Line>, tile: Tile, k: int) -> bool {
    exists|i: int| 0 <= i < k && passes_column(#[trigger] lines[i], tile) && lines[i].a.y <= tile.y
}

/// The tile has a line on each of its four sides.
pub open spec fn tile_valid(lines: Seq<Line>, tile: Tile) -> bool {
    let n = lines.len() as int;
    east_of(lines, tile, n) && west_of(lines, tile, n) && north_of(lines, tile, n) && south_of(lines, tile, n)
}

/// Every tile of the line has a line on each of its four sides.
pub open spec fn line_valid(lines: Seq<Line>, line: Line) -> bool {
    match line.line_type {
        LineType::Horizontal => forall|x: u64|
            line.a.x <= x <= line.b.x ==> #[trigger] tile_valid(lines, Tile { x, y: line.a.y }),
        LineType::Vertical => forall|y: u64|
            line.a.y <= y <= line.b.y ==> #[trigger] tile_valid(lines, Tile { x: line.a.x, y }),
        LineType::Point => true,
    }
}

/// The four sides of the rectangle with corners `p` and `q` are valid lines.
pub open spec fn rect_valid(lines: Seq<Line>, p: Tile, q: Tile) -> bool {
    let c2 = Tile { x: q.x, y: p.y };
    let c4 = Tile { x: p.x, y: q.y };
    &&& line_valid(lines, line_between(p, c2))
    &&& line_valid(lines, line_between(c2, q))
    &&& line_valid(lines, line_between(q, c4))
    &&& line_valid(lines, line_between(c4, p))
}

/// The line lies between two aligned tiles of the list.
pub open spec fn joins_aligned(tiles: Seq<Tile>, line: Line) -> bool {
    exists|i: int, j: int|
        0 <= i < j < tiles.len() && aligned(tiles[i], tiles[j]) && #[trigger] line_between(tiles[i], tiles[j])
            == line
}

/// `lines` holds the line between each two aligned tiles, and nothing else.
pub open spec fn is_boundary(tiles: Seq<Tile>, lines: Seq<Line>) -> bool {
    &&& forall|k: int|
        0 <= k < lines.len() ==> joins_aligned(tiles, #[trigger] lines[k])
    &&& forall|i: int, j: int|
        0 <= i < j < tiles.len() && aligned(tiles[i], tiles[j]) ==> lines.contains(
            #[trigger] line_between(tiles[i], tiles[j]),
        )
}

/// Every two tiles span a rectangle whose area fits in a `u64`.
pub open spec fn areas_fit(tiles: Seq<Tile>) -> bool {
    forall|i: int, j: int|
        0 <= i < tiles.len() && 0 <= j < tiles.len() ==> area_of(#[trigger] tiles[i], #[trigger] tiles[j])
            <= u64::MAX
}

/// The pair counts: always without lines, else where its rectangle has four
/// valid sides.
pub open spec fn admits(filter: Option<Seq<Line>>, p: Tile, q: Tile) -> bool {
    match filter {
        Some(lines) => rect_valid(lines, p, q),
        None => true,
    }
}

/// The lines that a search was given, as a sequence.
pub open spec fn filter_of(lines: Option<&Vec<Line>>) -> Option<Seq<Line>> {
    match lines {
        Some(ls) => Some(ls@),
        None => None,
    }
}

/// `r` is the largest area among the pairs of tiles that count; nothing where
/// none counts.
pub open spec fn is_largest(tiles: Seq<Tile>, ok: Option<Seq<Line>>, r: Option<u64>) -> bool {
    match r {
        None => forall|i: int, j: int| 0 <= i < j < tiles.len() ==> !admits(ok, #[trigger] tiles[i], #[trigger] tiles[j]),
        Some(v) => {
            &&& exists|i: int, j: int|
                0 <= i < j < tiles.len() && admits(ok, #[trigger] tiles[i], #[trigger] tiles[j]) && area_of(
                    tiles[i],
                    tiles[j],
                ) == v
            &&& forall|i: int, j: int|
                0 <= i < j < tiles.len() && admits(ok, #[trigger] tiles[i], #[trigger] tiles[j]) ==> area_of(
                    tiles[i],
                    tiles[j],
                ) <= v
        },
    }
}

impl Tile {
    /// The tile in column `x` and row `y`.
    pub fn new(x: u64, y: u64) -> (t: Tile)
        ensures
            t == (Tile { x, y }),
    {
        Tile { x, y }
    }

    /// The number of tiles of the rectangle that has the two tiles as corners.
    pub fn area(&self, other: &Tile) -> (r: u64)
        requires
            area_of(*self, *other) <= u64::MAX,
        ensures
            r == area_of(*self, *other),
    {
        let dx: u64 = if self.x >= other.x {
            self.x - other.x
        } else {
            other.x - self.x
        };
        let dy: u64 = if self.y >= other.y {
            self.y - other.y
        } else {
            other.y - self.y
        };
        let r: u128 = (dx as u128 + 1) * (dy as u128 + 1);
        r as u64
    }
}

impl Line {
    /// The line between two tiles of one row or one column.
    pub fn new(t1: Tile, t2: Tile) -> (line: Line)
        requires
            aligned(t1, t2),
        ensures
            line == line_between(t1, t2),
    {
        if t1.x == t2.x && t1.y == t2.y {
            Line { a: t1, b: t2, line_type: LineType::Point }
        } else if t1.x == t2.x {
            if t1.y > t2.y {
                Line { a: t2, b: t1, line_type: LineType::Vertical }
            } else {
                Line { a: t1, b: t2, line_type: LineType::Vertical }
            }
        } else {
            if t1.x > t2.x {
                Line { a: t2, b: t1, line_type: LineType::Horizontal }
            } else {
                Line { a: t1, b: t2, line_type: LineType::Horizontal }
            }
        }
    }
}

/// The largest rectangle between any two of the tiles; 0 for fewer than two tiles.
pub fn _part1(tiles: Vec<Tile>) -> (r: u64)
    requires
        areas_fit(tiles@),
    ensures
        tiles@.len() < 2 ==> r == 0,
        tiles@.len() >= 2 ==> is_largest(tiles@, None, Some(r)),
{
    proof {
        if tiles@.len() >= 2 {
            assert(admits(None, tiles@[0], tiles@[1]));
        }
    }
    match largest_area(&tiles, None) {
        None => 0,
        Some(v) => v,
    }
}

/// Whether the tile has a line on each of its four sides.
pub fn is_tile_valid(lines: &[Line], tile: &Tile) -> (valid: bool)
    ensures
        valid == tile_valid(lines@, *tile),
{
    let mut east: bool = false;
    let mut west: bool = false;
    let mut north: bool = false;
    let mut south: bool = false;
    let mut k: usize = 0;
    while k < lines.len()
        invariant
            k <= lines@.len(),
            east == east_of(lines@, *tile, k as int),
            west == west_of(lines@, *tile, k as int),
            north == north_of(lines@, *tile, k as int),
            south == south_of(lines@, *tile, k as int),
        decreases lines@.len() - k,
    {
        let line: Line = lines[k];
        if line.line_type == LineType::Vertical && line.a.y <= tile.y && line.b.y >= tile.y {
            if tile.x <= line.a.x {
                east = true;
            }
            if line.a.x <= tile.x {
                west = true;
            }
        }
        if line.line_type == LineType::Horizontal && line.a.x <= tile.x && line.b.x >= tile.x {
            if tile.y <= line.a.y {
                north = true;
            }
            if line.a.y <= tile.y {
                south = true;
            }
        }
        k += 1;
    }
    east && west && north && south
}

/// Whether every tile of the line has a line on each of its four sides.
pub fn check_line(lines: &[Line], line: &Line) -> (valid: bool)
    ensures
        valid == line_valid(lines@, *line),
{
    match line.line_type {
        LineType::Horizontal => {
            if line.a.x > line.b.x {
                return true;
            }
            let mut x: u64 = line.a.x;
            while x < line.b.x
                invariant
                    line.line_type == LineType::Horizontal,
                    line.a.x <= x <= line.b.x,
                    forall|t: u64| line.a.x <= t < x ==> #[trigger] tile_valid(lines@, Tile { x: t, y: line.a.y }),
                decreases line.b.x - x,
            {
                if !is_tile_valid(lines, &Tile::new(x, line.a.y)) {
                    assert(!tile_valid(lines@, Tile { x, y: line.a.y }));
                    return false;
                }
                x += 1;
            }
            is_tile_valid(lines, &Tile::new(x, line.a.y))
        },
        LineType::Vertical => {
            if line.a.y > line.b.y {
                return true;
            }
            let mut y: u64 = line.a.y;
            while y < line.b.y
                invariant
                    line.line_type == LineType::Vertical,
                    line.a.y <= y <= line.b.y,
                    forall|t: u64| line.a.y <= t < y ==> #[trigger] tile_valid(lines@, Tile { x: line.a.x, y: t }),
                decreases line.b.y - y,
            {
                if !is_tile_valid(lines, &Tile::new(line.a.x, y)) {
                    assert(!tile_valid(lines@, Tile { x: line.a.x, y }));
                    return false;
                }
                y += 1;
            }
            is_tile_valid(lines, &Tile::new(line.a.x, y))
        },
        LineType::Point => true,
    }
}

/// Whether the four sides of the rectangle with corners `p` and `q` are valid.
pub fn check_rect(lines: &[Line], p: Tile, q: Tile) -> (valid: bool)
    ensures
        valid == rect_valid(lines@, p, q),
{
    let c2 = Tile::new(q.x, p.y);
    let c4 = Tile::new(p.x, q.y);
    check_line(lines, &Line::new(p, c2)) && check_line(lines, &Line::new(c2, q)) && check_line(
        lines,
        &Line::new(q, c4),
    ) && check_line(lines, &Line::new(c4, p))
}

/// The lines between each two aligned tiles.
pub fn lines_between(tiles: &Vec<Tile>) -> (lines: Vec<Line>)
    ensures
        is_boundary(tiles@, lines@),
{
    let mut lines: Vec<Line> = Vec::new();
    let n: usize = tiles.len();
    let mut i: usize = 0;
    while i < n
        invariant
            n == tiles@.len(),
            i <= n,
            forall|k: int| 0 <= k < lines@.len() ==> joins_aligned(tiles@, #[trigger] lines@[k]),
            forall|c: int, d: int|
                0 <= c < d < n && c < i && aligned(tiles@[c], tiles@[d]) ==> lines@.contains(
                    #[trigger] line_between(tiles@[c], tiles@[d]),
                ),
        decreases n - i,
    {
        let mut j: usize = i + 1;
        while j < n
            invariant
                n == tiles@.len(),
                i < n,
                i < j <= n,
                forall|k: int| 0 <= k < lines@.len() ==> joins_aligned(tiles@, #[trigger] lines@[k]),
                forall|c: int, d: int|
                    0 <= c < d < n && (c < i || (c == i && d < j)) && aligned(tiles@[c], tiles@[d])
                        ==> lines@.contains(#[trigger] line_between(tiles@[c], tiles@[d])),
            decreases n - j,
        {
            if tiles[i].x == tiles[j].x || tiles[i].y == tiles[j].y {
                let ghost before = lines@;
                let line = Line::new(tiles[i], tiles[j]);
                lines.push(line);
                proof {
                    assert forall|k: int| 0 <= k < lines@.len() implies joins_aligned(
                        tiles@,
                        #[trigger] lines@[k],
                    ) by {
                        if k < before.len() {
                            assert(lines@[k] == before[k]);
                        } else {
                            assert(line_between(tiles@[i as int], tiles@[j as int]) == lines@[k]);
                        }
                    }
                    assert forall|c: int, d: int|
                        0 <= c < d < n && (c < i || (c == i && d < j + 1)) && aligned(
                            tiles@[c],
                            tiles@[d],
                        ) implies lines@.contains(#[trigger] line_between(tiles@[c], tiles@[d])) by {
                        let l = line_between(tiles@[c], tiles@[d]);
                        if c == i && d == j {
                            assert(lines@[before.len() as int] == l);
                        } else {
                            let k = choose|k: int| 0 <= k < before.len() && before[k] == l;
                            assert(lines@[k] == l);
                        }
                    }
                }
            }
            j += 1;
        }
        i += 1;
    }
    lines
}

/// The largest area among the pairs of tiles; with `lines` given, among those
/// whose rectangle has four valid sides.
pub fn largest_area(tiles: &Vec<Tile>, lines: Option<&Vec<Line>>) -> (r: Option<u64>)
    requires
        areas_fit(tiles@),
    ensures
        is_largest(tiles@, filter_of(lines), r),
{
    let ghost ok = filter_of(lines);
    let n: usize = tiles.len();
    let mut best: Option<u64> = None;
    let mut i: usize = 0;
    while i < n
        invariant
            n == tiles@.len(),
            i <= n,
            areas_fit(tiles@),
            ok == filter_of(lines),
            seen_largest(tiles@, ok, best, i as int, i as int + 1),
        decreases n - i,
    {
        let mut j: usize = i + 1;
        while j < n
            invariant
                n == tiles@.len(),
                i < n,
                i < j <= n,
                areas_fit(tiles@),
                ok == filter_of(lines),
                seen_largest(tiles@, ok, best, i as int, j as int),
            decreases n - j,
        {
            let admitted: bool = match lines {
                Some(ls) => check_rect(ls.as_slice(), tiles[i], tiles[j]),
                None => true,
            };
            assert(admitted == admits(ok, tiles@[i as int], tiles@[j as int]));
            if admitted {
                let v: u64 = tiles[i].area(&tiles[j]);
                let larger: bool = match best {
                    None => true,
                    Some(b) => v > b,
                };
                if larger {
                    best = Some(v);
                }
            }
            j += 1;
        }
        i += 1;
    }
    best
}

/// Pair `(c, d)` comes before pair `(i, j)`.
pub open spec fn seen(tiles: Seq<Tile>, i: int, j: int, c: int, d: int) -> bool {
    0 <= c < d < tiles.len() && (c < i || (c == i && d < j))
}

/// `r` is the largest area among the pairs before pair `(i, j)` that count.
pub open spec fn seen_largest(
    tiles: Seq<Tile>,
    ok: Option<Seq<Line>>,
    r: Option<u64>,
    i: int,
    j: int,
) -> bool {
    match r {
        None => forall|c: int, d: int|
            seen(tiles, i, j, c, d) ==> !admits(ok, #[trigger] tiles[c], #[trigger] tiles[d]),
        Some(v) => {
            &&& exists|c: int, d: int|
                seen(tiles, i, j, c, d) && admits(ok, #[trigger] tiles[c], #[trigger] tiles[d]) && area_of(
                    tiles[c],
                    tiles[d],
                ) == v
            &&& forall|c: int, d: int|
                seen(tiles, i, j, c, d) && admits(ok, #[trigger] tiles[c], #[trigger] tiles[d]) ==> area_of(
                    tiles[c],
                    tiles[d],
                ) <= v
        },
    }
}

/// The largest rectangle between two of the tiles whose four sides are valid
/// against the lines between the aligned tiles; nothing where no pair has one.
pub fn part2(tiles: Vec<Tile>) -> (r: Option<u64>)
    requires
        areas_fit(tiles@),
    ensures
        exists|lines: Seq<Line>|
            is_boundary(tiles@, lines) && #[trigger] is_largest(tiles@, Some(lines), r),
{
    let lines = lines_between(&tiles);
    let r = largest_area(&tiles, Some(&lines));
    assert(is_largest(tiles@, Some(lines@), r));
    r
}

} // verus!
