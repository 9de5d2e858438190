use vstd::prelude::*;

use crate::color::Color;

verus! {

/// A rectangle of the image: its top left pixel and its size.
#[derive(Clone, Copy, Debug, PartialEq, Eq, Structural)]
pub struct TileRegion {
    pub x: u32,
    pub y: u32,
    pub width: u32,
    pub height: u32,
}

/// A computed tile: its region and its pixels, row-major.
#[derive(Clone, Debug)]
pub struct TileData {
    pub x: u32,
    pub y: u32,
    pub width: u32,
    pub height: u32,
    pub pixels: Vec<Color>,
}

/// Where part `i` of `total` pixels cut into `parts` equal parts starts.
pub open spec fn span_start(total: nat, parts: nat, i: nat) -> nat {
    i * (total / parts)
}

/// The length of part `i`: the integer share, and for the last part also
/// what the division leaves over.
pub open spec fn span_len(total: nat, parts: nat, i: nat) -> nat {
    if i + 1 == parts {
        (total - span_start(total, parts, i)) as nat
    } else {
        total / parts
    }
}

/// Whether part `i` holds pixel `p`.
pub open spec fn span_holds(total: nat, parts: nat, i: nat, p: nat) -> bool {
    span_start(total, parts, i) <= p < span_start(total, parts, i) + span_len(total, parts, i)
}

/// Cell `k` of an `x_tiles` by `y_tiles` grid over a `width` by `height`
/// image; cells are numbered row by row.
pub open spec fn tile_region(width: u32, height: u32, x_tiles: u32, y_tiles: u32, k: nat) -> TileRegion {
    let i = k % (x_tiles as nat);
    let j = k / (x_tiles as nat);
    TileRegion {
        x: span_start(width as nat, x_tiles as nat, i) as u32,
        y: span_start(height as nat, y_tiles as nat, j) as u32,
        width: span_len(width as nat, x_tiles as nat, i) as u32,
        height: span_len(height as nat, y_tiles as nat, j) as u32,
    }
}

/// The part that holds pixel `p`: the one its integer share points to, or
/// the last part for pixels in the remainder.
pub open spec fn part_of(total: nat, parts: nat, p: nat) -> nat {
    if total / parts == 0 || p / (total / parts) >= (parts - 1) as nat {
        (parts - 1) as nat
    } else {
        p / (total / parts)
    }
}

/// The number of the cell that holds pixel `(px, py)`.
pub open spec fn cell_of(width: u32, height: u32, x_tiles: u32, y_tiles: u32, px: nat, py: nat) -> nat {
    part_of(height as nat, y_tiles as nat, py) * (x_tiles as nat) + part_of(width as nat, x_tiles as nat, px)
}

/// Whether region `r` holds pixel `(px, py)`.
pub open spec fn region_contains(r: TileRegion, px: nat, py: nat) -> bool {
    &&& r.x <= px < r.x + r.width
    &&& r.y <= py < r.y + r.height
}

proof fn lemma_span_inside(total: nat, parts: nat, i: nat)
    requires
        parts > 0,
        i < parts,
    ensures
        span_start(total, parts, i) + span_len(total, parts, i) <= total,
        i + 1 == parts ==> span_start(total, parts, i) + span_len(total, parts, i) == total,
{
    let (t, p, b) = (total as int, parts as int, (total / parts) as int);
    vstd::arithmetic::div_mod::lemma_fundamental_div_mod(t, p);
    assert((i as int + 1) * b <= t && i as int * b <= t) by (nonlinear_arith)
        requires
            t == p * b + t % p,
            t % p >= 0,
            b >= 0,
            0 <= i < p,
    ;
    assert((i as int + 1) * b == i as int * b + b) by (nonlinear_arith);
}

proof fn lemma_span_unique(total: nat, parts: nat, p: nat)
    requires
        parts > 0,
        p < total,
    ensures
        part_of(total, parts, p) < parts,
        span_holds(total, parts, part_of(total, parts, p), p),
        forall|i1: nat, i2: nat|
            i1 < parts && i2 < parts && span_holds(total, parts, i1, p) && span_holds(
                total,
                parts,
                i2,
                p,
            ) ==> i1 == i2,
{
    let (t, n, b) = (total as int, parts as int, (total / parts) as int);
    vstd::arithmetic::div_mod::lemma_fundamental_div_mod(t, n);
    assert((n - 1) * b <= t) by (nonlinear_arith)
        requires
            t == n * b + t % n,
            t % n >= 0,
            b >= 0,
            n > 0,
    ;
    let last = (parts - 1) as nat;
    lemma_span_inside(total, parts, last);
    let pi = p as int;
    if b == 0 || pi / b >= n - 1 {
        if b > 0 {
            vstd::arithmetic::div_mod::lemma_fundamental_div_mod(pi, b);
            assert((n - 1) * b <= pi) by (nonlinear_arith)
                requires
                    pi == b * (pi / b) + pi % b,
                    pi % b >= 0,
                    pi / b >= n - 1,
                    b > 0,
            ;
        }
        assert(span_holds(total, parts, last, p));
    } else {
        let q = pi / b;
        vstd::arithmetic::div_mod::lemma_fundamental_div_mod(pi, b);
        assert(q * b <= pi < q * b + b && q >= 0) by (nonlinear_arith)
            requires
                pi == b * q + pi % b,
                0 <= pi % b < b,
                pi >= 0,
        ;
        assert(span_holds(total, parts, q as nat, p));
    }
    assert forall|i1: nat, i2: nat|
        i1 < parts && i2 < parts && span_holds(total, parts, i1, p) && span_holds(
            total,
            parts,
            i2,
            p,
        ) implies i1 == i2 by {
        if i1 < i2 {
            assert((i1 as int + 1) * b <= i2 as int * b) by (nonlinear_arith)
                requires
                    i1 < i2,
                    b >= 0,
            ;
            assert((i1 as int + 1) * b == i1 as int * b + b) by (nonlinear_arith);
        }
        if i2 < i1 {
            assert((i2 as int + 1) * b <= i1 as int * b) by (nonlinear_arith)
                requires
                    i2 < i1,
                    b >= 0,
            ;
            assert((i2 as int + 1) * b == i2 as int * b + b) by (nonlinear_arith);
        }
    }
}

proof fn lemma_cell_index(x_tiles: nat, i: nat, j: nat)
    requires
        x_tiles > 0,
        i < x_tiles,
    ensures
        (j * x_tiles + i) % x_tiles == i,
        (j * x_tiles + i) / x_tiles == j,
{
    vstd::arithmetic::div_mod::lemma_fundamental_div_mod_converse(
        (j * x_tiles + i) as int,
        x_tiles as int,
        j as int,
        i as int,
    );
}

/// The tile grid covers the image exactly once: every pixel of the image lies
/// in exactly one cell, and every cell lies inside the image.
pub proof fn lemma_tiles_cover_image_once(width: u32, height: u32, x_tiles: u32, y_tiles: u32)
    requires
        x_tiles > 0,
        y_tiles > 0,
    ensures
        forall|px: nat, py: nat|
            px < width && py < height ==> {
                let k = #[trigger] cell_of(width, height, x_tiles, y_tiles, px, py);
                &&& k < x_tiles * y_tiles
                &&& region_contains(tile_region(width, height, x_tiles, y_tiles, k), px, py)
            },
        forall|px: nat, py: nat, k1: nat, k2: nat|
            k1 < x_tiles * y_tiles && k2 < x_tiles * y_tiles && #[trigger] region_contains(
                tile_region(width, height, x_tiles, y_tiles, k1),
                px,
                py,
            ) && #[trigger] region_contains(tile_region(width, height, x_tiles, y_tiles, k2), px, py)
                ==> k1 == k2,
        forall|k: nat|
            k < x_tiles * y_tiles ==> {
                let r = #[trigger] tile_region(width, height, x_tiles, y_tiles, k);
                &&& r.x + r.width <= width
                &&& r.y + r.height <= height
            },
{
    let (xt, yt) = (x_tiles as nat, y_tiles as nat);
    assert forall|k: nat| k < x_tiles * y_tiles implies {
        let r = #[trigger] tile_region(width, height, x_tiles, y_tiles, k);
        &&& r.x + r.width <= width
        &&& r.y + r.height <= height
    } by {
        lemma_cell_inside(width, height, x_tiles, y_tiles, k);
    }
    assert forall|px: nat, py: nat| px < width && py < height implies {
        let k = #[trigger] cell_of(width, height, x_tiles, y_tiles, px, py);
        &&& k < x_tiles * y_tiles
        &&& region_contains(tile_region(width, height, x_tiles, y_tiles, k), px, py)
    } by {
        lemma_span_unique(width as nat, xt, px);
        lemma_span_unique(height as nat, yt, py);
        let i = part_of(width as nat, xt, px);
        let j = part_of(height as nat, yt, py);
        let k = j * xt + i;
        lemma_cell_index(xt, i, j);
        assert(k < xt * yt) by (nonlinear_arith)
            requires
                k == j * xt + i,
                i < xt,
                j < yt,
        ;
        lemma_cell_inside(width, height, x_tiles, y_tiles, k);
        assert(region_contains(tile_region(width, height, x_tiles, y_tiles, k), px, py));
    }
    assert forall|px: nat, py: nat, k1: nat, k2: nat|
        k1 < x_tiles * y_tiles && k2 < x_tiles * y_tiles && #[trigger] region_contains(
            tile_region(width, height, x_tiles, y_tiles, k1),
            px,
            py,
        ) && #[trigger] region_contains(tile_region(width, height, x_tiles, y_tiles, k2), px, py)
            implies k1 == k2 by {
        lemma_cell_inside(width, height, x_tiles, y_tiles, k1);
        lemma_cell_inside(width, height, x_tiles, y_tiles, k2);
        lemma_span_unique(width as nat, xt, px);
        lemma_span_unique(height as nat, yt, py);
        assert(span_holds(width as nat, xt, k1 % xt, px));
        assert(span_holds(width as nat, xt, k2 % xt, px));
        assert(span_holds(height as nat, yt, k1 / xt, py));
        assert(span_holds(height as nat, yt, k2 / xt, py));
        vstd::arithmetic::div_mod::lemma_fundamental_div_mod(k1 as int, xt as int);
        vstd::arithmetic::div_mod::lemma_fundamental_div_mod(k2 as int, xt as int);
    }
}

/// Cell `k` lies inside the image, and its fields are the spans of its
/// column and row.
proof fn lemma_cell_inside(width: u32, height: u32, x_tiles: u32, y_tiles: u32, k: nat)
    requires
        x_tiles > 0,
        y_tiles > 0,
        k < x_tiles * y_tiles,
    ensures
        ({
            let r = tile_region(width, height, x_tiles, y_tiles, k);
            let (i, j) = (k % (x_tiles as nat), k / (x_tiles as nat));
            &&& i < x_tiles
            &&& j < y_tiles
            &&& r.x == span_start(width as nat, x_tiles as nat, i)
            &&& r.width == span_len(width as nat, x_tiles as nat, i)
            &&& r.y == span_start(height as nat, y_tiles as nat, j)
            &&& r.height == span_len(height as nat, y_tiles as nat, j)
            &&& r.x + r.width <= width
            &&& r.y + r.height <= height
        }),
{
    let (xt, yt) = (x_tiles as int, y_tiles as int);
    vstd::arithmetic::div_mod::lemma_fundamental_div_mod(k as int, xt);
    let (i, j) = (k as int % xt, k as int / xt);
    assert(j < yt) by (nonlinear_arith)
        requires
            k == xt * j + i,
            0 <= i,
            k < xt * yt,
            xt > 0,
    ;
    assert(j >= 0) by (nonlinear_arith)
        requires
            k == xt * j + i,
            i < xt,
            k >= 0,
            xt > 0,
    ;
    lemma_span_inside(width as nat, x_tiles as nat, i as nat);
    lemma_span_inside(height as nat, y_tiles as nat, j as nat);
}

/// The pixels of region `r` of an image `width` pixels wide, row-major.
pub open spec fn tile_pixels(pixels: Seq<Color>, width: nat, r: TileRegion) -> Seq<Color> {
    Seq::new(
        (r.width * r.height) as nat,
        |i: int| pixels[(r.y + i / r.width as int) * width + r.x + i % r.width as int],
    )
}

/// Part `i` of `total` pixels cut into `parts`: its start and length.
fn span(total: u32, parts: u32, i: u32) -> (r: (u32, u32))
    requires
        parts > 0,
        i < parts,
    ensures
        r.0 == span_start(total as nat, parts as nat, i as nat),
        r.1 == span_len(total as nat, parts as nat, i as nat),
{
    proof {
        lemma_span_inside(total as nat, parts as nat, i as nat);
    }
    let share = total / parts;
    let start = i * share;
    if i + 1 == parts {
        (start, total - start)
    } else {
        (start, share)
    }
}

/// Cuts a `width` by `height` image into an `x_tiles` by `y_tiles` grid of
/// cells, numbered row by row. Cells are as equal as integer division allows;
/// the last column and the last row take the remainder pixels.
pub fn decompose(width: u32, height: u32, x_tiles: u32, y_tiles: u32) -> (r: Vec<TileRegion>)
    requires
        x_tiles > 0,
        y_tiles > 0,
    ensures
        r@ == Seq::new(
            (x_tiles * y_tiles) as nat,
            |k: int| tile_region(width, height, x_tiles, y_tiles, k as nat),
        ),
{
    let mut out: Vec<TileRegion> = Vec::new();
    let mut j: u32 = 0;
    while j < y_tiles
        invariant
            0 <= j <= y_tiles,
            x_tiles > 0,
            out@ == Seq::new((j * x_tiles) as nat, |k: int| tile_region(width, height, x_tiles, y_tiles, k as nat)),
        decreases y_tiles - j,
    {
        let (y, h) = span(height, y_tiles, j);
        let mut i: u32 = 0;
        while i < x_tiles
            invariant
                0 <= i <= x_tiles,
                j < y_tiles,
                y == span_start(height as nat, y_tiles as nat, j as nat),
                h == span_len(height as nat, y_tiles as nat, j as nat),
                out@ == Seq::new((j * x_tiles + i) as nat, |k: int| tile_region(width, height, x_tiles, y_tiles, k as nat)),
            decreases x_tiles - i,
        {
            let (x, w) = span(width, x_tiles, i);
            let t = TileRegion { x, y, width: w, height: h };
            proof {
                lemma_cell_index(x_tiles as nat, i as nat, j as nat);
                let k = (j * x_tiles + i) as nat;
                assert(k % (x_tiles as nat) == i);
                assert(k / (x_tiles as nat) == j);
                assert(t.x == tile_region(width, height, x_tiles, y_tiles, k).x);
                assert(t.width == tile_region(width, height, x_tiles, y_tiles, k).width);
                assert(t.y == tile_region(width, height, x_tiles, y_tiles, k).y);
                assert(t == tile_region(width, height, x_tiles, y_tiles, k));
            }
            out.push(t);
            i = i + 1;
            assert(out@ =~= Seq::new((j * x_tiles + i) as nat, |k: int| tile_region(width, height, x_tiles, y_tiles, k as nat)));
        }
        assert((j + 1) * x_tiles == j * x_tiles + x_tiles) by (nonlinear_arith);
        j = j + 1;
    }
    assert(j * x_tiles == x_tiles * y_tiles) by (nonlinear_arith)
        requires
            j == y_tiles,
    ;
    out
}

/// Copies region `region` out of a `width` by `height` image.
pub fn cut_tile(pixels: &Vec<Color>, width: u32, height: u32, region: TileRegion) -> (t: TileData)
    requires
        pixels.len() == width as int * height as int,
        region.x + region.width <= width,
        region.y + region.height <= height,
    ensures
        t.x == region.x,
        t.y == region.y,
        t.width == region.width,
        t.height == region.height,
        t.pixels@ == tile_pixels(pixels@, width as nat, region),
{
    let mut out: Vec<Color> = Vec::new();
    let mut row: u32 = 0;
    while row < region.height
        invariant
            0 <= row <= region.height,
            pixels.len() == width as int * height as int,
            region.x + region.width <= width,
            region.y + region.height <= height,
            out@ == Seq::new((row * region.width) as nat, |i: int| pixels@[(region.y + i / region.width as int) * width + region.x + i % region.width as int]),
        decreases region.height - row,
    {
        let mut col: u32 = 0;
        while col < region.width
            invariant
                0 <= col <= region.width,
                row < region.height,
                pixels.len() == width as int * height as int,
                region.x + region.width <= width,
                region.y + region.height <= height,
                out@ == Seq::new((row * region.width + col) as nat, |i: int| pixels@[(region.y + i / region.width as int) * width + region.x + i % region.width as int]),
            decreases region.width - col,
        {
            let ghost (py, px, w, h) = ((region.y + row) as int, (region.x + col) as int, width as int, height as int);
            proof {
                assert(py * w + px < w * h) by (nonlinear_arith)
                    requires
                        py < h,
                        0 <= px < w,
                ;
                assert(0 <= py * w) by (nonlinear_arith)
                    requires
                        py >= 0,
                        w >= 0,
                ;
                lemma_cell_index(region.width as nat, col as nat, row as nat);
            }
            let idx: usize = (region.y + row) as usize * width as usize + (region.x + col) as usize;
            out.push(pixels[idx]);
            col = col + 1;
            assert(out@ =~= Seq::new((row * region.width + col) as nat, |i: int| pixels@[(region.y + i / region.width as int) * width + region.x + i % region.width as int]));
        }
        assert((row + 1) * region.width == row * region.width + region.width) by (nonlinear_arith);
        row = row + 1;
    }
    assert(row * region.width == region.width * region.height) by (nonlinear_arith)
        requires
            row == region.height,
    ;
    assert(out@ =~= tile_pixels(pixels@, width as nat, region));
    TileData { x: region.x, y: region.y, width: region.width, height: region.height, pixels: out }
}

/// Whether every row of band `j` (row `j` of the tile grid) is done.
pub open spec fn band_complete(done: Seq<bool>, height: nat, y_tiles: nat, j: nat) -> bool {
    forall|y: int|
        span_start(height, y_tiles, j) <= y < span_start(height, y_tiles, j) + span_len(height, y_tiles, j)
            ==> #[trigger] done[y]
}

/// The numbers of the cells in band `j` of a grid `x_tiles` cells wide.
pub open spec fn band_cells(x_tiles: nat, j: nat) -> Seq<u64> {
    Seq::new(x_tiles, |i: int| (j * x_tiles + i) as u64)
}

/// The cells of the bands below `n` that hold no row, band by band.
pub open spec fn rowless_cells(height: nat, x_tiles: nat, y_tiles: nat, n: nat) -> Seq<u64>
    decreases n,
{
    if n == 0 {
        Seq::empty()
    } else {
        let prev = rowless_cells(height, x_tiles, y_tiles, (n - 1) as nat);
        if span_len(height, y_tiles, (n - 1) as nat) == 0 {
            prev + band_cells(x_tiles, (n - 1) as nat)
        } else {
            prev
        }
    }
}

/// The part that holds pixel `p`.
fn part_index(total: u32, parts: u32, p: u32) -> (i: u32)
    requires
        parts > 0,
    ensures
        i == part_of(total as nat, parts as nat, p as nat),
{
    let share = total / parts;
    if share == 0 || p / share >= parts - 1 {
        parts - 1
    } else {
        p / share
    }
}

/// Progressive delivery: follows which rows are done and says which tiles
/// become complete as each row finishes.
#[derive(Debug)]
pub struct TileTracker {
    height: u32,
    x_tiles: u32,
    y_tiles: u32,
    done: Vec<bool>,
}

impl TileTracker {
    /// Which rows are done.
    pub closed spec fn done(&self) -> Seq<bool> {
        self.done@
    }

    pub closed spec fn height(&self) -> nat {
        self.height as nat
    }

    pub closed spec fn x_tiles(&self) -> nat {
        self.x_tiles as nat
    }

    pub closed spec fn y_tiles(&self) -> nat {
        self.y_tiles as nat
    }

    pub closed spec fn wf(&self) -> bool {
        &&& self.done@.len() == self.height
        &&& self.x_tiles > 0
        &&& self.y_tiles > 0
    }

    /// A tracker for an image `height` rows high cut into an `x_tiles` by
    /// `y_tiles` grid, with no row done.
    pub fn new(height: u32, x_tiles: u32, y_tiles: u32) -> (t: TileTracker)
        requires
            x_tiles > 0,
            y_tiles > 0,
        ensures
            t.wf(),
            t.height() == height,
            t.x_tiles() == x_tiles,
            t.y_tiles() == y_tiles,
            t.done() == Seq::new(height as nat, |y: int| false),
    {
        let mut done: Vec<bool> = Vec::new();
        let mut y: u32 = 0;
        while y < height
            invariant
                0 <= y <= height,
                done@ == Seq::new(y as nat, |k: int| false),
            decreases height - y,
        {
            done.push(false);
            y = y + 1;
            assert(done@ =~= Seq::new(y as nat, |k: int| false));
        }
        TileTracker { height, x_tiles, y_tiles, done }
    }

    /// The cells of the bands that hold no row (there are such bands when
    /// the grid has more rows of tiles than the image has rows). No row ever
    /// completes them, so they are to be sent apart from `row_completed`.
    pub fn rowless_band_cells(&self) -> (r: Vec<u64>)
        requires
            self.wf(),
        ensures
            r@ == rowless_cells(self.height(), self.x_tiles(), self.y_tiles(), self.y_tiles()),
    {
        let mut cells: Vec<u64> = Vec::new();
        let mut j: u32 = 0;
        while j < self.y_tiles
            invariant
                0 <= j <= self.y_tiles,
                self.x_tiles > 0,
                self.y_tiles > 0,
                cells@ == rowless_cells(self.height as nat, self.x_tiles as nat, self.y_tiles as nat, j as nat),
            decreases self.y_tiles - j,
        {
            let (_, len) = span(self.height, self.y_tiles, j);
            if len == 0 {
                let ghost before = cells@;
                let mut i: u32 = 0;
                while i < self.x_tiles
                    invariant
                        0 <= i <= self.x_tiles,
                        j < self.y_tiles,
                        cells@ == before + Seq::new(i as nat, |c: int| (j * self.x_tiles + c) as u64),
                    decreases self.x_tiles - i,
                {
                    proof {
                        assert(j as int * self.x_tiles as int + i < u64::MAX) by (nonlinear_arith)
                            requires
                                j < 4294967296int,
                                self.x_tiles < 4294967296int,
                                i < self.x_tiles,
                        ;
                    }
                    cells.push(j as u64 * self.x_tiles as u64 + i as u64);
                    i = i + 1;
                    assert(cells@ =~= before + Seq::new(i as nat, |c: int| (j * self.x_tiles + c) as u64));
                }
                assert(Seq::new(self.x_tiles as nat, |c: int| (j * self.x_tiles + c) as u64)
                    =~= band_cells(self.x_tiles as nat, j as nat));
            }
            j = j + 1;
        }
        cells
    }

    /// Records that row `y` is done. Returns the numbers of the cells that
    /// this completes: the whole band of `y` when `y` was its last row not yet
    /// done, and nothing otherwise (also for a row already done or outside the
    /// image).
    pub fn row_completed(&mut self, y: u32) -> (r: Vec<u64>)
        requires
            old(self).wf(),
        ensures
            final(self).wf(),
            final(self).height() == old(self).height(),
            final(self).x_tiles() == old(self).x_tiles(),
            final(self).y_tiles() == old(self).y_tiles(),
            final(self).done() == if y < old(self).height() {
                old(self).done().update(y as int, true)
            } else {
                old(self).done()
            },
            r@ == if y < old(self).height() && !old(self).done()[y as int] && band_complete(
                final(self).done(),
                old(self).height(),
                old(self).y_tiles(),
                part_of(old(self).height(), old(self).y_tiles(), y as nat),
            ) {
                band_cells(old(self).x_tiles(), part_of(old(self).height(), old(self).y_tiles(), y as nat))
            } else {
                Seq::<u64>::empty()
            },
    {
        let mut cells: Vec<u64> = Vec::new();
        if y >= self.height || self.done[y as usize] {
            return cells;
        }
        self.done.set(y as usize, true);
        let j = part_index(self.height, self.y_tiles, y);
        proof {
            lemma_span_unique(self.height as nat, self.y_tiles as nat, y as nat);
            lemma_span_inside(self.height as nat, self.y_tiles as nat, j as nat);
        }
        let (start, len) = span(self.height, self.y_tiles, j);
        let mut row: u32 = start;
        while row < start + len
            invariant
                start <= row <= start + len,
                start + len <= self.height,
                cells@ == Seq::<u64>::empty(),
                self.done@.len() == self.height,
                self.done@ == old(self).done@.update(y as int, true),
                self.height == old(self).height,
                self.x_tiles == old(self).x_tiles,
                self.y_tiles == old(self).y_tiles,
                self.x_tiles > 0,
                self.y_tiles > 0,
                y < self.height,
                !old(self).done@[y as int],
                j == part_of(self.height as nat, self.y_tiles as nat, y as nat),
                start == span_start(self.height as nat, self.y_tiles as nat, j as nat),
                len == span_len(self.height as nat, self.y_tiles as nat, j as nat),
                forall|k: int| start <= k < row ==> #[trigger] self.done@[k],
            decreases start + len - row,
        {
            if !self.done[row as usize] {
                assert(!band_complete(self.done@, self.height as nat, self.y_tiles as nat, j as nat));
                return cells;
            }
            row = row + 1;
        }
        let mut i: u32 = 0;
        while i < self.x_tiles
            invariant
                0 <= i <= self.x_tiles,
                j < self.y_tiles,
                self.done@.len() == self.height,
                self.done@ == old(self).done@.update(y as int, true),
                self.height == old(self).height,
                self.x_tiles == old(self).x_tiles,
                self.y_tiles == old(self).y_tiles,
                self.x_tiles > 0,
                self.y_tiles > 0,
                cells@ == Seq::new(i as nat, |c: int| (j * self.x_tiles + c) as u64),
            decreases self.x_tiles - i,
        {
            proof {
                assert(j as int * self.x_tiles as int + i < u64::MAX) by (nonlinear_arith)
                    requires
                        j < 4294967296int,
                        self.x_tiles < 4294967296int,
                        i < self.x_tiles,
                ;
            }
            cells.push(j as u64 * self.x_tiles as u64 + i as u64);
            i = i + 1;
            assert(cells@ =~= Seq::new(i as nat, |c: int| (j * self.x_tiles + c) as u64));
        }
        cells
    }
}

/// Progressive delivery sends a band of tiles exactly when its last row is
/// done: recording row `y` on the rows `done` reports band `j` if and only if
/// that record turns band `j` from incomplete to complete. As rows only ever
/// become done, each band is reported at most once, and once every row is
/// done every band that has rows has been reported.
pub proof fn lemma_band_reported_on_completion(
    height: nat,
    y_tiles: nat,
    done: Seq<bool>,
    y: nat,
    j: nat,
)
    requires
        done.len() == height,
        y_tiles > 0,
        j < y_tiles,
    ensures
        ({
            let after = if y < height {
                done.update(y as int, true)
            } else {
                done
            };
            let reported = y < height && !done[y as int] && band_complete(
                after,
                height,
                y_tiles,
                part_of(height, y_tiles, y),
            );
            (reported && part_of(height, y_tiles, y) == j) <==> (!band_complete(
                done,
                height,
                y_tiles,
                j,
            ) && band_complete(after, height, y_tiles, j))
        }),
{
    let after = if y < height {
        done.update(y as int, true)
    } else {
        done
    };
    lemma_span_inside(height, y_tiles, j);
    if y < height {
        lemma_span_unique(height, y_tiles, y);
        let b = part_of(height, y_tiles, y);
        if !done[y as int] && band_complete(after, height, y_tiles, b) && b == j {
            assert(!band_complete(done, height, y_tiles, j)) by {
                assert(!done[y as int]);
            }
        }
        if !band_complete(done, height, y_tiles, j) && band_complete(after, height, y_tiles, j) {
            let r = choose|r: int|
                span_start(height, y_tiles, j) <= r < span_start(height, y_tiles, j) + span_len(
                    height,
                    y_tiles,
                    j,
                ) && !#[trigger] done[r];
            assert(after[r]);
            assert(r == y);
            assert(span_holds(height, y_tiles, j, y));
        }
    } else {
        if !band_complete(done, height, y_tiles, j) {
            let r = choose|r: int|
                span_start(height, y_tiles, j) <= r < span_start(height, y_tiles, j) + span_len(
                    height,
                    y_tiles,
                    j,
                ) && !#[trigger] done[r];
            assert(!after[r]);
        }
    }
}

} // verus!
