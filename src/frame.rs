use vstd::prelude::*;

use crate::color::{black, rgb_encodes, Color};
use crate::schedule::claims_from_start;

verus! {

/// A finished image: `width * height` colours, row-major, origin top left.
#[derive(Clone, Debug)]
pub struct FractalImage {
    pub width: u32,
    pub height: u32,
    pub pixels: Vec<Color>,
}

/// `pixels` with row `y` of an image `width` pixels wide replaced by `row`.
pub open spec fn with_row(pixels: Seq<Color>, width: nat, y: nat, row: Seq<Color>) -> Seq<Color> {
    Seq::new(
        pixels.len(),
        |i: int|
            if y * width <= i < y * width + width {
                row[i - y * width]
            } else {
                pixels[i]
            },
    )
}

/// A write counter after one more write, stopping at the largest `u32`.
pub open spec fn count_up(c: u32) -> u32 {
    if c < u32::MAX {
        (c + 1) as u32
    } else {
        c
    }
}

/// `list` names, in increasing order, exactly the rows below `n` that
/// `marked` holds of.
pub open spec fn lists_rows(list: Seq<u32>, n: nat, marked: spec_fn(nat) -> bool) -> bool {
    &&& forall|i: int, j: int| 0 <= i < j < list.len() ==> list[i] < list[j]
    &&& forall|i: int| 0 <= i < list.len() ==> list[i] < n && marked(list[i] as nat)
    &&& forall|y: nat| y < n && #[trigger] marked(y) ==> list.contains(y as u32)
}

/// Copies the first `width` colours of `pixels_thread` into row `y_thread`
/// of the image `pixels`.
pub fn copy_pixel_row(width: u32, pixels_thread: &Vec<Color>, pixels: &mut Vec<Color>, y_thread: u32)
    requires
        pixels_thread.len() >= width,
        (y_thread as int + 1) * width as int <= old(pixels).len(),
    ensures
        final(pixels)@ == with_row(old(pixels)@, width as nat, y_thread as nat, pixels_thread@),
{
    proof {
        let (y, w) = (y_thread as int, width as int);
        assert(y * w + w == (y + 1) * w) by (nonlinear_arith);
        assert(0 <= y * w) by (nonlinear_arith)
            requires
                y >= 0,
                w >= 0,
        ;
    }
    let start: usize = y_thread as usize * width as usize;
    let mut x: usize = 0;
    while x < width as usize
        invariant
            start == y_thread as int * width as int,
            start + width as int <= pixels.len(),
            pixels_thread.len() >= width,
            pixels.len() == old(pixels).len(),
            0 <= x <= width,
            forall|i: int|
                0 <= i < pixels.len() ==> #[trigger] pixels@[i] == if start <= i < start + x {
                    pixels_thread@[i - start]
                } else {
                    old(pixels)@[i]
                },
        decreases width - x,
    {
        pixels.set(start + x, pixels_thread[x]);
        x = x + 1;
    }
    assert(pixels@ =~= with_row(old(pixels)@, width as nat, y_thread as nat, pixels_thread@));
}

/// The image under construction during a render. Besides the pixels it
/// counts, for each row, how many times that row was written, so that a
/// render in which some row was lost or written twice is noticed.
#[derive(Debug)]
pub struct FrameBuffer {
    width: u32,
    height: u32,
    pixels: Vec<Color>,
    row_writes: Vec<u32>,
}

/// What a render produced: the image, the rows that were never written (left
/// black) and the rows that were written more than once. The render is
/// complete when both lists are empty.
#[derive(Clone, Debug)]
pub struct RenderOutcome {
    pub image: FractalImage,
    pub missing_rows: Vec<u32>,
    pub repeated_rows: Vec<u32>,
}

impl FrameBuffer {
    pub closed spec fn width(&self) -> nat {
        self.width as nat
    }

    pub closed spec fn height(&self) -> nat {
        self.height as nat
    }

    /// The pixels, row-major.
    pub closed spec fn pixels(&self) -> Seq<Color> {
        self.pixels@
    }

    /// How many times each row has been written.
    pub closed spec fn writes(&self) -> Seq<u32> {
        self.row_writes@
    }

    pub closed spec fn wf(&self) -> bool {
        &&& self.pixels@.len() == self.width as int * self.height as int
        &&& self.row_writes@.len() == self.height
    }

    /// A black image of the given size with no row written yet.
    pub fn new(width: u32, height: u32) -> (fb: FrameBuffer)
        requires
            width as int * height as int <= usize::MAX,
        ensures
            fb.wf(),
            fb.width() == width,
            fb.height() == height,
            fb.pixels() == Seq::new((width * height) as nat, |i: int| black()),
            fb.writes() == Seq::new(height as nat, |i: int| 0u32),
    {
        let n: usize = width as usize * height as usize;
        let mut pixels: Vec<Color> = Vec::new();
        let mut i: usize = 0;
        while i < n
            invariant
                0 <= i <= n,
                pixels@ == Seq::new(i as nat, |k: int| black()),
            decreases n - i,
        {
            pixels.push(Color::default());
            i = i + 1;
            assert(pixels@ =~= Seq::new(i as nat, |k: int| black()));
        }
        let mut row_writes: Vec<u32> = Vec::new();
        let mut j: u32 = 0;
        while j < height
            invariant
                0 <= j <= height,
                row_writes@ == Seq::new(j as nat, |k: int| 0u32),
            decreases height - j,
        {
            row_writes.push(0);
            j = j + 1;
            assert(row_writes@ =~= Seq::new(j as nat, |k: int| 0u32));
        }
        FrameBuffer { width, height, pixels, row_writes }
    }

    /// Writes the first `width` colours of `row` into row `y` of the image and
    /// counts the write.
    pub fn write_row(&mut self, y: u32, row: &Vec<Color>)
        requires
            old(self).wf(),
            y < old(self).height(),
            row.len() >= old(self).width(),
        ensures
            final(self).wf(),
            final(self).width() == old(self).width(),
            final(self).height() == old(self).height(),
            final(self).pixels() == with_row(old(self).pixels(), old(self).width(), y as nat, row@),
            final(self).writes() == old(self).writes().update(y as int, count_up(old(self).writes()[y as int])),
    {
        proof {
            let (yy, w, h) = (y as int, self.width as int, self.height as int);
            assert((yy + 1) * w <= h * w) by (nonlinear_arith)
                requires
                    yy + 1 <= h,
                    w >= 0,
            ;
            assert(h * w == w * h) by (nonlinear_arith);
        }
        copy_pixel_row(self.width, row, &mut self.pixels, y);
        let c = self.row_writes[y as usize];
        if c < u32::MAX {
            self.row_writes.set(y as usize, c + 1);
        }
    }

    /// The pixels written so far, row-major.
    pub fn pixel_data(&self) -> (r: &Vec<Color>)
        ensures
            r@ == self.pixels(),
    {
        &self.pixels
    }

    /// Ends the render: hands over the image and reports the rows that were
    /// not written exactly once.
    pub fn finish(self) -> (r: RenderOutcome)
        requires
            self.wf(),
        ensures
            r.image.width == self.width(),
            r.image.height == self.height(),
            r.image.pixels@ == self.pixels(),
            lists_rows(r.missing_rows@, self.height(), |y: nat| self.writes()[y as int] == 0),
            lists_rows(r.repeated_rows@, self.height(), |y: nat| self.writes()[y as int] > 1),
    {
        let mut missing: Vec<u32> = Vec::new();
        let mut repeated: Vec<u32> = Vec::new();
        let mut y: u32 = 0;
        while y < self.height
            invariant
                self.row_writes@.len() == self.height,
                0 <= y <= self.height,
                forall|i: int, j: int| 0 <= i < j < missing@.len() ==> missing@[i] < missing@[j],
                forall|i: int| 0 <= i < missing@.len() ==> missing@[i] < y && self.row_writes@[missing@[i] as int] == 0,
                forall|k: nat| k < y && self.row_writes@[k as int] == 0 ==> missing@.contains(k as u32),
                forall|i: int, j: int| 0 <= i < j < repeated@.len() ==> repeated@[i] < repeated@[j],
                forall|i: int| 0 <= i < repeated@.len() ==> repeated@[i] < y && self.row_writes@[repeated@[i] as int] > 1,
                forall|k: nat| k < y && self.row_writes@[k as int] > 1 ==> repeated@.contains(k as u32),
            decreases self.height - y,
        {
            let c = self.row_writes[y as usize];
            let ghost m0 = missing@;
            let ghost r0 = repeated@;
            if c == 0 {
                missing.push(y);
                proof {
                    assert forall|k: nat| k < y + 1 && self.row_writes@[k as int] == 0 implies missing@.contains(k as u32) by {
                        if k < y {
                            let t = choose|t: int| 0 <= t < m0.len() && m0[t] == k as u32;
                            assert(missing@[t] == k as u32);
                        } else {
                            assert(missing@[m0.len() as int] == k as u32);
                        }
                    }
                }
            } else if c > 1 {
                repeated.push(y);
                proof {
                    assert forall|k: nat| k < y + 1 && self.row_writes@[k as int] > 1 implies repeated@.contains(k as u32) by {
                        if k < y {
                            let t = choose|t: int| 0 <= t < r0.len() && r0[t] == k as u32;
                            assert(repeated@[t] == k as u32);
                        } else {
                            assert(repeated@[r0.len() as int] == k as u32);
                        }
                    }
                }
            }
            y = y + 1;
        }
        let image = FractalImage { width: self.width, height: self.height, pixels: self.pixels };
        RenderOutcome { image, missing_rows: missing, repeated_rows: repeated }
    }
}

/// The image as bytes for an RGB encoder: three bytes per pixel, red, green
/// and blue, in pixel order.
pub fn rgb_bytes(pixels: &Vec<Color>) -> (b: Vec<u8>)
    ensures
        rgb_encodes(b@, pixels@),
{
    let mut out: Vec<u8> = Vec::new();
    let mut k: usize = 0;
    while k < pixels.len()
        invariant
            0 <= k <= pixels.len(),
            out@.len() == 3 * k,
            forall|i: int|
                0 <= i < k ==> {
                    &&& out@[3 * i] == (#[trigger] pixels@[i]).r
                    &&& out@[3 * i + 1] == pixels@[i].g
                    &&& out@[3 * i + 2] == pixels@[i].b
                },
        decreases pixels.len() - k,
    {
        let c = pixels[k];
        out.push(c.r);
        out.push(c.g);
        out.push(c.b);
        k = k + 1;
    }
    assert forall|i: int| 0 <= i < pixels@.len() implies #[trigger] pixels@[i] == (Color {
        r: out@[3 * i],
        g: out@[3 * i + 1],
        b: out@[3 * i + 2],
    }) by {
        assert(out@[3 * i] == pixels@[i].r);
    }
    out
}

impl RenderOutcome {
    /// Whether every row was written exactly once.
    pub fn is_complete(&self) -> (r: bool)
        ensures
            r == (self.missing_rows@.len() == 0 && self.repeated_rows@.len() == 0),
    {
        self.missing_rows.len() == 0 && self.repeated_rows.len() == 0
    }
}

/// The image `pixels` after writing, in `order`, each listed row `y` as
/// `rows(y)`.
pub open spec fn rows_written(
    pixels: Seq<Color>,
    width: nat,
    order: Seq<nat>,
    rows: spec_fn(nat) -> Seq<Color>,
) -> Seq<Color>
    decreases order.len(),
{
    if order.len() == 0 {
        pixels
    } else {
        with_row(
            rows_written(pixels, width, order.drop_last(), rows),
            width,
            order.last(),
            rows(order.last()),
        )
    }
}

/// The image of the given size whose row `y` is `rows(y)`.
pub open spec fn image_of(width: nat, height: nat, rows: spec_fn(nat) -> Seq<Color>) -> Seq<Color> {
    Seq::new(width * height, |i: int| rows((i / width as int) as nat)[i % width as int])
}

/// The write counters after one write of each row listed in `order`.
pub open spec fn writes_after(counts: Seq<u32>, order: Seq<nat>) -> Seq<u32>
    decreases order.len(),
{
    if order.len() == 0 {
        counts
    } else {
        let prev = writes_after(counts, order.drop_last());
        let y = order.last() as int;
        if y < prev.len() {
            prev.update(y, count_up(prev[y]))
        } else {
            prev
        }
    }
}

proof fn lemma_row_of(width: nat, y: nat, i: int)
    requires
        width > 0,
        i >= 0,
    ensures
        (y * width <= i < y * width + width) <==> (i / width as int == y),
        i / width as int == y ==> i - y * width == i % width as int,
{
    let w = width as int;
    vstd::arithmetic::div_mod::lemma_fundamental_div_mod(i, w);
    let q = i / w;
    let r = i % w;
    if y * width <= i < y * width + width {
        assert(q == y) by (nonlinear_arith)
            requires
                i == w * q + r,
                0 <= r < w,
                y * w <= i < y * w + w,
        ;
    }
    if q == y {
        assert(y * w <= i < y * w + w && i - y * w == r) by (nonlinear_arith)
            requires
                i == w * q + r,
                0 <= r < w,
                q == y,
        ;
    }
}

proof fn lemma_rows_written_at(
    pixels: Seq<Color>,
    width: nat,
    order: Seq<nat>,
    rows: spec_fn(nat) -> Seq<Color>,
    i: int,
)
    requires
        width > 0,
        0 <= i < pixels.len(),
    ensures
        rows_written(pixels, width, order, rows).len() == pixels.len(),
        rows_written(pixels, width, order, rows)[i] == if order.contains(
            (i / width as int) as nat,
        ) {
            rows((i / width as int) as nat)[i % width as int]
        } else {
            pixels[i]
        },
    decreases order.len(),
{
    if order.len() > 0 {
        let prefix = order.drop_last();
        let last = order.last();
        lemma_rows_written_at(pixels, width, prefix, rows, i);
        lemma_row_of(width, last, i);
        assert(order =~= prefix.push(last));
        let y = (i / width as int) as nat;
        if y != last {
            if order.contains(y) {
                let t = choose|t: int| 0 <= t < order.len() && order[t] == y;
                assert(prefix[t] == y);
            }
            if prefix.contains(y) {
                let t = choose|t: int| 0 <= t < prefix.len() && prefix[t] == y;
                assert(order[t] == y);
            }
        } else {
            assert(order[order.len() - 1] == y);
        }
    }
}

/// A render's image does not depend on the order in which its rows are
/// written: starting from a black image, writing each row `y` as `rows(y)`, in
/// any order that writes every row at least once, gives the image whose row
/// `y` is `rows(y)`. So any number of workers, claiming rows in any
/// interleaving, produce the same pixels.
pub proof fn lemma_image_independent_of_row_order(
    width: nat,
    height: nat,
    rows: spec_fn(nat) -> Seq<Color>,
    order: Seq<nat>,
)
    requires
        forall|y: nat| y < height ==> order.contains(y),
    ensures
        rows_written(Seq::new(width * height, |i: int| black()), width, order, rows)
            == image_of(width, height, rows),
{
    let blank = Seq::new(width * height, |i: int| black());
    let result = rows_written(blank, width, order, rows);
    lemma_rows_written_len(blank, width, order, rows);
    if width > 0 {
        assert forall|i: int| 0 <= i < blank.len() implies result[i] == image_of(width, height, rows)[i] by {
            lemma_rows_written_at(blank, width, order, rows, i);
            let w = width as int;
            let h = height as int;
            vstd::arithmetic::div_mod::lemma_fundamental_div_mod(i, w);
            let q = i / w;
            assert(q < h) by (nonlinear_arith)
                requires
                    i == w * q + i % w,
                    0 <= i % w,
                    i < w * h,
                    w > 0,
            ;
            assert(q >= 0) by (nonlinear_arith)
                requires
                    i == w * q + i % w,
                    i % w < w,
                    i >= 0,
                    w > 0,
            ;
            assert(order.contains(q as nat));
        }
    }
    assert(result =~= image_of(width, height, rows));
}

proof fn lemma_rows_written_len(
    pixels: Seq<Color>,
    width: nat,
    order: Seq<nat>,
    rows: spec_fn(nat) -> Seq<Color>,
)
    ensures
        rows_written(pixels, width, order, rows).len() == pixels.len(),
    decreases order.len(),
{
    if order.len() > 0 {
        lemma_rows_written_len(pixels, width, order.drop_last(), rows);
    }
}

/// After the rows handed out by any run of claims on a fresh cursor that
/// claims every row (`k >= height`) are each written once, every row of a
/// fresh frame buffer has been written exactly once: the render is complete.
pub proof fn lemma_claimed_rows_written_once(height: nat, k: nat)
    requires
        k >= height,
    ensures
        writes_after(Seq::new(height, |y: int| 0u32), claims_from_start(height, k).1)
            == Seq::new(height, |y: int| 1u32),
{
    crate::schedule::lemma_claims_cover_rows(height, k);
    lemma_writes_in_order(height, height);
    assert(Seq::new(height, |y: int| if y < height { 1u32 } else { 0u32 }) =~= Seq::new(height, |y: int| 1u32));
}

proof fn lemma_writes_in_order(height: nat, m: nat)
    requires
        m <= height,
    ensures
        writes_after(Seq::new(height, |y: int| 0u32), Seq::new(m, |i: int| i as nat))
            == Seq::new(height, |y: int| if y < m { 1u32 } else { 0u32 }),
    decreases m,
{
    if m > 0 {
        let order = Seq::new(m, |i: int| i as nat);
        assert(order.drop_last() =~= Seq::new((m - 1) as nat, |i: int| i as nat));
        lemma_writes_in_order(height, (m - 1) as nat);
        assert(writes_after(Seq::new(height, |y: int| 0u32), order)
            =~= Seq::new(height, |y: int| if y < m { 1u32 } else { 0u32 }));
    }
}

} // verus!
