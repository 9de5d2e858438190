use vstd::prelude::*;

use crate::color::Color;
use crate::palette::PaletteTable;

verus! {

/// Why a render is refused before any work starts.
#[derive(Clone, Copy, Debug, PartialEq, Eq, Structural)]
pub enum ConfigError {
    /// The image has no pixels: its width or height is zero.
    EmptyImage,
    /// The tile grid has no cells: a tile count is zero.
    NoTiles,
    /// The pixel count does not fit in memory indices.
    ImageTooLarge,
    /// The colour depth is not one of the supported ones.
    UnsupportedColors(u32),
    /// The palette table has no ramp for this colour depth.
    MissingPalette(u32),
    /// The ramp for this colour depth holds no colour.
    EmptyPalette(u32),
}

/// Whether a colour depth has a palette ramp.
pub open spec fn supported_depth(colors: u32) -> bool {
    colors == 16 || colors == 256
}

/// The name of the ramp used for a supported colour depth.
pub open spec fn ramp_name(colors: u32) -> Seq<char> {
    if colors == 16 {
        "wild.map"@
    } else {
        "basic.map"@
    }
}

/// What selecting the ramp for `colors` out of `table` gives.
pub open spec fn palette_choice(colors: u32, table: Map<Seq<char>, Seq<Color>>) -> Result<
    Seq<Color>,
    ConfigError,
> {
    if !supported_depth(colors) {
        Err(ConfigError::UnsupportedColors(colors))
    } else if !table.contains_key(ramp_name(colors)) {
        Err(ConfigError::MissingPalette(colors))
    } else if table[ramp_name(colors)].len() == 0 {
        Err(ConfigError::EmptyPalette(colors))
    } else {
        Ok(table[ramp_name(colors)])
    }
}

/// Selects the colour ramp for a colour depth: 16 colours use the ramp
/// "wild.map", 256 colours the ramp "basic.map"; other depths are refused.
pub fn color_palette(colors: u32, palette: &PaletteTable) -> (r: Result<Vec<Color>, ConfigError>)
    requires
        palette.wf(),
    ensures
        match (r, palette_choice(colors, palette@)) {
            (Ok(v), Ok(s)) => v@ == s,
            (Err(e), Err(f)) => e == f,
            _ => false,
        },
{
    let name: String = if colors == 16 {
        "wild.map".to_owned()
    } else if colors == 256 {
        "basic.map".to_owned()
    } else {
        return Err(ConfigError::UnsupportedColors(colors));
    };
    match palette.get(&name) {
        None => Err(ConfigError::MissingPalette(colors)),
        Some(ramp) => {
            if ramp.len() == 0 {
                return Err(ConfigError::EmptyPalette(colors));
            }
            let mut out: Vec<Color> = Vec::new();
            let mut i: usize = 0;
            while i < ramp.len()
                invariant
                    0 <= i <= ramp.len(),
                    out@ == ramp@.subrange(0, i as int),
                decreases ramp.len() - i,
            {
                out.push(ramp[i]);
                i = i + 1;
                assert(out@ =~= ramp@.subrange(0, i as int));
            }
            assert(out@ =~= ramp@);
            Ok(out)
        },
    }
}

/// The effect of one claim on a cursor whose next unclaimed row is `next`:
/// the new next row, and the row handed out, if any.
pub open spec fn claim_step(next: nat, height: nat) -> (nat, Option<nat>) {
    if next < height {
        (next + 1, Some(next))
    } else {
        (next, None)
    }
}

/// The cursor position after `k` claims on a fresh cursor over `height` rows,
/// and the rows those claims handed out, in the order they were handed out.
pub open spec fn claims_from_start(height: nat, k: nat) -> (nat, Seq<nat>)
    decreases k,
{
    if k == 0 {
        (0, Seq::empty())
    } else {
        let (next, rows) = claims_from_start(height, (k - 1) as nat);
        let (after, got) = claim_step(next, height);
        match got {
            Some(y) => (after, rows.push(y)),
            None => (after, rows),
        }
    }
}

/// The shared cursor of pull-based row scheduling: the next row that no
/// worker has claimed yet.
#[derive(Debug)]
pub struct RowCursor {
    next: u32,
    height: u32,
}

impl RowCursor {
    /// The next unclaimed row.
    pub closed spec fn next_row(&self) -> nat {
        self.next as nat
    }

    /// The number of rows of the image.
    pub closed spec fn rows(&self) -> nat {
        self.height as nat
    }

    /// The cursor never passes the last row.
    pub closed spec fn wf(&self) -> bool {
        self.next <= self.height
    }

    /// A cursor over `height` rows with none claimed.
    pub fn new(height: u32) -> (c: RowCursor)
        ensures
            c.wf(),
            c.next_row() == 0,
            c.rows() == height,
    {
        RowCursor { next: 0, height }
    }

    /// Claims the next unclaimed row, if any row is left.
    pub fn claim(&mut self) -> (r: Option<u32>)
        requires
            old(self).wf(),
        ensures
            final(self).wf(),
            final(self).rows() == old(self).rows(),
            (final(self).next_row(), match r {
                Some(y) => Some(y as nat),
                None => None,
            }) == claim_step(old(self).next_row(), old(self).rows()),
    {
        if self.next < self.height {
            let y = self.next;
            self.next = self.next + 1;
            Some(y)
        } else {
            None
        }
    }

    /// Whether every row has been claimed.
    pub fn is_exhausted(&self) -> (r: bool)
        requires
            self.wf(),
        ensures
            r == (self.next_row() == self.rows()),
    {
        self.next == self.height
    }
}

/// Successive claims on a fresh cursor over `height` rows hand out the rows
/// `0, 1, ..., height - 1`, each exactly once and in that order; once all of
/// them are handed out, every further claim gets none.
pub proof fn lemma_claims_cover_rows(height: nat, k: nat)
    ensures
        claims_from_start(height, k).0 == if k < height { k } else { height },
        claims_from_start(height, k).1 == Seq::new(
            if k < height { k } else { height },
            |i: int| i as nat,
        ),
    decreases k,
{
    if k > 0 {
        lemma_claims_cover_rows(height, (k - 1) as nat);
        let n: nat = if k < height { k } else { height };
        assert(claims_from_start(height, k).1 =~= Seq::new(n, |i: int| i as nat));
    }
}

/// Everything a validated render needs: the image size, the iteration cap,
/// the selected colour ramp and the number of workers to run.
#[derive(Clone, Debug)]
pub struct RenderJob {
    pub width: u32,
    pub height: u32,
    pub max_iterations: u32,
    pub palette: Vec<Color>,
    pub workers: usize,
}

/// The integer settings of a render request.
#[derive(Clone, Copy, Debug, PartialEq, Eq, Structural)]
pub struct RenderSettings {
    pub width: u32,
    pub height: u32,
    pub max_iterations: u32,
    pub colors: u32,
    pub x_tiles: u32,
    pub y_tiles: u32,
}

/// The configuration error that `prepare_render` reports for `s`, if any.
pub open spec fn settings_error(s: RenderSettings, table: Map<Seq<char>, Seq<Color>>) -> Option<
    ConfigError,
> {
    if s.width == 0 || s.height == 0 {
        Some(ConfigError::EmptyImage)
    } else if s.x_tiles == 0 || s.y_tiles == 0 {
        Some(ConfigError::NoTiles)
    } else if s.width as int * s.height as int > usize::MAX {
        Some(ConfigError::ImageTooLarge)
    } else {
        match palette_choice(s.colors, table) {
            Err(e) => Some(e),
            Ok(_) => None,
        }
    }
}

/// Relies on num_cpus::get: the number of CPUs this process may use, which
/// its documentation promises is at least one.
#[verifier::external_body]
fn available_workers() -> (n: usize)
    ensures
        n >= 1,
{
    num_cpus::get()
}

/// Validates a request's settings and fixes what the render needs, before
/// any worker is started. The worker count is the number of CPUs available.
pub fn prepare_render(settings: &RenderSettings, palettes: &PaletteTable) -> (r: Result<
    RenderJob,
    ConfigError,
>)
    requires
        palettes.wf(),
    ensures
        match r {
            Err(e) => settings_error(*settings, palettes@) == Some(e),
            Ok(job) => {
                &&& settings_error(*settings, palettes@) == None::<ConfigError>
                &&& job.width == settings.width
                &&& job.height == settings.height
                &&& job.max_iterations == settings.max_iterations
                &&& palette_choice(settings.colors, palettes@) == Ok::<Seq<Color>, ConfigError>(
                    job.palette@,
                )
                &&& job.workers >= 1
            },
        },
{
    if settings.width == 0 || settings.height == 0 {
        return Err(ConfigError::EmptyImage);
    }
    if settings.x_tiles == 0 || settings.y_tiles == 0 {
        return Err(ConfigError::NoTiles);
    }
    let w = settings.width as usize;
    let h = settings.height as usize;
    if w > usize::MAX / h {
        proof {
            let (m, hh, ww) = (usize::MAX as int, h as int, w as int);
            vstd::arithmetic::div_mod::lemma_fundamental_div_mod(m, hh);
            assert(ww * hh > m) by (nonlinear_arith)
                requires
                    ww >= m / hh + 1,
                    hh > 0,
                    m == hh * (m / hh) + m % hh,
                    m % hh < hh,
            ;
        }
        return Err(ConfigError::ImageTooLarge);
    }
    proof {
        let (m, hh, ww) = (usize::MAX as int, h as int, w as int);
        vstd::arithmetic::div_mod::lemma_fundamental_div_mod(m, hh);
        assert(ww * hh <= m) by (nonlinear_arith)
            requires
                ww <= m / hh,
                hh > 0,
                m == hh * (m / hh) + m % hh,
                m % hh >= 0,
        ;
    }
    let palette = match color_palette(settings.colors, palettes) {
        Ok(p) => p,
        Err(e) => return Err(e),
    };
    let workers = available_workers();
    Ok(RenderJob {
        width: settings.width,
        height: settings.height,
        max_iterations: settings.max_iterations,
        palette,
        workers,
    })
}

} // verus!
