use fractal_engine::color::Color;
use fractal_engine::frame::{copy_pixel_row, rgb_bytes, FrameBuffer};
use fractal_engine::kernel::{color_for_escape, fill_row};
use fractal_engine::models::WebSocketResponse;
use fractal_engine::palette::{ramp_from_rgb, PaletteTable};
use fractal_engine::schedule::{color_palette, prepare_render, ConfigError, RenderSettings, RowCursor};
use fractal_engine::tiles::{cut_tile, decompose, TileRegion, TileTracker};

fn rgb(r: u8, g: u8, b: u8) -> Color {
    Color { r, g, b }
}

fn ramp(n: u32, seed: u8) -> Vec<Color> {
    (0..n).map(|i| rgb(i as u8, seed, (255 - i as u8).wrapping_add(seed))).collect()
}

fn table() -> PaletteTable {
    let mut t = PaletteTable::new();
    t.insert("wild.map".to_string(), ramp(16, 7));
    t.insert("basic.map".to_string(), ramp(256, 3));
    t
}

fn settings(width: u32, height: u32, colors: u32) -> RenderSettings {
    RenderSettings { width, height, max_iterations: 10_000, colors, x_tiles: 2, y_tiles: 2 }
}

/// Renders with a pretend kernel whose escape count depends on the pixel
/// alone, the rows claimed by `workers` workers taking turns in the given
/// pattern.
fn render(width: u32, height: u32, turns: &[usize], workers: usize) -> (Vec<Color>, bool) {
    let palette = ramp(16, 9);
    let mut cursor = RowCursor::new(height);
    let mut fb = FrameBuffer::new(width, height);
    let mut scratch: Vec<Vec<Color>> = vec![vec![Color::default(); width as usize]; workers];
    let mut turn = 0;
    while let Some(y) = cursor.claim() {
        let w = turns[turn % turns.len()] % workers;
        turn += 1;
        let escapes: Vec<Option<u32>> =
            (0..width).map(|x| if (x + y) % 5 == 0 { None } else { Some(x * 3 + y * 7) }).collect();
        fill_row(&mut scratch[w], &escapes, &palette);
        fb.write_row(y, &scratch[w]);
    }
    let out = fb.finish();
    let complete = out.is_complete();
    (out.image.pixels, complete)
}

#[test]
fn default_color_is_black() {
    assert_eq!(Color::default(), rgb(0, 0, 0));
}

#[test]
fn palette_insert_replaces_same_name() {
    let mut t = PaletteTable::new();
    t.insert("a".to_string(), ramp(4, 1));
    t.insert("b".to_string(), ramp(5, 2));
    t.insert("a".to_string(), ramp(2, 3));
    assert_eq!(t.get(&"a".to_string()).unwrap(), &ramp(2, 3));
    assert_eq!(t.get(&"b".to_string()).unwrap(), &ramp(5, 2));
    assert!(t.get(&"c".to_string()).is_none());
}

#[test]
fn palette_depths_select_named_ramps() {
    let t = table();
    assert_eq!(color_palette(16, &t).unwrap(), ramp(16, 7));
    assert_eq!(color_palette(256, &t).unwrap(), ramp(256, 3));
}

#[test]
fn unsupported_depth_is_a_configuration_error() {
    let t = table();
    assert_eq!(color_palette(17, &t), Err(ConfigError::UnsupportedColors(17)));
    assert_eq!(color_palette(0, &t), Err(ConfigError::UnsupportedColors(0)));
}

#[test]
fn missing_and_empty_ramps_are_refused() {
    let mut t = PaletteTable::new();
    assert_eq!(color_palette(16, &t), Err(ConfigError::MissingPalette(16)));
    t.insert("basic.map".to_string(), Vec::new());
    assert_eq!(color_palette(256, &t), Err(ConfigError::EmptyPalette(256)));
}

#[test]
fn seventeen_colors_fail_before_any_work() {
    let r = prepare_render(&settings(800, 600, 17), &table());
    assert_eq!(r.unwrap_err(), ConfigError::UnsupportedColors(17));
}

#[test]
fn empty_images_and_grids_are_refused() {
    let t = table();
    assert_eq!(prepare_render(&settings(0, 600, 256), &t).unwrap_err(), ConfigError::EmptyImage);
    assert_eq!(prepare_render(&settings(800, 0, 256), &t).unwrap_err(), ConfigError::EmptyImage);
    let mut s = settings(800, 600, 256);
    s.y_tiles = 0;
    assert_eq!(prepare_render(&s, &t).unwrap_err(), ConfigError::NoTiles);
}

#[test]
fn valid_request_is_prepared() {
    let job = prepare_render(&settings(800, 600, 256), &table()).unwrap();
    assert_eq!(job.width, 800);
    assert_eq!(job.height, 600);
    assert_eq!(job.max_iterations, 10_000);
    assert_eq!(job.palette, ramp(256, 3));
    assert!(job.workers >= 1);
}

#[test]
fn escape_counts_index_the_palette() {
    let p = vec![rgb(1, 2, 3), rgb(4, 5, 6), rgb(7, 8, 9), rgb(10, 11, 12)];
    assert_eq!(color_for_escape(None, &p), rgb(0, 0, 0));
    assert_eq!(color_for_escape(Some(0), &p), rgb(1, 2, 3));
    assert_eq!(color_for_escape(Some(5), &p), rgb(4, 5, 6));
    assert_eq!(color_for_escape(Some(u32::MAX), &p), rgb(10, 11, 12));
    assert_eq!(color_for_escape(Some(9), &p), color_for_escape(Some(9), &p));
}

#[test]
fn fill_row_colours_every_pixel() {
    let p = vec![rgb(1, 1, 1), rgb(2, 2, 2)];
    let mut scratch = vec![rgb(9, 9, 9); 4];
    fill_row(&mut scratch, &vec![Some(1), None, Some(2), Some(3)], &p);
    assert_eq!(scratch, vec![rgb(2, 2, 2), rgb(0, 0, 0), rgb(1, 1, 1), rgb(2, 2, 2)]);
}

#[test]
fn cursor_hands_out_each_row_once() {
    let mut c = RowCursor::new(3);
    assert_eq!(c.claim(), Some(0));
    assert!(!c.is_exhausted());
    assert_eq!(c.claim(), Some(1));
    assert_eq!(c.claim(), Some(2));
    assert!(c.is_exhausted());
    assert_eq!(c.claim(), None);
    assert_eq!(c.claim(), None);
}

#[test]
fn every_row_written_exactly_once() {
    let (pixels, complete) = render(13, 11, &[0, 1, 1, 2, 0, 2, 2], 3);
    assert!(complete);
    assert_eq!(pixels.len(), 13 * 11);
}

#[test]
fn render_is_independent_of_worker_count() {
    let (a, _) = render(17, 9, &[0], 1);
    let (b, _) = render(17, 9, &[0, 1, 2, 3], 4);
    let (c, _) = render(17, 9, &[3, 3, 1, 0, 2, 2, 1], 4);
    assert_eq!(a, b);
    assert_eq!(a, c);
}

#[test]
fn debug_request_buffer_has_every_pixel() {
    let job = prepare_render(&settings(800, 600, 256), &table()).unwrap();
    let mut cursor = RowCursor::new(job.height);
    let mut fb = FrameBuffer::new(job.width, job.height);
    let mut scratch = vec![Color::default(); job.width as usize];
    let escapes: Vec<Option<u32>> = (0..job.width).map(|x| if x % 2 == 0 { None } else { Some(x) }).collect();
    while let Some(y) = cursor.claim() {
        fill_row(&mut scratch, &escapes, &job.palette);
        fb.write_row(y, &scratch);
    }
    let out = fb.finish();
    assert!(out.is_complete());
    assert_eq!(out.image.pixels.len(), 800 * 600);
    assert_eq!(out.image.pixels[0], rgb(0, 0, 0));
    assert_eq!(out.image.pixels[1], job.palette[1]);
}

#[test]
fn lost_and_repeated_rows_are_reported() {
    let mut fb = FrameBuffer::new(2, 4);
    let row = vec![rgb(5, 5, 5), rgb(6, 6, 6)];
    fb.write_row(0, &row);
    fb.write_row(2, &row);
    fb.write_row(2, &row);
    let out = fb.finish();
    assert!(!out.is_complete());
    assert_eq!(out.missing_rows, vec![1, 3]);
    assert_eq!(out.repeated_rows, vec![2]);
    assert_eq!(out.image.pixels[2], rgb(0, 0, 0));
    assert_eq!(out.image.pixels[4], rgb(5, 5, 5));
}

#[test]
fn copy_pixel_row_touches_only_its_row() {
    let mut pixels = vec![rgb(1, 1, 1); 9];
    copy_pixel_row(3, &vec![rgb(2, 0, 0), rgb(3, 0, 0), rgb(4, 0, 0)], &mut pixels, 1);
    assert_eq!(pixels[2], rgb(1, 1, 1));
    assert_eq!(&pixels[3..6], &[rgb(2, 0, 0), rgb(3, 0, 0), rgb(4, 0, 0)]);
    assert_eq!(pixels[6], rgb(1, 1, 1));
}

#[test]
fn rgb_bytes_interleaves_channels() {
    assert_eq!(rgb_bytes(&vec![rgb(1, 2, 3), rgb(250, 0, 9)]), vec![1, 2, 3, 250, 0, 9]);
    assert!(rgb_bytes(&Vec::new()).is_empty());
}

#[test]
fn two_by_two_tiles_over_hundred_square() {
    let tiles = decompose(100, 100, 2, 2);
    assert_eq!(tiles.len(), 4);
    let total: u32 = tiles.iter().map(|t| t.width * t.height).sum();
    assert_eq!(total, 10_000);
    for t in &tiles {
        assert!(t.width.abs_diff(50) <= 1 && t.height.abs_diff(50) <= 1);
    }
    assert_eq!(tiles[3], TileRegion { x: 50, y: 50, width: 50, height: 50 });
}

#[test]
fn last_column_and_row_take_the_remainder() {
    let tiles = decompose(10, 7, 3, 2);
    assert_eq!(tiles[0], TileRegion { x: 0, y: 0, width: 3, height: 3 });
    assert_eq!(tiles[2], TileRegion { x: 6, y: 0, width: 4, height: 3 });
    assert_eq!(tiles[5], TileRegion { x: 6, y: 3, width: 4, height: 4 });
}

#[test]
fn tiles_cover_each_pixel_once() {
    for &(w, h, xt, yt) in &[(10u32, 7u32, 3u32, 2u32), (5, 5, 7, 1), (1, 9, 1, 4), (100, 100, 2, 2)] {
        let tiles = decompose(w, h, xt, yt);
        let mut hits = vec![0u32; (w * h) as usize];
        for t in &tiles {
            for y in t.y..t.y + t.height {
                for x in t.x..t.x + t.width {
                    hits[(y * w + x) as usize] += 1;
                }
            }
        }
        assert!(hits.iter().all(|&n| n == 1));
    }
}

#[test]
fn cut_tile_copies_its_region() {
    let pixels: Vec<Color> = (0..12u8).map(|i| rgb(i, 0, 0)).collect();
    let t = cut_tile(&pixels, 4, 3, TileRegion { x: 1, y: 1, width: 2, height: 2 });
    assert_eq!((t.x, t.y, t.width, t.height), (1, 1, 2, 2));
    assert_eq!(t.pixels, vec![rgb(5, 0, 0), rgb(6, 0, 0), rgb(9, 0, 0), rgb(10, 0, 0)]);
}

#[test]
fn tracker_emits_a_band_when_its_last_row_is_done() {
    let mut t = TileTracker::new(5, 3, 2);
    assert!(t.row_completed(1).is_empty());
    assert!(t.row_completed(3).is_empty());
    assert_eq!(t.row_completed(0), vec![0, 1, 2]);
    assert!(t.row_completed(0).is_empty());
    assert!(t.row_completed(4).is_empty());
    assert!(t.row_completed(9).is_empty());
    assert_eq!(t.row_completed(2), vec![3, 4, 5]);
}

#[test]
fn stream_ends_with_an_empty_message() {
    assert!(WebSocketResponse::end_of_stream().tile.is_none());
    let tile = cut_tile(&vec![rgb(1, 2, 3)], 1, 1, TileRegion { x: 0, y: 0, width: 1, height: 1 });
    assert_eq!(WebSocketResponse::with_tile(tile).tile.unwrap().pixels, vec![rgb(1, 2, 3)]);
}

#[test]
fn raw_rgb_ramps_decode() {
    assert_eq!(ramp_from_rgb(&vec![1, 2, 3, 4, 5, 6]), Some(vec![rgb(1, 2, 3), rgb(4, 5, 6)]));
    assert_eq!(ramp_from_rgb(&vec![1, 2, 3, 4]), None);
    assert_eq!(ramp_from_rgb(&Vec::new()), Some(Vec::new()));
    let colours = ramp(16, 4);
    assert_eq!(ramp_from_rgb(&rgb_bytes(&colours)), Some(colours));
}

#[test]
fn rowless_bands_are_listed_apart() {
    let t = TileTracker::new(2, 2, 3);
    assert_eq!(t.rowless_band_cells(), vec![0, 1, 2, 3]);
    let mut t = TileTracker::new(2, 2, 3);
    assert!(t.row_completed(0).is_empty());
    assert_eq!(t.row_completed(1), vec![4, 5]);
    assert!(TileTracker::new(5, 3, 2).rowless_band_cells().is_empty());
    let tiles = decompose(4, 2, 2, 3);
    for k in [0usize, 1, 2, 3] {
        assert_eq!(tiles[k].height, 0);
    }
}

#[test]
fn copy_pixel_row_takes_the_head_of_a_longer_row() {
    let mut pixels = vec![rgb(1, 1, 1); 4];
    copy_pixel_row(2, &vec![rgb(2, 0, 0), rgb(3, 0, 0), rgb(9, 9, 9)], &mut pixels, 1);
    assert_eq!(pixels, vec![rgb(1, 1, 1), rgb(1, 1, 1), rgb(2, 0, 0), rgb(3, 0, 0)]);
    let mut again = pixels.clone();
    copy_pixel_row(2, &vec![rgb(2, 0, 0), rgb(3, 0, 0), rgb(9, 9, 9)], &mut again, 1);
    assert_eq!(again, pixels);
}

#[test]
fn rows_written_in_either_order_agree() {
    let (r1, r2) = (vec![rgb(1, 0, 0), rgb(2, 0, 0), rgb(7, 7, 7)], vec![rgb(3, 0, 0), rgb(4, 0, 0)]);
    let mut a = vec![Color::default(); 4];
    let mut b = a.clone();
    copy_pixel_row(2, &r1, &mut a, 0);
    copy_pixel_row(2, &r2, &mut a, 1);
    copy_pixel_row(2, &r2, &mut b, 1);
    copy_pixel_row(2, &r1, &mut b, 0);
    assert_eq!(a, b);
}
