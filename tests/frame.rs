use raytrace_stream::color::Color;
use raytrace_stream::image::{fill_black, pixel_fits, ImageData, ImageDimension, FIRST_TILE_SIZE};
use raytrace_stream::pixels::PixelScan;
use raytrace_stream::tiles::{ImageLevel, Tile};

#[test]
fn colors_are_exact() {
    assert_eq!(Color::transparent(), Color { r: 0, g: 0, b: 0, a: 0 });
    assert_eq!(Color::white(), Color { r: 255, g: 255, b: 255, a: 255 });
    assert_eq!(Color::black(), Color { r: 0, g: 0, b: 0, a: 255 });
}

#[test]
fn set_pixel_writes_four_bytes_row_major() {
    let mut buf = vec![7u8; 3 * 2 * 4];
    let mut img = ImageData { width: 3, height: 2, buffer: &mut buf[..] };
    img.set_pixel(1, 1, &Color { r: 10, g: 20, b: 30, a: 40 });
    assert_eq!(img.width, 3);
    let offset = (1 * 3 + 1) * 4;
    for (i, b) in buf.iter().enumerate() {
        let expected = if i == offset {
            10
        } else if i == offset + 1 {
            20
        } else if i == offset + 2 {
            30
        } else if i == offset + 3 {
            40
        } else {
            7
        };
        assert_eq!(*b, expected);
    }
}

#[test]
fn fill_black_makes_every_pixel_opaque_black() {
    let mut buf = vec![9u8; 2 * 2 * 4];
    fill_black(2, 2, &mut buf[..]);
    assert_eq!(buf, vec![0, 0, 0, 255, 0, 0, 0, 255, 0, 0, 0, 255, 0, 0, 0, 255]);
}

#[test]
fn fill_black_leaves_bytes_outside_frame_or_partial_pixels() {
    // Frame of one pixel in a buffer of two pixels and a half.
    let mut buf = vec![9u8; 10];
    fill_black(1, 1, &mut buf[..]);
    assert_eq!(buf, vec![0, 0, 0, 255, 9, 9, 9, 9, 9, 9]);
    // Frame larger than the buffer: the trailing partial pixel is untouched.
    let mut short = vec![9u8; 6];
    fill_black(2, 2, &mut short[..]);
    assert_eq!(short, vec![0, 0, 0, 255, 9, 9]);
    // Zero width: nothing to paint.
    let mut none = vec![9u8; 8];
    fill_black(0, 5, &mut none[..]);
    assert_eq!(none, vec![9u8; 8]);
}

#[test]
fn levels_halve_from_first_tile_size_to_one() {
    let dim = ImageDimension { width: 100, height: 50 };
    let mut it = dim.levels();
    let mut sizes = Vec::new();
    let mut inits = Vec::new();
    while let Some(level) = it.next() {
        assert_eq!(level.width, 100);
        assert_eq!(level.height, 50);
        sizes.push(level.tile_size);
        inits.push(level.is_init);
    }
    assert_eq!(FIRST_TILE_SIZE, 64);
    assert_eq!(sizes, vec![64, 32, 16, 8, 4, 2, 1]);
    assert_eq!(inits, vec![true, false, false, false, false, false, false]);
    assert!(it.next().is_none());
}

#[test]
fn image_data_levels_match_dimension_levels() {
    let mut buf = vec![0u8; 16];
    let img = ImageData { width: 2, height: 2, buffer: &mut buf[..] };
    let a = img.levels();
    let dim = ImageDimension::from(img);
    assert_eq!(dim, ImageDimension { width: 2, height: 2 });
    assert_eq!(a, dim.levels());
}

fn collect_tiles(ts: usize, width: usize, height: usize) -> Vec<Tile> {
    let level = ImageLevel { tile_size: ts, is_init: false, width, height };
    let mut it = level.tiles();
    let mut out = Vec::new();
    while let Some(t) = it.next() {
        out.push(t);
    }
    assert!(it.next().is_none());
    out
}

#[test]
fn tiles_are_row_major_and_clipped() {
    let tiles = collect_tiles(64, 100, 70);
    assert_eq!(
        tiles,
        vec![
            Tile { x: 0, y: 0, w: 64, h: 64 },
            Tile { x: 64, y: 0, w: 36, h: 64 },
            Tile { x: 0, y: 64, w: 64, h: 6 },
            Tile { x: 64, y: 64, w: 36, h: 6 },
        ]
    );
}

#[test]
fn tiles_of_exact_multiple_and_small_frames() {
    assert_eq!(
        collect_tiles(2, 4, 2),
        vec![Tile { x: 0, y: 0, w: 2, h: 2 }, Tile { x: 2, y: 0, w: 2, h: 2 }]
    );
    assert_eq!(collect_tiles(64, 2, 2), vec![Tile { x: 0, y: 0, w: 2, h: 2 }]);
    assert_eq!(collect_tiles(8, 5, 0), vec![]);
}

#[test]
fn tiles_of_zero_width_frame_are_empty_columns() {
    assert_eq!(
        collect_tiles(2, 0, 3),
        vec![Tile { x: 0, y: 0, w: 0, h: 2 }, Tile { x: 0, y: 2, w: 0, h: 1 }]
    );
}

#[test]
fn tiles_cover_every_pixel_once() {
    let (w, h) = (13usize, 7usize);
    for ts in [1usize, 2, 4, 8, 16, 64] {
        let mut hits = vec![0u32; w * h];
        for t in collect_tiles(ts, w, h) {
            for y in t.y..t.y + t.h {
                for x in t.x..t.x + t.w {
                    hits[y * w + x] += 1;
                }
            }
        }
        assert!(hits.iter().all(|&n| n == 1));
    }
}

fn collect_pixels(width: usize, height: usize) -> Vec<(usize, usize)> {
    let mut scan = PixelScan::new(width, height);
    let mut out = Vec::new();
    while let Some(p) = scan.next() {
        out.push(p);
    }
    assert!(scan.next().is_none());
    out
}

#[test]
fn pixel_scan_is_row_major_x_fastest() {
    assert_eq!(collect_pixels(3, 2), vec![(0, 0), (1, 0), (2, 0), (0, 1), (1, 1), (2, 1)]);
}

#[test]
fn pixel_scan_covers_frame_without_repeats() {
    let (w, h) = (17usize, 9usize);
    let pixels = collect_pixels(w, h);
    assert_eq!(pixels.len(), w * h);
    let mut seen = vec![false; w * h];
    for (x, y) in pixels {
        assert!(x < w && y < h);
        assert!(!seen[y * w + x]);
        seen[y * w + x] = true;
    }
}

#[test]
fn pixel_scan_of_empty_frames_is_empty() {
    assert_eq!(collect_pixels(0, 4), vec![]);
    assert_eq!(collect_pixels(4, 0), vec![]);
    let mut again = PixelScan::new(1, 1);
    assert_eq!(again.next(), Some((0, 0)));
    assert_eq!(again.next(), None);
}

#[test]
fn pixel_fits_matches_buffer_bounds() {
    // 2 x 2 frame in 16 bytes: every pixel fits.
    assert!(pixel_fits(2, 16, 1, 1));
    // The same pixel with one byte missing.
    assert!(!pixel_fits(2, 15, 1, 1));
    assert!(pixel_fits(2, 4, 0, 0));
    assert!(!pixel_fits(2, 3, 0, 0));
    // Offsets that would overflow do not fit.
    assert!(!pixel_fits(usize::MAX, usize::MAX, 1, 2));
    assert!(!pixel_fits(1, usize::MAX, usize::MAX, 0));
}

#[test]
fn tile_iter_state_after_last_tile() {
    let level = ImageLevel { tile_size: 64, is_init: true, width: 100, height: 70 };
    let mut it = level.tiles();
    assert_eq!((it.x, it.y, it.in_even_row), (0, 0, true));
    it.next();
    assert_eq!((it.x, it.y), (64, 0));
    it.next();
    assert_eq!((it.x, it.y), (0, 64));
    it.next();
    assert_eq!((it.x, it.y), (64, 64));
    it.next();
    assert_eq!((it.x, it.y, it.in_even_row), (0, 70, true));
    assert!(it.next().is_none());
    assert_eq!((it.x, it.y), (0, 70));
}

#[test]
fn pixel_scan_state_after_last_pixel() {
    let mut scan = PixelScan::new(2, 2);
    for _ in 0..4 {
        assert!(scan.next().is_some());
    }
    assert_eq!((scan.i, scan.j), (0, 2));
    assert!(scan.next().is_none());
    assert_eq!((scan.i, scan.j), (0, 2));
}
