use mole::capture::Screen;
use mole::config::Rgba;
use mole::error::Error;
use mole::geometry::{Point, Rect};

fn solid(width: i32, height: i32, b: u8, g: u8, r: u8) -> Screen {
    let mut data = vec![0u8; (width * height * 4) as usize];
    for px in data.chunks_mut(4) {
        px[0] = b;
        px[1] = g;
        px[2] = r;
        px[3] = 255;
    }
    Screen::from_raw(
        Rect::new(0, 0, width, height),
        data,
        (width * 4) as usize,
        4,
    )
}

#[test]
fn pixel_reads_bgr_as_rgb() {
    let s = solid(4, 4, 10, 20, 30); // B=10 G=20 R=30
    assert_eq!(s.pixel(Point::new(1, 1)), Rgba::new(30, 20, 10, 255));
}

#[test]
fn out_of_bounds_pixel_is_black() {
    let s = solid(4, 4, 10, 20, 30);
    assert_eq!(s.pixel(Point::new(99, 99)), Rgba::new(0, 0, 0, 255));
}

#[test]
fn average_of_solid_is_that_color() {
    let s = solid(16, 16, 0, 128, 255); // B=0 G=128 R=255
    assert_eq!(
        s.average_color(Rect::new(0, 0, 16, 16)),
        Rgba::new(255, 128, 0, 255)
    );
}

#[test]
fn to_rgb_converts_bgrx_to_tight_rgb() {
    let s = solid(2, 2, 10, 20, 30); // B=10 G=20 R=30
    let rgb = s.to_rgb();
    assert_eq!(rgb.len(), 2 * 2 * 3, "tight 3 bytes per pixel");
    // Every pixel is R,G,B in order.
    assert_eq!(&rgb[0..3], &[30, 20, 10]);
    assert!(rgb.chunks(3).all(|px| px == [30, 20, 10]));
}

#[test]
fn average_is_the_mean_of_the_probes_rounded_down() {
    // Two pixels side by side, both probed: red 10 and 21.
    let data = vec![0, 0, 10, 0, 0, 0, 21, 0];
    let s = Screen::from_raw(Rect::new(0, 0, 2, 1), data, 8, 4);
    assert_eq!(s.average_color(Rect::new(0, 0, 2, 1)), Rgba::new(15, 0, 0, 255));
    // On 16 columns every other one is probed: 0, 2, 4, ... 14.
    let mut wide = vec![0u8; 16 * 4];
    for x in 0..16 {
        wide[x * 4 + 2] = x as u8;
    }
    let s = Screen::from_raw(Rect::new(0, 0, 16, 1), wide, 64, 4);
    assert_eq!(s.average_color(Rect::new(0, 0, 16, 1)), Rgba::new(7, 0, 0, 255));
}

#[test]
fn average_off_screen_is_grey() {
    let s = solid(4, 4, 1, 2, 3);
    assert_eq!(
        s.average_color(Rect::new(50, 50, 4, 4)),
        Rgba::new(128, 128, 128, 255)
    );
}

#[test]
fn pixels_are_absolute() {
    let s = Screen::from_raw(Rect::new(100, 200, 1, 1), vec![1, 2, 3, 4], 4, 4);
    assert_eq!(s.pixel(Point::new(100, 200)), Rgba::new(3, 2, 1, 255));
    assert_eq!(s.pixel(Point::new(0, 0)), Rgba::new(0, 0, 0, 255));
    assert_eq!((s.width(), s.height()), (1, 1));
    assert_eq!(s.bounds(), Rect::new(100, 200, 1, 1));
    assert_eq!(s.data(), &[1, 2, 3, 4]);
}

#[test]
fn missing_bytes_are_black() {
    // The last pixel lacks its fourth byte: too short to sample, long enough to
    // convert.
    let s = Screen::from_raw(Rect::new(0, 0, 2, 1), vec![1, 2, 3, 4, 5, 6, 7], 8, 4);
    assert_eq!(s.pixel(Point::new(1, 0)), Rgba::new(0, 0, 0, 255));
    assert_eq!(s.to_rgb(), vec![3, 2, 1, 7, 6, 5]);
    let short = Screen::from_raw(Rect::new(0, 0, 2, 1), vec![1, 2, 3, 4, 5, 6], 8, 4);
    assert_eq!(short.to_rgb(), vec![3, 2, 1, 0, 0, 0]);
}

#[test]
fn rgb_is_the_sampled_pixels() {
    let data: Vec<u8> = (0..48).collect();
    let s = Screen::from_raw(Rect::new(5, 6, 4, 3), data, 16, 4);
    let rgb = s.to_rgb();
    for y in 0..3 {
        for x in 0..4 {
            let c = s.pixel(Point::new(5 + x, 6 + y)).0;
            let i = ((y * 4 + x) * 3) as usize;
            assert_eq!(&rgb[i..i + 3], &c[0..3]);
        }
    }
}

#[test]
fn capture_is_clamped_to_the_root() {
    let root = Rect::new(0, 0, 800, 600);
    assert_eq!(
        Screen::capture_region(root, Rect::new(700, 500, 400, 400)).unwrap(),
        Rect::new(700, 500, 100, 100)
    );
    match Screen::capture_region(root, Rect::new(900, 0, 10, 10)) {
        Err(Error::X11(m)) => assert_eq!(m, "capture region is off-screen"),
        other => panic!("expected an error, got {other:?}"),
    }
}

#[test]
fn an_image_has_four_tight_bytes_per_pixel() {
    let s = Screen::from_image(Rect::new(0, 0, 2, 1), vec![1, 2, 3, 0, 4, 5, 6, 0]);
    assert_eq!(s.to_rgb(), vec![3, 2, 1, 6, 5, 4]);
}

#[test]
fn an_average_lies_between_its_samples() {
    let data: Vec<u8> = (0..40 * 30 * 4).map(|i| 50 + (i * 37 % 100) as u8).collect();
    let s = Screen::from_raw(Rect::new(0, 0, 40, 30), data, 160, 4);
    for rect in [Rect::new(0, 0, 40, 30), Rect::new(3, 4, 9, 2), Rect::new(-5, 20, 30, 30)] {
        let c = s.average_color(rect).0;
        assert!(c[..3].iter().all(|v| (50..150).contains(v)));
    }
}
