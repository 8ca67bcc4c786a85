use game_sync::compositor::{clear_to, draw_image, span, tint, Screen};
use game_sync::geometry::{Color, Image, Point};

fn c(v: u8) -> Color {
    Color::new(v, v, v)
}

fn screen(w: usize, h: usize) -> Screen {
    Screen::new(w, h, c(0)).unwrap()
}

fn sprite(w: usize, h: usize, base: u8) -> Image {
    let mut px = Vec::new();
    for i in 0..(w * h) {
        px.push(c(base + i as u8));
    }
    Image::from_pixels(w, h, px).unwrap()
}

#[test]
fn opaque_blit_overwrites_rectangle() {
    let mut s = screen(4, 3);
    let img = sprite(2, 2, 1);
    draw_image(&mut s, &img, Point::new(1, 1), None);
    let expect = [0, 0, 0, 0, 0, 1, 2, 0, 0, 3, 4, 0];
    for (i, v) in expect.iter().enumerate() {
        assert_eq!(s.pixels[i], c(*v), "pixel {}", i);
    }
}

#[test]
fn fully_transparent_blit_changes_nothing() {
    let mut s = Screen::new(3, 3, c(7)).unwrap();
    let img = Image::from_pixels(2, 2, vec![c(9); 4]).unwrap();
    draw_image(&mut s, &img, Point::new(0, 0), Some(c(9)));
    assert!(s.pixels.iter().all(|p| *p == c(7)));
}

#[test]
fn transparent_pixels_are_skipped() {
    let mut s = Screen::new(2, 1, c(5)).unwrap();
    let img = Image::from_pixels(2, 1, vec![Color::new(0, 255, 0), c(1)]).unwrap();
    draw_image(&mut s, &img, Point::new(0, 0), Some(Color::new(0, 255, 0)));
    assert_eq!(s.pixels, vec![c(5), c(1)]);
}

#[test]
fn negative_position_clips_top_left() {
    let mut s = screen(3, 3);
    let img = sprite(2, 2, 1);
    draw_image(&mut s, &img, Point::new(-1, -1), None);
    assert_eq!(s.pixels[0], c(4));
    assert!(s.pixels[1..].iter().all(|p| *p == c(0)));
}

#[test]
fn position_past_screen_is_no_op() {
    let mut s = screen(3, 3);
    let img = sprite(2, 2, 1);
    draw_image(&mut s, &img, Point::new(3, 0), None);
    draw_image(&mut s, &img, Point::new(0, 5), None);
    draw_image(&mut s, &img, Point::new(-2, 0), None);
    draw_image(&mut s, &img, Point::new(i32::MIN, i32::MAX), None);
    assert!(s.pixels.iter().all(|p| *p == c(0)));
}

#[test]
fn randomized_positions_stay_in_bounds() {
    // A fixed linear congruential walk over positions and sizes.
    let mut seed: u64 = 12345;
    let mut next = || {
        seed = seed.wrapping_mul(6364136223846793005).wrapping_add(1442695040888963407);
        (seed >> 33) as i64
    };
    for _ in 0..200 {
        let sw = (next() % 7) as usize;
        let sh = (next() % 7) as usize;
        let iw = (next() % 5) as usize;
        let ih = (next() % 5) as usize;
        let x = (next() % 15) as i32 - 7;
        let y = (next() % 15) as i32 - 7;
        let mut s = screen(sw, sh);
        let img = sprite(iw, ih, 1);
        draw_image(&mut s, &img, Point::new(x, y), None);
        assert_eq!(s.pixels.len(), sw * sh);
        for row in 0..sh as i32 {
            for col in 0..sw as i32 {
                let inside = col >= x && col < x + iw as i32 && row >= y && row < y + ih as i32;
                let got = s.pixels[(row * sw as i32 + col) as usize];
                if inside {
                    let k = ((row - y) * iw as i32 + (col - x)) as usize;
                    assert_eq!(got, img.pixels[k]);
                } else {
                    assert_eq!(got, c(0));
                }
            }
        }
    }
}

#[test]
fn empty_sprite_is_no_op() {
    let mut s = screen(2, 2);
    draw_image(&mut s, &Image::empty(), Point::new(0, 0), None);
    assert!(s.pixels.iter().all(|p| *p == c(0)));
}

#[test]
fn span_clips_both_ends() {
    assert_eq!(span(-5, 10, 3), (0, 3, 5));
    assert_eq!(span(2, 10, 5), (2, 5, 0));
    assert_eq!(span(-5, 3, 10).0, span(-5, 3, 10).1);
    assert_eq!(span(7, 3, 5).0, 5);
}

#[test]
fn tint_saturates() {
    let mut s = Screen::new(1, 1, Color::new(250, 5, 100)).unwrap();
    tint(&mut s, 10, -10, 35);
    assert_eq!(s.pixels[0], Color::new(255, 0, 135));
}

#[test]
fn clear_paints_every_pixel() {
    let mut s = Screen::new(2, 2, c(3)).unwrap();
    clear_to(&mut s, Color::new(1, 2, 3));
    assert!(s.pixels.iter().all(|p| *p == Color::new(1, 2, 3)));
}

#[test]
fn image_pixel_count_must_match() {
    assert!(Image::from_pixels(2, 2, vec![c(0); 3]).is_none());
    assert!(Image::from_pixels(usize::MAX, 2, vec![]).is_none());
    assert!(Image::from_pixels(0, 0, vec![]).is_some());
}
