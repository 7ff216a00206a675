use lib::engine::frame::{hash, height, lerp, set_size, width, Frame, MAX_PIXELS};

fn px(fb: &Frame, x: usize, y: usize) -> (u8, u8, u8, u8) {
    let w = width(fb);
    let b = fb.ptr();
    let i = (y * w + x) * 4;
    (b[i], b[i + 1], b[i + 2], b[i + 3])
}

#[test]
fn frame_starts_blank_at_480() {
    let fb = Frame::new();
    assert_eq!(width(&fb), 480);
    assert_eq!(height(&fb), 480);
    assert_eq!(fb.ptr().len(), MAX_PIXELS);
    assert!(fb.ptr().iter().all(|&b| b == 0));
}

#[test]
fn set_size_clamps_to_the_buffer() {
    let mut fb = Frame::new();
    set_size(&mut fb, 5, 5000);
    assert_eq!(width(&fb), 16);
    assert_eq!(height(&fb), 1200);
    set_size(&mut fb, 844, 390);
    assert_eq!(width(&fb), 844);
    assert_eq!(height(&fb), 390);
}

#[test]
fn fill_covers_live_region_only() {
    let mut fb = Frame::new();
    set_size(&mut fb, 20, 10);
    // heights below sixteen are raised to sixteen
    assert_eq!(height(&fb), 16);
    fb.fill((1, 2, 3));
    let b = fb.ptr();
    for i in 0..20 * 16 * 4 {
        let want = [1u8, 2, 3, 255][i % 4];
        assert_eq!(b[i], want);
    }
    assert_eq!(b[20 * 16 * 4], 0);
    assert!(b[1280..4000].iter().all(|&v| v == 0));
}

#[test]
fn rect_is_clipped_to_the_frame() {
    let mut fb = Frame::new();
    set_size(&mut fb, 16, 16);
    fb.rect(-5, -5, 10, 10, (9, 8, 7));
    for y in 0..16 {
        for x in 0..16 {
            let inside = x < 5 && y < 5;
            let want = if inside { (9, 8, 7, 255) } else { (0, 0, 0, 0) };
            assert_eq!(px(&fb, x, y), want, "pixel {} {}", x, y);
        }
    }
    // nothing past the live region was written
    assert!(fb.ptr()[16 * 16 * 4..].iter().all(|&v| v == 0));
}

#[test]
fn rect_far_right_and_empty_rects_paint_nothing() {
    let mut fb = Frame::new();
    set_size(&mut fb, 16, 16);
    fb.rect(14, 3, 100, 2, (5, 5, 5));
    fb.rect(3, 3, 0, 5, (6, 6, 6));
    fb.rect(3, 3, 5, -1, (6, 6, 6));
    fb.rect(20, 0, 5, 5, (6, 6, 6));
    for y in 0..16 {
        for x in 0..16 {
            let inside = x >= 14 && (3..5).contains(&y);
            let want = if inside { (5, 5, 5, 255) } else { (0, 0, 0, 0) };
            assert_eq!(px(&fb, x, y), want);
        }
    }
}

#[test]
fn disc_paints_pixels_within_radius() {
    let mut fb = Frame::new();
    set_size(&mut fb, 16, 16);
    fb.disc(8, 8, 3, (200, 100, 50));
    for y in 0..16i32 {
        for x in 0..16i32 {
            let d2 = (x - 8) * (x - 8) + (y - 8) * (y - 8);
            let want = if d2 <= 9 { (200, 100, 50, 255) } else { (0, 0, 0, 0) };
            assert_eq!(px(&fb, x as usize, y as usize), want, "pixel {} {}", x, y);
        }
    }
}

#[test]
fn disc_of_radius_zero_paints_nothing() {
    let mut fb = Frame::new();
    fb.disc(8, 8, 0, (1, 1, 1));
    fb.disc(8, 8, -4, (1, 1, 1));
    assert!(fb.ptr().iter().all(|&b| b == 0));
}

#[test]
fn disc_partly_off_screen() {
    let mut fb = Frame::new();
    set_size(&mut fb, 16, 16);
    fb.disc(0, 15, 2, (7, 7, 7));
    assert_eq!(px(&fb, 0, 15), (7, 7, 7, 255));
    assert_eq!(px(&fb, 2, 15), (7, 7, 7, 255));
    assert_eq!(px(&fb, 0, 13), (7, 7, 7, 255));
    assert_eq!(px(&fb, 2, 13), (0, 0, 0, 0));
    assert_eq!(px(&fb, 1, 14), (7, 7, 7, 255));
}

#[test]
fn dim_scales_colour_not_alpha() {
    let mut fb = Frame::new();
    set_size(&mut fb, 16, 16);
    fb.fill((200, 255, 10));
    fb.dim(90);
    assert_eq!(px(&fb, 3, 3), (70, 90, 3, 255));
    assert_eq!(fb.ptr()[16 * 16 * 4], 0);
}

#[test]
fn digit_one_at_scale_one() {
    let mut fb = Frame::new();
    set_size(&mut fb, 16, 16);
    fb.digit(2, 3, 1, 1, (1, 1, 1));
    let rows = [0b010, 0b110, 0b010, 0b010, 0b111];
    for (r, bits) in rows.iter().enumerate() {
        for c in 0..3 {
            let lit = bits & (1 << (2 - c)) != 0;
            let want = if lit { (1, 1, 1, 255) } else { (0, 0, 0, 0) };
            assert_eq!(px(&fb, 2 + c, 3 + r), want);
        }
    }
}

#[test]
fn digit_takes_last_decimal_digit_and_scales() {
    let mut a = Frame::new();
    let mut b = Frame::new();
    a.digit(0, 0, 17, 2, (4, 4, 4));
    b.digit(0, 0, 7, 2, (4, 4, 4));
    assert_eq!(a.ptr(), b.ptr());
    // 7 is a full top row: six pixels wide, two tall at scale 2
    assert_eq!(px(&a, 5, 1), (4, 4, 4, 255));
    assert_eq!(px(&a, 6, 0), (0, 0, 0, 0));
    assert_eq!(px(&a, 0, 2), (0, 0, 0, 0));
}

#[test]
fn number_lays_digits_four_cells_apart() {
    let mut a = Frame::new();
    a.number(1, 1, 120, 1, (3, 3, 3));
    let mut b = Frame::new();
    b.digit(1, 1, 1, 1, (3, 3, 3));
    b.digit(5, 1, 2, 1, (3, 3, 3));
    b.digit(9, 1, 0, 1, (3, 3, 3));
    assert_eq!(a.ptr(), b.ptr());
}

#[test]
fn number_single_digit_and_zero() {
    let mut a = Frame::new();
    a.number(4, 4, 0, 2, (3, 3, 3));
    let mut b = Frame::new();
    b.digit(4, 4, 0, 2, (3, 3, 3));
    assert_eq!(a.ptr(), b.ptr());
}

#[test]
fn number_ten_digits() {
    let mut a = Frame::new();
    a.number(0, 0, 4_294_967_295, 1, (3, 3, 3));
    let mut b = Frame::new();
    for (i, d) in [4u32, 2, 9, 4, 9, 6, 7, 2, 9, 5].iter().enumerate() {
        b.digit(4 * i as i32, 0, *d, 1, (3, 3, 3));
    }
    assert_eq!(a.ptr(), b.ptr());
}

#[test]
fn hash_known_values() {
    assert_eq!(hash(0), 0);
    assert_eq!(hash(1), 1561565218);
    assert_eq!(hash(2), 3573156908);
    assert_eq!(hash(42), 1704240067);
    assert_eq!(hash(0xffff_ffff), 4093904431);
}

#[test]
fn lerp_ends_and_middle() {
    assert_eq!(lerp(63, 201, 0), 63);
    assert_eq!(lerp(63, 201, 255), 201);
    assert_eq!(lerp(63, 201, 128), 132);
    assert_eq!(lerp(110, 46, 128), 78);
    assert_eq!(lerp(110, 46, 255), 46);
    assert_eq!(lerp(110, 46, 1), 110);
    for t in 0..=255u32 {
        let v = lerp(110, 46, t);
        assert!((46..=110).contains(&v));
    }
}

#[test]
fn hash_scatters_distinct_inputs_to_distinct_values() {
    let mut seen: Vec<u32> = (0..20000u32).map(hash).collect();
    seen.sort();
    seen.dedup();
    assert_eq!(seen.len(), 20000);
}

#[test]
fn number_draws_what_its_digits_draw() {
    let mut a = Frame::new();
    let mut b = Frame::new();
    a.number(5, 7, 4096, 2, (200, 100, 50));
    for (j, d) in [4u32, 0, 9, 6].iter().enumerate() {
        b.digit(5 + 4 * j as i32 * 2, 7, *d, 2, (200, 100, 50));
    }
    assert!(a.ptr() == b.ptr());
    let mut c = Frame::new();
    c.number(0, 0, u32::MAX, 1, (1, 2, 3));
    let mut e = Frame::new();
    for (j, d) in [4u32, 2, 9, 4, 9, 6, 7, 2, 9, 5].iter().enumerate() {
        e.digit(4 * j as i32, 0, *d, 1, (1, 2, 3));
    }
    assert!(c.ptr() == e.ptr());
}
