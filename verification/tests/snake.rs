use lib::engine::frame::{set_size, width, Frame};
use lib::engine::rng::Rng;
use lib::games::snake::{Snake, BACKDROP, HEAD, MIN_STEP_HALF_MS, START_STEP_HALF_MS};

fn dealt() -> (Snake, Frame, Rng) {
    let fb = Frame::new();
    let mut rng = Rng::new();
    let mut s = Snake::new();
    s.reset(&fb, &mut rng);
    (s, fb, rng)
}

#[test]
fn snake_new_is_empty_and_waiting() {
    let s = Snake::new();
    assert_eq!(s.len(), 0);
    assert_eq!(s.score(), 0);
    assert_eq!(s.best(), 0);
    assert_eq!(s.status(), 0);
    assert_eq!(s.step_half_ms(), START_STEP_HALF_MS);
}

#[test]
fn snake_reset_deals_three_in_the_middle() {
    let (s, _, _) = dealt();
    assert_eq!(s.board(), (17, 17));
    assert_eq!(s.len(), 3);
    assert_eq!(s.head_cell(), 8 * 17 + 8);
    assert_eq!(s.food(), 127);
    assert_eq!(s.status(), 0);
}

#[test]
fn snake_board_follows_frame_shape() {
    let mut fb = Frame::new();
    let mut rng = Rng::new();
    let mut s = Snake::new();
    set_size(&mut fb, 800, 400);
    s.reset(&fb, &mut rng);
    assert_eq!(s.board(), (32, 16));
    set_size(&mut fb, 16, 16);
    s.reset(&fb, &mut rng);
    assert_eq!(s.board(), (6, 6));
    set_size(&mut fb, 100, 1200);
    s.reset(&fb, &mut rng);
    assert_eq!(s.board(), (6, 31));
}

#[test]
fn snake_key_starts_and_out_of_range_key_ignored() {
    let (mut s, _, _) = dealt();
    s.key(7);
    assert_eq!(s.status(), 0);
    s.key(1);
    assert_eq!(s.status(), 1);
}

#[test]
fn snake_eats_the_apple_above() {
    let (mut s, _, mut rng) = dealt();
    s.key(0);
    s.step(&mut rng);
    assert_eq!(s.head_cell(), 127);
    assert_eq!(s.score(), 1);
    assert_eq!(s.best(), 1);
    assert_eq!(s.len(), 4);
    assert_eq!(s.step_half_ms(), START_STEP_HALF_MS - 5);
    assert_ne!(s.food(), 127);
}

#[test]
fn snake_reverse_key_is_ignored() {
    let (mut s, _, mut rng) = dealt();
    // heading right; a left turn would fold it back on itself
    s.key(3);
    s.step(&mut rng);
    assert_eq!(s.status(), 1);
    assert_eq!(s.head_cell(), 8 * 17 + 9);
    assert_eq!(s.len(), 3);
}

#[test]
fn snake_dies_at_the_wall_and_keys_stop() {
    let (mut s, _, mut rng) = dealt();
    s.key(1);
    let mut steps = 0;
    while s.status() != 2 {
        s.step(&mut rng);
        steps += 1;
        assert!(steps < 100);
    }
    // head started at column 8 of 17: eight steps to column 16, the ninth dies
    assert_eq!(steps, 9);
    assert_eq!(s.head_cell(), 8 * 17 + 16);
    s.key(0);
    assert_eq!(s.status(), 2);
}

#[test]
fn snake_best_survives_reset() {
    let (mut s, fb, mut rng) = dealt();
    s.key(0);
    s.step(&mut rng);
    assert_eq!(s.score(), 1);
    s.reset(&fb, &mut rng);
    assert_eq!(s.score(), 0);
    assert_eq!(s.best(), 1);
}

#[test]
fn snake_speed_floor() {
    // the interval only shrinks as apples are eaten and never passes 65 ms
    assert_eq!(MIN_STEP_HALF_MS, 130);
    assert_eq!(START_STEP_HALF_MS, 260);
}

#[test]
fn snake_same_seed_same_apples() {
    let (a, _, _) = dealt();
    let (b, _, _) = dealt();
    assert_eq!(a.food(), b.food());
}

#[test]
fn snake_draw_paints_board_and_head() {
    let (mut s, _, _) = dealt();
    let mut fb = Frame::new();
    s.draw(&mut fb);
    let w = width(&fb);
    let b = fb.ptr();
    // a corner is backdrop
    assert_eq!((b[0], b[1], b[2], b[3]), (BACKDROP.0, BACKDROP.1, BACKDROP.2, 255));
    // the head cell (column 8, row 8 of 27-pixel cells, offset 10) is brass
    let x = 10 + 8 * 27 + 13;
    let y = 10 + 8 * 27 + 13;
    let i = (y * w + x) * 4;
    assert_eq!((b[i], b[i + 1], b[i + 2]), HEAD);
}

#[test]
fn snake_draw_dims_when_over() {
    let (mut s, _, mut rng) = dealt();
    s.key(1);
    while s.status() != 2 {
        s.step(&mut rng);
    }
    let mut fb = Frame::new();
    s.draw(&mut fb);
    let b = fb.ptr();
    assert_eq!(b[0], (BACKDROP.0 as u16 * 90 / 255) as u8);
}

#[test]
fn snake_head_follows_its_tail_round_a_square() {
    let (mut s, _, mut rng) = dealt();
    // up onto the apple at (8, 7): four long, a square's worth
    s.key(0);
    s.step(&mut rng);
    assert_eq!(s.len(), 4);
    let apple = s.food();
    assert!(apple != 7 * 17 + 7 && apple != 8 * 17 + 7 && apple != 8 * 17 + 8);
    // left, then down onto the cell the tail is leaving, and round again
    let mut turns = vec![3u32, 2, 1, 0];
    turns.extend([3u32, 2, 1, 0]);
    for d in turns {
        s.key(d);
        s.step(&mut rng);
        assert_eq!(s.status(), 1);
        assert_eq!(s.len(), 4);
    }
    assert_eq!(s.head_cell(), 7 * 17 + 8);
}
