use lib::engine::rng::Rng;
use lib::games::dumptruck::{
    deal_rolls, free_slot, in_bed_count, kind_for, size_for, slot_taken, wall_built, Kind, Ledger, Mill,
    Rock, Size, BED_SLOTS, ROCKS, SLOTS,
};

#[test]
fn kind_colors_are_the_palette() {
    assert_eq!(Kind::Granite.colors(), ((129, 133, 137), (166, 170, 174)));
    assert_eq!(Kind::Sandstone.colors(), ((176, 148, 104), (206, 182, 142)));
    assert_eq!(Kind::Basalt.colors(), ((86, 90, 98), (120, 126, 136)));
    assert_eq!(Kind::Gem.colors(), ((86, 160, 150), (140, 205, 194)));
}

#[test]
fn rolls_map_to_sizes_and_kinds() {
    assert!(size_for(8) == Size::Pebble);
    assert!(size_for(9) == Size::Pebble);
    assert!(size_for(10) == Size::Boulder);
    assert!(size_for(7) == Size::Stone);
    assert!(kind_for(16) == Kind::Granite);
    assert!(kind_for(0) == Kind::Granite);
    assert!(kind_for(3) == Kind::Sandstone);
    assert!(kind_for(5) == Kind::Basalt);
    assert!(kind_for(15) == Kind::Granite);
}

#[test]
fn deal_always_has_a_gem() {
    for seed in 1..200u32 {
        let mut rng = Rng::new();
        rng.seed(seed);
        let rolls = deal_rolls(&mut rng);
        assert_eq!(rolls.len(), ROCKS);
        assert_eq!(rolls.iter().filter(|r| r.kind == Kind::Gem).count(), 1);
    }
}

#[test]
fn deal_draws_five_per_rock_and_one_for_the_gem() {
    let mut a = Rng::new();
    let _ = deal_rolls(&mut a);
    let mut b = Rng::new();
    for _ in 0..61 {
        b.next();
    }
    assert_eq!(a.next(), b.next());
}

#[test]
fn deal_first_rock_from_default_seed() {
    let mut rng = Rng::new();
    let rolls = deal_rolls(&mut rng);
    // draws: 3777279546, 2342155435, 1692513196, 1525286, 4071472047
    assert!(rolls[0].size == size_for(3777279546));
    assert_eq!(rolls[0].shape, 1692513196);
    assert_eq!(rolls[0].facet, (1525286 % 4) as u8);
    assert_eq!(rolls[0].spacing, 4071472047);
}

#[test]
fn bed_counts_and_free_slot() {
    let mut state = [Rock::Ground; ROCKS];
    let mut slot = [0usize; ROCKS];
    assert_eq!(in_bed_count(&state), 0);
    assert_eq!(free_slot(&state, &slot), Some(0));
    state[3] = Rock::InBed;
    slot[3] = 0;
    state[5] = Rock::Seating;
    slot[5] = 1;
    state[6] = Rock::Falling;
    slot[6] = 2;
    assert_eq!(in_bed_count(&state), 2);
    assert_eq!(free_slot(&state, &slot), Some(2));
    for (k, s) in (0..BED_SLOTS).enumerate() {
        state[k] = Rock::InBed;
        slot[k] = s;
    }
    assert_eq!(free_slot(&state, &slot), None);
}

#[test]
fn wall_slots_and_count() {
    let mut state = [Rock::Ground; ROCKS];
    let mut wall = [0usize; ROCKS];
    assert!(!slot_taken(&state, &wall, 0));
    state[2] = Rock::Built;
    wall[2] = 4;
    state[7] = Rock::Setting;
    wall[7] = 1;
    assert!(slot_taken(&state, &wall, 4));
    assert!(slot_taken(&state, &wall, 1));
    assert!(!slot_taken(&state, &wall, 0));
    assert_eq!(wall_built(&state), 1);
}

#[test]
fn grabbable_rocks() {
    assert!(Rock::Ground.grabbable());
    assert!(Rock::Built.grabbable());
    assert!(!Rock::InBed.grabbable());
    assert!(!Rock::Falling.grabbable());
}

#[test]
fn mill_gives_a_gem_every_fifth_rock() {
    let mut m = Mill::new();
    let mut gems = 0;
    for n in 1..=23u32 {
        let gem = m.crunch();
        assert_eq!(gem, n % 5 == 0);
        if gem {
            gems += 1;
        }
        assert_eq!(m.gems, m.gravel / 5);
    }
    assert_eq!(gems, 4);
}

use lib::games::dumptruck::{can_turn, gems_shown, spilling, start_tip, tip_next, Landing, Tip};

#[test]
fn tip_starts_only_from_idle_with_a_load() {
    assert_eq!(start_tip(Tip::Idle, 0), Tip::Idle);
    assert_eq!(start_tip(Tip::Idle, 3), Tip::Squat);
    assert_eq!(start_tip(Tip::Holding, 3), Tip::Holding);
}

#[test]
fn tip_goes_round_in_order() {
    let mut p = Tip::Squat;
    p = tip_next(p, false, false, false, false, false);
    assert_eq!(p, Tip::Squat);
    p = tip_next(p, true, false, false, false, false);
    assert_eq!(p, Tip::Raising);
    assert!(spilling(p));
    p = tip_next(p, false, true, false, false, false);
    assert_eq!(p, Tip::Holding);
    assert!(spilling(p));
    // held long enough, but rocks still in the bed: stays up
    p = tip_next(p, false, false, true, false, false);
    assert_eq!(p, Tip::Holding);
    p = tip_next(p, false, false, true, true, false);
    assert_eq!(p, Tip::Lowering);
    assert!(!spilling(p));
    p = tip_next(p, false, false, false, false, true);
    assert_eq!(p, Tip::Idle);
    assert_eq!(tip_next(Tip::Idle, true, true, true, true, true), Tip::Idle);
}

#[test]
fn no_turning_with_the_bed_up() {
    assert!(can_turn(true, Tip::Idle));
    assert!(!can_turn(false, Tip::Idle));
    assert!(!can_turn(true, Tip::Raising));
    assert!(!can_turn(true, Tip::Lowering));
}

#[test]
fn seating_rocks_fills_distinct_slots() {
    let mut l = Ledger::new();
    for i in 0..BED_SLOTS {
        assert!(l.shift(i, Rock::Held));
        assert_eq!(l.seat(i, true, Tip::Idle), Some(i));
        assert_eq!(l.states()[i], Rock::Seating);
        assert_eq!(l.slots()[i], i);
        assert_eq!(l.count(), i as u32 + 1);
    }
    assert_eq!(in_bed_count(l.states()), BED_SLOTS as u32);
    assert_eq!(free_slot(l.states(), l.slots()), None);
    // a full bed takes nothing more
    assert!(l.shift(7, Rock::Held));
    assert_eq!(l.seat(7, true, Tip::Idle), None);
    assert_eq!(l.states()[7], Rock::Held);
    assert_eq!(l.count(), 6);
    // one settles, then is tipped out: its slot is the one the next rock takes
    assert!(l.shift(2, Rock::InBed));
    assert!(l.shift(2, Rock::Falling));
    assert_eq!(l.count(), 5);
    assert_eq!(l.seat(7, true, Tip::Idle), Some(2));
    assert_eq!(l.states()[7], Rock::Seating);
    assert_eq!(l.slots()[7], 2);
    assert_eq!(l.count(), 6);
}

#[test]
fn seat_needs_a_held_rock_the_bed_down_and_the_hand_over_it() {
    let mut l = Ledger::new();
    // a rock lying on the ground is not let go of
    assert_eq!(l.seat(4, true, Tip::Idle), None);
    assert!(l.shift(4, Rock::Held));
    assert_eq!(l.seat(4, false, Tip::Idle), None);
    assert_eq!(l.seat(4, true, Tip::Raising), None);
    assert_eq!(l.seat(4, true, Tip::Squat), None);
    assert_eq!(l.states()[4], Rock::Held);
    assert_eq!(l.count(), 0);
    assert_eq!(l.seat(4, true, Tip::Idle), Some(0));
    assert_eq!(l.states()[4], Rock::Seating);
    assert_eq!(l.count(), 1);
}

#[test]
fn the_number_follows_the_bed() {
    let mut l = Ledger::new();
    for i in 0..3 {
        l.shift(i, Rock::Held);
        l.seat(i, true, Tip::Idle);
        l.shift(i, Rock::InBed);
    }
    assert_eq!(l.count(), 3);
    assert_eq!(l.count(), in_bed_count(l.states()));
    // tipping out counts down one at a time: 2, 1, 0
    for (i, n) in [(0, 2), (1, 1), (2, 0)] {
        assert!(l.shift(i, Rock::Falling));
        assert_eq!(l.count(), n);
        assert_eq!(l.count(), in_bed_count(l.states()));
    }
    // a rock still flying into the bed is not tipped out
    l.shift(5, Rock::Held);
    l.seat(5, true, Tip::Idle);
    assert!(!l.shift(5, Rock::Falling));
    assert_eq!(l.count(), 1);
    l.clear();
    assert_eq!(l.count(), 0);
    assert!(l.states().iter().all(|&r| r == Rock::Ground));
}

#[test]
fn a_rock_goes_round_its_life() {
    let mut l = Ledger::new();
    // only moves a rock can make are made
    assert!(!l.shift(0, Rock::Built));
    assert!(!l.shift(0, Rock::Falling));
    assert!(!l.shift(0, Rock::InBed));
    assert!(l.shift(0, Rock::Held));
    assert!(l.shift(0, Rock::Falling));
    assert!(l.shift(0, Rock::Falling));
    assert!(l.shift(0, Rock::Feeding));
    assert!(!l.shift(0, Rock::Ground));
    assert!(l.shift(0, Rock::Milled));
    assert!(l.shift(0, Rock::Ground));
    assert_eq!(l.states()[0], Rock::Ground);
    assert_eq!(l.count(), 0);
}

#[test]
fn wall_slots_are_held_once() {
    let mut l = Ledger::new();
    // a rock on the ground is not sent anywhere
    assert!(!l.set_in_wall(0, 3));
    l.shift(0, Rock::Held);
    assert!(!l.set_in_wall(0, SLOTS));
    assert!(l.set_in_wall(0, 3));
    assert_eq!(l.states()[0], Rock::Setting);
    assert_eq!(l.wall_slots()[0], 3);
    assert!(slot_taken(l.states(), l.wall_slots(), 3));
    // the slot is spoken for, even before the first stone has arrived
    l.shift(1, Rock::Held);
    l.shift(1, Rock::Falling);
    assert!(!l.set_in_wall(1, 3));
    assert_eq!(l.states()[1], Rock::Falling);
    assert!(l.set_in_wall(1, 4));
    assert!(l.shift(0, Rock::Built));
    assert!(l.shift(1, Rock::Built));
    assert_eq!(wall_built(l.states()), 2);
    // taken back out of the wall, a stone frees its slot
    assert!(l.shift(0, Rock::Held));
    assert!(!slot_taken(l.states(), l.wall_slots(), 3));
    assert_eq!(l.count(), 0);
}

#[test]
fn landing_goes_to_the_crusher_then_the_wall_then_bounces_or_rests() {
    let mut l = Ledger::new();
    // a rock on the ground has not come down from anywhere
    assert_eq!(l.land(0, Some(1), None, false), None);
    for i in 0..4 {
        l.shift(i, Rock::Held);
        l.shift(i, Rock::Falling);
    }
    assert_eq!(l.land(0, Some(1), Some(2), true), Some(Landing::Fed(1)));
    assert_eq!(l.states()[0], Rock::Feeding);
    assert_eq!(l.land(1, None, Some(2), true), Some(Landing::Walled(2)));
    assert_eq!(l.states()[1], Rock::Setting);
    assert_eq!(l.wall_slots()[1], 2);
    // slot 2 is spoken for: a hard landing there bounces, a soft one rests
    assert_eq!(l.land(2, None, Some(2), true), Some(Landing::Bounced));
    assert_eq!(l.states()[2], Rock::Falling);
    assert_eq!(l.land(2, None, None, false), Some(Landing::Rested));
    assert_eq!(l.states()[2], Rock::Ground);
    assert_eq!(l.land(3, None, Some(SLOTS), false), Some(Landing::Rested));
    assert_eq!(l.count(), 0);
}

#[test]
fn a_crusher_shows_at_most_six_gems() {
    assert_eq!(gems_shown(0), 0);
    assert_eq!(gems_shown(5), 5);
    assert_eq!(gems_shown(6), 6);
    assert_eq!(gems_shown(40), 6);
}
