//! Load the Dump Truck: the bookkeeping of the rocks, the bed, the wall and
//! the crushers. Where things are and how they move is measured in fractions
//! of a pixel and lives with the physics; what state each rock is in, which
//! slot it holds and what the dealer rolled for it is decided here.

use vstd::prelude::*;
use crate::engine::frame::Rgb;
use crate::engine::rng::{Rng, xs_iter};

verus! {

pub const ROCKS: usize = 12;
/// One crusher at each end of the world.
pub const MILLS: usize = 2;
/// Slots in the wall he is building: a bottom row of four, a top row of
/// three.
pub const SLOTS: usize = 7;
pub const BED_SLOTS: usize = 6;
/// Every this many rocks through a crusher, a gem comes out of the chute.
pub const GEM_EVERY: u32 = 5;

pub const ROCK_C: Rgb = (129, 133, 137);
pub const ROCK_LIGHT: Rgb = (166, 170, 174);
pub const SAND_C: Rgb = (176, 148, 104);
pub const SAND_LIGHT: Rgb = (206, 182, 142);
pub const BASALT_C: Rgb = (86, 90, 98);
pub const BASALT_LIGHT: Rgb = (120, 126, 136);
pub const GEM: Rgb = (86, 160, 150);
pub const GEM_LIGHT: Rgb = (140, 205, 194);

/// What a rock is made of. One in twelve is not a rock at all.
#[derive(Clone, Copy, PartialEq, Eq, Structural, Debug)]
pub enum Kind {
    Granite,
    Sandstone,
    Basalt,
    Gem,
}

/// Three sizes he can name, rather than a continuous smear.
#[derive(Clone, Copy, PartialEq, Eq, Structural, Debug)]
pub enum Size {
    Pebble,
    Stone,
    Boulder,
}

/// Where a rock is in its life.
#[derive(Clone, Copy, PartialEq, Eq, Structural, Debug)]
pub enum Rock {
    Ground,
    /// dropping into a crusher's hopper
    Feeding,
    /// inside the machine; comes back to the quarry shortly
    Milled,
    Held,
    /// flying to a slot in the bed
    Seating,
    InBed,
    Falling,
    /// flying to a slot in the wall
    Setting,
    /// part of the wall, and out of the physics
    Built,
}

pub open spec fn kind_colors(k: Kind) -> (Rgb, Rgb) {
    match k {
        Kind::Granite => (ROCK_C, ROCK_LIGHT),
        Kind::Sandstone => (SAND_C, SAND_LIGHT),
        Kind::Basalt => (BASALT_C, BASALT_LIGHT),
        Kind::Gem => (GEM, GEM_LIGHT),
    }
}

impl Kind {
    /// Body colour and highlight.
    pub fn colors(self) -> (c: (Rgb, Rgb))
        ensures
            c == kind_colors(self),
    {
        match self {
            Kind::Granite => (ROCK_C, ROCK_LIGHT),
            Kind::Sandstone => (SAND_C, SAND_LIGHT),
            Kind::Basalt => (BASALT_C, BASALT_LIGHT),
            Kind::Gem => (GEM, GEM_LIGHT),
        }
    }
}

impl Rock {
    /// A hand can take this rock: it is lying on the ground, or it is in the
    /// wall (nothing he builds is locked in). A rock in the bed is not: it
    /// sits exactly where the hand lands to drive.
    pub fn grabbable(self) -> (b: bool)
        ensures
            b == (self == Rock::Ground || self == Rock::Built),
    {
        matches!(self, Rock::Ground | Rock::Built)
    }
}

// ------------------------------------------------------------------ dealing

/// Two in eight rolls are pebbles, one a boulder, the rest stones.
pub open spec fn size_for_spec(roll: u32) -> Size {
    let r = roll % 8;
    if r == 0 || r == 1 {
        Size::Pebble
    } else if r == 2 {
        Size::Boulder
    } else {
        Size::Stone
    }
}

/// Three in sixteen rolls are sandstone, two basalt, the rest granite. No
/// roll makes a gem: the dealer places the one gem itself.
pub open spec fn kind_for_spec(roll: u32) -> Kind {
    let r = roll % 16;
    if 1 <= r <= 3 {
        Kind::Sandstone
    } else if r == 4 || r == 5 {
        Kind::Basalt
    } else {
        Kind::Granite
    }
}

/// The deal's odds: of every eight size rolls, two give pebbles, one a
/// boulder and five stones; of every sixteen kind rolls, three give
/// sandstone, two basalt and eleven granite, and none a gem.
pub proof fn lemma_roll_odds(roll: u32)
    ensures
        (size_for_spec(roll) == Size::Pebble) == (roll % 8 < 2),
        (size_for_spec(roll) == Size::Boulder) == (roll % 8 == 2),
        (size_for_spec(roll) == Size::Stone) == (roll % 8 >= 3),
        (kind_for_spec(roll) == Kind::Sandstone) == (1 <= roll % 16 <= 3),
        (kind_for_spec(roll) == Kind::Basalt) == (4 <= roll % 16 <= 5),
        (kind_for_spec(roll) == Kind::Granite) == (roll % 16 == 0 || roll % 16 >= 6),
        kind_for_spec(roll) != Kind::Gem,
{
}

pub fn size_for(roll: u32) -> (s: Size)
    ensures
        s == size_for_spec(roll),
{
    match roll % 8 {
        0 | 1 => Size::Pebble,
        2 => Size::Boulder,
        _ => Size::Stone,
    }
}

pub fn kind_for(roll: u32) -> (k: Kind)
    ensures
        k == kind_for_spec(roll),
{
    match roll % 16 {
        1 | 2 | 3 => Kind::Sandstone,
        4 | 5 => Kind::Basalt,
        _ => Kind::Granite,
    }
}

/// What the dealer rolled for one rock. `spacing` is the draw the gap after
/// it is made from.
pub struct RockRoll {
    pub size: Size,
    pub kind: Kind,
    pub shape: u32,
    pub facet: u8,
    pub spacing: u32,
}

/// Draws the dealer makes per rock: size, kind, outline, facet, spacing.
pub const DRAWS_PER_ROCK: u32 = 5;

/// Draw number `k` (from 1) from generator state `s`.
pub open spec fn draw(s: u32, k: int) -> u32 {
    xs_iter(s, k as nat)
}

/// The index of the rock the dealer turns into a gem, whatever the other
/// rolls said.
pub open spec fn gem_index(s: u32) -> int {
    draw(s, ROCKS * DRAWS_PER_ROCK + 1) as int % (ROCKS as int)
}

/// Roll the twelve rocks of a fresh quarry from the generator, in the order
/// the deal makes its draws, and then make one of them the gem: exactly one
/// of the twelve is not a rock.
pub fn deal_rolls(rng: &mut Rng) -> (rolls: Vec<RockRoll>)
    requires
        old(rng).wf(),
    ensures
        final(rng).wf(),
        final(rng).state() == draw(old(rng).state(), ROCKS * DRAWS_PER_ROCK + 1),
        rolls.len() == ROCKS,
        forall|i: int|
            0 <= i < ROCKS ==> {
                let s = old(rng).state();
                let b = DRAWS_PER_ROCK * i;
                &&& #[trigger] rolls@[i].size == size_for_spec(draw(s, b + 1))
                &&& rolls@[i].kind == (if i == gem_index(s) {
                    Kind::Gem
                } else {
                    kind_for_spec(draw(s, b + 2))
                })
                &&& rolls@[i].shape == draw(s, b + 3)
                &&& rolls@[i].facet == draw(s, b + 4) % 4
                &&& rolls@[i].spacing == draw(s, b + 5)
            },
        forall|i: int| 0 <= i < ROCKS ==> ((#[trigger] rolls@[i]).kind == Kind::Gem <==> i == gem_index(old(rng).state())),
{
    let ghost s = rng.state();
    let mut rolls: Vec<RockRoll> = Vec::new();
    let mut i: usize = 0;
    while i < ROCKS
        invariant
            rng.wf(),
            0 <= i <= ROCKS,
            rolls.len() == i,
            rng.state() == draw(s, DRAWS_PER_ROCK * i),
            forall|j: int|
                0 <= j < i ==> {
                    let b = DRAWS_PER_ROCK * j;
                    &&& #[trigger] rolls@[j].size == size_for_spec(draw(s, b + 1))
                    &&& rolls@[j].kind == kind_for_spec(draw(s, b + 2))
                    &&& rolls@[j].shape == draw(s, b + 3)
                    &&& rolls@[j].facet == draw(s, b + 4) % 4
                    &&& rolls@[j].spacing == draw(s, b + 5)
                },
        decreases ROCKS - i,
    {
        let ghost b = DRAWS_PER_ROCK * i;
        let size = size_for(rng.next());
        assert(draw(s, b + 1) == rng.state());
        let kind = kind_for(rng.next());
        assert(draw(s, b + 2) == rng.state());
        let shape = rng.next();
        assert(draw(s, b + 3) == shape);
        let facet = (rng.next() % 4) as u8;
        assert(draw(s, b + 4) == rng.state());
        let spacing = rng.next();
        assert(draw(s, b + 5) == spacing);
        rolls.push(RockRoll { size, kind, shape, facet, spacing });
        i = i + 1;
    }
    let g = (rng.next() as usize) % ROCKS;
    assert(g == gem_index(s));
    let r = &rolls[g];
    let gem = RockRoll { size: r.size, kind: Kind::Gem, shape: r.shape, facet: r.facet, spacing: r.spacing };
    rolls.set(g, gem);
    assert(rolls@[g as int].kind == Kind::Gem);
    assert forall|i: int| 0 <= i < ROCKS implies ((#[trigger] rolls@[i]).kind == Kind::Gem <==> i == gem_index(s)) by {
        if i != g {
            assert(rolls@[i].size == size_for_spec(draw(s, DRAWS_PER_ROCK * i + 1)));
        }
    }
    rolls
}

// ---------------------------------------------------------------- the bed

/// A rock that holds, or is flying to, a slot in the bed.
pub open spec fn in_bed(r: Rock) -> bool {
    r == Rock::InBed || r == Rock::Seating
}

/// Bed slot `s` is held by some rock.
pub open spec fn bed_slot_used(state: Seq<Rock>, slot: Seq<usize>, s: int) -> bool {
    exists|i: int| 0 <= i < ROCKS && #[trigger] in_bed(state[i]) && slot[i] == s
}

/// How many of the first `k` rocks are in the bed.
pub open spec fn bed_count(state: Seq<Rock>, k: int) -> int
    decreases k,
{
    if k <= 0 {
        0
    } else {
        bed_count(state, k - 1) + if in_bed(state[k - 1]) { 1int } else { 0int }
    }
}

/// How many of the first `k` rocks are built into the wall.
pub open spec fn built_count(state: Seq<Rock>, k: int) -> int
    decreases k,
{
    if k <= 0 {
        0
    } else {
        built_count(state, k - 1) + if state[k - 1] == Rock::Built { 1int } else { 0int }
    }
}

proof fn lemma_count_bounds(state: Seq<Rock>, k: int)
    requires
        0 <= k,
    ensures
        0 <= bed_count(state, k) <= k,
        0 <= built_count(state, k) <= k,
    decreases k,
{
    if k > 0 {
        lemma_count_bounds(state, k - 1);
    }
}

/// Rocks in the bed or on their way into it.
pub fn in_bed_count(state: &[Rock]) -> (n: u32)
    requires
        state@.len() == ROCKS,
    ensures
        n == bed_count(state@, ROCKS as int),
{
    let mut n: u32 = 0;
    let mut i: usize = 0;
    while i < ROCKS
        invariant
            state@.len() == ROCKS,
            0 <= i <= ROCKS,
            n == bed_count(state@, i as int),
        decreases ROCKS - i,
    {
        proof { lemma_count_bounds(state@, i as int); }
        if matches!(state[i], Rock::InBed | Rock::Seating) {
            n = n + 1;
        }
        i = i + 1;
    }
    n
}

/// Rocks built into the wall.
pub fn wall_built(state: &[Rock]) -> (n: u32)
    requires
        state@.len() == ROCKS,
    ensures
        n == built_count(state@, ROCKS as int),
{
    let mut n: u32 = 0;
    let mut i: usize = 0;
    while i < ROCKS
        invariant
            state@.len() == ROCKS,
            0 <= i <= ROCKS,
            n == built_count(state@, i as int),
        decreases ROCKS - i,
    {
        proof { lemma_count_bounds(state@, i as int); }
        if matches!(state[i], Rock::Built) {
            n = n + 1;
        }
        i = i + 1;
    }
    n
}

/// The lowest bed slot no rock holds, if there is one.
pub fn free_slot(state: &[Rock], slot: &[usize]) -> (r: Option<usize>)
    requires
        state@.len() == ROCKS,
        slot@.len() == ROCKS,
    ensures
        r matches Some(s) ==> s < BED_SLOTS && !bed_slot_used(state@, slot@, s as int)
            && forall|t: int| 0 <= t < s ==> #[trigger] bed_slot_used(state@, slot@, t),
        r is None ==> forall|t: int| 0 <= t < BED_SLOTS ==> #[trigger] bed_slot_used(state@, slot@, t),
{
    let mut s: usize = 0;
    while s < BED_SLOTS
        invariant
            state@.len() == ROCKS,
            slot@.len() == ROCKS,
            0 <= s <= BED_SLOTS,
            forall|t: int| 0 <= t < s ==> #[trigger] bed_slot_used(state@, slot@, t),
        decreases BED_SLOTS - s,
    {
        let mut taken = false;
        let mut i: usize = 0;
        while i < ROCKS && !taken
            invariant
                state@.len() == ROCKS,
                slot@.len() == ROCKS,
                0 <= i <= ROCKS,
                s < BED_SLOTS,
                !taken ==> forall|j: int| 0 <= j < i ==> !(#[trigger] in_bed(state@[j]) && slot@[j] == s),
                taken ==> bed_slot_used(state@, slot@, s as int),
            decreases ROCKS - i,
        {
            if matches!(state[i], Rock::InBed | Rock::Seating) && slot[i] == s {
                taken = true;
                assert(in_bed(state@[i as int]) && slot@[i as int] == s);
            }
            i = i + 1;
        }
        if !taken {
            return Some(s);
        }
        s = s + 1;
    }
    None
}

/// No two rocks in the bed share a slot.
pub open spec fn bed_slots_apart(state: Seq<Rock>, slot: Seq<usize>) -> bool {
    forall|a: int, b: int|
        0 <= a < b < ROCKS && in_bed(#[trigger] state[a]) && in_bed(#[trigger] state[b]) ==> slot[a] != slot[b]
}

/// Seating a rock that is not in the bed into the free slot keeps every
/// rock in the bed in a slot of its own.
pub proof fn lemma_seat_keeps_slots_apart(state: Seq<Rock>, slot: Seq<usize>, i: int, s: int)
    requires
        state.len() == ROCKS,
        slot.len() == ROCKS,
        0 <= i < ROCKS,
        0 <= s < BED_SLOTS,
        !in_bed(state[i]),
        !bed_slot_used(state, slot, s),
        bed_slots_apart(state, slot),
    ensures
        bed_slots_apart(state.update(i, Rock::Seating), slot.update(i, s as usize)),
{
    let st = state.update(i, Rock::Seating);
    let sl = slot.update(i, s as usize);
    assert forall|a: int, b: int|
        0 <= a < b < ROCKS && in_bed(#[trigger] st[a]) && in_bed(#[trigger] st[b]) implies sl[a] != sl[b] by {
        if a == i {
            assert(in_bed(state[b]));
            if slot[b] == s {
                assert(bed_slot_used(state, slot, s));
            }
        } else if b == i {
            assert(in_bed(state[a]));
            if slot[a] == s {
                assert(bed_slot_used(state, slot, s));
            }
        } else {
            assert(in_bed(state[a]) && in_bed(state[b]));
        }
    }
}

// ---------------------------------------------------------------- the wall

/// A stone built into the wall, or flying to a slot in it.
pub open spec fn in_wall(r: Rock) -> bool {
    r == Rock::Built || r == Rock::Setting
}

/// Wall slot `s` is held by a stone built into it or on its way there.
pub open spec fn wall_slot_used(state: Seq<Rock>, wall_slot: Seq<usize>, s: int) -> bool {
    exists|i: int| 0 <= i < ROCKS && #[trigger] in_wall(state[i]) && wall_slot[i] == s
}

/// No two stones share a wall slot.
pub open spec fn wall_slots_apart(state: Seq<Rock>, wall_slot: Seq<usize>) -> bool {
    forall|a: int, b: int|
        0 <= a < b < ROCKS && in_wall(#[trigger] state[a]) && in_wall(#[trigger] state[b]) ==> wall_slot[a]
            != wall_slot[b]
}

/// Whether a stone holds, or is flying to, wall slot `s`.
pub fn slot_taken(state: &[Rock], wall_slot: &[usize], s: usize) -> (b: bool)
    requires
        state@.len() == ROCKS,
        wall_slot@.len() == ROCKS,
    ensures
        b == wall_slot_used(state@, wall_slot@, s as int),
{
    let mut i: usize = 0;
    while i < ROCKS
        invariant
            state@.len() == ROCKS,
            wall_slot@.len() == ROCKS,
            0 <= i <= ROCKS,
            forall|j: int| 0 <= j < i ==> !(#[trigger] in_wall(state@[j]) && wall_slot@[j] == s),
        decreases ROCKS - i,
    {
        if matches!(state[i], Rock::Built | Rock::Setting) && wall_slot[i] == s {
            assert(in_wall(state@[i as int]));
            return true;
        }
        i = i + 1;
    }
    false
}

// ------------------------------------------------------------ the crushers

/// A crusher's tally: every rock put through it, and the gems it has given
/// back, one for every `GEM_EVERY` rocks.
pub struct Mill {
    pub gravel: u32,
    pub gems: u32,
}

impl Mill {
    pub fn new() -> (m: Mill)
        ensures
            m.gravel == 0,
            m.gems == 0,
    {
        Mill { gravel: 0, gems: 0 }
    }

    /// One more rock through the jaws. Returns whether a gem came out.
    pub fn crunch(&mut self) -> (gem: bool)
        requires
            old(self).gravel < u32::MAX,
            old(self).gems <= old(self).gravel,
        ensures
            final(self).gravel == old(self).gravel + 1,
            gem == (final(self).gravel % GEM_EVERY == 0),
            final(self).gems == old(self).gems + if gem { 1int } else { 0int },
    {
        self.gravel = self.gravel + 1;
        if self.gravel % GEM_EVERY == 0 {
            self.gems = self.gems + 1;
            true
        } else {
            false
        }
    }
}

/// A crusher that has always counted right keeps counting right: one gem
/// for every `GEM_EVERY` rocks it has swallowed.
pub proof fn lemma_gems_follow_gravel(gravel: u32, gems: u32, gem: bool)
    requires
        gravel < u32::MAX,
        gems == gravel / GEM_EVERY,
        gem == ((gravel + 1) % (GEM_EVERY as int) == 0),
    ensures
        gems + (if gem { 1int } else { 0int }) == (gravel + 1) / (GEM_EVERY as int),
{
}

} // verus!

verus! {

// ------------------------------------------------------------------ the bed

/// Where the bed is in a tip.
#[derive(Clone, Copy, PartialEq, Eq, Structural, Debug)]
pub enum Tip {
    Idle,
    /// anticipation: the truck settles before the bed moves
    Squat,
    Raising,
    Holding,
    Lowering,
}

/// A tap on the back: the bed starts to tip if it is down and there is
/// something in it to tip out.
pub fn start_tip(phase: Tip, in_bed: u32) -> (next: Tip)
    ensures
        next == (if phase == Tip::Idle && in_bed > 0 { Tip::Squat } else { phase }),
{
    if matches!(phase, Tip::Idle) && in_bed > 0 {
        Tip::Squat
    } else {
        phase
    }
}

/// The truck may start a turn only once the last one has finished and the
/// bed is down: turning with the bed up would swap the load's ends mid-pour.
pub fn can_turn(turn_settled: bool, phase: Tip) -> (b: bool)
    ensures
        b == (turn_settled && phase == Tip::Idle),
{
    turn_settled && matches!(phase, Tip::Idle)
}

/// The tip's next phase.
pub open spec fn tip_next_spec(
    phase: Tip,
    squat_over: bool,
    fully_up: bool,
    held_long: bool,
    bed_empty: bool,
    fully_down: bool,
) -> Tip {
    match phase {
        Tip::Idle => Tip::Idle,
        Tip::Squat => if squat_over { Tip::Raising } else { Tip::Squat },
        Tip::Raising => if fully_up { Tip::Holding } else { Tip::Raising },
        Tip::Holding => if held_long && bed_empty { Tip::Lowering } else { Tip::Holding },
        Tip::Lowering => if fully_down { Tip::Idle } else { Tip::Lowering },
    }
}

/// One tick of the tip. The measurements are the physics' to make: whether
/// the squat has lasted long enough, whether the bed is fully up, whether it
/// has been held up long enough, whether it is fully down again. The bed
/// only comes down once it is empty.
pub fn tip_next(
    phase: Tip,
    squat_over: bool,
    fully_up: bool,
    held_long: bool,
    bed_empty: bool,
    fully_down: bool,
) -> (next: Tip)
    ensures
        next == tip_next_spec(phase, squat_over, fully_up, held_long, bed_empty, fully_down),
{
    match phase {
        Tip::Idle => Tip::Idle,
        Tip::Squat => if squat_over {
            Tip::Raising
        } else {
            Tip::Squat
        },
        Tip::Raising => if fully_up {
            Tip::Holding
        } else {
            Tip::Raising
        },
        Tip::Holding => if held_long && bed_empty {
            Tip::Lowering
        } else {
            Tip::Holding
        },
        Tip::Lowering => if fully_down {
            Tip::Idle
        } else {
            Tip::Lowering
        },
    }
}

/// Rocks spill out while the bed is rising or held up.
pub fn spilling(phase: Tip) -> (b: bool)
    ensures
        b == (phase == Tip::Raising || phase == Tip::Holding),
{
    matches!(phase, Tip::Raising | Tip::Holding)
}

/// Each phase of a tip lasts until its own measurement says it is done, and
/// no longer: the squat until it is over, the raise until the bed is fully
/// up, the hold until it has lasted and the bed is empty, the lowering until
/// the bed is fully down. An idle bed stays idle.
pub proof fn lemma_tip_waits_for_its_measure(
    phase: Tip,
    squat_over: bool,
    fully_up: bool,
    held_long: bool,
    bed_empty: bool,
    fully_down: bool,
)
    ensures
        ({
            let next = tip_next_spec(phase, squat_over, fully_up, held_long, bed_empty, fully_down);
            &&& phase == Tip::Idle ==> next == Tip::Idle
            &&& phase == Tip::Squat ==> (next == Tip::Raising) == squat_over && (next == Tip::Squat) == !squat_over
            &&& phase == Tip::Raising ==> (next == Tip::Holding) == fully_up && (next == Tip::Raising) == !fully_up
            &&& phase == Tip::Holding ==> (next == Tip::Lowering) == (held_long && bed_empty) && (next == Tip::Holding)
                == !(held_long && bed_empty)
            &&& phase == Tip::Lowering ==> (next == Tip::Idle) == fully_down && (next == Tip::Lowering) == !fully_down
        }),
{
}

/// A tip goes round in one direction only, and the bed starts down only
/// when there is nothing left in it: from `Holding` the next phase is
/// `Lowering` only with an empty bed, an idle bed stays idle, and no tick
/// skips a phase.
pub proof fn lemma_tip_cycle(phase: Tip, a: bool, b: bool, c: bool, d: bool, e: bool)
    ensures
        phase == Tip::Holding && tip_next_spec(phase, a, b, c, d, e) == Tip::Lowering ==> d,
        phase == Tip::Idle ==> tip_next_spec(phase, a, b, c, d, e) == Tip::Idle,
        tip_next_spec(phase, a, b, c, d, e) != phase ==> tip_next_spec(phase, a, b, c, d, e) == match phase {
            Tip::Squat => Tip::Raising,
            Tip::Raising => Tip::Holding,
            Tip::Holding => Tip::Lowering,
            _ => Tip::Idle,
        },
{
}

} // verus!

verus! {

// ------------------------------------------------------------- the ledger

/// The moves a rock makes that take no slot: picked up off the ground or out
/// of the wall, let fall, settled into the bed slot it was flying to, tipped
/// out of the bed, swallowed by a crusher, milled, back in the quarry, come
/// to rest, locked into the wall. A falling rock may be told to fall again.
pub open spec fn lifecycle(from: Rock, to: Rock) -> bool {
    match from {
        Rock::Ground => to == Rock::Held,
        Rock::Built => to == Rock::Held,
        Rock::Held => to == Rock::Falling,
        Rock::Seating => to == Rock::InBed,
        Rock::InBed => to == Rock::Falling,
        Rock::Falling => to == Rock::Falling || to == Rock::Feeding || to == Rock::Ground,
        Rock::Feeding => to == Rock::Milled,
        Rock::Milled => to == Rock::Ground,
        Rock::Setting => to == Rock::Built,
    }
}

/// The rules of a rock's life: only a rock lying on the ground or built
/// into the wall can be picked up (never one in the bed); a rock gets into
/// the bed or the wall only by being put there with a slot (`seat`,
/// `set_in_wall`) and then arriving; only a rock in the bed is tipped out
/// of it; only a falling rock goes into a crusher or comes to rest; a milled
/// rock comes back to the ground; and no move leaves a rock where it was
/// but a fall.
pub proof fn lemma_lifecycle_rules(from: Rock, to: Rock)
    ensures
        lifecycle(from, Rock::Held) == (from == Rock::Ground || from == Rock::Built),
        !lifecycle(from, Rock::Seating),
        !lifecycle(from, Rock::Setting),
        lifecycle(from, Rock::InBed) == (from == Rock::Seating),
        lifecycle(from, Rock::Built) == (from == Rock::Setting),
        lifecycle(from, Rock::Feeding) == (from == Rock::Falling),
        lifecycle(from, Rock::Milled) == (from == Rock::Feeding),
        lifecycle(from, Rock::Ground) == (from == Rock::Falling || from == Rock::Milled),
        lifecycle(from, Rock::Falling) == (from == Rock::Held || from == Rock::InBed || from == Rock::Falling),
        lifecycle(from, to) && from == to ==> from == Rock::Falling,
        from == Rock::InBed && lifecycle(from, to) ==> !in_bed(to),
{
}

proof fn lemma_bed_count_update(state: Seq<Rock>, i: int, r: Rock, k: int)
    requires
        0 <= i < state.len(),
        0 <= k <= state.len(),
    ensures
        bed_count(state.update(i, r), k) == bed_count(state, k) + if i < k {
            (if in_bed(r) { 1int } else { 0int }) - (if in_bed(state[i]) { 1int } else { 0int })
        } else {
            0int
        },
    decreases k,
{
    if k > 0 {
        lemma_bed_count_update(state, i, r, k - 1);
    }
}

proof fn lemma_bed_count_empty(state: Seq<Rock>, k: int)
    requires
        0 <= k <= state.len(),
        forall|j: int| 0 <= j < k ==> !in_bed(#[trigger] state[j]),
    ensures
        bed_count(state, k) == 0,
    decreases k,
{
    if k > 0 {
        lemma_bed_count_empty(state, k - 1);
    }
}

/// The bed slots the first `k` rocks in the bed hold.
spec fn bed_slots_held(state: Seq<Rock>, slot: Seq<usize>, k: int) -> Set<int>
    decreases k,
{
    if k <= 0 {
        Set::empty()
    } else if in_bed(state[k - 1]) {
        bed_slots_held(state, slot, k - 1).insert(slot[k - 1] as int)
    } else {
        bed_slots_held(state, slot, k - 1)
    }
}

proof fn lemma_bed_slots_held(state: Seq<Rock>, slot: Seq<usize>, k: int)
    requires
        state.len() == ROCKS,
        slot.len() == ROCKS,
        0 <= k <= ROCKS,
        bed_slots_apart(state, slot),
        forall|i: int| 0 <= i < ROCKS && in_bed(#[trigger] state[i]) ==> slot[i] < BED_SLOTS,
    ensures
        bed_slots_held(state, slot, k).finite(),
        bed_slots_held(state, slot, k).len() == bed_count(state, k),
        bed_slots_held(state, slot, k).subset_of(vstd::set_lib::set_int_range(0, BED_SLOTS as int)),
        forall|x: int|
            #[trigger] bed_slots_held(state, slot, k).contains(x) ==> exists|j: int|
                0 <= j < k && in_bed(#[trigger] state[j]) && slot[j] == x,
    decreases k,
{
    if k > 0 {
        lemma_bed_slots_held(state, slot, k - 1);
        let prev = bed_slots_held(state, slot, k - 1);
        if in_bed(state[k - 1]) {
            let x = slot[k - 1] as int;
            if prev.contains(x) {
                let j = choose|j: int| 0 <= j < k - 1 && in_bed(#[trigger] state[j]) && slot[j] == x;
                assert(in_bed(state[j]) && in_bed(state[k - 1]));
            }
            assert(!prev.contains(x));
        }
    }
}

/// What became of a falling rock that has come down.
#[derive(Clone, Copy, PartialEq, Eq, Structural, Debug)]
pub enum Landing {
    /// beside crusher `m`: it goes in
    Fed(usize),
    /// on the building site with slot `s` free: it goes to the wall
    Walled(usize),
    /// too hard to stop: it bounces and is still falling
    Bounced,
    /// it comes to rest on the ground
    Rested,
}

/// The twelve rocks as the game keeps account of them: what each one is
/// doing, the bed slot and the wall slot it holds, and the number on screen.
pub struct Ledger {
    state: [Rock; ROCKS],
    slot: [usize; ROCKS],
    wall_slot: [usize; ROCKS],
    count: u32,
}

impl Ledger {
    pub closed spec fn rocks(self) -> Seq<Rock> {
        self.state@
    }

    pub closed spec fn bed(self) -> Seq<usize> {
        self.slot@
    }

    pub closed spec fn wall(self) -> Seq<usize> {
        self.wall_slot@
    }

    pub closed spec fn shown(self) -> int {
        self.count as int
    }

    /// What holds of the rocks at every moment: the number on screen is the
    /// number of rocks in the bed or on their way into it, no two of those
    /// share a bed slot, no two stones share a wall slot, and every slot
    /// held is one the truck and the wall have.
    pub open spec fn wf(self) -> bool {
        &&& self.rocks().len() == ROCKS
        &&& self.bed().len() == ROCKS
        &&& self.wall().len() == ROCKS
        &&& self.shown() == bed_count(self.rocks(), ROCKS as int)
        &&& bed_slots_apart(self.rocks(), self.bed())
        &&& wall_slots_apart(self.rocks(), self.wall())
        &&& forall|i: int| 0 <= i < ROCKS && in_bed(#[trigger] self.rocks()[i]) ==> self.bed()[i] < BED_SLOTS
        &&& forall|i: int| 0 <= i < ROCKS && in_wall(#[trigger] self.rocks()[i]) ==> self.wall()[i] < SLOTS
    }

    /// Twelve rocks on the ground, nothing in the bed or the wall.
    pub fn new() -> (l: Ledger)
        ensures
            l.wf(),
            l.shown() == 0,
            forall|i: int|
                0 <= i < ROCKS ==> #[trigger] l.rocks()[i] == Rock::Ground && l.bed()[i] == 0 && l.wall()[i]
                    == 0,
    {
        let l = Ledger { state: [Rock::Ground; ROCKS], slot: [0; ROCKS], wall_slot: [0; ROCKS], count: 0 };
        proof {
            lemma_bed_count_empty(l.state@, ROCKS as int);
        }
        l
    }

    /// A fresh deal: every rock back on the ground and out of the bed, and
    /// the number back to nought. The wall slots are left as they were; no
    /// stone is in the wall to hold one.
    pub fn clear(&mut self)
        requires
            old(self).wf(),
        ensures
            final(self).wf(),
            final(self).shown() == 0,
            final(self).wall() == old(self).wall(),
            forall|i: int| 0 <= i < ROCKS ==> #[trigger] final(self).rocks()[i] == Rock::Ground && final(self).bed()[i] == 0,
    {
        self.state = [Rock::Ground; ROCKS];
        self.slot = [0; ROCKS];
        self.count = 0;
        proof {
            lemma_bed_count_empty(self.state@, ROCKS as int);
        }
    }

    pub fn states(&self) -> (r: &[Rock; ROCKS])
        ensures
            r@ == self.rocks(),
    {
        &self.state
    }

    pub fn slots(&self) -> (r: &[usize; ROCKS])
        ensures
            r@ == self.bed(),
    {
        &self.slot
    }

    pub fn wall_slots(&self) -> (r: &[usize; ROCKS])
        ensures
            r@ == self.wall(),
    {
        &self.wall_slot
    }

    /// The number on screen.
    pub fn count(&self) -> (n: u32)
        ensures
            n == self.shown(),
    {
        self.count
    }

    /// Let go of rock `i`, held in the hand, over the bed: with the bed down
    /// and a slot free it takes the lowest free slot, starts on its way in,
    /// and the number counts up. The slot is returned. Otherwise nothing
    /// changes.
    pub fn seat(&mut self, i: usize, over_bed: bool, phase: Tip) -> (r: Option<usize>)
        requires
            old(self).wf(),
            i < ROCKS,
        ensures
            final(self).wf(),
            r is Some <==> old(self).rocks()[i as int] == Rock::Held && over_bed && phase == Tip::Idle && exists|
                t: int,
            | 0 <= t < BED_SLOTS && !#[trigger] bed_slot_used(old(self).rocks(), old(self).bed(), t),
            r matches Some(s) ==> {
                &&& !bed_slot_used(old(self).rocks(), old(self).bed(), s as int)
                &&& forall|t: int| 0 <= t < s ==> #[trigger] bed_slot_used(old(self).rocks(), old(self).bed(), t)
                &&& final(self).rocks() == old(self).rocks().update(i as int, Rock::Seating)
                &&& final(self).bed() == old(self).bed().update(i as int, s)
                &&& final(self).wall() == old(self).wall()
                &&& final(self).shown() == old(self).shown() + 1
            },
            r is None ==> *final(self) == *old(self),
    {
        if !(matches!(self.state[i], Rock::Held) && over_bed && matches!(phase, Tip::Idle)) {
            return None;
        }
        match free_slot(&self.state, &self.slot) {
            Some(s) => {
                proof {
                    lemma_seat_keeps_slots_apart(self.state@, self.slot@, i as int, s as int);
                    lemma_bed_count_update(self.state@, i as int, Rock::Seating, ROCKS as int);
                    lemma_count_bounds(self.state@, ROCKS as int);
                }
                let ghost pre = *self;
                self.state[i] = Rock::Seating;
                self.slot[i] = s;
                self.count = self.count + 1;
                proof {
                    assert(wall_slots_apart(self.state@, self.wall_slot@)) by {
                        assert forall|a: int, b: int|
                            0 <= a < b < ROCKS && in_wall(#[trigger] self.state@[a]) && in_wall(
                                #[trigger] self.state@[b],
                            ) implies self.wall_slot@[a] != self.wall_slot@[b] by {
                            assert(in_wall(pre.state@[a]) && in_wall(pre.state@[b]));
                        }
                    }
                    assert forall|j: int| 0 <= j < ROCKS && in_wall(#[trigger] self.state@[j]) implies self.wall_slot@[j]
                        < SLOTS by {
                        assert(in_wall(pre.state@[j]));
                    }
                    assert forall|j: int| 0 <= j < ROCKS && in_bed(#[trigger] self.state@[j]) implies self.slot@[j]
                        < BED_SLOTS by {
                        if j != i {
                            assert(in_bed(pre.state@[j]));
                        }
                    }
                }
                Some(s)
            },
            None => None,
        }
    }

    /// Send rock `i`, in the hand or falling, to wall slot `s`, when that is
    /// a slot of the wall and no stone holds it or is on its way to it.
    /// Returns whether it went; otherwise nothing changes.
    pub fn set_in_wall(&mut self, i: usize, s: usize) -> (b: bool)
        requires
            old(self).wf(),
            i < ROCKS,
        ensures
            final(self).wf(),
            b <==> (old(self).rocks()[i as int] == Rock::Held || old(self).rocks()[i as int] == Rock::Falling) && s
                < SLOTS && !wall_slot_used(old(self).rocks(), old(self).wall(), s as int),
            b ==> final(self).rocks() == old(self).rocks().update(i as int, Rock::Setting) && final(self).wall()
                == old(self).wall().update(i as int, s) && final(self).bed() == old(self).bed()
                && final(self).shown() == old(self).shown(),
            !b ==> *final(self) == *old(self),
    {
        if !(matches!(self.state[i], Rock::Held | Rock::Falling) && s < SLOTS) {
            return false;
        }
        if slot_taken(&self.state, &self.wall_slot, s) {
            return false;
        }
        let ghost pre = *self;
        proof {
            lemma_bed_count_update(self.state@, i as int, Rock::Setting, ROCKS as int);
        }
        self.state[i] = Rock::Setting;
        self.wall_slot[i] = s;
        proof {
            assert forall|a: int, b: int|
                0 <= a < b < ROCKS && in_wall(#[trigger] self.state@[a]) && in_wall(#[trigger] self.state@[b]) implies self.wall_slot@[a]
                != self.wall_slot@[b] by {
                if a == i {
                    assert(in_wall(pre.state@[b]));
                    if pre.wall_slot@[b] == s {
                        assert(wall_slot_used(pre.state@, pre.wall_slot@, s as int));
                    }
                } else if b == i {
                    assert(in_wall(pre.state@[a]));
                    if pre.wall_slot@[a] == s {
                        assert(wall_slot_used(pre.state@, pre.wall_slot@, s as int));
                    }
                } else {
                    assert(in_wall(pre.state@[a]) && in_wall(pre.state@[b]));
                }
            }
            assert forall|a: int, b: int|
                0 <= a < b < ROCKS && in_bed(#[trigger] self.state@[a]) && in_bed(#[trigger] self.state@[b]) implies self.slot@[a]
                != self.slot@[b] by {
                assert(in_bed(pre.state@[a]) && in_bed(pre.state@[b]));
            }
            assert forall|j: int| 0 <= j < ROCKS && in_wall(#[trigger] self.state@[j]) implies self.wall_slot@[j] < SLOTS by {
                if j != i {
                    assert(in_wall(pre.state@[j]));
                }
            }
            assert forall|j: int| 0 <= j < ROCKS && in_bed(#[trigger] self.state@[j]) implies self.slot@[j] < BED_SLOTS by {
                assert(in_bed(pre.state@[j]));
            }
        }
        true
    }

    /// Move rock `i` on to `to`, if that is one of the moves in its life
    /// that takes no slot; tipped out of the bed, the number counts down.
    /// Returns whether it moved; otherwise nothing changes.
    pub fn shift(&mut self, i: usize, to: Rock) -> (b: bool)
        requires
            old(self).wf(),
            i < ROCKS,
        ensures
            final(self).wf(),
            b == lifecycle(old(self).rocks()[i as int], to),
            b ==> final(self).rocks() == old(self).rocks().update(i as int, to) && final(self).bed() == old(self).bed()
                && final(self).wall() == old(self).wall() && final(self).shown() == old(self).shown() - if old(
                self,
            ).rocks()[i as int] == Rock::InBed {
                1int
            } else {
                0int
            },
            !b ==> *final(self) == *old(self),
    {
        let from = self.state[i];
        let ok = match from {
            Rock::Ground => matches!(to, Rock::Held),
            Rock::Built => matches!(to, Rock::Held),
            Rock::Held => matches!(to, Rock::Falling),
            Rock::Seating => matches!(to, Rock::InBed),
            Rock::InBed => matches!(to, Rock::Falling),
            Rock::Falling => matches!(to, Rock::Falling | Rock::Feeding | Rock::Ground),
            Rock::Feeding => matches!(to, Rock::Milled),
            Rock::Milled => matches!(to, Rock::Ground),
            Rock::Setting => matches!(to, Rock::Built),
        };
        if !ok {
            return false;
        }
        let ghost pre = *self;
        proof {
            lemma_bed_count_update(self.state@, i as int, to, ROCKS as int);
            lemma_count_bounds(self.state@.update(i as int, to), ROCKS as int);
        }
        self.state[i] = to;
        if matches!(from, Rock::InBed) {
            self.count = self.count - 1;
        }
        proof {
            assert forall|a: int, b: int|
                0 <= a < b < ROCKS && in_wall(#[trigger] self.state@[a]) && in_wall(#[trigger] self.state@[b]) implies self.wall_slot@[a]
                != self.wall_slot@[b] by {
                assert(in_wall(pre.state@[a]) && in_wall(pre.state@[b]));
            }
            assert forall|a: int, b: int|
                0 <= a < b < ROCKS && in_bed(#[trigger] self.state@[a]) && in_bed(#[trigger] self.state@[b]) implies self.slot@[a]
                != self.slot@[b] by {
                assert(in_bed(pre.state@[a]) && in_bed(pre.state@[b]));
            }
            assert forall|j: int| 0 <= j < ROCKS && in_wall(#[trigger] self.state@[j]) implies self.wall_slot@[j] < SLOTS by {
                assert(in_wall(pre.state@[j]));
            }
            assert forall|j: int| 0 <= j < ROCKS && in_bed(#[trigger] self.state@[j]) implies self.slot@[j] < BED_SLOTS by {
                assert(in_bed(pre.state@[j]));
            }
        }
        true
    }

    /// Rock `i` has come down. The physics has measured where: beside
    /// crusher `hopper`, over the wall's free slot `wall`, and whether it
    /// came down `hard`. Beside a crusher it goes in; failing that, on the
    /// building site it goes to the wall; failing that, a hard landing
    /// bounces; otherwise it comes to rest. A rock that is not falling is
    /// left alone and `None` comes back.
    pub fn land(&mut self, i: usize, hopper: Option<usize>, wall: Option<usize>, hard: bool) -> (r: Option<Landing>)
        requires
            old(self).wf(),
            i < ROCKS,
        ensures
            final(self).wf(),
            old(self).rocks()[i as int] != Rock::Falling ==> r is None && *final(self) == *old(self),
            old(self).rocks()[i as int] == Rock::Falling ==> match hopper {
                Some(m) => r == Some(Landing::Fed(m)) && final(self).rocks() == old(self).rocks().update(
                    i as int,
                    Rock::Feeding,
                ) && final(self).bed() == old(self).bed() && final(self).wall() == old(self).wall(),
                None => if wall is Some && wall.unwrap() < SLOTS && !wall_slot_used(
                    old(self).rocks(),
                    old(self).wall(),
                    wall.unwrap() as int,
                ) {
                    r == Some(Landing::Walled(wall.unwrap())) && final(self).rocks() == old(self).rocks().update(
                        i as int,
                        Rock::Setting,
                    ) && final(self).wall() == old(self).wall().update(i as int, wall.unwrap()) && final(self).bed()
                        == old(self).bed()
                } else if hard {
                    r == Some(Landing::Bounced) && *final(self) == *old(self)
                } else {
                    r == Some(Landing::Rested) && final(self).rocks() == old(self).rocks().update(
                        i as int,
                        Rock::Ground,
                    ) && final(self).bed() == old(self).bed() && final(self).wall() == old(self).wall()
                },
            },
            final(self).shown() == old(self).shown(),
    {
        if !matches!(self.state[i], Rock::Falling) {
            return None;
        }
        if let Some(m) = hopper {
            self.shift(i, Rock::Feeding);
            return Some(Landing::Fed(m));
        }
        if let Some(s) = wall {
            if self.set_in_wall(i, s) {
                return Some(Landing::Walled(s));
            }
        }
        if hard {
            return Some(Landing::Bounced);
        }
        self.shift(i, Rock::Ground);
        Some(Landing::Rested)
    }
}

/// How many gems a crusher shows on its chute: one mark for each, up to
/// six.
pub fn gems_shown(gems: u32) -> (n: u32)
    ensures
        n == if gems < 6 { gems } else { 6 },
{
    if gems < 6 {
        gems
    } else {
        6
    }
}

/// However it got there, the bed never holds more rocks than it has slots,
/// so the number on screen never shows more than six.
pub proof fn lemma_bed_holds_six(l: Ledger)
    requires
        l.wf(),
    ensures
        bed_count(l.rocks(), ROCKS as int) <= BED_SLOTS,
        l.shown() <= BED_SLOTS,
{
    lemma_bed_slots_held(l.rocks(), l.bed(), ROCKS as int);
    vstd::set_lib::lemma_int_range(0, BED_SLOTS as int);
    vstd::set_lib::lemma_len_subset(
        bed_slots_held(l.rocks(), l.bed(), ROCKS as int),
        vstd::set_lib::set_int_range(0, BED_SLOTS as int),
    );
}

} // verus!
