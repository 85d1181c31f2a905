//! The integer side of a sand cell: its pseudo-random generator, the age at
//! which it may die, and the neighbouring positions it looks at.
use crate::qtree::QuadTree;
use vstd::prelude::*;

verus! {

/// One step of the cell's linear congruential generator, modulo 2^64.
#[verifier::opaque]
pub open spec fn next_seed(seed: u64) -> u64 {
    ((214013 * seed + 2531011) % 0x1_0000_0000_0000_0000) as u64
}

/// The value `random` hands out for a generator whose new state is `state`.
pub open spec fn drawn(state: u64, max: u64) -> u64 {
    (state >> 16u64) & max
}

/// Advances the generator and returns bits 16 and up of its new state,
/// masked by `max`.
pub fn random(seed: &mut u64, max: u64) -> (r: u64)
    ensures
        *final(seed) == next_seed(*old(seed)),
        r == drawn(*final(seed), max),
{
    let s = *seed;
    let m = s.wrapping_mul(214013);
    let n = m.wrapping_add(2531011);
    proof {
        law_next_seed_wraps(s);
    }
    *seed = n;
    (n >> 16) & max
}

/// A step of the generator is the machine's wrapping multiply by 214013
/// followed by its wrapping add of 2531011.
pub proof fn law_next_seed_wraps(s: u64)
    ensures
        next_seed(s) == vstd::wrapping::u64_specs::wrapping_add(
            vstd::wrapping::u64_specs::wrapping_mul(s, 214013),
            2531011,
        ),
{
    reveal(next_seed);
    let big: int = 0x1_0000_0000_0000_0000;
    let m = vstd::wrapping::u64_specs::wrapping_mul(s, 214013);
    assert(m == (s * 214013) % big);
    vstd::arithmetic::div_mod::lemma_add_mod_noop(s * 214013, 2531011, big);
    vstd::arithmetic::div_mod::lemma_small_mod(2531011nat, big as nat);
    if m + 2531011 > u64::MAX {
        vstd::arithmetic::div_mod::lemma_mod_sub_multiples_vanish(m + 2531011, big);
        vstd::arithmetic::div_mod::lemma_small_mod((m + 2531011 - big) as nat, big as nat);
    } else {
        vstd::arithmetic::div_mod::lemma_small_mod((m + 2531011) as nat, big as nat);
    }
}

/// The age a new cell starts at: six bits of its seed.
pub fn initial_duration(seed: u64) -> (d: usize)
    ensures
        d == (seed >> 16u64) & 0x3f,
        d < 64,
{
    let bits = (seed >> 16) & 0x3f;
    assert(bits < 64) by (bit_vector)
        requires
            bits == (seed >> 16u64) & 0x3f,
    ;
    bits as usize
}

/// A cell dies of age once it is older than its element allows and the low
/// byte of its seed is above 192; a cell of an element without an age limit
/// never does.
pub fn expired(duration: usize, max_duration: Option<usize>, seed: u64) -> (r: bool)
    ensures
        r == match max_duration {
            Some(max) => duration > max && seed & 0xff > 192,
            None => false,
        },
{
    match max_duration {
        Some(max) => duration > max && seed & 0xff > 192,
        None => false,
    }
}

/// Bit 1 of `state >> 16`: 0 or 2.
proof fn lemma_drawn_two(state: u64)
    ensures
        drawn(state, 2) == 0 || drawn(state, 2) == 2,
{
    assert((state >> 16u64) & 2 == 0 || (state >> 16u64) & 2 == 2) by (bit_vector);
}

/// Bit 2 of `state >> 16`: 0 or 4.
proof fn lemma_drawn_four(state: u64)
    ensures
        drawn(state, 4) == 0 || drawn(state, 4) == 4,
{
    assert((state >> 16u64) & 4 == 0 || (state >> 16u64) & 4 == 4) by (bit_vector);
}

/// The neighbour a resting cell looks at: one step left or right and one step
/// up or down, chosen by the next two draws of its generator.
pub open spec fn probe(seed: u64, x_r: int, y_r: int) -> (int, int) {
    let s1 = next_seed(seed);
    let s2 = next_seed(s1);
    (x_r + drawn(s1, 2) - 1, y_r + drawn(s2, 2) - 1)
}

/// Looks up, in the tree of cell indices, the cell at the neighbour given by
/// `probe`, and returns it beside the cell's own index. The sums on the way
/// to the neighbour must stay within `usize`.
pub fn check_random(seed: &mut u64, x_r: usize, y_r: usize, index: usize, tree: &QuadTree<usize>) -> (r: (
    usize,
    Option<usize>,
))
    requires
        tree.wf(),
        0 <= probe(*old(seed), x_r as int, y_r as int).0,
        0 <= probe(*old(seed), x_r as int, y_r as int).1,
        probe(*old(seed), x_r as int, y_r as int).0 + 1 <= usize::MAX,
        probe(*old(seed), x_r as int, y_r as int).1 + 1 <= usize::MAX,
    ensures
        *final(seed) == next_seed(next_seed(*old(seed))),
        r == (index, tree.lookup(
            probe(*old(seed), x_r as int, y_r as int).0,
            probe(*old(seed), x_r as int, y_r as int).1,
        )),
        r.1 == tree.lookup(
            if (next_seed(*old(seed)) >> 16u64) & 2 == 2 { x_r + 1 } else { x_r - 1 },
            if (next_seed(next_seed(*old(seed))) >> 16u64) & 2 == 2 { y_r + 1 } else { y_r - 1 },
        ),
{
    proof {
        law_probe_is_diagonal(*seed, x_r as int, y_r as int);
    }
    proof {
        lemma_drawn_two(next_seed(*seed));
        lemma_drawn_two(next_seed(next_seed(*seed)));
    }
    let dx = random(seed, 2);
    let check_x = x_r + dx as usize - 1;
    let dy = random(seed, 2);
    let check_y = y_r + dy as usize - 1;
    (index, tree.get(check_x, check_y))
}

/// Where a cell puts the cell it emits: two columns left or right and two
/// rows up or down, chosen by the next two draws of its generator.
pub open spec fn emit_spot(seed: u64, x_r: int, y_r: int) -> (int, int) {
    let s1 = next_seed(seed);
    let s2 = next_seed(s1);
    (x_r + drawn(s1, 4) - 2, y_r + drawn(s2, 4) - 2)
}

/// The position of an emitted cell (see `emit_spot`) and the seed it starts
/// with, the generator's third draw. The sums on the way to the position must
/// stay within `usize`.
pub fn emit_position(seed: &mut u64, x_r: usize, y_r: usize) -> (r: (usize, usize, u64))
    requires
        0 <= emit_spot(*old(seed), x_r as int, y_r as int).0,
        0 <= emit_spot(*old(seed), x_r as int, y_r as int).1,
        emit_spot(*old(seed), x_r as int, y_r as int).0 + 2 <= usize::MAX,
        emit_spot(*old(seed), x_r as int, y_r as int).1 + 2 <= usize::MAX,
    ensures
        *final(seed) == next_seed(next_seed(next_seed(*old(seed)))),
        r.0 == emit_spot(*old(seed), x_r as int, y_r as int).0,
        r.1 == emit_spot(*old(seed), x_r as int, y_r as int).1,
        r.2 == drawn(*final(seed), u64::MAX),
        r.0 == if (next_seed(*old(seed)) >> 16u64) & 4 == 4 { x_r + 2 } else { x_r - 2 },
        r.1 == if (next_seed(next_seed(*old(seed))) >> 16u64) & 4 == 4 { y_r + 2 } else { y_r - 2 },
        r.2 == *final(seed) >> 16u64,
{
    proof {
        law_emit_spot_two_away(*seed, x_r as int, y_r as int);
    }
    proof {
        lemma_drawn_four(next_seed(*seed));
        lemma_drawn_four(next_seed(next_seed(*seed)));
    }
    let dx = random(seed, 4);
    let x = x_r + dx as usize - 2;
    let dy = random(seed, 4);
    let y = y_r + dy as usize - 2;
    let child = random(seed, u64::MAX);
    (x, y, child)
}

/// A resting cell looks at a diagonal neighbour: one column right when bit 1
/// of the first draw's state (shifted by 16) is set, else one column left; one
/// row down when that bit of the second draw's state is set, else one row up.
pub proof fn law_probe_is_diagonal(seed: u64, x: int, y: int)
    ensures
        probe(seed, x, y).0 == if (next_seed(seed) >> 16u64) & 2 == 2 {
            x + 1
        } else {
            x - 1
        },
        probe(seed, x, y).1 == if (next_seed(next_seed(seed)) >> 16u64) & 2 == 2 {
            y + 1
        } else {
            y - 1
        },
{
    lemma_drawn_two(next_seed(seed));
    lemma_drawn_two(next_seed(next_seed(seed)));
}

/// A cell emits two columns right when bit 2 of the first draw's state
/// (shifted by 16) is set, else two columns left; two rows down when that bit
/// of the second draw's state is set, else two rows up. The new cell's seed
/// is the third draw's state shifted by 16, unmasked.
pub proof fn law_emit_spot_two_away(seed: u64, x: int, y: int)
    ensures
        emit_spot(seed, x, y).0 == if (next_seed(seed) >> 16u64) & 4 == 4 {
            x + 2
        } else {
            x - 2
        },
        emit_spot(seed, x, y).1 == if (next_seed(next_seed(seed)) >> 16u64) & 4 == 4 {
            y + 2
        } else {
            y - 2
        },
        forall|s: u64| #[trigger] drawn(s, u64::MAX) == s >> 16u64,
{
    lemma_drawn_four(next_seed(seed));
    lemma_drawn_four(next_seed(next_seed(seed)));
    assert forall|s: u64| #[trigger] drawn(s, u64::MAX) == s >> 16u64 by {
        assert((s >> 16u64) & 0xffff_ffff_ffff_ffffu64 == s >> 16u64) by (bit_vector);
    }
}

} // verus!
