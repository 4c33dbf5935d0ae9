//! Lattice noise: the hash that every pattern in the landscape starts from.

use vstd::prelude::*;

verus! {

/// The odd multipliers of the mixer's two rounds.
pub const FIRST_ROUND: u32 = 0x7feb_352d;

pub const SECOND_ROUND: u32 = 0x846c_a68b;

/// The odd multipliers that spread the seed and the two coordinates.
pub const SEED_SPREAD: u32 = 0x9e37_79b1;

pub const X_SPREAD: u32 = 0x3504_f333;

pub const Y_SPREAD: u32 = 0xf1bb_cdcb;

/// What spreads the octaves of Brownian noise apart.
pub const BROWNIAN_SPREAD: u32 = 0x51ed_270b;

/// What spreads the octaves of ridged noise apart.
pub const RIDGED_SPREAD: u32 = 0x68e3_1da4;

/// What spreads the octaves of billowed noise apart.
pub const BILLOWED_SPREAD: u32 = 0x1b56_c4e9;

/// How many directions a lattice gradient can point.
pub const GRADIENT_COUNT: usize = 16;

/// One more than the largest word.
pub const WORDS: u64 = 0x1_0000_0000;

/// `left * right`, keeping the low 32 bits.
pub open spec fn times(left: u32, right: u32) -> u32 {
    ((left * right) % (WORDS as int)) as u32
}

/// A word with its high bits folded onto its low ones.
pub open spec fn folded(word: u32, shift: u32) -> u32 {
    word ^ (word >> shift)
}

/// A word after both rounds of the mixer.
pub open spec fn mixed(word: u32) -> u32 {
    folded(times(folded(times(folded(word, 16), FIRST_ROUND), 15), SECOND_ROUND), 16)
}

/// A coordinate as the word with the same bits.
pub open spec fn coordinate_word(coordinate: i32) -> u32 {
    coordinate as u32
}

/// What the hash holds once the seed and the first coordinate are in.
pub open spec fn column_word(x: i32, seed: u32) -> u32 {
    mixed(times(seed, SEED_SPREAD) ^ times(coordinate_word(x), X_SPREAD))
}

/// The word a lattice point draws for a seed.
pub open spec fn lattice_word(x: i32, y: i32, seed: u32) -> u32 {
    mixed(column_word(x, seed) ^ times(coordinate_word(y), Y_SPREAD))
}

/// A bit mixer with no fixed points worth worrying about.
pub fn mix(bits: u32) -> (word: u32)
    ensures
        word == mixed(bits),
{
    let mut bits: u32 = bits;
    bits = bits ^ (bits >> 16);
    bits = bits.wrapping_mul(FIRST_ROUND);
    bits = bits ^ (bits >> 15);
    bits = bits.wrapping_mul(SECOND_ROUND);
    bits = bits ^ (bits >> 16);
    bits
}

/// A repeatable random word for a lattice point of a given seed.
///
/// The two coordinates are folded in one at a time, each through its own
/// mixer, so that no diagonal of the lattice collides with itself.
pub fn hash(x: i32, y: i32, seed: u32) -> (word: u32)
    ensures
        word == lattice_word(x, y, seed),
{
    let mut bits: u32 = seed.wrapping_mul(SEED_SPREAD);
    bits = mix(bits ^ (#[verifier::truncate] (x as u32)).wrapping_mul(X_SPREAD));
    bits = mix(bits ^ (#[verifier::truncate] (y as u32)).wrapping_mul(Y_SPREAD));
    bits
}

/// The seed of one octave of a fractal.
pub fn octave_seed(seed: u32, octave: u32, spread: u32) -> (word: u32)
    ensures
        word == seed ^ times(octave, spread),
{
    seed ^ octave.wrapping_mul(spread)
}

/// The top twenty-four bits of a lattice point's word, which is as much of a
/// fraction as a 32-bit float can hold.
pub fn hash_fraction(x: i32, y: i32, seed: u32) -> (fraction: u32)
    ensures
        fraction == lattice_word(x, y, seed) as int / 256,
        fraction < 0x0100_0000,
{
    let word: u32 = hash(x, y, seed);
    assert(word >> 8 == word / 256 && word >> 8 < 0x0100_0000) by (bit_vector);
    word >> 8
}

/// Which of the gradient directions a lattice point draws.
pub fn gradient_index(x: i32, y: i32, seed: u32) -> (index: usize)
    ensures
        index == lattice_word(x, y, seed) as int % GRADIENT_COUNT as int,
        index < GRADIENT_COUNT,
{
    (hash(x, y, seed) as usize) % GRADIENT_COUNT
}

proof fn lemma_fold_is_injective(a: u32, b: u32)
    ensures
        folded(a, 16) == folded(b, 16) ==> a == b,
        folded(a, 15) == folded(b, 15) ==> a == b,
{
    assert(a ^ (a >> 16) == b ^ (b >> 16) ==> a == b) by (bit_vector);
    assert(a ^ (a >> 15) == b ^ (b >> 15) ==> a == b) by (bit_vector);
}

/// Multiplying by an odd word loses nothing: each multiplier has an inverse.
proof fn lemma_spread_is_injective(a: u32, b: u32)
    ensures
        times(a, FIRST_ROUND) == times(b, FIRST_ROUND) ==> a == b,
        times(a, SECOND_ROUND) == times(b, SECOND_ROUND) ==> a == b,
        times(a, SEED_SPREAD) == times(b, SEED_SPREAD) ==> a == b,
        times(a, X_SPREAD) == times(b, X_SPREAD) ==> a == b,
        times(a, Y_SPREAD) == times(b, Y_SPREAD) ==> a == b,
{
    let (p, q) = (a as int, b as int);
    if times(a, FIRST_ROUND) == times(b, FIRST_ROUND) {
        lemma_odd_factor_is_injective(p, q, FIRST_ROUND as int, 0x1d69_e2a5, 246582719);
    }
    if times(a, SECOND_ROUND) == times(b, SECOND_ROUND) {
        lemma_odd_factor_is_injective(p, q, SECOND_ROUND as int, 0x4302_1123, 581534029);
    }
    if times(a, SEED_SPREAD) == times(b, SEED_SPREAD) {
        lemma_odd_factor_is_injective(p, q, SEED_SPREAD as int, 0x0e8b_2f51, 150801925);
    }
    if times(a, X_SPREAD) == times(b, X_SPREAD) {
        lemma_odd_factor_is_injective(p, q, X_SPREAD as int, 0x0284_3ffb, 8744372);
    }
    if times(a, Y_SPREAD) == times(b, Y_SPREAD) {
        lemma_odd_factor_is_injective(p, q, Y_SPREAD as int, 0x4908_efe3, 1157037586);
    }
}

proof fn lemma_odd_factor_is_injective(a: int, b: int, factor: int, inverse: int, carry: int)
    requires
        factor * inverse == 1 + carry * 0x1_0000_0000,
        0 <= a < 0x1_0000_0000,
        0 <= b < 0x1_0000_0000,
        (a * factor) % 0x1_0000_0000 == (b * factor) % 0x1_0000_0000,
    ensures
        a == b,
{
    let p: int = 0x1_0000_0000;
    let d = a - b;
    let q = (a * factor) / p - (b * factor) / p;
    assert(d * factor == q * p) by (nonlinear_arith)
        requires
            d == a - b,
            p == 0x1_0000_0000,
            q == (a * factor) / p - (b * factor) / p,
            (a * factor) % p == (b * factor) % p,
    ;
    assert(d == (q * inverse - d * carry) * p) by (nonlinear_arith)
        requires
            d * factor == q * p,
            factor * inverse == 1 + carry * p,
    {
        assert(d * (factor * inverse) == (q * p) * inverse);
        assert(d * (1 + carry * p) == d + d * carry * p);
    }
    let k = q * inverse - d * carry;
    assert(d == k * 0x1_0000_0000);
}

proof fn lemma_words_of_coordinates(a: i32, b: i32)
    ensures
        coordinate_word(a) == coordinate_word(b) ==> a == b,
{
    assert(a as u32 == b as u32 ==> a == b) by (bit_vector);
}

proof fn lemma_xor_is_injective(a: u32, b: u32, with: u32)
    ensures
        a ^ with == b ^ with ==> a == b,
        with ^ a == with ^ b ==> a == b,
{
    assert(a ^ with == b ^ with ==> a == b) by (bit_vector);
    assert(with ^ a == with ^ b ==> a == b) by (bit_vector);
}

/// The mixer loses nothing: no two words mix to the same word.
pub proof fn the_mixer_keeps_words_apart(a: u32, b: u32)
    ensures
        mixed(a) == mixed(b) <==> a == b,
{
    let (a1, b1) = (folded(a, 16), folded(b, 16));
    let (a2, b2) = (times(a1, FIRST_ROUND), times(b1, FIRST_ROUND));
    let (a3, b3) = (folded(a2, 15), folded(b2, 15));
    let (a4, b4) = (times(a3, SECOND_ROUND), times(b3, SECOND_ROUND));
    lemma_fold_is_injective(a, b);
    lemma_fold_is_injective(a2, b2);
    lemma_fold_is_injective(a4, b4);
    lemma_spread_is_injective(a1, b1);
    lemma_spread_is_injective(a3, b3);
}

/// Along a row of the lattice no two points draw the same word.
pub proof fn words_along_a_row_are_distinct(a: i32, b: i32, y: i32, seed: u32)
    ensures
        lattice_word(a, y, seed) == lattice_word(b, y, seed) <==> a == b,
{
    let row = times(coordinate_word(y), Y_SPREAD);
    let spread = times(seed, SEED_SPREAD);
    let (wa, wb) = (times(coordinate_word(a), X_SPREAD), times(coordinate_word(b), X_SPREAD));
    the_mixer_keeps_words_apart(column_word(a, seed) ^ row, column_word(b, seed) ^ row);
    lemma_xor_is_injective(column_word(a, seed), column_word(b, seed), row);
    the_mixer_keeps_words_apart(spread ^ wa, spread ^ wb);
    lemma_xor_is_injective(wa, wb, spread);
    lemma_spread_is_injective(coordinate_word(a), coordinate_word(b));
    lemma_words_of_coordinates(a, b);
}

/// Down a column of the lattice no two points draw the same word.
pub proof fn words_down_a_column_are_distinct(x: i32, a: i32, b: i32, seed: u32)
    ensures
        lattice_word(x, a, seed) == lattice_word(x, b, seed) <==> a == b,
{
    let column = column_word(x, seed);
    let (wa, wb) = (times(coordinate_word(a), Y_SPREAD), times(coordinate_word(b), Y_SPREAD));
    the_mixer_keeps_words_apart(column ^ wa, column ^ wb);
    lemma_xor_is_injective(wa, wb, column);
    lemma_spread_is_injective(coordinate_word(a), coordinate_word(b));
    lemma_words_of_coordinates(a, b);
}

/// No two seeds draw the same word at a lattice point.
pub proof fn words_of_two_seeds_are_distinct(x: i32, y: i32, a: u32, b: u32)
    ensures
        lattice_word(x, y, a) == lattice_word(x, y, b) <==> a == b,
{
    let row = times(coordinate_word(y), Y_SPREAD);
    let column = times(coordinate_word(x), X_SPREAD);
    let (wa, wb) = (times(a, SEED_SPREAD), times(b, SEED_SPREAD));
    the_mixer_keeps_words_apart(column_word(x, a) ^ row, column_word(x, b) ^ row);
    lemma_xor_is_injective(column_word(x, a), column_word(x, b), row);
    the_mixer_keeps_words_apart(wa ^ column, wb ^ column);
    lemma_xor_is_injective(wa, wb, column);
    lemma_spread_is_injective(a, b);
}

/// A word's number, of those with 32 bits.
pub open spec fn word_of(number: int) -> u32 {
    (number % 0x1_0000_0000) as u32
}

/// The mixer folds the top half of a word onto the rest, multiplies, folds all
/// but the low fifteen bits onto the rest, multiplies again and folds as at
/// first.
pub proof fn the_mixer_folds_and_multiplies_twice(word: u32, a: u32, b: u32, c: u32, d: u32)
    requires
        a == word ^ (word >> 16),
        b == word_of(a * 0x7feb_352d),
        c == b ^ (b >> 15),
        d == word_of(c * 0x846c_a68b),
    ensures
        mixed(word) == d ^ (d >> 16),
{
}

/// The word of a lattice point is the seed, multiplied out, with each coordinate
/// multiplied out and mixed in, the first before the second; a coordinate below
/// nought counts down from the end of the words.
pub proof fn a_word_is_mixed_from_a_seed_and_two_coordinates(x: i32, y: i32, seed: u32)
    ensures
        lattice_word(x, y, seed) == mixed(
            mixed(
                word_of(seed * 0x9e37_79b1) ^ word_of(word_of(x as int) * 0x3504_f333),
            ) ^ word_of(word_of(y as int) * 0xf1bb_cdcb),
        ),
{
    lemma_coordinate_word(x);
    lemma_coordinate_word(y);
}

proof fn lemma_coordinate_word(coordinate: i32)
    ensures
        coordinate_word(coordinate) == word_of(coordinate as int),
{
    assert(coordinate >= 0 ==> (coordinate as u32) == coordinate) by (bit_vector);
    assert(coordinate < 0 ==> (coordinate as u32) == coordinate + 0x1_0000_0000i64) by (bit_vector);
    if coordinate >= 0 {
        vstd::arithmetic::div_mod::lemma_small_mod(coordinate as nat, 0x1_0000_0000);
    } else {
        vstd::arithmetic::div_mod::lemma_fundamental_div_mod_converse(
            coordinate as int,
            0x1_0000_0000,
            -1,
            coordinate + 0x1_0000_0000,
        );
    }
}

} // verus!
