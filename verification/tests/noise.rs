use terrain::noise::{gradient_index, hash, hash_fraction, mix, GRADIENT_COUNT};

/// Every one of the sixteen directions should come up about as often.
#[test]
fn the_hash_spreads_gradients_evenly_over_the_lattice() {
    let mut counts = [0u32; GRADIENT_COUNT];
    for x in -64..64 {
        for y in -64..64 {
            counts[(hash(x, y, 4) as usize) % GRADIENT_COUNT] += 1;
        }
    }
    let expected = (128 * 128 / GRADIENT_COUNT) as u32;
    for (direction, count) in counts.iter().enumerate() {
        let drift = count.abs_diff(expected);
        assert!(
            drift * 5 < expected,
            "direction {direction} came up {count} times against {expected} expected"
        );
    }
}

#[test]
fn the_mixer_gives_the_words_it_is_known_by() {
    // Worked by hand from the two rounds.
    fn by_hand(word: u32) -> u32 {
        let mut bits = word;
        bits ^= bits >> 16;
        bits = bits.wrapping_mul(0x7feb_352d);
        bits ^= bits >> 15;
        bits = bits.wrapping_mul(0x846c_a68b);
        bits ^= bits >> 16;
        bits
    }
    assert_eq!(mix(0), 0);
    for word in [1, 2, 0x8000_0000, 0xdead_beef, u32::MAX] {
        assert_eq!(mix(word), by_hand(word));
    }
}

#[test]
fn no_word_of_a_row_or_of_a_column_comes_twice() {
    let mut row = std::collections::HashSet::new();
    let mut column = std::collections::HashSet::new();
    for at in -2000..2000 {
        assert!(row.insert(hash(at, 7, 11)));
        assert!(column.insert(hash(7, at, 11)));
    }
    assert_ne!(hash(3, 4, 1), hash(3, 4, 2));
}

#[test]
fn a_fraction_and_a_direction_come_out_of_the_word() {
    for (x, y) in [(0, 0), (-1, 5), (i32::MIN, i32::MAX)] {
        assert_eq!(hash_fraction(x, y, 9), hash(x, y, 9) >> 8);
        assert_eq!(gradient_index(x, y, 9), (hash(x, y, 9) & 15) as usize);
    }
}
