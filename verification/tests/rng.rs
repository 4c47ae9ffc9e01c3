use moss_tts_nano::rng::create_numpy_compatible_rng;
use moss_tts_nano::seed_sequence::seed_words;
use rand::{Rng, RngExt};
use rand_pcg::Pcg64;

/// The words of a seed, hashed and mixed word by word.
fn words(seed: u64) -> [u64; 4] {
    let mut multiplier = 0x43b0_d7e5u32;
    let mut hash = |v: u32| {
        let v = v ^ multiplier;
        multiplier = multiplier.wrapping_mul(0x931e_8875);
        let v = v.wrapping_mul(multiplier);
        v ^ (v >> 16)
    };
    let mut pool = [hash(seed as u32), hash((seed >> 32) as u32), hash(0), hash(0)];
    for source in 0..4 {
        for target in 0..4 {
            if source != target {
                let y = hash(pool[source]).wrapping_mul(0x4973_f715);
                let v = pool[target].wrapping_mul(0xca01_f9dd).wrapping_sub(y);
                pool[target] = v ^ (v >> 16);
            }
        }
    }
    let mut multiplier = 0x8b51_f9ddu32;
    let mut out = [0u64; 4];
    for i in 0..8 {
        let v = pool[i % 4] ^ multiplier;
        multiplier = multiplier.wrapping_mul(0x58f3_8ded);
        let v = v.wrapping_mul(multiplier);
        out[i / 2] |= ((v ^ (v >> 16)) as u64) << (32 * (i % 2));
    }
    out
}

fn reference(seed: u64) -> Pcg64 {
    let w = words(seed);
    let wide = |high: u64, low: u64| ((high as u128) << 64) | low as u128;
    Pcg64::new(wide(w[0], w[1]), wide(w[2], w[3]))
}

#[test]
fn numbers_are_those_of_the_generator() {
    for seed in [0u64, 1, 1234, 1 << 40, u64::MAX] {
        assert_eq!(seed_words(seed), words(seed));
        let mut ours = create_numpy_compatible_rng(seed);
        let mut theirs = reference(seed);
        for _ in 0..100 {
            assert_eq!(ours.draw(), theirs.next_u64());
        }
    }
}

#[test]
fn numbers_are_those_of_numpy() {
    let known = [
        (42u64, [0.7739560485559633, 0.4388784397520523, 0.8585979199113825]),
        (0, [0.6369616873214543, 0.2697867137638703, 0.04097352393619469]),
        (1234, [0.9766997666981422, 0.3801957350196178, 0.9232462337639554]),
        (12345, [0.22733602246716966, 0.31675833970975287, 0.7973654573327341]),
    ];
    for (seed, numbers) in known {
        let mut rng = create_numpy_compatible_rng(seed);
        for x in numbers {
            assert_eq!(f64::from_bits(rng.draw53().bits), x);
        }
    }
    let mut rng = create_numpy_compatible_rng(42);
    assert_eq!(rng.draw(), 0xc621_fbcd_16d9_2688);
}

#[test]
fn fractions_are_those_of_the_generator() {
    let mut ours = create_numpy_compatible_rng(1234);
    let mut theirs = reference(1234);
    for _ in 0..500 {
        let a: f32 = theirs.random();
        assert_eq!(ours.draw24().bits, a.to_bits());
        let b: f64 = theirs.random();
        assert_eq!(ours.draw53().bits, b.to_bits());
        let c: f32 = theirs.random_range(0.0..1.0);
        assert_eq!(ours.draw23().bits, c.to_bits());
    }
}

#[test]
fn one_seed_gives_one_series() {
    let mut a = create_numpy_compatible_rng(42);
    let mut b = create_numpy_compatible_rng(42);
    let mut c = create_numpy_compatible_rng(43);
    let x: Vec<u64> = (0..5).map(|_| a.draw()).collect();
    let y: Vec<u64> = (0..5).map(|_| b.draw()).collect();
    let z: Vec<u64> = (0..5).map(|_| c.draw()).collect();
    assert_eq!(x, y);
    assert_ne!(x, z);
}
