//! Random streams.
use spectral::rng::mix2;
use spectral::rng::pcg32;
use spectral::rng::PathRng;

fn draw(rng: &mut PathRng) -> f32 {
    f32::from_bits(rng.next_f32().to_bits())
}

#[test]
fn workspace_builds() {
    assert_eq!(2 + 2, 4);
}

#[test]
fn same_key_same_sequence() {
    let mut a = PathRng::new(7, 12345);
    let mut b = PathRng::new(7, 12345);
    for _ in 0..16 {
        assert_eq!(a.next_f32().to_bits(), b.next_f32().to_bits());
    }
}

#[test]
fn different_key_different_sequence() {
    let mut a = PathRng::new(7, 12345);
    let mut b = PathRng::new(8, 12345);
    let da: Vec<u32> = (0..4).map(|_| a.next_f32().to_bits()).collect();
    let db: Vec<u32> = (0..4).map(|_| b.next_f32().to_bits()).collect();
    assert_ne!(da, db);
}

#[test]
fn floats_in_unit_interval() {
    let mut r = PathRng::new(1, 2);
    for _ in 0..1000 {
        let x = draw(&mut r);
        assert!((0.0..1.0).contains(&x), "{x} not in [0,1)");
    }
}

#[test]
fn frozen_first_draws() {
    let mut r = PathRng::new(0xABCD, 0x1234);
    let got: Vec<u32> = (0..4).map(|_| r.next_u32()).collect();
    assert_eq!(got, FROZEN_DRAWS);
}

const FROZEN_DRAWS: [u32; 4] = [0xa1dd5847, 0x13248a2d, 0x37278def, 0xde1d5b62];

/// A draw is the upper 24 bits of a word over 2^24.
#[test]
fn a_draw_is_the_upper_bits_of_a_word() {
    let mut words = PathRng::new(0xABCD, 0x1234);
    let mut draws = PathRng::new(0xABCD, 0x1234);
    for _ in 0..64 {
        let w = words.next_u32();
        assert_eq!(draw(&mut draws), (w >> 8) as f32 / 16_777_216.0);
    }
}

/// The hash and the mixing function lose nothing: nearby inputs stay apart.
#[test]
fn hashes_do_not_collide_nearby() {
    let mut seen: Vec<u32> = (0..5000u32).map(pcg32).collect();
    seen.sort_unstable();
    seen.dedup();
    assert_eq!(seen.len(), 5000);
    let mut mixed: Vec<u32> = (0..5000u32).map(|k| mix2(9, k)).collect();
    mixed.sort_unstable();
    mixed.dedup();
    assert_eq!(mixed.len(), 5000);
}
