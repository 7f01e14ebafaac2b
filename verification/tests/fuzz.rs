//! Pseudo-random mutations.
use cadence::fuzz::{mutate, Rng};

#[test]
fn rng_is_deterministic() {
    let mut a = Rng::new(42);
    let mut b = Rng::new(42);
    for _ in 0..16 {
        assert_eq!(a.next_u64(), b.next_u64());
    }
}

#[test]
fn rng_from_name_is_stable() {
    let mut a = Rng::from_name("wav-fuzz");
    let mut b = Rng::from_name("wav-fuzz");
    assert_eq!(a.next_u64(), b.next_u64());
}

#[test]
fn mutate_on_empty_input_is_fine() {
    let mut rng = Rng::new(7);
    let out = mutate(&[], &mut rng);
    assert_eq!(out.len(), 1);
}

#[test]
fn stream_of_a_seed() {
    let mut rng = Rng::new(0);
    assert_eq!(rng.next_u64(), 0xE220_A839_7B1D_CDAF);
    assert_eq!(rng.next_u64(), 0x6E78_9E6A_A1B9_65F4);
    assert_eq!(rng.next_u64(), 0x06C4_5D18_8009_454F);
}

#[test]
fn names_are_hashed() {
    let mut named = Rng::from_name("a");
    let mut seeded = Rng::new(0xaf63_dc4c_8601_ec8c);
    assert_eq!(named.next_u64(), seeded.next_u64());
}

#[test]
fn bytes_come_from_whole_values() {
    let mut a = Rng::new(99);
    let mut b = Rng::new(99);
    let mut out = [0u8; 19];
    a.fill_bytes(&mut out);
    let values = [b.next_u64(), b.next_u64(), b.next_u64()];
    for (i, &byte) in out.iter().enumerate() {
        assert_eq!(byte, values[i / 8].to_le_bytes()[i % 8]);
    }
    assert_eq!(a.next_u64(), b.next_u64());
}

#[test]
fn values_stay_below_their_bound() {
    let mut rng = Rng::new(3);
    for bound in 1..200usize {
        assert!(rng.below(bound) < bound);
    }
}

#[test]
fn mutations_follow_the_stream() {
    let data: Vec<u8> = (0..100u8).collect();
    let mut seen = [false; 5];
    for seed in 0..60u64 {
        let mut rng = Rng::new(seed);
        let out = mutate(&data, &mut rng);
        let mut draws = Rng::new(seed);
        let strategy = draws.below(5);
        seen[strategy] = true;
        match strategy {
            0 => assert_eq!(out, data[..draws.below(100)].to_vec()),
            1 => {
                let i = draws.below(100);
                let mut want = data.clone();
                want[i] ^= 1 << draws.below(8);
                assert_eq!(out, want);
            }
            2 => {
                let run = 1 + draws.below(8);
                let start = draws.below(100 - run + 1);
                let mut want = data.clone();
                for b in &mut want[start..start + run] {
                    *b = draws.next_u64() as u8;
                }
                assert_eq!(out, want);
            }
            3 => {
                let at = draws.below(101);
                let n = 1 + draws.below(16);
                let mut want = data[..at].to_vec();
                for _ in 0..n {
                    want.push(draws.next_u64() as u8);
                }
                want.extend_from_slice(&data[at..]);
                assert_eq!(out, want);
            }
            _ => {
                let start = draws.below(100);
                let end = (start + 1 + draws.below(64)).min(100);
                let at = draws.below(101);
                let mut want = data[..at].to_vec();
                want.extend_from_slice(&data[start..end]);
                want.extend_from_slice(&data[at..]);
                assert_eq!(out, want);
            }
        }
        assert_eq!(rng.next_u64(), draws.next_u64());
    }
    assert_eq!(seen, [true; 5]);
}
