use gta_core::rng::Rng;

/// A uniform draw in `[0, 1)` from the stream, as the renderer-side code forms it.
fn f32_of(r: &mut Rng) -> f32 {
    r.unit_bits() as f32 * (1.0 / 16_777_216.0)
}

#[test]
fn same_seed_same_stream() {
    let mut a = Rng::new(7);
    let mut b = Rng::new(7);
    for _ in 0..64 {
        assert_eq!(f32_of(&mut a), f32_of(&mut b));
    }
}

#[test]
fn different_seeds_differ() {
    let a: f32 = f32_of(&mut Rng::new(1));
    let b: f32 = f32_of(&mut Rng::new(2));
    assert!((a - b).abs() > 1e-4);
}

#[test]
fn output_in_range() {
    let mut r = Rng::new(99);
    let mut sum = 0.0;
    for _ in 0..100_000 {
        let v = f32_of(&mut r);
        assert!((0.0..1.0).contains(&v), "{v} out of range");
        sum += v;
    }
    let mean = sum / 100_000.0;
    assert!((mean - 0.5).abs() < 0.01, "mean {mean} far from 0.5");
}

#[test]
fn shuffle_is_a_permutation() {
    let mut v: Vec<i32> = (0..64).collect();
    let mut r = Rng::new(3);
    r.shuffle(&mut v);
    v.sort_unstable();
    assert_eq!(v, (0..64).collect::<Vec<_>>());
}

#[test]
fn sub_streams_are_independent() {
    let mut a = Rng::new(11);
    let mut b = Rng::new(11);
    let _ = f32_of(&mut a);
    let mut s1 = a.sub(1);
    let _ = f32_of(&mut b);
    let mut s2 = b.sub(2);
    assert_ne!(f32_of(&mut s1), f32_of(&mut s2));
}

#[test]
fn pick_returns_member_or_none() {
    let mut r = Rng::new(5);
    let xs = [1u8, 2, 3];
    for _ in 0..20 {
        assert!(xs.contains(&r.pick(&xs).unwrap()));
    }
    assert!(r.pick::<u8>(&[]).is_none());
}

#[test]
fn raw_draws_follow_splitmix64() {
    let mut r = Rng::new(7);
    assert_eq!(r.next_u64(), 17039259473404265729);
    assert_eq!(r.next_u64(), 18363971414914884509);
    let mut r = Rng::new(7);
    assert_eq!(r.unit_bits(), 15497116);
    assert_eq!(r.unit_bits(), 16701934);
    assert_eq!(r.unit_bits(), 7315376);
}

#[test]
fn default_stream_uses_the_default_seed() {
    assert_eq!(Rng::default().next_u64(), 2074212119441359513);
    assert_eq!(Rng::default().next_u64(), Rng::new(0x1234_ABCD).next_u64());
}

#[test]
fn below_reduces_the_draw() {
    let mut r = Rng::new(42);
    let got: Vec<u32> = (0..5).map(|_| r.below(10)).collect();
    assert_eq!(got, vec![1, 8, 4, 0, 2]);
}

#[test]
fn below_zero_consumes_nothing() {
    let mut a = Rng::new(9);
    let mut b = Rng::new(9);
    assert_eq!(a.below(0), 0);
    assert_eq!(a.next_u64(), b.next_u64());
    assert_eq!(a.index(0), 0);
}

#[test]
fn int_range_respects_bounds() {
    let mut r = Rng::new(5);
    let got: Vec<i32> = (0..5).map(|_| r.int_range(3, 6)).collect();
    assert_eq!(got, vec![3, 4, 6, 5, 4]);
    let mut r = Rng::new(5);
    for _ in 0..1000 {
        let i = r.int_range(3, 6);
        assert!((3..=6).contains(&i));
    }
    assert_eq!(r.int_range(4, 4), 4);
    assert_eq!(r.int_range(9, 2), 9);
}

#[test]
fn shuffle_is_fisher_yates() {
    let mut v: Vec<u32> = (0..8).collect();
    Rng::new(3).shuffle(&mut v);
    assert_eq!(v, vec![2, 4, 3, 0, 6, 5, 1, 7]);
    let mut one = vec![5u8];
    Rng::new(3).shuffle(&mut one);
    assert_eq!(one, vec![5]);
}

#[test]
fn pick_follows_the_stream() {
    let mut r = Rng::new(5);
    let xs = [1u8, 2, 3];
    let got: Vec<u8> = (0..4).map(|_| *r.pick(&xs).unwrap()).collect();
    assert_eq!(got, vec![3, 1, 1, 2]);
}

#[test]
fn sub_leaves_the_parent_alone() {
    let mut a = Rng::new(11);
    let _ = a.next_u64();
    let mut copy = a.clone();
    let mut s = a.sub(1);
    assert_eq!(a.next_u64(), copy.next_u64());
    assert_eq!(s.next_u64(), Rng::new(5007838000150226118).next_u64());
}

#[test]
fn range_and_int_range_respect_bounds() {
    let mut r = Rng::new(5);
    for _ in 0..1000 {
        let v = -2.0 + (3.0 - -2.0) * f32_of(&mut r);
        assert!((-2.0..3.0).contains(&v));
        let i = r.int_range(3, 6);
        assert!((3..=6).contains(&i));
    }
}
