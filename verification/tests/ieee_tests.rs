use toq_rs::ieee::{double_bits_of, narrow_bits, single_bits_of, widen_bits};

fn check(i: i64) {
    assert_eq!(double_bits_of(i), (i as f64).to_bits(), "double of {i}");
    assert_eq!(single_bits_of(i), ((i as f64) as f32).to_bits(), "single of {i}");
}

#[test]
fn integer_readings_match_std() {
    for i in -70000i64..70000 {
        check(i);
    }
    for k in 0..63 {
        let p = 1i64 << k;
        for d in -3i64..=3 {
            check(p.wrapping_add(d));
            check((-p).wrapping_add(d));
            check(p.wrapping_add(d).wrapping_add(p >> 1));
            check(p + (p >> 24) * d);
            check(p + (p >> 25) * d);
            check(p + (p >> 53).max(0) * d);
        }
    }
    check(i64::MAX);
    check(i64::MIN);
    check(i64::MIN + 1);
    let mut x: u64 = 0x9e3779b97f4a7c15;
    for _ in 0..200000 {
        x ^= x << 13;
        x ^= x >> 7;
        x ^= x << 17;
        check(x as i64);
        check((x >> 20) as i64);
        check((x >> 40) as i64);
    }
}

#[test]
fn widening_matches_std() {
    let mut b: u32 = 0;
    loop {
        let f = f32::from_bits(b);
        if f.is_finite() {
            assert_eq!(widen_bits(b), (f as f64).to_bits(), "widen {b:#x}");
        }
        match b.checked_add(4099) {
            Some(n) => b = n,
            None => break,
        }
    }
    for b in [0u32, 1, 2, 3, 0x7fffff, 0x800000, 0x80000001, 0x807fffff, 0x3f800000, 0x7f7fffff, 0xff7fffff] {
        assert_eq!(widen_bits(b), (f32::from_bits(b) as f64).to_bits(), "widen {b:#x}");
    }
}

#[test]
fn narrowing_matches_std() {
    let check = |d: u64| {
        let x = f64::from_bits(d);
        if x.is_finite() {
            assert_eq!(narrow_bits(d), (x as f32).to_bits(), "narrow {d:#x}");
        }
    };
    let mut x: u64 = 0x243f6a8885a308d3;
    for _ in 0..300000 {
        x ^= x << 13;
        x ^= x >> 7;
        x ^= x << 17;
        check(x);
        // exponents near the single range
        let e = 860 + (x >> 56) % 320;
        check((x & 0x800fffffffffffff) | (e << 52));
        // halfway cases
        check(((x & 0x800fffffe0000000) | (e << 52)) | 0x10000000);
    }
    for d in [0u64, 1, 0x8000000000000000, 0x3ff0000000000000, 0x36a0000000000000, 0x3690000000000000,
              0x3680000000000000, 0x47efffffe0000000, 0x47efffffefffffff, 0x47effffff0000000,
              0x3810000000000000, 0x380fffffffffffff, 0x36a0000000000001] {
        check(d);
    }
}
