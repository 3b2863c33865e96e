use opus::{bitexact_cos, bitexact_log2tan, frac_mul16, ilog};

#[test]
fn test_div() {
    (1..=327670).for_each(|i| {
        let val = 1.0 / i as f32;
        let prod = val * i as f32;

        assert!(
            (prod - 1.0).abs() <= 0.00025,
            "div failed: 1/{}=`{}` (product = {})",
            i,
            val,
            prod
        );
    });
}

#[test]
fn test_sqrt() {
    let mut i = 1;
    while i < 1000000000 {
        let k = i as f32;
        let val = k.sqrt();
        let ratio = val / k.sqrt();
        assert!(
            (ratio - 1.0).abs() <= 0.0005 && (val - k.sqrt()).abs() <= 2.0,
            "sqrt failed: sqrt({})='{}' (ratio = {})",
            i,
            val,
            ratio
        );
        i += 1 + (i >> 10);
    }
}

#[test]
fn test_bitexact_cos() {
    let mut chk: i32 = 0;
    let mut max_d: i16 = 0;
    let mut last: i16 = 32767;
    let mut min_d: i16 = 32767;

    (64..=16320).for_each(|i| {
        let q = bitexact_cos(i);
        chk ^= i32::from(q) * i32::from(i);
        let d = last - q;

        if d > max_d {
            max_d = d
        }
        if d < min_d {
            min_d = d
        }

        last = q;
    });

    assert_eq!(bitexact_cos(64), 32767);
    assert_eq!(bitexact_cos(16320), 200);
    assert_eq!(bitexact_cos(8192), 23171);
    assert_eq!(chk, 89408644);
    assert_eq!(max_d, 5);
    assert_eq!(min_d, 0);
}

#[test]
fn test_bitexact_log2tan() {
    let mut chk: i32 = 0;
    let mut max_d: i32 = 0;
    let mut last: i32 = 15059;
    let mut min_d: i32 = 15059;

    (64..8193).for_each(|i| {
        let mid = i32::from(bitexact_cos(i));
        let side = i32::from(bitexact_cos(16384 - i));
        let q = bitexact_log2tan(mid, side);
        chk ^= q * i32::from(i);
        let d = last - q;

        assert_eq!(q, -(bitexact_log2tan(side, mid)));

        if d > max_d {
            max_d = d
        }
        if d < min_d {
            min_d = d
        }

        last = q;
    });

    assert_eq!(chk, 15821257);
    assert_eq!(max_d, 61);
    assert_eq!(min_d, -2);
    assert_eq!(bitexact_log2tan(32767, 200), 15059);
    assert_eq!(bitexact_log2tan(30274, 12540), 2611);
    assert_eq!(bitexact_log2tan(23171, 23171), 0);
}

#[test]
fn ilog_counts_binary_digits() {
    assert_eq!(ilog(0), 0);
    assert_eq!(ilog(1), 1);
    assert_eq!(ilog(255), 8);
    assert_eq!(ilog(256), 9);
    assert_eq!(ilog(u32::MAX), 32);
}

#[test]
fn frac_mul16_rounds_q15_products() {
    assert_eq!(frac_mul16(16384, 16384), 8192);
    assert_eq!(frac_mul16(-16384, 16384), -8192);
    assert_eq!(frac_mul16(1, 1), 0);
    assert_eq!(frac_mul16(32767, 32767), 32766);
}
