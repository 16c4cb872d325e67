use rrr::number::Double;
use rrr::sort::FSort;

fn num(x: f64) -> Double {
    Double::from_bits(x.to_bits()).expect("not a number")
}

#[test]
fn from_bits_keeps_the_pattern() {
    for x in [0.0f64, -0.0, 1.5, -2.25, 1e300, f64::INFINITY, f64::NEG_INFINITY, f64::MIN_POSITIVE] {
        let d = Double::from_bits(x.to_bits()).unwrap();
        assert_eq!(d.to_bits(), x.to_bits());
        assert_eq!(f64::from_bits(d.to_bits()).to_bits(), x.to_bits());
    }
}

#[test]
fn from_bits_refuses_nan() {
    assert_eq!(Double::from_bits(f64::NAN.to_bits()), None);
    assert_eq!(Double::from_bits(0x7ff0_0000_0000_0001), None);
    assert_eq!(Double::from_bits(0xfff8_0000_0000_0000), None);
    assert!(Double::from_bits(0x7ff0_0000_0000_0000).is_some());
    assert!(Double::from_bits(0xfff0_0000_0000_0000).is_some());
}

#[test]
fn lt_orders_as_the_values() {
    let values = [
        f64::NEG_INFINITY,
        -1e10,
        -2.5,
        -1.0,
        -f64::MIN_POSITIVE,
        -0.0,
        0.0,
        f64::MIN_POSITIVE,
        0.1,
        1.0,
        2.5,
        3.1,
        4.0,
        1e10,
        f64::INFINITY,
    ];
    for a in values {
        for b in values {
            assert_eq!(num(a).lt(&num(b)), a < b, "{} < {}", a, b);
            assert_eq!(num(a).same_value(&num(b)), a == b, "{} == {}", a, b);
        }
    }
}

#[test]
fn zero_is_positive_zero() {
    assert_eq!(Double::zero().to_bits(), 0.0f64.to_bits());
    assert!(Double::zero().same_value(&num(-0.0)));
    assert_ne!(Double::zero(), num(-0.0));
}

#[test]
fn from_whole_is_the_same_number() {
    for v in [0u64, 1, 2, 3, 10, 30, 255, 3600, 86_400, 1 << 20, (1 << 52) + 1, (1 << 53) - 1] {
        let d = Double::from_whole(v);
        assert_eq!(d.to_bits(), (v as f64).to_bits(), "{}", v);
        assert_eq!(f64::from_bits(d.to_bits()) as u64, v);
    }
}

#[test]
fn from_whole_rounds_to_the_nearest_double() {
    let mut values: Vec<u64> = vec![
        1 << 53,
        (1 << 53) + 1,
        (1 << 53) + 2,
        (1 << 53) + 3,
        (1 << 54) - 1,
        (1 << 54) + 1,
        (1 << 54) + 2,
        (1 << 54) + 3,
        (1 << 54) + 6,
        (1 << 63) - 1,
        1 << 63,
        (1 << 63) + 1024,
        (1 << 63) + 1025,
        (1 << 63) + 3072,
        u64::MAX - 1024,
        u64::MAX - 1023,
        u64::MAX,
    ];
    let mut x: u64 = 0x9e37_79b9_7f4a_7c15;
    for _ in 0..20_000 {
        x ^= x << 13;
        x ^= x >> 7;
        x ^= x << 17;
        values.push(x);
        values.push(x >> (x % 12));
        values.push((1 << 53) + (x >> 20));
    }
    for s in 0..12 {
        for q in [(1u64 << 52), (1 << 52) + 1, (1 << 53) - 2, (1 << 53) - 1] {
            for d in [0u64, 1, (1 << s) / 2, ((1 << s) / 2) + 1, (1 << s) - 1] {
                if let Some(v) = q.checked_mul(1 << s).and_then(|p| p.checked_add(d % (1 << s))) {
                    values.push(v);
                    values.push(v.wrapping_sub(1));
                }
            }
        }
    }
    for v in values {
        assert_eq!(Double::from_whole(v).to_bits(), (v as f64).to_bits(), "{}", v);
    }
}

#[test]
fn f_sort_orders_doubles() {
    let mut v = vec![num(3.1), num(2.5), num(4.0), num(-1.0), num(2.5)];
    v.f_sort();
    let got: Vec<f64> = v.iter().map(|d| f64::from_bits(d.to_bits())).collect();
    assert_eq!(got, vec![-1.0, 2.5, 2.5, 3.1, 4.0]);
}

#[test]
fn f_sort_keeps_equal_values_in_their_order() {
    let mut v = vec![num(1.0), num(0.0), num(-0.0), num(-1.0), num(-0.0), num(0.0)];
    v.f_sort();
    let got: Vec<u64> = v.iter().map(|d| d.to_bits()).collect();
    let want: Vec<u64> =
        [-1.0f64, 0.0, -0.0, -0.0, 0.0, 1.0].iter().map(|x| x.to_bits()).collect();
    assert_eq!(got, want);
}

#[test]
fn f_sort_orders_integers() {
    let mut v: Vec<u64> = vec![10, 30, 20, 0, 30, u64::MAX, 5];
    v.f_sort();
    assert_eq!(v, vec![0, 5, 10, 20, 30, 30, u64::MAX]);
    let mut empty: Vec<u64> = vec![];
    empty.f_sort();
    assert!(empty.is_empty());
    let mut one: Vec<u64> = vec![7];
    one.f_sort();
    assert_eq!(one, vec![7]);
}
