use market_maker::double::{
    cost_exceeds, divide_round_even, power_of_two, price_bits, price_key, round_to_double,
    scale_whole, thousandths_bits, weigh,
};

fn by_float(price: f64) -> i64 {
    (price * 1000.0) as i64
}

fn next(seed: &mut u64) -> u64 {
    *seed ^= *seed << 13;
    *seed ^= *seed >> 7;
    *seed ^= *seed << 17;
    *seed
}

#[test]
fn price_key_of_plain_prices() {
    assert_eq!(price_key(10.0f64.to_bits()), 10000);
    assert_eq!(price_key(0.0f64.to_bits()), 0);
    assert_eq!(price_key(1.0f64.to_bits()), 1000);
    assert_eq!(price_key(0.001f64.to_bits()), 1);
    assert_eq!(price_key(0.0009f64.to_bits()), 0);
    assert_eq!(price_key(12.345f64.to_bits()), 12345);
    assert_eq!(price_key(12.3456f64.to_bits()), 12345);
    assert_eq!(price_key(12.3459f64.to_bits()), 12345);
    assert_eq!(price_key(1e9f64.to_bits()), 1_000_000_000_000);
}

#[test]
fn price_key_rounds_the_product_as_a_double_does() {
    assert_eq!(price_key(0.57f64.to_bits()), 570);
    assert_eq!(price_key(0.07f64.to_bits()), 70);
    assert_eq!(price_key(0.29f64.to_bits()), 290);
    assert_eq!(price_key(1.005f64.to_bits()), 1004);
    assert_eq!(price_key(4.35f64.to_bits()), 4350);
    for p in [0.57f64, 0.07, 0.29, 1.005, 4.35, 8.2, 9.95, 1.1, 2.675, 1e-3, 0.3, 0.7] {
        assert_eq!(price_key(p.to_bits()), by_float(p));
    }
}

#[test]
fn price_key_at_the_ends() {
    assert_eq!(price_key(f64::INFINITY.to_bits()), i64::MAX);
    assert_eq!(price_key(f64::NEG_INFINITY.to_bits()), i64::MIN);
    assert_eq!(price_key(f64::NAN.to_bits()), 0);
    assert_eq!(price_key((-f64::NAN).to_bits()), 0);
    assert_eq!(price_key(f64::MAX.to_bits()), i64::MAX);
    assert_eq!(price_key(f64::MIN.to_bits()), i64::MIN);
    assert_eq!(price_key(f64::MIN_POSITIVE.to_bits()), 0);
    assert_eq!(price_key(1u64), 0);
    assert_eq!(price_key((-0.0f64).to_bits()), 0);
    assert_eq!(price_key((-1.5f64).to_bits()), -1500);
    assert_eq!(price_key(9.3e15f64.to_bits()), i64::MAX);
    assert_eq!(price_key(9.2e15f64.to_bits()), 9_200_000_000_000_000_000);
    assert_eq!(price_key((-9.3e15f64).to_bits()), i64::MIN);
    for p in [9.223372036854775e15f64, 9.223372036854776e15, 9.223372036854777e15, 9.007199254740992e12] {
        assert_eq!(price_key(p.to_bits()), by_float(p));
        assert_eq!(price_key((-p).to_bits()), by_float(-p));
    }
}

#[test]
fn price_key_agrees_with_the_float_unit_on_every_kind_of_bits() {
    let mut seed = 0x9e37_79b9_7f4a_7c15u64;
    for _ in 0..200_000 {
        let bits = next(&mut seed);
        assert_eq!(price_key(bits), by_float(f64::from_bits(bits)), "bits {:#x}", bits);
    }
}

#[test]
fn price_key_agrees_with_the_float_unit_on_likely_prices() {
    let mut seed = 0x1234_5678_9abc_def1u64;
    for _ in 0..200_000 {
        let r = next(&mut seed);
        let p = (r % 1_000_000_000) as f64 / ((1 + (r >> 40) % 100_000) as f64);
        assert_eq!(price_key(p.to_bits()), by_float(p), "price {}", p);
        let cents = (r % 100_000_000) as f64 / 100.0;
        assert_eq!(price_key(cents.to_bits()), by_float(cents), "price {}", cents);
        let mills = (r % 100_000_000) as f64 / 1000.0;
        assert_eq!(price_key(mills.to_bits()), by_float(mills), "price {}", mills);
    }
}

#[test]
fn price_key_agrees_with_the_float_unit_near_the_cap() {
    let mut seed = 0x0dd_ba11u64;
    for _ in 0..100_000 {
        let r = next(&mut seed);
        let exponent = 1023 + 40 + (r % 30);
        let bits = (exponent << 52) | (next(&mut seed) >> 12) | ((r >> 63) << 63);
        assert_eq!(price_key(bits), by_float(f64::from_bits(bits)), "bits {:#x}", bits);
        let tiny = ((1023 - 12 + (r % 14)) << 52) | (next(&mut seed) >> 12);
        assert_eq!(price_key(tiny), by_float(f64::from_bits(tiny)), "bits {:#x}", tiny);
    }
}

#[test]
fn bits_of_plain_amounts() {
    assert_eq!(thousandths_bits(0), 0);
    assert_eq!(thousandths_bits(1000), 1.0f64.to_bits());
    assert_eq!(thousandths_bits(1000), 0x3ff0_0000_0000_0000);
    assert_eq!(thousandths_bits(-1000), (-1.0f64).to_bits());
    assert_eq!(thousandths_bits(10_000_000), 10000.0f64.to_bits());
    assert_eq!(thousandths_bits(1_000_000_000_000), 1e9f64.to_bits());
    assert_eq!(thousandths_bits(1), 0.001f64.to_bits());
    assert_eq!(thousandths_bits(12_345), 12.345f64.to_bits());
    assert_eq!(thousandths_bits(570), 0.57f64.to_bits());
    assert_eq!(price_bits(10000), 10.0f64.to_bits());
    assert_eq!(price_bits(-2500), (-2.5f64).to_bits());
    assert_eq!(price_bits(0), 0);
}

#[test]
fn bits_of_amounts_at_the_ends() {
    for x in [i128::MAX, i128::MIN, i128::MAX - 1, i128::MIN + 1, 1 << 53, (1 << 53) + 1, (1 << 53) - 1,
        (1 << 54) + 2, (1 << 54) + 3, (1 << 54) + 6, 1 << 100, (1 << 100) + (1 << 47), 999, 1001, 500, 1500]
    {
        assert_eq!(thousandths_bits(x), (x as f64 / 1000.0).to_bits(), "amount {}", x);
        if x != i128::MIN {
            assert_eq!(thousandths_bits(-x), ((-x) as f64 / 1000.0).to_bits(), "amount {}", -x);
        }
    }
    for k in [i64::MAX, i64::MIN, i64::MAX - 1, i64::MIN + 1, 1, -1] {
        assert_eq!(price_bits(k), (k as f64 / 1000.0).to_bits(), "key {}", k);
    }
}

#[test]
fn bits_agree_with_the_float_unit_on_every_size_of_amount() {
    let mut seed = 0xfeed_face_cafe_beefu64;
    for _ in 0..200_000 {
        let hi = next(&mut seed) as u128;
        let lo = next(&mut seed) as u128;
        let width = next(&mut seed) % 128;
        let x = (((hi << 64) | lo) >> width) as i128;
        assert_eq!(thousandths_bits(x), (x as f64 / 1000.0).to_bits(), "amount {}", x);
        let y = x.wrapping_neg();
        assert_eq!(thousandths_bits(y), (y as f64 / 1000.0).to_bits(), "amount {}", y);
        let k = (lo >> (width % 64)) as i64;
        assert_eq!(price_bits(k), (k as f64 / 1000.0).to_bits(), "key {}", k);
    }
}

#[test]
fn key_of_the_bits_of_a_key_is_the_key() {
    let mut seed = 0x5eed_5eed_5eed_5eedu64;
    for _ in 0..100_000 {
        let k = (next(&mut seed) % 100_000_000_000) as i64;
        assert_eq!(price_key(price_bits(k)), by_float(k as f64 / 1000.0));
    }
    assert_eq!(price_key(price_bits(10000)), 10000);
    assert_eq!(price_key(price_bits(12345)), 12345);
}

#[test]
fn rounding_to_the_nearest_double_breaks_ties_to_even() {
    assert_eq!(round_to_double(0), (0, 0));
    assert_eq!(round_to_double(5), (5, 0));
    assert_eq!(round_to_double((1 << 53) - 1), ((1 << 53) - 1, 0));
    assert_eq!(round_to_double(1 << 53), (1 << 52, 1));
    assert_eq!(round_to_double((1 << 53) + 1), (1 << 52, 1));
    assert_eq!(round_to_double((1 << 53) + 2), ((1 << 52) + 1, 1));
    assert_eq!(round_to_double((1 << 53) + 3), ((1 << 52) + 2, 1));
    assert_eq!(round_to_double((1 << 54) - 1), (1 << 53, 1));
    assert_eq!(round_to_double(u128::MAX), (1 << 53, 75));
    assert_eq!(round_to_double(1 << 127), (1 << 52, 75));
}

#[test]
fn division_rounds_to_the_nearest_and_ties_to_even() {
    assert_eq!(divide_round_even(7, 2), 4);
    assert_eq!(divide_round_even(5, 2), 2);
    assert_eq!(divide_round_even(9, 4), 2);
    assert_eq!(divide_round_even(10, 4), 2);
    assert_eq!(divide_round_even(11, 4), 3);
    assert_eq!(divide_round_even(14, 4), 4);
    assert_eq!(divide_round_even(0, 9), 0);
    assert_eq!(divide_round_even(8, 1), 8);
    assert_eq!(divide_round_even(1000, 3), 333);
    assert_eq!(divide_round_even(2000, 3), 667);
}

#[test]
fn scaling_by_powers_of_two_rounds_down_and_caps() {
    assert_eq!(power_of_two(0), 1);
    assert_eq!(power_of_two(10), 1024);
    assert_eq!(power_of_two(75), 1 << 75);
    assert_eq!(scale_whole(5, 0), 5);
    assert_eq!(scale_whole(5, 3), 40);
    assert_eq!(scale_whole(5, -1), 2);
    assert_eq!(scale_whole(5, -3), 0);
    assert_eq!(scale_whole(5, -3000), 0);
    assert_eq!(scale_whole(1, 62), 1 << 62);
    assert_eq!(scale_whole(1, 63), 1 << 63);
    assert_eq!(scale_whole(1, 64), 1 << 63);
    assert_eq!(scale_whole(3, 62), 1 << 63);
    assert_eq!(scale_whole(0, 5000), 0);
    assert_eq!(scale_whole(1 << 53, 9), 1 << 62);
    assert_eq!(scale_whole(1 << 53, 10), 1 << 63);
}

#[test]
fn cost_is_the_product_as_doubles_multiply() {
    assert!(!cost_exceeds(10.0f64.to_bits(), 1000, 10_000_000));
    assert!(cost_exceeds(10.0f64.to_bits(), 1000, 9_999_999));
    assert!(!cost_exceeds(0.1f64.to_bits(), 10, 1000));
    assert!(cost_exceeds(0.1f64.to_bits(), 10, 999));
    assert!(!cost_exceeds(10.0005f64.to_bits(), 1000, 10_000_500));
    assert!(cost_exceeds(10.0005f64.to_bits(), 1000, 10_000_499));
    assert!(!cost_exceeds(2.5f64.to_bits(), 4, 10_000));
    assert!(cost_exceeds(2.5f64.to_bits(), 4, 9_999));
    assert!(!cost_exceeds(0.0f64.to_bits(), 5, 0));
    assert!(cost_exceeds(0.0f64.to_bits(), 5, -1));
    assert!(!cost_exceeds(7.0f64.to_bits(), 0, 0));
    assert!(cost_exceeds(7.0f64.to_bits(), 0, -1));
    assert!(cost_exceeds(1u64, 1, 0));
    assert!(!cost_exceeds(1u64, 0, 0));
}

#[test]
fn cost_at_prices_that_are_no_plain_numbers() {
    let inf = f64::INFINITY.to_bits();
    assert!(cost_exceeds(inf, 1, i128::MAX));
    assert!(!cost_exceeds(inf, 0, i128::MIN));
    assert!(!cost_exceeds(f64::NEG_INFINITY.to_bits(), 1, i128::MIN));
    assert!(!cost_exceeds(f64::NAN.to_bits(), 1, i128::MIN));
    assert!(cost_exceeds(f64::MAX.to_bits(), 1, i128::MAX));
    assert!(!cost_exceeds((-1.0f64).to_bits(), 1, -1000));
    assert!(cost_exceeds((-1.0f64).to_bits(), 1, -1001));
    assert!(!cost_exceeds((-1.0f64).to_bits(), 1, 0));
    assert!(!cost_exceeds((-0.0f64).to_bits(), 1, 0));
    assert!(cost_exceeds((-0.0f64).to_bits(), 1, -1));
    assert!(cost_exceeds((-1.0f64).to_bits(), 1, i128::MIN));
    assert!(!cost_exceeds(f64::MIN.to_bits(), 1, i128::MIN));
}

#[test]
fn cost_agrees_with_the_float_unit_on_whole_cash() {
    let mut seed = 0xc0ff_ee00_dead_beefu64;
    for _ in 0..200_000 {
        let r = next(&mut seed);
        let p = (r % 10_000_000) as f64 / 1000.0;
        let amount = ((r >> 24) % 10_001) as i64;
        let around = (p * amount as f64) as i64;
        for units in [around - 1, around, around + 1, (next(&mut seed) % 20_000_000) as i64] {
            let by_float = p * amount as f64 > units as f64;
            let got = cost_exceeds(p.to_bits(), amount, units as i128 * 1000);
            assert_eq!(got, by_float, "price {} amount {} cash {}", p, amount, units);
        }
    }
}

#[test]
fn cost_agrees_with_the_float_unit_on_every_kind_of_bits() {
    let mut seed = 0x0bad_cafe_0bad_cafeu64;
    for _ in 0..200_000 {
        let bits = next(&mut seed);
        let amount = (next(&mut seed) >> (1 + next(&mut seed) % 63)) as i64;
        let p = f64::from_bits(bits);
        let units = (next(&mut seed) >> (next(&mut seed) % 64)) as i64 >> 11;
        let by_float = p * amount as f64 > units as f64;
        let got = cost_exceeds(bits, amount, units as i128 * 1000);
        assert_eq!(got, by_float, "bits {:#x} amount {} cash {}", bits, amount, units);
        let got = cost_exceeds(bits, amount, -(units as i128) * 1000);
        assert_eq!(got, p * amount as f64 > -(units as f64), "bits {:#x} amount {}", bits, amount);
    }
}

#[test]
fn weighing_against_powers_of_two() {
    assert!(weigh(3, 2, 11, true));
    assert!(!weigh(3, 2, 12, true));
    assert!(weigh(3, 2, 12, false));
    assert!(!weigh(3, 2, 13, false));
    assert!(weigh(13, -2, 3, true));
    assert!(!weigh(12, -2, 3, true));
    assert!(weigh(12, -2, 3, false));
    assert!(!weigh(11, -2, 3, false));
    assert!(!weigh(0, 900, 0, true));
    assert!(weigh(0, 900, 0, false));
    assert!(weigh(1, 900, 1 << 127, true));
    assert!(!weigh(1, 127, 1 << 127, true));
    assert!(weigh(1, 127, 1 << 127, false));
    assert!(!weigh(1, -900, 1, false));
    assert!(weigh(1, -900, 0, true));
    assert!(weigh(0, -900, 0, false));
    assert!(!weigh(0, -900, 0, true));
}
