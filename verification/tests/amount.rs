use mineore::amount::amount_u64_to_string;

fn by_division(amount: u64) -> String {
    (amount as f64 / 10f64.powf(11.0)).to_string()
}

#[test]
fn amounts_in_words() {
    assert_eq!(amount_u64_to_string(0), "0");
    assert_eq!(amount_u64_to_string(1), "0.00000000001");
    assert_eq!(amount_u64_to_string(2_000_000_000), "0.02");
    assert_eq!(amount_u64_to_string(100_000_000_000), "1");
    assert_eq!(amount_u64_to_string(150_000_000_000), "1.5");
    assert_eq!(amount_u64_to_string(123_456_789_012_345), "1234.56789012345");
    assert_eq!(amount_u64_to_string(u64::MAX), "184467440.7370955");
    assert_eq!(amount_u64_to_string(u64::MAX), by_division(u64::MAX));
}

#[test]
fn amounts_at_powers() {
    for shift in 0..64u32 {
        let power = 1u64 << shift;
        for amount in [power - 1, power, power + 1] {
            assert_eq!(amount_u64_to_string(amount), by_division(amount));
        }
    }
    let mut ten = 1u64;
    for _ in 0..19 {
        for digit in 1..10u64 {
            if let Some(amount) = ten.checked_mul(digit) {
                for near in [amount - 1, amount, amount + 1] {
                    assert_eq!(amount_u64_to_string(near), by_division(near));
                }
            }
        }
        ten = ten.wrapping_mul(10);
    }
}

#[test]
fn amounts_between_two_decimals() {
    // An amount in the middle between two shortest decimals.
    let amount = 13_421_772_700_195_312_500;
    assert_eq!(amount_u64_to_string(amount), by_division(amount));
    for step in 0..2000u64 {
        let near = amount - 1_000_000 + step * 1_000;
        assert_eq!(amount_u64_to_string(near), by_division(near));
    }
}

#[test]
fn amounts_all_over() {
    let mut state = 0x9e37_79b9_7f4a_7c15u64;
    for round in 0..20_000u32 {
        state = state
            .wrapping_mul(6_364_136_223_846_793_005)
            .wrapping_add(1_442_695_040_888_963_407);
        let amount = state >> (round % 64);
        assert_eq!(amount_u64_to_string(amount), by_division(amount));
    }
}

#[test]
fn small_amounts_have_all_their_digits() {
    // Below 65536 ORE the text is the amount itself, digit for digit.
    for amount in [1u64, 99_999_999_999, 6_553_599_999_999_999, 6_500_000_000_000_001] {
        let text = amount_u64_to_string(amount);
        let (whole, part) = match text.split_once('.') {
            Some((whole, part)) => (whole.to_string(), part.to_string()),
            None => (text.clone(), String::new()),
        };
        let digits = format!("{}{:0<11}", whole, part);
        assert_eq!(digits.trim_start_matches('0'), amount.to_string());
    }
}

#[test]
fn amounts_are_plain_decimals() {
    let mut amount = 1u64;
    for step in 0..2_000u64 {
        amount = amount.wrapping_mul(6_364_136_223_846_793_005).wrapping_add(step);
        let amount = amount >> (step % 64);
        let text = amount_u64_to_string(amount);
        let parts: Vec<&str> = text.split('.').collect();
        assert!(parts.len() <= 2);
        for part in parts {
            assert!(!part.is_empty() && part.bytes().all(|byte| byte.is_ascii_digit()));
        }
        assert_eq!(text.parse::<f64>(), Ok(amount as f64 / 10f64.powf(11.0)));
    }
}
