use keycrypto::roll::{add_one, generate_key, roll_digit, sub_one, unroll_crypt, unroll_digit};

#[test]
fn add_one_steps_through_the_cycle() {
    let cycle = ['0', '1', '2', '3', '4', '5', '6', '7', '8', '9'];
    for i in 0..10 {
        assert_eq!(add_one(cycle[i]), cycle[(i + 1) % 10]);
    }
}

#[test]
fn sub_one_steps_back_through_the_cycle() {
    let cycle = ['0', '1', '2', '3', '4', '5', '6', '7', '8', '9'];
    for i in 0..10 {
        assert_eq!(sub_one(cycle[(i + 1) % 10]), cycle[i]);
    }
}

#[test]
fn add_one_wraps_from_nine_to_zero() {
    assert_eq!(add_one('9'), '0');
    assert_eq!(sub_one('0'), '9');
}

#[test]
fn roll_digit_advances_by_the_amount() {
    assert_eq!(roll_digit('6', 1), '7');
    assert_eq!(roll_digit('8', 1), '9');
    assert_eq!(roll_digit('0', 3), '3');
    assert_eq!(roll_digit('7', 5), '2');
    assert_eq!(roll_digit('9', 9), '8');
}

#[test]
fn unroll_digit_retreats_by_the_amount() {
    assert_eq!(unroll_digit('7', 1), '6');
    assert_eq!(unroll_digit('9', 1), '8');
    assert_eq!(unroll_digit('3', 3), '0');
    assert_eq!(unroll_digit('2', 5), '7');
    assert_eq!(unroll_digit('0', 1), '9');
}

#[test]
fn rolling_counts_only_the_last_place_of_the_amount() {
    for digit in '0'..='9' {
        assert_eq!(roll_digit(digit, 10), digit);
        assert_eq!(roll_digit(digit, 1_000_000), digit);
        assert_eq!(roll_digit(digit, 13), roll_digit(digit, 3));
        assert_eq!(roll_digit(digit, 4_294_967_295), roll_digit(digit, 5));
        assert_eq!(unroll_digit(digit, 4_294_967_295), unroll_digit(digit, 5));
    }
    assert_eq!(roll_digit('4', 4_294_967_295), '9');
    assert_eq!(unroll_digit('4', 4_294_967_295), '9');
    assert_eq!(roll_digit('4', 123_456_789), '3');
}

#[test]
fn roll_is_the_amount_of_single_steps() {
    for digit in '0'..='9' {
        let mut stepped = digit;
        let mut back = digit;
        for amount in 1..=25u32 {
            stepped = add_one(stepped);
            back = sub_one(back);
            assert_eq!(roll_digit(digit, amount), stepped);
            assert_eq!(unroll_digit(digit, amount), back);
        }
    }
}

#[test]
fn unroll_undoes_roll_for_every_digit() {
    for key in [1u32, 2, 3, 7, 9, 10, 11, 99, 100, 12_345, 4_294_967_295] {
        for digit in '0'..='9' {
            assert_eq!(unroll_digit(roll_digit(digit, key), key), digit);
            assert_eq!(roll_digit(unroll_digit(digit, key), key), digit);
        }
    }
}

#[test]
fn unroll_crypt_rolls_every_digit_back_in_place() {
    assert_eq!(unroll_crypt("79".to_string(), 1), "68");
    assert_eq!(unroll_crypt("0123456789".to_string(), 3), "7890123456");
    assert_eq!(unroll_crypt("0123456789".to_string(), 10), "0123456789");
    assert_eq!(unroll_crypt(String::new(), 4), "");
}

#[test]
fn unroll_crypt_keeps_the_order_of_a_long_run() {
    let mut crypt = String::new();
    let mut expected = String::new();
    for i in 0..5_000u32 {
        let digit = char::from_digit(i * 7 % 10, 10).unwrap();
        crypt.push(digit);
        expected.push(unroll_digit(digit, 4));
    }
    assert_eq!(unroll_crypt(crypt, 4), expected);
}

#[test]
fn generate_key_draws_without_failing() {
    let drawn: Vec<u32> = (0..64).map(|_| generate_key()).collect();
    assert_eq!(drawn.len(), 64);
}
