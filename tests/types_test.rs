use bignum::types::{from_string, shift_left, string_add, string_mult, BASE_STR};

#[test]
fn string_add_test() {
    assert_eq!(string_add(&mut "123".to_string(), "123"), "246");
    assert_eq!(string_add(&mut "123".to_string(), "0"), "123");
    assert_eq!(string_add(&mut "123".to_string(), "10000"), "10123");
    assert_eq!(string_add(&mut "123456789".to_string(), "987654321"), "1111111110");
}

#[test]
fn string_mult_test() {
    assert_eq!(string_mult(&mut "3".to_string(), "3"), "9");
    assert_eq!(string_mult(&mut "0".to_string(), "999"), "0");
    assert_eq!(string_mult(&mut "123".to_string(), "241"), "29643");
    assert_eq!(string_mult(&mut "349".to_string(), "807"), "281643");
    assert_eq!(string_mult(&mut "55555".to_string(), "66666"), "3703629630");
}

#[test]
fn type_conversion_test() {
    let examples = vec!(
        "0",
        "1",
        "-1",
        "63",
        "-69",
        "-9877",
        "11111111111111111111",
        "-952892589210459282926222035",
        "12193263132251181129",
    );
    for string_rep in examples {
        let big = from_string(string_rep).unwrap();
        assert_eq!(string_rep, big.to_string());
    }
}

#[test]
fn equality_test() {
    assert!(from_string("123").unwrap() == from_string("123").unwrap());
    assert!(from_string("123").unwrap() != from_string("-123").unwrap());
    assert!(from_string("123").unwrap() != from_string("124").unwrap());
}

#[test]
fn shift_left_test() {
    let num: u64 = 123;
    let mut b = from_string(&num.to_string()).unwrap();
    shift_left(&mut b, 3);

    let mut str = num.to_string();
    let mut once = string_mult(&mut str, BASE_STR).to_string();
    let mut twice = string_mult(&mut once, BASE_STR).to_string();
    let thrice = string_mult(&mut twice, BASE_STR).to_string();
    assert_eq!(b.to_string(), thrice.to_owned());
}
