use rust_big_int::{BigInt, DecimalFormat, TextAlign};

fn big(x: i128) -> BigInt {
    BigInt::from_i128(x)
}

fn shown(x: &BigInt) -> String {
    x.to_decimal_string(&DecimalFormat::default())
}

fn shown_fmt(x: &BigInt, width: usize, fill: char, align: TextAlign) -> String {
    x.to_decimal_string(&DecimalFormat { sign_shown: false, width, fill, align })
}

#[test]
fn tests_default() {
    let def = BigInt::default();
    assert!(def.positive);
    assert_eq!(def.numbers, [0].to_vec());
}

#[test]
fn tests_new() {
    let new = BigInt::new();
    assert!(new.positive);
    assert_eq!(new.numbers, [0].to_vec());
}

#[test]
fn tests_from() {
    let x = big(20);
    assert!(x.positive);
    assert_eq!(x.numbers, [2, 0].to_vec());
    let x = big(-20);
    assert!(!x.positive);
    assert_eq!(x.numbers, [2, 0].to_vec());
    let x = big(-320020000981234567890_i128);
    assert!(!x.positive);
    assert_eq!(
        x.numbers,
        [3, 2, 0, 0, 2, 0, 0, 0, 0, 9, 8, 1, 2, 3, 4, 5, 6, 7, 8, 9, 0].to_vec()
    );
    let x = big(0);
    assert!(x.positive);
    assert_eq!(x.numbers, [0].to_vec());
    let x = big(-0);
    assert!(x.positive);
    assert_eq!(x.numbers, [0].to_vec());
}

#[test]
fn tests_from_string_numbers() {
    let x = BigInt::from_str("20").unwrap();
    assert!(x.positive);
    assert_eq!(x.numbers, [2, 0].to_vec());
    let x = BigInt::from_str("666").unwrap();
    assert!(x.positive);
    assert_eq!(x.numbers, [6, 6, 6].to_vec());
    let x = BigInt::from_str("-20").unwrap();
    assert!(!x.positive);
    assert_eq!(x.numbers, [2, 0].to_vec());
    let x = BigInt::from_str("-320020000981234567890").unwrap();
    assert!(!x.positive);
    assert_eq!(
        x.numbers,
        [3, 2, 0, 0, 2, 0, 0, 0, 0, 9, 8, 1, 2, 3, 4, 5, 6, 7, 8, 9, 0].to_vec()
    );
    let x = BigInt::from_str("-0").unwrap();
    assert!(x.positive);
    assert_eq!(x.numbers, [0].to_vec());
    let x = BigInt::from_str("0sw");
    assert!(x.is_err());
    let x = BigInt::from_str("0 2020000");
    assert!(x.is_err());
    let x = BigInt::from_str("--200");
    assert!(x.is_err());
    let x = BigInt::from_str("+2000303");
    assert!(x.is_err());
    let x = BigInt::from_str("minus20003002");
    assert!(x.is_err());
}

#[test]
fn tests_from_string_words_from_str_digits() {
    let x = BigInt::from_str("two zero     ").unwrap();
    assert!(x.positive);
    assert_eq!(x.numbers, [2, 0].to_vec());
    let x = BigInt::from_str("minus two four").unwrap();
    assert!(!x.positive);
    assert_eq!(x.numbers, [2, 4].to_vec());
    let x = BigInt::from_str("two five five zero zero two one").unwrap();
    assert!(x.positive);
    assert_eq!(x.numbers, [2, 5, 5, 0, 0, 2, 1].to_vec());
    let x = BigInt::from_str("minus two     zero zero zero zero zero one").unwrap();
    assert!(!x.positive);
    assert_eq!(x.numbers, [2, 0, 0, 0, 0, 0, 1].to_vec());
    let x = BigInt::from_str("zero").unwrap();
    assert!(x.positive);
    assert_eq!(x.numbers, [0].to_vec());
    let x = BigInt::from_str("onse");
    assert!(x.is_err());
    let x = BigInt::from_str("        ");
    assert!(x.is_err());
    let x = BigInt::from_str("twenty thousand thousand");
    assert!(x.is_err());
    let x = BigInt::from_str("twenty thousand hundred");
    assert!(x.is_err());
    let x = BigInt::from_str("- five four").unwrap();
    assert!(!x.positive);
    assert_eq!(x.numbers, [5, 4].to_vec());
}

#[test]
fn try_into() {
    let x = big(666);
    assert_eq!(666_i128, x.try_into_i128().unwrap());
    let x = big(666);
    assert_eq!(666_u128, x.try_into_u128().unwrap());
    let x = big(-123);
    assert_eq!(-123_i128, x.try_into_i128().unwrap());
    let x = big(-123);
    assert_eq!(123_u128, x.try_into_u128().unwrap());
    let x = big(0);
    assert_eq!(0_i128, x.try_into_i128().unwrap());
    let x = big(0);
    assert_eq!(0_u128, x.try_into_u128().unwrap());
    let x = big(10);
    assert_eq!(10_i128, x.try_into_i128().unwrap());
    let x = big(10);
    assert_eq!(10_u128, x.try_into_u128().unwrap());
    let x = big(-123);
    assert_eq!(-123_i8, x.try_into_i8().unwrap());
    let x = big(-123);
    assert_eq!(123_u8, x.try_into_u8().unwrap());
    let x = big(-123);
    assert_eq!(-123_i16, x.try_into_i16().unwrap());
    let x = big(-123);
    assert_eq!(123_u32, x.try_into_u32().unwrap());
    let x = big(-123);
    assert_eq!(-123_i64, x.try_into_i64().unwrap());
    let x = big(-123);
    assert_eq!(123_u64, x.try_into_u64().unwrap());
}

#[test]
#[should_panic]
fn try_into_panic_i128() {
    let x = BigInt::from_str("999999999999999999999999999999999999999999999999999999999").unwrap();
    assert_eq!(666_i128, x.try_into_i128().unwrap());
}

#[test]
#[should_panic]
fn try_into_panic_u128() {
    let x = BigInt::from_str("999999999999999999999999999999999999999999999999999999999").unwrap();
    assert_eq!(666_u128, x.try_into_u128().unwrap());
}

#[test]
fn tests_display() {
    let x = big(1003);
    assert_eq!(
        format!("Number is: {}", shown_fmt(&x, 10, '0', TextAlign::Center)),
        "Number is: 0001003000"
    );
    let x = big(1003);
    assert_eq!(
        format!("Number is: {}", shown_fmt(&x, 11, '0', TextAlign::Center)),
        "Number is: 00010030000"
    );
    let x = big(1003);
    assert_eq!(
        format!("Number is: {}", shown_fmt(&x, 10, '0', TextAlign::Right)),
        "Number is: 0000001003"
    );
    let x = big(1003);
    assert_eq!(
        format!("Number is: {}", shown_fmt(&x, 10, '0', TextAlign::Left)),
        "Number is: 1003000000"
    );
    let x = big(1003);
    assert_eq!(format!("Number is: {}", shown(&x)), "Number is: 1003");
    let x = big(0);
    assert_eq!(format!("Number is: {}", shown(&x)), "Number is: 0");
    let x = big(-100);
    assert_eq!(format!("Number is: {}", shown(&x)), "Number is: -100");
    let x = big(-0);
    assert_eq!(format!("Number is: {}", shown(&x)), "Number is: 0");
    let x = big(-1);
    assert_eq!(format!("Number is: {}", shown(&x)), "Number is: -1");
    let x = big(320020000981234567890_i128);
    assert_eq!(
        format!("Number is: {}", shown(&x)),
        "Number is: 320020000981234567890"
    );
    let x = big(1003);
    assert_eq!(
        format!("Number is: {}", shown_fmt(&x, 10, '-', TextAlign::Right)),
        "Number is: ------1003"
    );
    let x = big(1003);
    assert_eq!(
        format!("Number is: {}", shown_fmt(&x, 9, ' ', TextAlign::Right)),
        "Number is:      1003"
    );
    let x = big(0);
    assert_eq!(
        format!("Number is: {}", shown_fmt(&x, 2, ' ', TextAlign::Right)),
        "Number is:  0"
    );
    let x = big(-100);
    assert_eq!(format!("Number is: {}", shown(&x)), "Number is: -100");
    let x = big(-0);
    assert_eq!(format!("Number is: {}", shown(&x)), "Number is: 0");
    let x = big(-100);
    assert_eq!(
        format!("Number is: {}", shown_fmt(&x, 5, 'X', TextAlign::Right)),
        "Number is: X-100"
    );
    let x = big(-0);
    let plus = x.to_decimal_string(&DecimalFormat {
        sign_shown: true,
        width: 0,
        fill: ' ',
        align: TextAlign::Right,
    });
    assert_eq!(format!("Number is: {}", plus), "Number is: +0");
}

#[test]
fn tests_to_words() {
    let x = big(20);
    assert_eq!(x.to_words(), "two zero");
    let x = big(-24);
    assert_eq!(x.to_words(), "minus two four");
    let x = big(2550021);
    assert_eq!(x.to_words(), "two five five zero zero two one");
    let x = big(-2000000000001_i128);
    assert_eq!(
        x.to_words(),
        "minus two zero zero zero zero zero zero zero zero zero zero zero one"
    );
}

#[test]
fn not() {
    let mut x = big(1);
    assert!(x.positive);
    assert_eq!(shown(&x), "1");
    x = x.neg();
    assert!(!x.positive);
    assert_eq!(shown(&x), "-1");
    x = x.neg();
    assert!(x.positive);
    assert_eq!(shown(&x), "1");
    x = big(-22);
    assert!(!x.positive);
    assert_eq!(shown(&x), "-22");
    x = x.neg();
    assert!(x.positive);
    assert_eq!(shown(&x), "22");
}

#[test]
fn tests_equal() {
    let x = big(10);
    let y = big(10);
    assert!(x == y);
    let x = big(101010);
    let y = big(101010);
    assert!(x == y);
    let x = big(101010);
    let y = big(101210);
    assert!(!(x == y));
    let x = big(101010);
    let y = big(1);
    assert!(!(x == y));
    let x = big(0);
    let y = big(0);
    assert!(x == y);
    let x = big(10);
    let y = big(-10);
    assert!(x != y);
    let x = big(11);
    let y = big(10);
    assert!(x != y);
    let x = big(-0);
    let y = big(0);
    assert!(x == y);
}

#[test]
fn equal_int() {
    let x = big(10);
    assert!(x.eq_native(10));
    let x = big(101010);
    assert!(x.eq_native(101010));
    let x = big(101010);
    assert!(!x.eq_native(101210));
    let x = big(101010);
    assert!(!x.eq_native(1));
    let x = big(0);
    assert!(x.eq_native(0));
    let x = big(10);
    assert!(!x.eq_native(-10));
    let x = big(11);
    assert!(!x.eq_native(10));
    let x = big(-0);
    assert!(x.eq_native(0));
}

#[test]
fn equal_str() {
    let x = big(10);
    assert!(x.eq_str("10"));
    let x = big(101010);
    assert!(x.eq_str("101010"));
    let x = big(101010);
    assert!(!x.eq_str("101210"));
    let x = big(101010);
    assert!(!x.eq_str("1"));
    let x = big(0);
    assert!(x.eq_str("0"));
    let x = big(10);
    assert!(!x.eq_str("-10"));
    let x = big(11);
    assert!(!x.eq_str("10"));
    let x = big(-0);
    assert!(x.eq_str("0"));
}

#[test]
fn tests_greater() {
    let x: BigInt = big(15);
    let y = big(10);
    assert!(x > y);
    let x: BigInt = big(8);
    let y = big(7);
    assert!(x > y);
    let x = big(10);
    let y = big(10);
    assert!(x <= y);
    let x = big(10);
    let y = big(10);
    assert!(x >= y);
    let x = big(101010);
    let y = big(101010);
    assert!(x >= y);
    let x = big(0);
    let y = big(0);
    assert!(x >= y);
    let x = big(10);
    let y = big(-10);
    assert!(x > y);
    let x = big(11);
    let y = big(10);
    assert!(x > y);
}

#[test]
fn tests_lesser() {
    let x: BigInt = big(0);
    let y = big(10);
    assert!(x < y);
    let x: BigInt = big(8);
    let y = big(9);
    assert!(x < y);
    let x = big(10);
    let y = big(10);
    assert!(x >= y);
    let x = big(10);
    let y = big(10);
    assert!(x <= y);
    let x = big(99999999999_i128);
    let y = big(99999999999_i128);
    assert!(x <= y);
    let x = big(0);
    let y = big(0);
    assert!(x <= y);
    let x = big(-10);
    let y = big(10);
    assert!(x < y);
    let x = big(11);
    let y = BigInt::from_u128(99999999999_u128);
    assert!(x < y);
    let x = big(10000010);
    let y = big(20000000);
    assert!(x < y);
}

#[test]
fn tests_add() {
    let mut x: BigInt = big(1000);
    let y = big(10);
    let z = x.add(&y);
    x = x.add(&y);
    assert_eq!(z, big(1010));
    assert_eq!(x, z);

    let mut x: BigInt = big(10);
    let y = big(10);
    let z = x.add(&y);
    x = x.add(&y);
    assert_eq!(z, big(20));
    assert_eq!(x, z);

    let mut x = big(101010);
    let y = big(101010);
    let z = x.add(&y);
    x = x.add(&y);
    assert_eq!(z, big(202020));
    assert_eq!(x, z);

    let mut x = big(0);
    let y = big(0);
    let z = x.add(&y);
    x = x.add(&y);
    assert_eq!(z, big(0));
    assert_eq!(x, z);

    let mut x = big(10);
    let y = big(-10);
    let z = x.add(&y);
    x = x.add(&y);
    assert_eq!(z, big(0));
    assert_ne!(x, y);

    let mut x = big(11);
    let y = big(10);
    let z = x.add(&y);
    x = x.add(&y);
    assert_eq!(z, big(21));
    assert_ne!(x, y);

    let mut x = big(-0);
    let y = big(0);
    let z = x.add(&y);
    x = x.add(&y);
    assert_eq!(z, big(0));
    assert_eq!(x, z);

    let mut x = big(6);
    let y = big(4);
    let z = x.add(&y);
    x = x.add(&y);
    assert_eq!(z, big(10));
    assert_eq!(x, z);

    let mut x = big(-15);
    let y = big(-4);
    let z = x.add(&y);
    x = x.add(&y);
    assert_eq!(z, big(-19));
    assert_eq!(x, z);
}

#[test]
fn tests_sub() {
    let mut x: BigInt = big(10);
    let y = big(10);
    let z = x.sub(&y);
    x = x.sub(&y);
    assert_eq!(z, big(0));
    assert_eq!(x, z);

    let mut x = big(101010);
    let y = big(10);
    let z = x.sub(&y);
    x = x.sub(&y);
    assert_eq!(z, big(101000));
    assert_eq!(x, z);

    let mut x = big(0);
    let y = big(0);
    let z = x.sub(&y);
    x = x.sub(&y);
    assert_eq!(z, big(0));
    assert_eq!(x, z);

    let mut x = big(10);
    let y = big(-10);
    let z = x.sub(&y);
    x = x.sub(&y);
    assert_eq!(z, big(20));
    assert_ne!(x, y);

    let mut x = big(-10);
    let y = big(10);
    let z = x.sub(&y);
    x = x.sub(&y);
    assert_eq!(z, big(-20));
    assert_ne!(x, y);

    let mut x = big(11);
    let y = big(10);
    let z = x.sub(&y);
    x = x.sub(&y);
    assert_eq!(z, big(1));
    assert_ne!(x, y);

    let mut x = big(-0);
    let y = big(0);
    let z = x.sub(&y);
    x = x.sub(&y);
    assert_eq!(z, big(0));
    assert_eq!(x, z);

    let mut x = big(6);
    let y = big(4);
    let z = x.sub(&y);
    x = x.sub(&y);
    assert_eq!(z, big(2));
    assert_eq!(x, z);

    let mut x = big(4);
    let y = big(15);
    let z = x.sub(&y);
    x = x.sub(&y);
    assert_eq!(z, big(-11));
    assert_eq!(x, z);

    let mut x = big(-15);
    let y = big(-4);
    let z = x.sub(&y);
    x = x.sub(&y);
    assert_eq!(z, big(-11));
    assert_eq!(x, z);

    let mut x = big(987654);
    let y = big(987653);
    let z = x.sub(&y);
    x = x.sub(&y);
    assert_eq!(z, big(1));
    assert_eq!(x, z);

    let mut x = big(1);
    let y = big(1000);
    let z = x.sub(&y);
    x = x.sub(&y);
    assert_eq!(z, big(-999));
    assert_eq!(x, z);
}

#[test]
fn tests_mul() {
    let mut x: BigInt = big(10);
    let y = big(10);
    let z: BigInt = x.mul(&y);
    x = x.mul(&y);
    assert_eq!(z, big(100));
    assert_eq!(z, x);

    let mut x = big(101);
    let y = big(101);
    let z = x.mul(&y);
    x = x.mul(&y);
    assert_eq!(z, big(10201));
    assert_eq!(z, x);

    let mut x = big(0);
    let y = big(0);
    let z: BigInt = x.mul(&y);
    x = x.mul(&y);
    assert_eq!(z, big(0));
    assert_eq!(z, x);

    let mut x = BigInt::from_u128(20100000100_u128);
    let y = big(0);
    let z: BigInt = x.mul(&y);
    x = x.mul(&y);
    assert_eq!(z, big(0));
    assert_eq!(z, x);

    let mut x = big(10);
    let y = big(-10);
    let z: BigInt = x.mul(&y);
    x = x.mul(&y);
    assert_eq!(z, big(-100));
    assert_ne!(x, y);

    let mut x = big(11);
    let y = big(10);
    let z: BigInt = x.mul(&y);
    x = x.mul(&y);
    assert_eq!(z, big(110));
    assert_ne!(x, y);

    let mut x = big(-0);
    let y = big(0);
    let z: BigInt = x.mul(&y);
    x = x.mul(&y);
    assert_eq!(z, big(0));
    assert_eq!(x, y);

    let mut x = big(6);
    let y = big(4);
    let z: BigInt = x.mul(&y);
    x = x.mul(&y);
    assert_eq!(z, big(24));
    assert_eq!(x, z);

    let mut x = big(-15);
    let y = big(-4);
    let z: BigInt = x.mul(&y);
    x = x.mul(&y);
    assert_eq!(z, big(60));
    assert_eq!(x, z);
}

#[test]
fn tests_div() {
    let mut x: BigInt = big(10000000);
    let y = big(10);
    let z = x.div(&y);
    x = x.div(&y);
    assert_eq!(z, big(1000000));
    assert_eq!(z, x);

    let mut x = big(101);
    let y = big(101);
    let z = x.div(&y);
    x = x.div(&y);
    assert_eq!(z, big(1));
    assert_eq!(z, x);

    let mut x = BigInt::from_u128(9999_u128);
    let y = big(2);
    let z = x.div(&y);
    x = x.div(&y);
    assert_eq!(z, BigInt::from_u128(4999_u128));
    assert_eq!(z, x);

    let mut x = BigInt::from_str("999999999999999999999999999999999999999999999999999999999999999999999999999999999999999999999999").unwrap();
    let y = big(2);
    let z = x.div(&y);
    x = x.div(&y);
    assert_eq!(
        z,
        BigInt::from_str("499999999999999999999999999999999999999999999999999999999999999999999999999999999999999999999999").unwrap()
    );
    assert_eq!(z, x);

    let mut x = big(0);
    let y = big(2);
    let z = x.div(&y);
    x = x.div(&y);
    assert_eq!(z, big(0));
    assert_eq!(z, x);

    let mut x = big(1);
    let y = big(2);
    let z = x.div(&y);
    x = x.div(&y);
    assert_eq!(z, big(0));
    assert_eq!(z, x);

    let mut x = big(1);
    let y = big(1);
    let z = x.div(&y);
    x = x.div(&y);
    assert_eq!(z, big(1));
    assert_eq!(z, x);

    let mut x = big(0);
    let y = big(666);
    let z = x.div(&y);
    x = x.div(&y);
    assert_eq!(z, big(0));
    assert_eq!(z, x);

    let mut x = big(0);
    let y = big(100);
    let z = x.div(&y);
    x = x.div(&y);
    assert_eq!(z, big(0));
    assert_eq!(z, x);

    let mut x = BigInt::from_u128(20100000100_u128);
    let y = big(20000000);
    let z = x.div(&y);
    x = x.div(&y);
    assert_eq!(z, big(1005));
    assert_eq!(z, x);

    let mut x = big(10);
    let y = big(-10);
    let z = x.div(&y);
    x = x.div(&y);
    assert_eq!(z, big(-1));
    assert_ne!(x, y);

    let mut x = big(110);
    let y = big(10);
    let z = x.div(&y);
    x = x.div(&y);
    assert_eq!(z, big(11));
    assert_ne!(x, y);

    let mut x = big(6);
    let y = big(2);
    let z = x.div(&y);
    x = x.div(&y);
    assert_eq!(z, big(3));
    assert_eq!(x, z);

    let mut x = big(-15);
    let y = big(-5);
    let z = x.div(&y);
    x = x.div(&y);
    assert_eq!(z, big(3));
    assert_eq!(x, z);
}

#[test]
fn remainder() {
    let mut x: BigInt = big(10000);
    let y = big(10);
    let z = x.rem(&y);
    x = x.rem(&y);
    assert_eq!(z, big(0));
    assert_eq!(z, x);

    let mut x: BigInt = big(10);
    let y = big(7);
    let z = x.rem(&y);
    x = x.rem(&y);
    assert_eq!(z, big(3));
    assert_eq!(z, x);

    let mut x: BigInt = big(10000);
    let y = big(10);
    let z = x.rem(&y);
    x = x.rem(&y);
    assert_eq!(z, big(0));
    assert_eq!(z, x);

    let mut x: BigInt = big(-104);
    let y = big(10);
    let z = x.rem(&y);
    x = x.rem(&y);
    assert_eq!(z, big(-4));
    assert_eq!(z, x);

    let mut x: BigInt = big(24);
    let y = big(3);
    let z = x.rem(&y);
    x = x.rem(&y);
    assert_eq!(z, big(0));
    assert_eq!(z, x);

    let mut x: BigInt = big(33);
    let y = big(7);
    let z = x.rem(&y);
    x = x.rem(&y);
    assert_eq!(z, big(5));
    assert_eq!(z, x);
}

#[test]
fn power_of() {
    let x: BigInt = big(2);
    let y = big(2);
    let z = x.pow(&y);
    assert_eq!(z, big(4));

    let x: BigInt = big(2);
    let y = big(1);
    let z = x.pow(&y);
    assert_eq!(z, big(2));

    let x: BigInt = big(1);
    let y = big(1000000);
    let z = x.pow(&y);
    assert_eq!(z, big(1));

    let x: BigInt = big(3);
    let y = big(3);
    let z = x.pow(&y);
    assert_eq!(z, big(27));

    let x: BigInt = big(-3);
    let y = big(3);
    let z = x.pow(&y);
    assert_eq!(z, big(-27));

    let x: BigInt = big(-3);
    let y = big(2);
    let z = x.pow(&y);
    assert_eq!(z, big(9));

    let x: BigInt = big(2);
    let y = big(-1);
    let z = x.pow(&y);
    assert_eq!(z, big(0));

    let x: BigInt = big(1);
    let y = big(-10);
    let z = x.pow(&y);
    assert_eq!(z, big(1));

    let x: BigInt = big(5);
    let y = big(-10);
    let z = x.pow(&y);
    assert_eq!(z, big(0));
}
