use to_str::{Address, Buffer128, ToStr};

#[test]
fn should_check_const_foramt() {
    let mut buffer = Buffer128::new();

    let result = buffer.format_u8(u8::max_value());
    assert_eq!(result, "255");
    assert_eq!(result, Buffer128::fmt_u8(u8::max_value()).as_str());

    let result = buffer.format_u16(u16::max_value());
    assert_eq!(result, u16::max_value().to_string());
    assert_eq!(result, Buffer128::fmt_u16(u16::max_value()).as_str());

    let result = buffer.format_u32(u32::max_value());
    assert_eq!(result, u32::max_value().to_string());
    assert_eq!(result, Buffer128::fmt_u32(u32::max_value()).as_str());

    let result = buffer.format_u64(u64::max_value());
    assert_eq!(result, u64::max_value().to_string());
    assert_eq!(result, Buffer128::fmt_u64(u64::max_value()).as_str());

    let result = buffer.format_usize(usize::max_value());
    assert_eq!(result, usize::max_value().to_string());
    assert_eq!(result, Buffer128::fmt_usize(usize::max_value()).as_str());

    let result = buffer.format_u128(u128::max_value());
    assert_eq!(result, u128::max_value().to_string());
    assert_eq!(result, Buffer128::fmt_u128(u128::max_value()).as_str());

    let result = buffer.format_i8(i8::max_value());
    assert_eq!(result, "127");
    assert_eq!(result, Buffer128::fmt_i8(i8::max_value()).as_str());

    let result = buffer.format_i8(i8::min_value());
    assert_eq!(result, "-128");
    assert_eq!(result, Buffer128::fmt_i8(i8::min_value()).as_str());

    let result = buffer.format_i16(i16::max_value());
    assert_eq!(result, i16::max_value().to_string());
    assert_eq!(result, Buffer128::fmt_i16(i16::max_value()).as_str());

    let result = buffer.format_i16(i16::min_value());
    assert_eq!(result, i16::min_value().to_string());
    assert_eq!(result, Buffer128::fmt_i16(i16::min_value()).as_str());

    let result = buffer.format_i32(i32::max_value());
    assert_eq!(result, i32::max_value().to_string());
    assert_eq!(result, Buffer128::fmt_i32(i32::max_value()).as_str());

    let result = buffer.format_i32(i32::min_value());
    assert_eq!(result, i32::min_value().to_string());
    assert_eq!(result, Buffer128::fmt_i32(i32::min_value()).as_str());

    let result = buffer.format_i64(i64::max_value());
    assert_eq!(result, i64::max_value().to_string());
    assert_eq!(result, Buffer128::fmt_i64(i64::max_value()).as_str());

    let result = buffer.format_i64(i64::min_value());
    assert_eq!(result, i64::min_value().to_string());
    assert_eq!(result, Buffer128::fmt_i64(i64::min_value()).as_str());

    let result = buffer.format_isize(isize::max_value());
    assert_eq!(result, isize::max_value().to_string());
    assert_eq!(result, Buffer128::fmt_isize(isize::max_value()).as_str());

    let result = buffer.format_isize(isize::min_value());
    assert_eq!(result, isize::min_value().to_string());
    assert_eq!(result, Buffer128::fmt_isize(isize::min_value()).as_str());

    let result = buffer.format_i128(i128::max_value());
    assert_eq!(result, i128::max_value().to_string());
    assert_eq!(result, Buffer128::fmt_i128(i128::max_value()).as_str());
}

#[test]
fn should_convert_u8() {
    let mut buffer = [0u8; 3];
    for num in [u8::min_value(), 10, 100, 150, u8::max_value()] {
        let expected = format!("{}", num);
        assert_eq!(num.to_str(&mut buffer), expected);
    }
}

#[test]
fn should_convert_u16() {
    let mut buffer = [0u8; 5];
    for num in [u16::min_value(), 10, 105, 10_500, 50_123, u16::max_value()] {
        let expected = format!("{}", num);
        assert_eq!(num.to_str(&mut buffer), expected);
    }
}

#[test]
fn should_convert_u32() {
    let mut buffer = [0u8; 10];
    for num in [u32::min_value(), 10, 105, 10_500, 50_123, 250_987, u32::max_value()] {
        let expected = format!("{}", num);
        assert_eq!(num.to_str(&mut buffer), expected);
    }
}

#[test]
fn should_convert_u128() {
    let mut buffer = [0u8; 39];
    let mut num = u128::max_value();
    loop {
        let expected = format!("{}", num);
        assert_eq!(num.to_str(&mut buffer), expected);

        if num == 0 {
            break;
        }

        num /= u8::max_value() as u128;
    }
}

#[test]
fn should_convert_u128_without_missing_leading_zeros() {
    let mut buffer = [0u8; 39];

    let inputs = [
        70000010000000100001u128,
        300000000000000000000000000000000000000u128,
    ];

    for input in inputs {
        let expected = format!("{}", input);
        assert_eq!(expected, input.to_str(&mut buffer));
    }
}

#[test]
fn should_convert_i8() {
    let mut buffer = [0u8; 4];
    for num in [i8::min_value(), -11, 0, 11, i8::max_value()] {
        let expected = format!("{}", num);
        assert_eq!(num.to_str(&mut buffer), expected);
    }
}

#[test]
fn should_convert_i16() {
    let mut buffer = [0u8; 6];
    for num in [i16::min_value(), -5_100, -11, 0, 11, 5_100, i16::max_value()] {
        let expected = format!("{}", num);
        assert_eq!(num.to_str(&mut buffer), expected);
    }
}

#[test]
fn should_convert_i32() {
    let mut buffer = [0u8; 11];
    for num in [i32::min_value(), -250_765, -15_100, -11, 0, 11, 15_100, 250_765, i32::max_value()] {
        let expected = format!("{}", num);
        assert_eq!(num.to_str(&mut buffer), expected);
    }
}

#[test]
fn should_convert_i128() {
    let mut buffer = [0u8; 40];
    let mut num = i128::max_value();

    loop {
        let expected = format!("{}", num);
        assert_eq!(num.to_str(&mut buffer), expected);

        if num == 0 {
            break;
        }

        num /= u8::max_value() as i128;
    }

    num = i128::min_value();

    loop {
        let expected = format!("{}", num);
        assert_eq!(num.to_str(&mut buffer), expected);

        if num == 0 {
            break;
        }

        num /= u8::max_value() as i128;
    }
}

#[test]
fn should_convert_ptr() {
    let mut buffer = [0u8; 22];
    let mut num = usize::max_value();

    loop {
        let expected = format!("{:#x}", num);
        assert_eq!(Address::new(num).to_str(&mut buffer), expected);

        if num == 0 {
            break;
        }

        num /= u8::max_value() as usize;
    }
}
