use to_str::{Address, Buffer, Buffer128, Buffer32, Buffer64, Buffer8, BufferSized, ToStr};

#[test]
fn references_convert_like_their_targets() {
    let mut text = String::new();
    text.push_str(Buffer64::fmt(5usize).as_str());
    assert_eq!(text, "5");
    text.push_str(Buffer64::fmt(0usize).as_str());
    assert_eq!(text, "50");
    text.push_str(Buffer64::fmt(&5usize).as_str());
    assert_eq!(text, "505");
    text.push_str(Buffer64::fmt(&mut 0usize).as_str());
    assert_eq!(text, "5050");
}

#[test]
fn fresh_buffer_reports_empty_text() {
    let buffer = Buffer128::new();
    assert_eq!(buffer.as_str(), "");
    assert_eq!(Buffer8::new().as_str(), "");
}

#[test]
fn capacity_matches_declared_width() {
    assert_eq!(Buffer8::capacity(), 4);
    assert_eq!(Buffer32::capacity(), 11);
    assert_eq!(Buffer64::capacity(), 21);
    assert_eq!(BufferSized::capacity(), 21);
    assert_eq!(Buffer128::capacity(), 40);
}

#[test]
fn write_then_as_str_matches_format_on_fresh_buffer() {
    let mut reused = Buffer64::new();
    reused.write(918273645u64);
    let written = reused.write(5500u16).to_string();
    assert_eq!(written, reused.as_str());

    let mut fresh = Buffer64::new();
    let formatted = fresh.format(5500u16).to_string();
    assert_eq!(written, formatted);
}

#[test]
fn write_leaves_no_byte_of_an_earlier_value() {
    let mut buffer = Buffer128::new();
    let first = buffer.write(123456789u32).to_string();
    assert_eq!(first, "123456789");
    let second = buffer.write(7u8).to_string();
    assert_eq!(second, "7");
    assert_eq!(buffer.as_str(), "7");
    assert_eq!(buffer.as_str().len(), 1);
}

#[test]
fn format_does_not_move_the_remembered_span() {
    let mut buffer = Buffer128::new();
    buffer.write(42u8);
    let formatted = buffer.format(7_000_000u32).to_string();
    assert_eq!(formatted, "7000000");
    assert_eq!(buffer.as_str().len(), 2);
}

#[test]
fn to_str_if_rejects_an_undersized_buffer() {
    let mut small = [0u8; 2];
    assert_eq!(255u8.to_str_if(&mut small), None);
    assert_eq!(70000u128.to_str_if(&mut small), None);

    let mut exact = [0u8; 3];
    assert_eq!(255u8.to_str_if(&mut exact), Some("255"));

    let mut wide = [0u8; 64];
    assert_eq!((-1i64).to_str_if(&mut wide), Some("-1"));
}

#[test]
fn text_fills_the_declared_size_at_the_extremes() {
    let mut buffer = Buffer128::new();
    assert_eq!(buffer.format_u8(u8::MAX).len(), 3);
    assert_eq!(buffer.format_u16(u16::MAX).len(), 5);
    assert_eq!(buffer.format_u32(u32::MAX).len(), 10);
    assert_eq!(buffer.format_u64(u64::MAX).len(), 20);
    assert_eq!(buffer.format_u128(u128::MAX).len(), 39);
    assert_eq!(buffer.format_i8(i8::MIN).len(), 4);
    assert_eq!(buffer.format_i16(i16::MIN).len(), 6);
    assert_eq!(buffer.format_i32(i32::MIN).len(), 11);
    assert_eq!(buffer.format_i128(i128::MIN).len(), 40);
    // The 64-bit signed minimum is the one extreme whose text stays a byte
    // under the declared size: its magnitude has 19 digits, not 20.
    assert_eq!(buffer.format_i64(i64::MIN).len(), 20);
}

#[test]
fn sign_handling_is_exact() {
    let mut buffer = Buffer64::new();
    assert_eq!(buffer.format_i8(-1), "-1");
    assert_eq!(buffer.format_i16(-1), "-1");
    assert_eq!(buffer.format_i32(-1), "-1");
    assert_eq!(buffer.format_i64(-1), "-1");
    assert_eq!(buffer.format_isize(-1), "-1");
    assert_eq!(Buffer128::new().format_i128(-1), "-1");
    assert_eq!(buffer.format_i8(i8::MIN), "-128");
    assert_eq!(buffer.format_i16(i16::MIN), "-32768");
    assert_eq!(buffer.format_i64(i64::MIN), i64::MIN.to_string());
}

#[test]
fn zero_has_a_single_digit_in_every_width() {
    let mut buffer = Buffer128::new();
    assert_eq!(buffer.format_u8(0), "0");
    assert_eq!(buffer.format_u16(0), "0");
    assert_eq!(buffer.format_u32(0), "0");
    assert_eq!(buffer.format_u64(0), "0");
    assert_eq!(buffer.format_usize(0), "0");
    assert_eq!(buffer.format_u128(0), "0");
    assert_eq!(buffer.format_i8(0), "0");
    assert_eq!(buffer.format_i128(0), "0");
}

#[test]
fn no_leading_zeros_around_group_boundaries() {
    let mut buffer = Buffer128::new();
    assert_eq!(buffer.format_u64(10_000_000_000_000_000_000u64), "10000000000000000000");
    assert_eq!(buffer.format_u128(10_000_000_000_000_000_000u128), "10000000000000000000");
    assert_eq!(
        buffer.format_u128(9_999_999_999_999_999_999u128),
        "9999999999999999999"
    );
    assert_eq!(
        buffer.format_u128(70000010000000100001u128),
        "70000010000000100001"
    );
    assert_eq!(
        buffer.format_u128(100000000000000000000000000000000000000u128),
        "100000000000000000000000000000000000000"
    );
}

#[test]
fn addresses_format_as_unpadded_lower_hex() {
    let mut buffer = Buffer::<22>::new();
    assert_eq!(buffer.write(Address::new(0)), "0x0");
    assert_eq!(buffer.write(Address::new(1)), "0x1");
    assert_eq!(buffer.write(Address::new(0xdeadbeef)), "0xdeadbeef");
    let expected = format!("{:#x}", usize::MAX);
    assert_eq!(buffer.write(Address::new(usize::MAX)), expected);
}

#[test]
fn chunk_boundaries_format_exactly() {
    let mut buffer = Buffer128::new();
    for num in [9u64, 10, 99, 100, 999, 1000, 9999, 10000, 99999999, 100000000] {
        assert_eq!(buffer.format_u64(num), num.to_string());
    }
    for num in [9u8, 10, 99, 100] {
        assert_eq!(buffer.format_u8(num), num.to_string());
    }
    let mut addr = Buffer::<22>::new();
    for num in [15usize, 16, 255, 256, 4095, 4096] {
        let expected = format!("{:#x}", num);
        assert_eq!(addr.write(Address::new(num)), expected);
    }
}

#[test]
fn wide_division_by_ten_to_the_nineteenth_is_exact() {
    let samples = [
        0u128,
        1,
        9_999_999_999_999_999_999,
        10_000_000_000_000_000_000,
        12345678901234567890123456789,
        u128::MAX,
        (1u128 << 83) - 1,
        1u128 << 83,
        (1u128 << 83) + 1,
    ];
    for n in samples {
        let mut q = n;
        let r = to_str::numeric::udivmod_1e19(&mut q);
        assert_eq!(q, n / 10_000_000_000_000_000_000);
        assert_eq!(r as u128, n % 10_000_000_000_000_000_000);
    }
}

#[test]
fn every_width_agrees_with_the_reference_formatter() {
    let mut buffer = Buffer128::new();
    let mut n = 1u128;
    while n < u128::MAX / 7 {
        assert_eq!(buffer.format_u128(n), n.to_string());
        if n <= u64::MAX as u128 {
            assert_eq!(buffer.format_u64(n as u64), (n as u64).to_string());
        }
        if n <= u32::MAX as u128 {
            assert_eq!(buffer.format_u32(n as u32), (n as u32).to_string());
        }
        if n <= i64::MAX as u128 {
            let v = -(n as i64);
            assert_eq!(buffer.format_i64(v), v.to_string());
        }
        n = n * 7 + 3;
    }
}
