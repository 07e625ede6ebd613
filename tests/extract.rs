use detect_core::byte::ByteBase;
use detect_core::extract::{extract_binary, extract_text};
use detect_core::math::{apply_op, MathOp};

#[test]
fn two_bytes_in_each_order() {
    let buf = [0x01u8, 0x02];
    assert_eq!(extract_binary(&buf, 0, 0, 2, false), Some(258));
    assert_eq!(extract_binary(&buf, 0, 0, 2, true), Some(513));
}

#[test]
fn eight_bytes_and_limits() {
    let buf = [0xffu8; 9];
    assert_eq!(extract_binary(&buf, 0, 0, 8, false), Some(u64::MAX));
    assert_eq!(extract_binary(&buf, 0, 0, 9, false), None);
    assert_eq!(extract_binary(&buf, 0, 0, 0, false), None);
    let b = [1u8, 2, 3, 4, 5, 6, 7, 8];
    assert_eq!(extract_binary(&b, 0, 0, 8, false), Some(0x0102030405060708));
    assert_eq!(extract_binary(&b, 0, 0, 8, true), Some(0x0807060504030201));
}

#[test]
fn offsets_from_cursor() {
    let buf = [0u8, 0x10, 0x20, 0x30];
    assert_eq!(extract_binary(&buf, 2, 1, 1, false), Some(0x30));
    assert_eq!(extract_binary(&buf, 2, -1, 2, false), Some(0x1020));
    assert_eq!(extract_binary(&buf, 1, -2, 1, false), None);
    assert_eq!(extract_binary(&buf, 3, 0, 2, false), None);
    assert_eq!(extract_binary(&buf, 10, 0, 1, false), None);
}

#[test]
fn text_in_each_base() {
    let buf = b"x1f7";
    assert_eq!(extract_text(buf, 0, 1, 2, ByteBase::BaseHex), Some(0x1f));
    assert_eq!(extract_text(buf, 0, 3, 1, ByteBase::BaseOct), Some(7));
    assert_eq!(extract_text(b"123", 0, 0, 3, ByteBase::BaseDec), Some(123));
    assert_eq!(extract_text(b"18", 0, 0, 2, ByteBase::BaseOct), None);
    assert_eq!(extract_text(b"1f", 0, 0, 2, ByteBase::BaseDec), None);
    assert_eq!(extract_text(b"12", 0, 0, 3, ByteBase::BaseDec), None);
}

#[test]
fn text_beyond_u64_is_rejected() {
    assert_eq!(extract_text(b"18446744073709551615", 0, 0, 20, ByteBase::BaseDec), Some(u64::MAX));
    assert_eq!(extract_text(b"18446744073709551616", 0, 0, 20, ByteBase::BaseDec), None);
    assert_eq!(extract_text(b"000000000000000000001", 0, 0, 21, ByteBase::BaseDec), Some(1));
}

#[test]
fn operators() {
    assert_eq!(apply_op(MathOp::Add, 2, 3), Some(5));
    assert_eq!(apply_op(MathOp::Add, u64::MAX, 1), None);
    assert_eq!(apply_op(MathOp::Sub, 2, 3), None);
    assert_eq!(apply_op(MathOp::Sub, 7, 3), Some(4));
    assert_eq!(apply_op(MathOp::Mult, 6, 7), Some(42));
    assert_eq!(apply_op(MathOp::Mult, u64::MAX, 2), None);
    assert_eq!(apply_op(MathOp::Div, 7, 2), Some(3));
    assert_eq!(apply_op(MathOp::Div, 7, 0), None);
    assert_eq!(apply_op(MathOp::LShift, 1, 4), Some(16));
    assert_eq!(apply_op(MathOp::LShift, u64::MAX, 1), None);
    assert_eq!(apply_op(MathOp::LShift, 1, 64), None);
    assert_eq!(apply_op(MathOp::RShift, 256, 4), Some(16));
    assert_eq!(apply_op(MathOp::RShift, 256, 64), None);
}

#[test]
fn text_length_limits() {
    let digits = [b'0'; 24];
    assert_eq!(extract_text(&digits, 0, 0, 23, ByteBase::BaseDec), Some(0));
    assert_eq!(extract_text(&digits, 0, 0, 24, ByteBase::BaseDec), None);
    assert_eq!(extract_text(&digits, 0, 0, 0, ByteBase::BaseDec), None);
    assert_eq!(extract_text(b"17", 1, -1, 2, ByteBase::BaseOct), Some(0o17));
}
