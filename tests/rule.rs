use detect_core::byte::{ByteBase, ByteEndian};
use detect_core::math::MathOp;
use detect_core::rule::{compile_rule, evaluate_rule, Arith, CompileError, ExtractKeyword, Operand};

fn kw(offset: i32, length: usize, endian: ByteEndian) -> ExtractKeyword {
    ExtractKeyword { length, offset, endian, base: None, arith: None, bind: None }
}

#[test]
fn chained_name_resolves() {
    let mut first = kw(0, 1, ByteEndian::BigEndian);
    first.bind = Some("len".to_string());
    let mut second = kw(1, 1, ByteEndian::BigEndian);
    second.arith = Some(Arith { op: MathOp::Add, operand: Operand::Named("len".to_string()) });
    let rule = vec![first, second];
    assert_eq!(compile_rule(&rule), Ok(()));
    let vals = evaluate_rule(&rule, &[5u8, 7], 0, false);
    assert_eq!(vals, vec![Some(5), Some(12)]);
}

#[test]
fn forward_reference_rejected() {
    let mut first = kw(0, 1, ByteEndian::BigEndian);
    first.arith = Some(Arith { op: MathOp::Add, operand: Operand::Named("len".to_string()) });
    let mut second = kw(1, 1, ByteEndian::BigEndian);
    second.bind = Some("len".to_string());
    let rule = vec![first, second];
    assert_eq!(compile_rule(&rule), Err(CompileError::UnboundName { index: 0 }));
}

#[test]
fn runtime_zero_divisor_only_fails_its_keyword() {
    let mut divisor = kw(0, 1, ByteEndian::BigEndian);
    divisor.bind = Some("d".to_string());
    let mut div = kw(1, 1, ByteEndian::BigEndian);
    div.arith = Some(Arith { op: MathOp::Div, operand: Operand::Named("d".to_string()) });
    let other = kw(1, 1, ByteEndian::BigEndian);
    let rule = vec![divisor, div, other];
    assert_eq!(compile_rule(&rule), Ok(()));
    assert_eq!(evaluate_rule(&rule, &[0u8, 9], 0, false), vec![Some(0), None, Some(9)]);
    assert_eq!(evaluate_rule(&rule, &[3u8, 9], 0, false), vec![Some(3), Some(3), Some(9)]);
}

#[test]
fn compile_errors() {
    assert_eq!(compile_rule(&vec![kw(0, 9, ByteEndian::BigEndian)]), Err(CompileError::BadLength { index: 0 }));
    assert_eq!(compile_rule(&vec![kw(0, 0, ByteEndian::BigEndian)]), Err(CompileError::BadLength { index: 0 }));
    let mut text = kw(0, 23, ByteEndian::BigEndian);
    text.base = Some(ByteBase::BaseDec);
    assert_eq!(compile_rule(&vec![text]), Ok(()));
    let mut dce = kw(0, 2, ByteEndian::EndianDCE);
    dce.base = Some(ByteBase::BaseHex);
    assert_eq!(compile_rule(&vec![kw(0, 1, ByteEndian::BigEndian), dce]), Err(CompileError::BaseWithDce { index: 1 }));
    let mut zero = kw(0, 1, ByteEndian::BigEndian);
    zero.arith = Some(Arith { op: MathOp::Div, operand: Operand::Literal(0) });
    assert_eq!(compile_rule(&vec![zero]), Err(CompileError::BadOperand { index: 0 }));
    let mut shift = kw(0, 1, ByteEndian::BigEndian);
    shift.arith = Some(Arith { op: MathOp::LShift, operand: Operand::Literal(64) });
    assert_eq!(compile_rule(&vec![shift]), Err(CompileError::BadOperand { index: 0 }));
    assert_eq!(compile_rule(&vec![]), Ok(()));
}

#[test]
fn dce_order_and_missing_bytes() {
    let rule = vec![kw(0, 2, ByteEndian::EndianDCE)];
    assert_eq!(evaluate_rule(&rule, &[1u8, 2], 0, true), vec![Some(513)]);
    assert_eq!(evaluate_rule(&rule, &[1u8, 2], 0, false), vec![Some(258)]);
    assert_eq!(evaluate_rule(&rule, &[1u8], 0, false), vec![None]);
}

#[test]
fn literal_arithmetic_and_text() {
    let mut k = kw(0, 2, ByteEndian::LittleEndian);
    k.arith = Some(Arith { op: MathOp::Mult, operand: Operand::Literal(2) });
    let mut t = kw(2, 2, ByteEndian::BigEndian);
    t.base = Some(ByteBase::BaseHex);
    assert_eq!(evaluate_rule(&vec![k, t], b"\x01\x00ff", 0, false), vec![Some(2), Some(255)]);
}

#[test]
fn zero_divisor_leaves_non_consumers_as_with_nonzero() {
    let build = |divisor_operand: Operand| {
        let mut divisor = kw(0, 1, ByteEndian::BigEndian);
        divisor.bind = Some("d".to_string());
        let mut div = kw(1, 1, ByteEndian::BigEndian);
        div.arith = Some(Arith { op: MathOp::Div, operand: divisor_operand });
        div.bind = Some("q".to_string());
        let mut consumer = kw(2, 1, ByteEndian::BigEndian);
        consumer.arith = Some(Arith { op: MathOp::Add, operand: Operand::Named("q".to_string()) });
        let mut bystander = kw(2, 1, ByteEndian::BigEndian);
        bystander.arith = Some(Arith { op: MathOp::Add, operand: Operand::Named("d".to_string()) });
        vec![divisor, div, consumer, bystander]
    };
    let zero = evaluate_rule(&build(Operand::Named("d".to_string())), &[0u8, 8, 1], 0, false);
    let nonzero = evaluate_rule(&build(Operand::Literal(2)), &[0u8, 8, 1], 0, false);
    assert_eq!(zero, vec![Some(0), None, None, Some(1)]);
    assert_eq!(nonzero, vec![Some(0), Some(4), Some(5), Some(1)]);
}
