use vstd::prelude::*;
use crate::byte::{ByteBase, ByteEndian};
use crate::enum_string::str_equal;
use crate::extract::{extract_binary, extract_text, extraction, text_extraction};
use crate::math::{apply_op, op_value, MathOp};

verus! {

/// The second operand of an arithmetic step: a literal, or the name of a
/// value bound by an earlier keyword of the same rule.
pub enum Operand {
    Literal(u64),
    Named(String),
}

/// An arithmetic step applied to the extracted value.
pub struct Arith {
    pub op: MathOp,
    pub operand: Operand,
}

/// One numeric extraction keyword of a rule.
pub struct ExtractKeyword {
    /// Number of bytes (binary) or digits (with a base) to read.
    pub length: usize,
    /// Signed distance from the detection cursor.
    pub offset: i32,
    pub endian: ByteEndian,
    /// Read digits in this base instead of binary bytes.
    pub base: Option<ByteBase>,
    pub arith: Option<Arith>,
    /// Name under which the result is bound for later keywords.
    pub bind: Option<String>,
}

/// Why a rule was rejected, with the position of the offending keyword.
#[derive(Copy, Clone, Debug, PartialEq, Eq, Structural)]
pub enum CompileError {
    /// The length is outside 1 to 8 bytes, or 1 to 23 digits with a base.
    BadLength { index: usize },
    /// A base was given together with DCE byte order.
    BaseWithDce { index: usize },
    /// A literal operand outside the operator's domain: a zero divisor or a
    /// shift by 64 or more.
    BadOperand { index: usize },
    /// A name that no earlier keyword of the rule binds.
    UnboundName { index: usize },
}

/// The largest length a keyword may read.
pub open spec fn max_length(k: ExtractKeyword) -> usize {
    if k.base is Some {
        23
    } else {
        8
    }
}

/// Whether keyword `k` binds its result under `name`.
pub open spec fn binds(k: ExtractKeyword, name: Seq<char>) -> bool {
    k.bind matches Some(b) && b@ == name
}

/// Whether a keyword before position `i` binds `name`.
pub open spec fn bound_before(kws: Seq<ExtractKeyword>, i: int, name: Seq<char>) -> bool {
    exists|j: int| 0 <= j < i && #[trigger] binds(kws[j], name)
}

/// Whether a literal operand lies outside the operator's domain.
pub open spec fn literal_rejected(op: MathOp, v: u64) -> bool {
    (op == MathOp::Div && v == 0) || ((op == MathOp::LShift || op == MathOp::RShift) && v >= 64)
}

/// What is wrong with keyword `i` of a rule, checked in this order.
pub open spec fn keyword_error(kws: Seq<ExtractKeyword>, i: int) -> Option<CompileError> {
    let k = kws[i];
    if !(1 <= k.length <= max_length(k)) {
        Some(CompileError::BadLength { index: i as usize })
    } else if k.base is Some && k.endian == ByteEndian::EndianDCE {
        Some(CompileError::BaseWithDce { index: i as usize })
    } else if k.arith matches Some(a) && a.operand matches Operand::Literal(v) && literal_rejected(a.op, v) {
        Some(CompileError::BadOperand { index: i as usize })
    } else if k.arith matches Some(a) && a.operand matches Operand::Named(n) && !bound_before(kws, i, n@) {
        Some(CompileError::UnboundName { index: i as usize })
    } else {
        None
    }
}

/// A rule compiles when none of its keywords is in error.
pub open spec fn rule_valid(kws: Seq<ExtractKeyword>) -> bool {
    forall|i: int| 0 <= i < kws.len() ==> #[trigger] keyword_error(kws, i) is None
}

fn is_bound_before(kws: &Vec<ExtractKeyword>, i: usize, name: &String) -> (r: bool)
    requires
        i <= kws@.len(),
    ensures
        r == bound_before(kws@, i as int, name@),
{
    let mut j: usize = 0;
    while j < i
        invariant
            i <= kws@.len(),
            j <= i,
            forall|t: int| 0 <= t < j ==> !#[trigger] binds(kws@[t], name@),
        decreases i - j,
    {
        match &kws[j].bind {
            Some(b) => {
                if str_equal(b.as_str(), name.as_str()) {
                    assert(binds(kws@[j as int], name@));
                    return true;
                }
            },
            None => {},
        }
        j = j + 1;
    }
    false
}

fn check_keyword(kws: &Vec<ExtractKeyword>, i: usize) -> (r: Option<CompileError>)
    requires
        i < kws@.len(),
    ensures
        r == keyword_error(kws@, i as int),
{
    let k = &kws[i];
    let max: usize = if k.base.is_some() { 23 } else { 8 };
    if k.length < 1 || k.length > max {
        return Some(CompileError::BadLength { index: i });
    }
    if k.base.is_some() && k.endian == ByteEndian::EndianDCE {
        return Some(CompileError::BaseWithDce { index: i });
    }
    match &k.arith {
        Some(a) => match &a.operand {
            Operand::Literal(v) => {
                let shift = a.op == MathOp::LShift || a.op == MathOp::RShift;
                if (a.op == MathOp::Div && *v == 0) || (shift && *v >= 64) {
                    return Some(CompileError::BadOperand { index: i });
                }
            },
            Operand::Named(n) => {
                if !is_bound_before(kws, i, n) {
                    return Some(CompileError::UnboundName { index: i });
                }
            },
        },
        None => {},
    }
    None
}

/// Check a rule's keywords in order; the first one in error decides the
/// error. A named operand must be bound by a keyword that comes before it.
pub fn compile_rule(kws: &Vec<ExtractKeyword>) -> (r: Result<(), CompileError>)
    ensures
        r is Ok <==> rule_valid(kws@),
        r matches Err(e) ==> exists|i: int|
            0 <= i < kws@.len() && keyword_error(kws@, i) == Some(e) && forall|j: int|
                0 <= j < i ==> #[trigger] keyword_error(kws@, j) is None,
{
    let mut i: usize = 0;
    while i < kws.len()
        invariant
            i <= kws@.len(),
            forall|j: int| 0 <= j < i ==> #[trigger] keyword_error(kws@, j) is None,
        decreases kws@.len() - i,
    {
        match check_keyword(kws, i) {
            Some(e) => {
                return Err(e);
            },
            None => {},
        }
        i = i + 1;
    }
    Ok(())
}

/// Whether binary reads are least significant byte first; DCE byte order
/// comes from the data representation of the DCE/RPC request.
pub open spec fn reads_little(endian: ByteEndian, dce_little: bool) -> bool {
    match endian {
        ByteEndian::BigEndian => false,
        ByteEndian::LittleEndian => true,
        ByteEndian::EndianDCE => dce_little,
    }
}

/// The value a keyword reads from the buffer, before any arithmetic.
pub open spec fn raw_value(k: ExtractKeyword, buf: Seq<u8>, cursor: usize, dce_little: bool) -> Option<u64> {
    match k.base {
        Some(b) => text_extraction(buf, cursor, k.offset, k.length, b),
        None => extraction(buf, cursor, k.offset, k.length, reads_little(k.endian, dce_little)),
    }
}

/// The value bound to `name` as seen by keyword `i`: that of the latest
/// keyword before `i` that binds it, `None` if there is none or it did not
/// match.
pub open spec fn lookup(kws: Seq<ExtractKeyword>, vals: Seq<Option<u64>>, name: Seq<char>, i: int) -> Option<u64>
    decreases i,
{
    if i <= 0 {
        None
    } else if binds(kws[i - 1], name) {
        vals[i - 1]
    } else {
        lookup(kws, vals, name, i - 1)
    }
}

/// The outcome of keyword `i`, given the outcomes of the keywords before it:
/// its value, or `None` for no match.
pub open spec fn keyword_value(
    kws: Seq<ExtractKeyword>,
    vals: Seq<Option<u64>>,
    i: int,
    buf: Seq<u8>,
    cursor: usize,
    dce_little: bool,
) -> Option<u64> {
    match raw_value(kws[i], buf, cursor, dce_little) {
        None => None,
        Some(x) => match kws[i].arith {
            None => Some(x),
            Some(a) => {
                let y = match a.operand {
                    Operand::Literal(v) => Some(v),
                    Operand::Named(n) => lookup(kws, vals, n@, i),
                };
                match y {
                    Some(y) => op_value(a.op, x, y),
                    None => None,
                }
            },
        },
    }
}

/// The outcomes of the first `n` keywords of a rule, in order.
pub open spec fn rule_values(kws: Seq<ExtractKeyword>, buf: Seq<u8>, cursor: usize, dce_little: bool, n: nat) -> Seq<Option<u64>>
    decreases n,
{
    if n == 0 {
        Seq::empty()
    } else {
        let p = rule_values(kws, buf, cursor, dce_little, (n - 1) as nat);
        p.push(keyword_value(kws, p, n - 1, buf, cursor, dce_little))
    }
}

fn lookup_value(kws: &Vec<ExtractKeyword>, vals: &Vec<Option<u64>>, name: &String, i: usize) -> (r: Option<u64>)
    requires
        i <= kws@.len(),
        i <= vals@.len(),
    ensures
        r == lookup(kws@, vals@, name@, i as int),
{
    let mut j: usize = i;
    while j > 0
        invariant
            j <= i,
            i <= kws@.len(),
            i <= vals@.len(),
            lookup(kws@, vals@, name@, i as int) == lookup(kws@, vals@, name@, j as int),
        decreases j,
    {
        match &kws[j - 1].bind {
            Some(b) => {
                if str_equal(b.as_str(), name.as_str()) {
                    return vals[j - 1];
                }
            },
            None => {},
        }
        j = j - 1;
    }
    None
}

/// Evaluate every keyword of a rule against a buffer. Each keyword's outcome
/// is its value or `None` for no match; a failure of one keyword (bytes
/// missing, overflow, a zero divisor) never stops the others.
pub fn evaluate_rule(kws: &Vec<ExtractKeyword>, buf: &[u8], cursor: usize, dce_little: bool) -> (r: Vec<Option<u64>>)
    ensures
        r@ == rule_values(kws@, buf@, cursor, dce_little, kws@.len()),
{
    let mut vals: Vec<Option<u64>> = Vec::new();
    let mut i: usize = 0;
    while i < kws.len()
        invariant
            i <= kws@.len(),
            vals@ == rule_values(kws@, buf@, cursor, dce_little, i as nat),
        decreases kws@.len() - i,
    {
        proof {
            lemma_rule_values_len(kws@, buf@, cursor, dce_little, i as nat);
        }
        let k = &kws[i];
        let raw = match k.base {
            Some(b) => extract_text(buf, cursor, k.offset, k.length, b),
            None => {
                let little = match k.endian {
                    ByteEndian::BigEndian => false,
                    ByteEndian::LittleEndian => true,
                    ByteEndian::EndianDCE => dce_little,
                };
                extract_binary(buf, cursor, k.offset, k.length, little)
            },
        };
        let v = match raw {
            None => None,
            Some(x) => match &k.arith {
                None => Some(x),
                Some(a) => {
                    let y = match &a.operand {
                        Operand::Literal(v) => Some(*v),
                        Operand::Named(n) => lookup_value(kws, &vals, n, i),
                    };
                    match y {
                        Some(y) => apply_op(a.op, x, y),
                        None => None,
                    }
                },
            },
        };
        vals.push(v);
        i = i + 1;
    }
    vals
}

proof fn lemma_rule_values_len(kws: Seq<ExtractKeyword>, buf: Seq<u8>, cursor: usize, dce_little: bool, n: nat)
    ensures
        rule_values(kws, buf, cursor, dce_little, n).len() == n,
    decreases n,
{
    if n > 0 {
        lemma_rule_values_len(kws, buf, cursor, dce_little, (n - 1) as nat);
    }
}

/// Later keywords never change the outcome of earlier ones.
proof fn lemma_rule_values_prefix(kws: Seq<ExtractKeyword>, buf: Seq<u8>, cursor: usize, dce_little: bool, m: nat, n: nat)
    requires
        m <= n,
    ensures
        rule_values(kws, buf, cursor, dce_little, m) == rule_values(kws, buf, cursor, dce_little, n).subrange(0, m as int),
    decreases n,
{
    lemma_rule_values_len(kws, buf, cursor, dce_little, n);
    if m == n {
        assert(rule_values(kws, buf, cursor, dce_little, n) =~= rule_values(kws, buf, cursor, dce_little, n).subrange(0, n as int));
    } else {
        lemma_rule_values_prefix(kws, buf, cursor, dce_little, m, (n - 1) as nat);
        lemma_rule_values_len(kws, buf, cursor, dce_little, (n - 1) as nat);
        assert(rule_values(kws, buf, cursor, dce_little, (n - 1) as nat).subrange(0, m as int) =~= rule_values(kws, buf, cursor, dce_little, n).subrange(0, m as int));
    }
}

/// A lookup reads only the outcomes of keywords before `i`.
proof fn lemma_lookup_prefix(kws: Seq<ExtractKeyword>, vals: Seq<Option<u64>>, other: Seq<Option<u64>>, name: Seq<char>, i: int)
    requires
        0 <= i <= vals.len(),
        i <= other.len(),
        vals.subrange(0, i) == other.subrange(0, i),
    ensures
        lookup(kws, vals, name, i) == lookup(kws, other, name, i),
    decreases i,
{
    if i > 0 {
        assert(vals[i - 1] == vals.subrange(0, i)[i - 1]);
        assert(other[i - 1] == other.subrange(0, i)[i - 1]);
        assert(vals.subrange(0, i - 1) =~= vals.subrange(0, i).subrange(0, i - 1));
        assert(other.subrange(0, i - 1) =~= other.subrange(0, i).subrange(0, i - 1));
        lemma_lookup_prefix(kws, vals, other, name, i - 1);
    }
}

/// Where a keyword before `i` binds `name`, the lookup finds the latest one.
proof fn lemma_lookup_latest(kws: Seq<ExtractKeyword>, vals: Seq<Option<u64>>, name: Seq<char>, i: int)
    requires
        0 <= i <= kws.len(),
        bound_before(kws, i, name),
    ensures
        exists|j: int|
            0 <= j < i && binds(kws[j], name) && (forall|t: int| j < t < i ==> !#[trigger] binds(kws[t], name))
                && lookup(kws, vals, name, i) == vals[j],
    decreases i,
{
    if binds(kws[i - 1], name) {
        assert(forall|t: int| i - 1 < t < i ==> !#[trigger] binds(kws[t], name));
    } else {
        let w = choose|j: int| 0 <= j < i && #[trigger] binds(kws[j], name);
        assert(w < i - 1);
        assert(bound_before(kws, i - 1, name));
        lemma_lookup_latest(kws, vals, name, i - 1);
    }
}

/// In a rule that compiles, a named operand of a keyword evaluates to the
/// outcome of the latest earlier keyword that binds that name.
pub proof fn lemma_named_operand_resolves(
    kws: Seq<ExtractKeyword>,
    buf: Seq<u8>,
    cursor: usize,
    dce_little: bool,
    i: int,
    name: Seq<char>,
)
    requires
        rule_valid(kws),
        0 <= i < kws.len(),
        kws[i].arith matches Some(a) && (a.operand matches Operand::Named(n) && n@ == name),
    ensures
        exists|j: int|
            0 <= j < i && binds(kws[j], name) && (forall|t: int| j < t < i ==> !#[trigger] binds(kws[t], name))
                && lookup(kws, rule_values(kws, buf, cursor, dce_little, kws.len()), name, i)
                == rule_values(kws, buf, cursor, dce_little, kws.len())[j],
{
    assert(keyword_error(kws, i) is None);
    lemma_lookup_latest(kws, rule_values(kws, buf, cursor, dce_little, kws.len()), name, i);
}

/// A named operand that no earlier keyword binds is a compile-time error of
/// that keyword, so the rule does not compile.
pub proof fn lemma_forward_reference_rejected(kws: Seq<ExtractKeyword>, i: int, name: Seq<char>)
    requires
        0 <= i < kws.len(),
        kws[i].arith matches Some(a) && (a.operand matches Operand::Named(n) && n@ == name),
        !bound_before(kws, i, name),
    ensures
        keyword_error(kws, i) is Some,
        !rule_valid(kws),
{
}

/// A division whose divisor, resolved at evaluation time, is zero makes
/// that keyword not match, and every keyword still gets the outcome its own
/// reads and operands give it.
pub proof fn lemma_runtime_zero_divisor(kws: Seq<ExtractKeyword>, buf: Seq<u8>, cursor: usize, dce_little: bool, i: int)
    requires
        0 <= i < kws.len(),
        kws[i].arith matches Some(a) && (a.op == MathOp::Div && (a.operand matches Operand::Named(n)
            && lookup(kws, rule_values(kws, buf, cursor, dce_little, kws.len()), n@, i) == Some(0u64))),
    ensures
        rule_values(kws, buf, cursor, dce_little, kws.len())[i] is None,
        rule_values(kws, buf, cursor, dce_little, kws.len()).len() == kws.len(),
        forall|j: int|
            0 <= j < kws.len() ==> #[trigger] rule_values(kws, buf, cursor, dce_little, kws.len())[j]
                == keyword_value(kws, rule_values(kws, buf, cursor, dce_little, kws.len()), j, buf, cursor, dce_little),
{
    lemma_keyword_outcomes(kws, buf, cursor, dce_little);
}

/// Each keyword's outcome is computed from the outcomes of the whole rule.
proof fn lemma_keyword_outcomes(kws: Seq<ExtractKeyword>, buf: Seq<u8>, cursor: usize, dce_little: bool)
    ensures
        rule_values(kws, buf, cursor, dce_little, kws.len()).len() == kws.len(),
        forall|j: int|
            0 <= j < kws.len() ==> #[trigger] rule_values(kws, buf, cursor, dce_little, kws.len())[j]
                == keyword_value(kws, rule_values(kws, buf, cursor, dce_little, kws.len()), j, buf, cursor, dce_little),
{
    let full = rule_values(kws, buf, cursor, dce_little, kws.len());
    lemma_rule_values_len(kws, buf, cursor, dce_little, kws.len());
    assert forall|j: int| 0 <= j < kws.len() implies #[trigger] full[j] == keyword_value(kws, full, j, buf, cursor, dce_little) by {
        let p = rule_values(kws, buf, cursor, dce_little, j as nat);
        let q = rule_values(kws, buf, cursor, dce_little, (j + 1) as nat);
        lemma_rule_values_prefix(kws, buf, cursor, dce_little, (j + 1) as nat, kws.len());
        lemma_rule_values_prefix(kws, buf, cursor, dce_little, j as nat, kws.len());
        lemma_rule_values_len(kws, buf, cursor, dce_little, j as nat);
        assert(full[j] == q[j]);
        assert(p.subrange(0, j) =~= full.subrange(0, j));
        match kws[j].arith {
            Some(a) => match a.operand {
                Operand::Named(n) => {
                    lemma_lookup_prefix(kws, p, full, n@, j);
                },
                Operand::Literal(_) => {},
            },
            None => {},
        }
    }
}

/// The name keyword `k` takes its second operand from, if any.
pub open spec fn operand_name(k: ExtractKeyword) -> Option<Seq<char>> {
    match k.arith {
        Some(a) => match a.operand {
            Operand::Named(n) => Some(n@),
            Operand::Literal(_) => None,
        },
        None => None,
    }
}

/// The latest keyword before `j` that binds `name`, if any.
pub open spec fn latest_binder(kws: Seq<ExtractKeyword>, name: Seq<char>, j: int) -> Option<int>
    decreases j,
{
    if j <= 0 {
        None
    } else if binds(kws[j - 1], name) {
        Some(j - 1)
    } else {
        latest_binder(kws, name, j - 1)
    }
}

/// Whether keyword `j` is keyword `i` or consumes its result, directly or
/// through the keywords whose bound values it consumes.
pub open spec fn depends_on(kws: Seq<ExtractKeyword>, j: int, i: int) -> bool
    decreases j,
{
    if j == i {
        true
    } else {
        match operand_name(kws[j]) {
            Some(n) => match latest_binder(kws, n, j) {
                Some(b) => if 0 <= b < j {
                    depends_on(kws, b, i)
                } else {
                    false
                },
                None => false,
            },
            None => false,
        }
    }
}

proof fn lemma_lookup_binder(kws: Seq<ExtractKeyword>, vals: Seq<Option<u64>>, name: Seq<char>, j: int)
    ensures
        lookup(kws, vals, name, j) == match latest_binder(kws, name, j) {
            Some(b) => vals[b],
            None => None,
        },
        latest_binder(kws, name, j) matches Some(b) ==> 0 <= b < j,
    decreases j,
{
    if j > 0 && !binds(kws[j - 1], name) {
        lemma_lookup_binder(kws, vals, name, j - 1);
    }
}

proof fn lemma_binder_same(kws: Seq<ExtractKeyword>, kws2: Seq<ExtractKeyword>, name: Seq<char>, j: int)
    requires
        j <= kws.len(),
        j <= kws2.len(),
        forall|t: int| 0 <= t < j ==> binds(#[trigger] kws[t], name) == binds(kws2[t], name),
    ensures
        latest_binder(kws, name, j) == latest_binder(kws2, name, j),
    decreases j,
{
    if j > 0 {
        assert(binds(kws[j - 1], name) == binds(kws2[j - 1], name));
        lemma_binder_same(kws, kws2, name, j - 1);
    }
}

proof fn lemma_isolated_prefix(
    kws: Seq<ExtractKeyword>,
    kws2: Seq<ExtractKeyword>,
    buf: Seq<u8>,
    cursor: usize,
    dce_little: bool,
    i: int,
    n: nat,
)
    requires
        kws2.len() == kws.len(),
        n <= kws.len(),
        0 <= i < kws.len(),
        forall|t: int| 0 <= t < kws.len() && t != i ==> kws2[t] == kws[t],
        kws2[i].bind == kws[i].bind,
    ensures
        forall|j: int|
            0 <= j < n && !depends_on(kws, j, i) ==> #[trigger] rule_values(kws, buf, cursor, dce_little, n)[j]
                == rule_values(kws2, buf, cursor, dce_little, n)[j],
    decreases n,
{
    if n > 0 {
        let m = (n - 1) as nat;
        lemma_isolated_prefix(kws, kws2, buf, cursor, dce_little, i, m);
        let p1 = rule_values(kws, buf, cursor, dce_little, m);
        let p2 = rule_values(kws2, buf, cursor, dce_little, m);
        lemma_rule_values_len(kws, buf, cursor, dce_little, m);
        lemma_rule_values_len(kws2, buf, cursor, dce_little, m);
        assert forall|j: int|
            0 <= j < n && !depends_on(kws, j, i) implies #[trigger] rule_values(kws, buf, cursor, dce_little, n)[j]
            == rule_values(kws2, buf, cursor, dce_little, n)[j] by {
            if j < m {
                assert(rule_values(kws, buf, cursor, dce_little, n)[j] == p1[j]);
                assert(rule_values(kws2, buf, cursor, dce_little, n)[j] == p2[j]);
            } else {
                assert(j != i);
                assert(kws2[j] == kws[j]);
                match operand_name(kws[j]) {
                    Some(nm) => {
                        assert forall|t: int| 0 <= t < j implies binds(#[trigger] kws[t], nm) == binds(kws2[t], nm) by {
                            if t != i {
                                assert(kws2[t] == kws[t]);
                            }
                        }
                        lemma_binder_same(kws, kws2, nm, j);
                        lemma_lookup_binder(kws, p1, nm, j);
                        lemma_lookup_binder(kws2, p2, nm, j);
                    },
                    None => {},
                }
            }
        }
    }
}

/// However keyword `i` comes out (a no-match from a zero divisor resolved
/// at evaluation time included), every keyword that does not consume its
/// result, directly or through others, has the same outcome as in the rule
/// with any other keyword binding the same name in its place, such as one
/// whose divisor is not zero.
pub proof fn lemma_outcome_isolated(
    kws: Seq<ExtractKeyword>,
    other: ExtractKeyword,
    buf: Seq<u8>,
    cursor: usize,
    dce_little: bool,
    i: int,
    j: int,
)
    requires
        0 <= i < kws.len(),
        0 <= j < kws.len(),
        other.bind == kws[i].bind,
        !depends_on(kws, j, i),
    ensures
        rule_values(kws, buf, cursor, dce_little, kws.len())[j] == rule_values(
            kws.update(i, other),
            buf,
            cursor,
            dce_little,
            kws.len(),
        )[j],
{
    lemma_isolated_prefix(kws, kws.update(i, other), buf, cursor, dce_little, i, kws.len());
}

} // verus!
