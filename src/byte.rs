use vstd::prelude::*;
use crate::enum_string::{str_equal, EnumString};

verus! {

/// Byte order used when reading an integer out of a buffer.
#[derive(Copy, Clone, Debug, PartialEq, Eq, Structural)]
pub enum ByteEndian {
    BigEndian,
    LittleEndian,
    EndianDCE,
}

/// Numeric base used when reading digits out of a buffer.
#[derive(Copy, Clone, Debug, PartialEq, Eq, Structural)]
pub enum ByteBase {
    BaseOct,
    BaseDec,
    BaseHex,
}

/// The endian tokens of the keyword grammar.
pub open spec fn endian_of_token(s: Seq<char>) -> Option<ByteEndian> {
    if s == "big"@ {
        Some(ByteEndian::BigEndian)
    } else if s == "little"@ {
        Some(ByteEndian::LittleEndian)
    } else if s == "dce"@ {
        Some(ByteEndian::EndianDCE)
    } else {
        None
    }
}

/// The base tokens of the keyword grammar.
pub open spec fn base_of_token(s: Seq<char>) -> Option<ByteBase> {
    if s == "hex"@ {
        Some(ByteBase::BaseHex)
    } else if s == "oct"@ {
        Some(ByteBase::BaseOct)
    } else if s == "dec"@ {
        Some(ByteBase::BaseDec)
    } else {
        None
    }
}

/// Parse a base token: `hex`, `oct` or `dec`.
pub fn get_string_value(value: &str) -> (r: Option<ByteBase>)
    ensures
        r == base_of_token(value@),
{
    if str_equal(value, "hex") {
        Some(ByteBase::BaseHex)
    } else if str_equal(value, "oct") {
        Some(ByteBase::BaseOct)
    } else if str_equal(value, "dec") {
        Some(ByteBase::BaseDec)
    } else {
        None
    }
}

/// Parse an endian token: `big`, `little` or `dce`.
pub fn get_endian_value(value: &str) -> (r: Option<ByteEndian>)
    ensures
        r == endian_of_token(value@),
{
    if str_equal(value, "big") {
        Some(ByteEndian::BigEndian)
    } else if str_equal(value, "little") {
        Some(ByteEndian::LittleEndian)
    } else if str_equal(value, "dce") {
        Some(ByteEndian::EndianDCE)
    } else {
        None
    }
}

proof fn lemma_tokens_distinct()
    ensures
        "big"@ != "little"@,
        "big"@ != "dce"@,
        "little"@ != "dce"@,
        "hex"@ != "oct"@,
        "hex"@ != "dec"@,
        "oct"@ != "dec"@,
{
    reveal_strlit("big");
    reveal_strlit("little");
    reveal_strlit("dce");
    reveal_strlit("hex");
    reveal_strlit("oct");
    reveal_strlit("dec");
    assert("big"@[0] != "little"@[0]);
    assert("big"@[0] != "dce"@[0]);
    assert("little"@[0] != "dce"@[0]);
    assert("hex"@[0] != "oct"@[0]);
    assert("hex"@[0] != "dec"@[0]);
    assert("oct"@[0] != "dec"@[0]);
}

impl EnumString<u8> for ByteEndian {
    open spec fn code(&self) -> u8 {
        match self {
            ByteEndian::BigEndian => 1,
            ByteEndian::LittleEndian => 2,
            ByteEndian::EndianDCE => 3,
        }
    }

    open spec fn name(&self) -> Seq<char> {
        match self {
            ByteEndian::BigEndian => "big"@,
            ByteEndian::LittleEndian => "little"@,
            ByteEndian::EndianDCE => "dce"@,
        }
    }

    open spec fn variant_of_code(v: u8) -> Option<Self> {
        if v == 1 {
            Some(ByteEndian::BigEndian)
        } else if v == 2 {
            Some(ByteEndian::LittleEndian)
        } else if v == 3 {
            Some(ByteEndian::EndianDCE)
        } else {
            None
        }
    }

    open spec fn variant_of_name(s: Seq<char>) -> Option<Self> {
        endian_of_token(s)
    }

    fn from_u(v: u8) -> (r: Option<Self>) {
        if v == 1 {
            Some(ByteEndian::BigEndian)
        } else if v == 2 {
            Some(ByteEndian::LittleEndian)
        } else if v == 3 {
            Some(ByteEndian::EndianDCE)
        } else {
            None
        }
    }

    fn into_u(self) -> (r: u8) {
        match self {
            ByteEndian::BigEndian => 1,
            ByteEndian::LittleEndian => 2,
            ByteEndian::EndianDCE => 3,
        }
    }

    fn to_str(&self) -> (r: &'static str) {
        match self {
            ByteEndian::BigEndian => "big",
            ByteEndian::LittleEndian => "little",
            ByteEndian::EndianDCE => "dce",
        }
    }

    fn from_str(s: &str) -> (r: Option<Self>) {
        get_endian_value(s)
    }

    proof fn lemma_round_trip(v: Self) {
        lemma_tokens_distinct();
    }

    proof fn lemma_lookup_exact(c: u8, s: Seq<char>) {
        lemma_tokens_distinct();
        if forall|v: Self| #[trigger] v.code() != c {
            assert(ByteEndian::BigEndian.code() != c);
            assert(ByteEndian::LittleEndian.code() != c);
            assert(ByteEndian::EndianDCE.code() != c);
        }
        if forall|v: Self| #[trigger] v.name() != s {
            assert(ByteEndian::BigEndian.name() != s);
            assert(ByteEndian::LittleEndian.name() != s);
            assert(ByteEndian::EndianDCE.name() != s);
        }
    }
}

impl EnumString<u8> for ByteBase {
    open spec fn code(&self) -> u8 {
        match self {
            ByteBase::BaseOct => 8,
            ByteBase::BaseDec => 10,
            ByteBase::BaseHex => 16,
        }
    }

    open spec fn name(&self) -> Seq<char> {
        match self {
            ByteBase::BaseOct => "oct"@,
            ByteBase::BaseDec => "dec"@,
            ByteBase::BaseHex => "hex"@,
        }
    }

    open spec fn variant_of_code(v: u8) -> Option<Self> {
        if v == 8 {
            Some(ByteBase::BaseOct)
        } else if v == 10 {
            Some(ByteBase::BaseDec)
        } else if v == 16 {
            Some(ByteBase::BaseHex)
        } else {
            None
        }
    }

    open spec fn variant_of_name(s: Seq<char>) -> Option<Self> {
        base_of_token(s)
    }

    fn from_u(v: u8) -> (r: Option<Self>) {
        if v == 8 {
            Some(ByteBase::BaseOct)
        } else if v == 10 {
            Some(ByteBase::BaseDec)
        } else if v == 16 {
            Some(ByteBase::BaseHex)
        } else {
            None
        }
    }

    fn into_u(self) -> (r: u8) {
        match self {
            ByteBase::BaseOct => 8,
            ByteBase::BaseDec => 10,
            ByteBase::BaseHex => 16,
        }
    }

    fn to_str(&self) -> (r: &'static str) {
        match self {
            ByteBase::BaseOct => "oct",
            ByteBase::BaseDec => "dec",
            ByteBase::BaseHex => "hex",
        }
    }

    fn from_str(s: &str) -> (r: Option<Self>) {
        get_string_value(s)
    }

    proof fn lemma_round_trip(v: Self) {
        lemma_tokens_distinct();
    }

    proof fn lemma_lookup_exact(c: u8, s: Seq<char>) {
        lemma_tokens_distinct();
        if forall|v: Self| #[trigger] v.code() != c {
            assert(ByteBase::BaseOct.code() != c);
            assert(ByteBase::BaseDec.code() != c);
            assert(ByteBase::BaseHex.code() != c);
        }
        if forall|v: Self| #[trigger] v.name() != s {
            assert(ByteBase::BaseOct.name() != s);
            assert(ByteBase::BaseDec.name() != s);
            assert(ByteBase::BaseHex.name() != s);
        }
    }
}

} // verus!
