use detect_core::byte::{get_endian_value, get_string_value, ByteBase, ByteEndian};
use detect_core::enum_string::{canonical_name, str_equal, EnumString, TableError, VariantTable};

#[derive(Clone, Debug, PartialEq)]
pub enum TestEnum {
    Zero,
    BestValueEver,
}

const VARIANTS: [TestEnum; 2] = [TestEnum::Zero, TestEnum::BestValueEver];

fn table() -> VariantTable {
    VariantTable::declare(&[0, 42], &["Zero", "BestValueEver"]).unwrap()
}

impl TestEnum {
    fn index(&self) -> usize {
        match self {
            TestEnum::Zero => 0,
            TestEnum::BestValueEver => 1,
        }
    }

    fn from_u(v: u8) -> Option<Self> {
        table().index_of_code(v).map(|i| VARIANTS[i].clone())
    }

    fn into_u(self) -> u8 {
        table().code_at(self.index())
    }

    fn to_str(&self) -> String {
        table().name_at(self.index()).to_string()
    }

    fn from_str(s: &str) -> Option<Self> {
        table().index_of_name(s).map(|i| VARIANTS[i].clone())
    }
}

#[test]
fn test_enum_string_u8() {
    assert_eq!(TestEnum::from_u(0), Some(TestEnum::Zero));
    assert_eq!(TestEnum::from_u(1), None);
    assert_eq!(TestEnum::from_u(42), Some(TestEnum::BestValueEver));
    assert_eq!(TestEnum::Zero.into_u(), 0);
    assert_eq!(TestEnum::BestValueEver.into_u(), 42);
    assert_eq!(TestEnum::Zero.to_str(), "zero");
    assert_eq!(TestEnum::BestValueEver.to_str(), "best_value_ever");
    assert_eq!(TestEnum::from_str("zero"), Some(TestEnum::Zero));
    assert_eq!(TestEnum::from_str("nope"), None);
    assert_eq!(TestEnum::from_str("best_value_ever"), Some(TestEnum::BestValueEver));
}

#[test]
fn canonical_names_of_identifiers() {
    assert_eq!(canonical_name("BestValueEver"), "best_value_ever");
    assert_eq!(canonical_name("Zero"), "zero");
    assert_eq!(canonical_name("EndianDCE"), "endian_d_c_e");
    assert_eq!(canonical_name(""), "");
    assert_eq!(canonical_name("already_snake"), "already_snake");
}

#[test]
fn endian_round_trips() {
    for v in [ByteEndian::BigEndian, ByteEndian::LittleEndian, ByteEndian::EndianDCE] {
        assert_eq!(ByteEndian::from_u(v.into_u()), Some(v));
        assert_eq!(ByteEndian::from_str(v.to_str()), Some(v));
    }
}

#[test]
fn base_round_trips() {
    for v in [ByteBase::BaseOct, ByteBase::BaseDec, ByteBase::BaseHex] {
        assert_eq!(ByteBase::from_u(v.into_u()), Some(v));
        assert_eq!(ByteBase::from_str(v.to_str()), Some(v));
    }
}

#[test]
fn wire_codes_are_fixed() {
    assert_eq!(ByteEndian::BigEndian.into_u(), 1);
    assert_eq!(ByteEndian::LittleEndian.into_u(), 2);
    assert_eq!(ByteEndian::EndianDCE.into_u(), 3);
    assert_eq!(ByteBase::BaseOct.into_u(), 8);
    assert_eq!(ByteBase::BaseDec.into_u(), 10);
    assert_eq!(ByteBase::BaseHex.into_u(), 16);
}

#[test]
fn undeclared_codes_and_names_are_absent() {
    assert_eq!(ByteEndian::from_u(99), None);
    assert_eq!(ByteEndian::from_u(0), None);
    assert_eq!(ByteBase::from_u(99), None);
    assert_eq!(ByteBase::from_u(2), None);
    assert_eq!(ByteEndian::from_str("nope"), None);
    assert_eq!(ByteBase::from_str("nope"), None);
}

#[test]
fn endian_tokens() {
    assert_eq!(get_endian_value("big"), Some(ByteEndian::BigEndian));
    assert_eq!(get_endian_value("little"), Some(ByteEndian::LittleEndian));
    assert_eq!(get_endian_value("dce"), Some(ByteEndian::EndianDCE));
    assert_eq!(get_endian_value("Big"), None);
    assert_eq!(get_endian_value("bigger"), None);
    assert_eq!(get_endian_value(""), None);
}

#[test]
fn base_tokens() {
    assert_eq!(get_string_value("hex"), Some(ByteBase::BaseHex));
    assert_eq!(get_string_value("oct"), Some(ByteBase::BaseOct));
    assert_eq!(get_string_value("dec"), Some(ByteBase::BaseDec));
    assert_eq!(get_string_value("HEX"), None);
    assert_eq!(get_string_value("he"), None);
}

#[test]
fn string_equality() {
    assert!(str_equal("abc", "abc"));
    assert!(!str_equal("abc", "abd"));
    assert!(!str_equal("abc", "ab"));
    assert!(str_equal("", ""));
}

#[test]
fn table_declaration_errors() {
    assert_eq!(VariantTable::declare(&[1, 2], &["A"]).err(), Some(TableError::LengthMismatch));
    assert_eq!(VariantTable::declare(&[1, 1], &["A", "B"]).err(), Some(TableError::DuplicateCode));
    assert_eq!(VariantTable::declare(&[1, 2], &["AB", "AB"]).err(), Some(TableError::DuplicateName));
    let t = VariantTable::declare(&[], &[]).unwrap();
    assert_eq!(t.len(), 0);
    assert_eq!(t.index_of_code(0), None);
    assert_eq!(t.index_of_name(""), None);
}

#[test]
fn table_round_trips_every_variant() {
    let t = VariantTable::declare(&[8, 10, 16], &["BaseOct", "BaseDec", "BaseHex"]).unwrap();
    assert_eq!(t.name_at(2), "base_hex");
    for i in 0..t.len() {
        assert_eq!(t.index_of_code(t.code_at(i)), Some(i));
        assert_eq!(t.index_of_name(t.name_at(i)), Some(i));
    }
    assert_eq!(t.index_of_code(99), None);
    assert_eq!(t.index_of_name("nope"), None);
}

#[test]
fn endian_identities_derive_their_tokens() {
    assert_eq!(canonical_name("Big"), "big");
    assert_eq!(canonical_name("Little"), "little");
    assert_eq!(canonical_name("DCE"), "dce");
    assert_eq!(get_endian_value(&canonical_name("Big")), Some(ByteEndian::BigEndian));
    assert_eq!(get_endian_value(&canonical_name("Little")), Some(ByteEndian::LittleEndian));
    assert_eq!(get_endian_value(&canonical_name("DCE")), Some(ByteEndian::EndianDCE));
    assert_eq!(canonical_name("X9"), "x9");
}

#[test]
fn valid_declaration_succeeds() {
    let t = VariantTable::declare(&[1, 2, 3], &["Big", "Little", "DCE"]).unwrap();
    assert_eq!(t.name_at(0), "big");
    assert_eq!(t.name_at(1), "little");
    assert_eq!(t.name_at(2), "dce");
    assert_eq!(t.index_of_name("dce"), Some(2));
    assert_eq!(VariantTable::declare(&[1, 2], &["DCE", "Dce"]).err(), Some(TableError::DuplicateName));
}
