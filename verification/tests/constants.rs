use sre_engine::constants::{SreAtCode, SreCatCode, SreFlag, SreInfo, SreOpcode, SRE_MAGIC};

#[test]
fn opcodes_read_back_from_their_codes() {
    for code in 0u32..43 {
        let op = SreOpcode::try_from_code(code).unwrap();
        assert_eq!(op.code(), code);
    }
    assert_eq!(SreOpcode::try_from_code(16), Some(SreOpcode::LITERAL));
    assert_eq!(SreOpcode::try_from_code(42), Some(SreOpcode::RANGE_UNI_IGNORE));
    assert_eq!(SreOpcode::try_from_code(43), None);
    assert_eq!(SreOpcode::try_from_code(u32::MAX), None);
}

#[test]
fn at_and_category_codes_read_back() {
    for code in 0u32..12 {
        assert_eq!(SreAtCode::try_from_code(code).unwrap().code(), code);
    }
    assert_eq!(SreAtCode::try_from_code(12), None);
    for code in 0u32..18 {
        assert_eq!(SreCatCode::try_from_code(code).unwrap().code(), code);
    }
    assert_eq!(SreCatCode::try_from_code(18), None);
    assert_eq!(SreCatCode::try_from_code(14), Some(SreCatCode::UNI_WORD));
}

#[test]
fn flags_take_only_defined_bits() {
    let f = SreFlag::from_bits(SreFlag::IGNORECASE | SreFlag::MULTILINE).unwrap();
    assert_eq!(f.bits(), 10);
    assert!(f.contains(SreFlag::from_bits_retain(SreFlag::IGNORECASE)));
    assert!(!f.contains(SreFlag::from_bits_retain(SreFlag::DOTALL)));
    assert!(f.contains(SreFlag::empty()));
    assert_eq!(SreFlag::from_bits(512), None);
    assert_eq!(SreFlag::from_bits_retain(512).bits(), 512);
    assert_eq!(SreFlag::from_bits(SreFlag::ALL).unwrap().bits(), 511);
}

#[test]
fn info_bits_and_magic() {
    assert_eq!(SreInfo::PREFIX | SreInfo::LITERAL | SreInfo::CHARSET, 7);
    assert_eq!(SRE_MAGIC, 20221023);
}
