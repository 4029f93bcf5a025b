use skyrim_alchemy_rs::form_id::{
    FormIdParseError, FormIdResolveError, GlobalFormId, globalize_form_id, split_form_id,
};
use skyrim_alchemy_rs::load_order::LoadOrder;

#[test]
fn to_text_renders_padded_decimal_and_hex() {
    let id = GlobalFormId::new(4, 0x00A3F9);
    assert_eq!(id.to_text(), "0004:00a3f9");
}

#[test]
fn to_text_pads_zero_values() {
    let id = GlobalFormId::new(0, 0);
    assert_eq!(id.to_text(), "0000:000000");
}

#[test]
fn to_text_handles_wide_values() {
    let id = GlobalFormId::new(65535, 0xFFFF_FFFF);
    assert_eq!(id.to_text(), "65535:ffffffff");
}

#[test]
fn from_text_parses_canonical_form() {
    let id = GlobalFormId::from_text("0004:00a3f9").unwrap();
    assert_eq!(id, GlobalFormId::new(4, 0x00A3F9));
}

#[test]
fn from_text_accepts_uppercase_hex() {
    let id = GlobalFormId::from_text("0004:00A3F9").unwrap();
    assert_eq!(id, GlobalFormId::new(4, 0x00A3F9));
}

#[test]
fn round_trip_on_sample_ids() {
    let cases = [
        (0u16, 0u32),
        (1, 0x34),
        (4, 0x00A3F9),
        (255, 0xFFFFFF),
        (9999, 1),
        (10000, 0x123456),
        (65535, 0xFFFF_FFFF),
    ];
    for (source_index, local_id) in cases {
        let id = GlobalFormId::new(source_index, local_id);
        assert_eq!(GlobalFormId::from_text(&id.to_text()), Ok(id));
    }
}

#[test]
fn from_text_requires_separator() {
    assert_eq!(
        GlobalFormId::from_text("000400a3f9"),
        Err(FormIdParseError::MissingSeparator)
    );
    assert_eq!(GlobalFormId::from_text(""), Err(FormIdParseError::MissingSeparator));
}

#[test]
fn from_text_rejects_bad_index() {
    assert_eq!(GlobalFormId::from_text(":00a3f9"), Err(FormIdParseError::InvalidIndex));
    assert_eq!(GlobalFormId::from_text("12x4:00a3f9"), Err(FormIdParseError::InvalidIndex));
    // 65536 does not fit the index width.
    assert_eq!(GlobalFormId::from_text("65536:00a3f9"), Err(FormIdParseError::InvalidIndex));
}

#[test]
fn from_text_rejects_bad_id() {
    assert_eq!(GlobalFormId::from_text("0004:"), Err(FormIdParseError::InvalidId));
    assert_eq!(GlobalFormId::from_text("0004:zz"), Err(FormIdParseError::InvalidId));
    // Nine hex digits exceed the id width.
    assert_eq!(GlobalFormId::from_text("0004:100000000"), Err(FormIdParseError::InvalidId));
}

#[test]
fn ordering_is_fieldwise_lexicographic() {
    let a = GlobalFormId::new(1, 500);
    let b = GlobalFormId::new(2, 3);
    let c = GlobalFormId::new(2, 4);
    assert!(a.lt(&b));
    assert!(b.lt(&c));
    assert!(!c.lt(&a));
}

#[test]
fn split_form_id_takes_top_byte_and_low_bits() {
    assert_eq!(split_form_id(0x0401_02A3), (0x04, 0x0102A3));
    assert_eq!(split_form_id(0x0000_0001), (0, 1));
    assert_eq!(split_form_id(0xFF00_0000), (0xFF, 0));
}

#[test]
fn globalize_resolves_master_slot() {
    let lo = LoadOrder::new(vec![
        String::from("Skyrim.esm"),
        String::from("Update.esm"),
        String::from("MyMod.esp"),
    ]);
    let masters = vec![String::from("Skyrim.esm"), String::from("Update.esm")];
    // Slot 0: the first prerequisite.
    let id = globalize_form_id(0x0001_0B0C, "MyMod.esp", &masters, &lo).unwrap();
    assert_eq!(id, GlobalFormId::new(0, 0x010B0C));
    // Slot 1: the second prerequisite.
    let id = globalize_form_id(0x0100_0B0C, "MyMod.esp", &masters, &lo).unwrap();
    assert_eq!(id, GlobalFormId::new(1, 0x000B0C));
}

#[test]
fn globalize_slot_equal_to_master_count_is_the_plugin_itself() {
    let lo = LoadOrder::new(vec![String::from("Skyrim.esm"), String::from("MyMod.esp")]);
    let masters = vec![String::from("Skyrim.esm")];
    let id = globalize_form_id(0x0100_0042, "MyMod.esp", &masters, &lo).unwrap();
    assert_eq!(id, GlobalFormId::new(1, 0x42));
}

#[test]
fn globalize_rejects_out_of_range_slot() {
    let lo = LoadOrder::new(vec![String::from("Skyrim.esm")]);
    let masters = vec![String::from("Skyrim.esm")];
    assert_eq!(
        globalize_form_id(0x0200_0042, "MyMod.esp", &masters, &lo),
        Err(FormIdResolveError::UnresolvedMasterReference)
    );
}

#[test]
fn globalize_rejects_owner_missing_from_load_order() {
    let lo = LoadOrder::new(vec![String::from("Skyrim.esm")]);
    let masters = vec![String::from("Dawnguard.esm")];
    assert_eq!(
        globalize_form_id(0x0000_0042, "MyMod.esp", &masters, &lo),
        Err(FormIdResolveError::SourceNotInLoadOrder)
    );
}

#[test]
fn globalize_matches_owner_case_insensitively() {
    let lo = LoadOrder::new(vec![String::from("Skyrim.esm"), String::from("MyMod.esp")]);
    let masters = vec![String::from("SKYRIM.ESM")];
    let id = globalize_form_id(0x0000_0042, "MyMod.esp", &masters, &lo).unwrap();
    assert_eq!(id.source_index, 0);
}
