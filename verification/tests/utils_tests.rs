use skyrim_alchemy_rs::form_id::GlobalFormId;
use skyrim_alchemy_rs::ingredient::Ingredient;
use skyrim_alchemy_rs::utils::{le_slice_to_u32, parse_string, parse_zstring, read_vsval};

#[test]
fn parse_string_decodes_ascii_bytes() {
    assert_eq!(parse_string(b"Frost Salts"), "Frost Salts");
    assert_eq!(parse_string(b""), "");
}

#[test]
fn parse_string_applies_the_windows_1252_table() {
    // 0x80 is the euro sign and 0xE9 the accented e in windows-1252; a
    // byte-identity conversion would get both wrong.
    assert_eq!(parse_string(&[0x80]), "\u{20AC}");
    assert_eq!(parse_string(&[0x43, 0x61, 0x66, 0xE9]), "Caf\u{E9}");
}

#[test]
fn parse_zstring_stops_at_the_terminator() {
    assert_eq!(parse_zstring(b"Wheat\0"), "Wheat");
    assert_eq!(parse_zstring(b"Wheat\0garbage"), "Wheat");
}

#[test]
fn parse_zstring_treats_short_data_as_empty() {
    assert_eq!(parse_zstring(b""), "");
    assert_eq!(parse_zstring(b"\0"), "");
    assert_eq!(parse_zstring(b"A"), "");
}

#[test]
fn le_slice_to_u32_reads_little_endian() {
    assert_eq!(le_slice_to_u32(&[0x78, 0x56, 0x34, 0x12]), 0x12345678);
    assert_eq!(le_slice_to_u32(&[0xFF, 0xFF, 0xFF, 0xFF, 0x01]), 0xFFFF_FFFF);
    assert_eq!(le_slice_to_u32(&[1, 0, 0, 0]), 1);
}

#[test]
fn read_vsval_decodes_each_width() {
    // Width indicator 0: the value sits in the top six bits of one byte.
    assert_eq!(read_vsval(&[0b0000_1000]), Some((2, 1)));
    // Width indicator 1: two bytes.
    assert_eq!(read_vsval(&[0b0000_0101, 0b0000_0011]), Some(((0x0305u32) >> 2, 2)));
    // Width indicator 2: three bytes.
    assert_eq!(
        read_vsval(&[0b0000_0110, 0x02, 0x01]),
        Some((((0x01u32 << 16) ^ (0x02u32 << 8) ^ 0x06) >> 2, 3))
    );
}

#[test]
fn read_vsval_rejects_short_input_and_tolerates_bad_width() {
    assert_eq!(read_vsval(&[]), None);
    assert_eq!(read_vsval(&[0b0000_0001]), None);
    assert_eq!(read_vsval(&[0b0000_0010, 0x01]), None);
    // An invalid width indicator yields zero, consuming one byte.
    assert_eq!(read_vsval(&[0b0000_0011]), Some((0, 1)));
}

#[test]
fn ingredient_name_falls_back_to_editor_id() {
    let named = Ingredient {
        global_id: GlobalFormId::new(0, 1),
        editor_id: String::from("IngWheat"),
        name: Some(String::from("Wheat")),
        effects: Vec::new(),
    };
    let unnamed = Ingredient {
        global_id: GlobalFormId::new(0, 2),
        editor_id: String::from("IngMystery"),
        name: None,
        effects: Vec::new(),
    };
    assert_eq!(named.name_or_editor_id(), "Wheat");
    assert_eq!(unnamed.name_or_editor_id(), "IngMystery");
}
