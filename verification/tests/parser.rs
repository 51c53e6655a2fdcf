use optifunkin::parse::{parse_element, parse_records, ParseError, RawAttr, RawElement};
use optifunkin::numparse::parse_i32;

fn attr(name: &str, value: &str) -> RawAttr {
    RawAttr { name: name.to_string(), value: value.to_string() }
}

fn sprite_elem(name: &str, x: &str, y: &str, w: &str, h: &str) -> RawElement {
    RawElement {
        is_element: true,
        tag: "SubTexture".to_string(),
        attrs: vec![attr("name", name), attr("x", x), attr("y", y), attr("width", w), attr(
            "height", h,
        )],
    }
}

fn root_elem() -> RawElement {
    RawElement { is_element: true, tag: "TextureAtlas".to_string(), attrs: vec![] }
}

#[test]
fn well_formed_descriptor_round_trips() {
    let elems = vec![
        root_elem(),
        sprite_elem("idle0", "0", "0", "32", "32"),
        sprite_elem("idle1", "32", "0", "32", "48"),
        sprite_elem("jump0", "0", "48", "16", "16"),
    ];
    let records = parse_records(&elems).unwrap();
    assert_eq!(records.len(), 3);
    assert_eq!(records[0].name, "idle0");
    assert_eq!(records[0].x, 0);
    assert_eq!(records[0].y, 0);
    assert_eq!(records[0].width, 32);
    assert_eq!(records[0].height, 32);
    assert!(records[0].trim.is_none());
    assert_eq!(records[1].name, "idle1");
    assert_eq!(records[1].x, 32);
    assert_eq!(records[1].height, 48);
    assert_eq!(records[2].name, "jump0");
    assert_eq!(records[2].y, 48);
}

#[test]
fn trim_attributes_round_trip() {
    let mut e = sprite_elem("hit0", "4", "5", "16", "16");
    e.attrs.push(attr("frameX", "4"));
    e.attrs.push(attr("frameY", "4"));
    e.attrs.push(attr("frameWidth", "24"));
    e.attrs.push(attr("frameHeight", "24"));
    let rec = parse_element(&e).unwrap().unwrap();
    let t = rec.trim.unwrap();
    assert_eq!(t.frame_x, 4);
    assert_eq!(t.frame_y, 4);
    assert_eq!(t.frame_w, 24);
    assert_eq!(t.frame_h, 24);
}

#[test]
fn non_sprite_elements_are_ignored() {
    let e = root_elem();
    assert!(parse_element(&e).unwrap().is_none());
}

#[test]
fn missing_width_is_a_parse_error() {
    let mut e = sprite_elem("broken", "0", "0", "32", "32");
    e.attrs.retain(|a| a.name != "width");
    match parse_records(&vec![e]) {
        Err(ParseError::MissingAttribute { tag, attr }) => {
            assert_eq!(tag, "SubTexture");
            assert_eq!(attr, "width");
        }
        other => panic!("expected a missing-attribute error, got {:?}", other.is_ok()),
    }
}

#[test]
fn non_numeric_value_is_a_parse_error() {
    let e = sprite_elem("bad", "0", "zero", "32", "32");
    match parse_records(&vec![e]) {
        Err(ParseError::InvalidNumber { attr, .. }) => assert_eq!(attr, "y"),
        _ => panic!("expected an invalid-number error"),
    }
}

#[test]
fn partial_trim_is_a_parse_error() {
    let mut e = sprite_elem("halftrim", "0", "0", "8", "8");
    e.attrs.push(attr("frameX", "1"));
    e.attrs.push(attr("frameY", "1"));
    match parse_records(&vec![e]) {
        Err(ParseError::PartialTrim { tag }) => assert_eq!(tag, "SubTexture"),
        _ => panic!("expected a partial-trim error"),
    }
}

#[test]
fn duplicate_name_last_write_wins() {
    let elems = vec![
        sprite_elem("hero", "0", "0", "8", "8"),
        sprite_elem("hero", "16", "16", "8", "8"),
    ];
    let records = parse_records(&elems).unwrap();
    assert_eq!(records.len(), 1);
    assert_eq!(records[0].x, 16);
    assert_eq!(records[0].y, 16);
}

#[test]
fn parse_i32_accepts_signed_decimals() {
    assert_eq!(parse_i32(&"42".to_string()), Some(42));
    assert_eq!(parse_i32(&"-7".to_string()), Some(-7));
    assert_eq!(parse_i32(&"+7".to_string()), Some(7));
    assert_eq!(parse_i32(&"0002".to_string()), Some(2));
    assert_eq!(parse_i32(&"-2147483648".to_string()), Some(i32::MIN));
    assert_eq!(parse_i32(&"2147483647".to_string()), Some(i32::MAX));
}

#[test]
fn parse_i32_rejects_malformed_and_out_of_range() {
    assert_eq!(parse_i32(&"".to_string()), None);
    assert_eq!(parse_i32(&"-".to_string()), None);
    assert_eq!(parse_i32(&"12x".to_string()), None);
    assert_eq!(parse_i32(&" 12".to_string()), None);
    assert_eq!(parse_i32(&"2147483648".to_string()), None);
    assert_eq!(parse_i32(&"-2147483649".to_string()), None);
    assert_eq!(parse_i32(&"99999999999999999999".to_string()), None);
}
