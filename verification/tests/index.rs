use spreet::index::{serialize_rect, serialize_stretch_x_area, serialize_stretch_y_area};
use spreet::strmap::StrMap;
use spreet::SpriteDescription;

fn plain_desc() -> SpriteDescription {
    SpriteDescription {
        height: 10,
        pixel_ratio: 1,
        width: 10,
        x: 0,
        y: 0,
        content: None,
        stretch_x: None,
        stretch_y: None,
        sdf: false,
    }
}

#[test]
fn whole_numbers_serialize_as_integers() {
    // A content-area value of exactly 5.0 reads as the integer 5; a value
    // of 5.333333 rounds to thousandths and reads as 5.333.
    assert_eq!(serialize_rect(&(5000, 5333, 5100, -2500)), "[5,5.333,5.1,-2.5]");
}

#[test]
fn stretch_areas_serialize_their_edges() {
    assert_eq!(serialize_stretch_x_area(&vec![(4000, 16000)]), "[[4,16]]");
    assert_eq!(
        serialize_stretch_y_area(&vec![(5000, 16000), (250, 750)]),
        "[[5,16],[0.25,0.75]]"
    );
}

#[test]
fn minified_index_lists_entries_in_name_order() {
    let mut index: StrMap<SpriteDescription> = StrMap::new();
    let mut b = plain_desc();
    b.width = 20;
    b.height = 5;
    b.x = 10;
    index.insert(String::from("b"), b);
    index.insert(String::from("a"), plain_desc());
    let json = spreet::index::index_json(&index, true);
    assert_eq!(
        json,
        "{\"a\":{\"height\":10,\"pixelRatio\":1,\"width\":10,\"x\":0,\"y\":0},\
         \"b\":{\"height\":5,\"pixelRatio\":1,\"width\":20,\"x\":10,\"y\":0}}"
    );
}

#[test]
fn minified_index_keeps_optional_fields_only_when_set() {
    let mut index: StrMap<SpriteDescription> = StrMap::new();
    let mut d = plain_desc();
    d.content = Some((2000, 5000, 18000, 18000));
    d.stretch_x = Some(vec![(4000, 16000)]);
    d.stretch_y = Some(vec![(5000, 16000)]);
    d.sdf = true;
    index.insert(String::from("icon"), d);
    let json = spreet::index::index_json(&index, true);
    assert_eq!(
        json,
        "{\"icon\":{\"height\":10,\"pixelRatio\":1,\"width\":10,\"x\":0,\"y\":0,\
         \"content\":[2,5,18,18],\"stretchX\":[[4,16]],\"stretchY\":[[5,16]],\"sdf\":true}}"
    );
}

#[test]
fn pretty_index_matches_two_space_indentation() {
    let mut index: StrMap<SpriteDescription> = StrMap::new();
    let mut d = plain_desc();
    d.content = Some((2000, 5000, 18000, 18000));
    d.stretch_x = Some(vec![(4000, 16000)]);
    index.insert(String::from("icon"), d);
    let json = spreet::index::index_json(&index, false);
    let expected = "{\n  \"icon\": {\n    \"height\": 10,\n    \"pixelRatio\": 1,\n    \"width\": 10,\n    \"x\": 0,\n    \"y\": 0,\n    \"content\": [\n      2,\n      5,\n      18,\n      18\n    ],\n    \"stretchX\": [\n      [\n        4,\n        16\n      ]\n    ]\n  }\n}";
    assert_eq!(json, expected);
}

#[test]
fn empty_index_serializes_as_an_empty_object() {
    let index: StrMap<SpriteDescription> = StrMap::new();
    assert_eq!(spreet::index::index_json(&index, true), "{}");
    assert_eq!(spreet::index::index_json(&index, false), "{}");
}

#[test]
fn names_are_escaped_in_the_index() {
    let mut index: StrMap<SpriteDescription> = StrMap::new();
    index.insert(String::from("a\"b\\c"), plain_desc());
    let json = spreet::index::index_json(&index, true);
    assert_eq!(
        json,
        "{\"a\\\"b\\\\c\":{\"height\":10,\"pixelRatio\":1,\"width\":10,\"x\":0,\"y\":0}}"
    );
}

#[test]
fn minifying_removes_whitespace_only() {
    let mut index: StrMap<SpriteDescription> = StrMap::new();
    let mut d = plain_desc();
    d.content = Some((1000, 2000, 3500, 4000));
    index.insert(String::from("one"), d);
    let pretty = spreet::index::index_json(&index, false);
    let minified = spreet::index::index_json(&index, true);
    let squeezed: String = pretty
        .chars()
        .filter(|c| *c != ' ' && *c != '\n')
        .collect();
    assert_eq!(squeezed, minified);
}
