use grepgrep::markup::{
    extract_attr, extract_tag, hex_color_cuts_char, parse_hex_color, HexColorError,
};

const SVG: &str = "<?xml version=\"1.0\"?><svg xmlns=\"http://www.w3.org/2000/svg\" viewBox=\"0 0 512 512\"><circle cx=\"256\" cy=\"250\" r=\"230\" fill=\"#1A2b3C\"/></svg>";

#[test]
fn extracts_opening_tags() {
    assert_eq!(
        extract_tag(SVG, "svg").as_deref(),
        Some("<svg xmlns=\"http://www.w3.org/2000/svg\" viewBox=\"0 0 512 512\">")
    );
    assert_eq!(
        extract_tag(SVG, "circle").as_deref(),
        Some("<circle cx=\"256\" cy=\"250\" r=\"230\" fill=\"#1A2b3C\"/>")
    );
    assert_eq!(extract_tag(SVG, "rect"), None);
    assert_eq!(extract_tag("<svg width=\"3\"", "svg"), None);
}

#[test]
fn extracts_attribute_values() {
    let circle = extract_tag(SVG, "circle").unwrap();
    assert_eq!(extract_attr(&circle, "cx").as_deref(), Some("256"));
    assert_eq!(extract_attr(&circle, "r").as_deref(), Some("230"));
    assert_eq!(extract_attr(&circle, "fill").as_deref(), Some("#1A2b3C"));
    assert_eq!(extract_attr(&circle, "stroke"), None);
    assert_eq!(extract_attr("<a href=\"open", "href"), None);
    assert_eq!(extract_attr("<a x=\"\"", "x").as_deref(), Some(""));
}

#[test]
fn parses_hex_colors() {
    assert_eq!(parse_hex_color("#1A2b3C"), Ok([0x1a, 0x2b, 0x3c]));
    assert_eq!(parse_hex_color("  #ffffff\n"), Ok([255, 255, 255]));
    assert_eq!(parse_hex_color("#+f0000"), Ok([15, 0, 0]));
}

#[test]
fn hex_color_errors() {
    assert_eq!(parse_hex_color("red"), Err(HexColorError::MissingHash));
    assert_eq!(parse_hex_color(""), Err(HexColorError::MissingHash));
    assert_eq!(parse_hex_color("#fff"), Err(HexColorError::WrongLength));
    assert_eq!(parse_hex_color("#fffffff"), Err(HexColorError::WrongLength));
    assert_eq!(parse_hex_color("#12345g"), Err(HexColorError::InvalidHexByte));
    assert_eq!(parse_hex_color("#-10000"), Err(HexColorError::InvalidHexByte));
    assert_eq!(parse_hex_color("#\u{e9}1234"), Err(HexColorError::InvalidHexByte));
}

#[test]
fn detects_colors_that_would_cut_a_character() {
    // "é" is two bytes: "#1é234" puts the first channel boundary inside it.
    assert!(hex_color_cuts_char("#1\u{e9}234"));
    assert!(hex_color_cuts_char(" #12\u{20ac}4 "));
    assert!(!hex_color_cuts_char("#\u{e9}1234"));
    assert!(!hex_color_cuts_char("#123456"));
    assert!(!hex_color_cuts_char("#1\u{e9}2345"));
    assert!(!hex_color_cuts_char("no hash"));
}
