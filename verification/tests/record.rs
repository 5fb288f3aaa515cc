use serial_plotter::number::Numeral;
use serial_plotter::record::{parse, trim, Sample, SEPARATOR};

fn text_of(numeral: &Numeral) -> &str {
    std::str::from_utf8(numeral.as_bytes()).unwrap()
}

fn floats_of(sample: &Sample) -> (f64, f64) {
    (
        text_of(sample.position()).parse().unwrap(),
        text_of(sample.value()).parse().unwrap(),
    )
}

#[test]
fn separator_is_comma() {
    assert_eq!(SEPARATOR, b',');
}

#[test]
fn parse_reads_two_numbers() {
    let sample = parse(b"1.5, 2.0").unwrap();
    assert_eq!(text_of(sample.position()), "1.5");
    assert_eq!(text_of(sample.value()), "2.0");
    assert_eq!(floats_of(&sample), (1.5, 2.0));
}

#[test]
fn parse_turns_down_a_field_that_is_no_number() {
    assert_eq!(parse(b"abc,2.0"), None);
    assert_eq!(parse(b"2.0,abc"), None);
    assert_eq!(parse(b"1.0,"), None);
    assert_eq!(parse(b",1.0"), None);
    assert_eq!(parse(b","), None);
    assert_eq!(parse(b" , "), None);
}

#[test]
fn parse_turns_down_a_wrong_number_of_fields() {
    assert_eq!(parse(b"1.0"), None);
    assert_eq!(parse(b"1.0,2.0,3.0"), None);
    assert_eq!(parse(b"1.0,2.0,"), None);
    assert_eq!(parse(b",1.0,2.0"), None);
    assert_eq!(parse(b""), None);
    assert_eq!(parse(b"1.0 2.0"), None);
    assert_eq!(parse(b"1.0;2.0"), None);
}

#[test]
fn parse_turns_down_the_header() {
    assert_eq!(parse(b"pos,val"), None);
}

#[test]
fn parse_turns_down_bytes_that_are_no_text() {
    assert_eq!(parse(&[0xFF, b',', b'1']), None);
    assert_eq!(parse(&[b'1', b',', b'2', 0x80]), None);
    assert_eq!(parse(&[b'1', b',', b'2', 0xC2]), None);
    assert_eq!(parse(&[0xC0, 0x80, b'1', b',', b'2']), None);
    assert_eq!(parse(&[0xED, 0xA0, 0x80, b'1', b',', b'2']), None);
    assert_eq!(parse(&[b'1', b',', b'2', 0xE2, 0x80]), None);
}

#[test]
fn parse_ignores_blanks_around_each_field() {
    let sample = parse(b"  1.5\t,\t 2.0  \r").unwrap();
    assert_eq!(text_of(sample.position()), "1.5");
    assert_eq!(text_of(sample.value()), "2.0");
    let sample = parse("\u{a0}3\u{2003},\u{3000}4\u{85}".as_bytes()).unwrap();
    assert_eq!(text_of(sample.position()), "3");
    assert_eq!(text_of(sample.value()), "4");
}

#[test]
fn parse_does_not_ignore_blanks_inside_a_field() {
    assert_eq!(parse(b"1 .5,2.0"), None);
    assert_eq!(parse(b"1.5,2 .0"), None);
    assert_eq!(parse(b"- 1,2"), None);
    assert_eq!(parse("1\u{a0}5,2".as_bytes()), None);
}

#[test]
fn parse_keeps_the_text_of_each_number() {
    let sample = parse(b"+1.50e3,-0.0").unwrap();
    assert_eq!(text_of(sample.position()), "+1.50e3");
    assert_eq!(text_of(sample.value()), "-0.0");
    assert_eq!(floats_of(&sample).0, 1500.0);
}

#[test]
fn parse_accepts_named_values() {
    let sample = parse(b"inf,NaN").unwrap();
    let (position, value) = floats_of(&sample);
    assert_eq!(position, f64::INFINITY);
    assert!(value.is_nan());
}

#[test]
fn parse_judges_a_record_as_split_trim_and_the_standard_parser_do() {
    let parts = [
        "", " ", "1", "1.5", "-2e3", "abc", ",", "1,2", " 1 ", "\t.5\r", "5.", ".", "nan", "+",
        "\u{a0}7\u{a0}", "1 2", "e1", "0x1",
    ];
    for left in parts {
        for right in parts {
            for joint in [",", "", ",,", " , "] {
                let record = format!("{}{}{}", left, joint, right);
                let fields: Vec<&str> = record.split(',').collect();
                let expected = if fields.len() == 2 {
                    let a = fields[0].trim();
                    let b = fields[1].trim();
                    if a.parse::<f64>().is_ok() && b.parse::<f64>().is_ok() {
                        Some((a.to_string(), b.to_string()))
                    } else {
                        None
                    }
                } else {
                    None
                };
                let found = parse(record.as_bytes()).map(|sample| {
                    (
                        text_of(sample.position()).to_string(),
                        text_of(sample.value()).to_string(),
                    )
                });
                assert_eq!(found, expected, "{:?}", record);
            }
        }
    }
}

#[test]
fn trim_removes_blanks_at_both_ends() {
    assert_eq!(trim(b"  a b  "), b"a b");
    assert_eq!(trim(b"\t\n\x0b\x0c\r x"), b"x");
    assert_eq!(trim(b"x\t\n\x0b\x0c\r "), b"x");
    assert_eq!(trim(b""), b"");
    assert_eq!(trim(b"   "), b"");
    assert_eq!(trim(b"abc"), b"abc");
}

#[test]
fn trim_leaves_other_control_bytes() {
    assert_eq!(trim(b"\x00a\x00"), b"\x00a\x00");
    assert_eq!(trim(b"\x08a\x0e"), b"\x08a\x0e");
    assert_eq!(trim(b"\x1fa\x7f"), b"\x1fa\x7f");
}

#[test]
fn trim_treats_every_character_as_the_standard_trim_does() {
    let mut blanks = 0usize;
    for code in 0u32..=0x10FFFF {
        let c = match char::from_u32(code) {
            Some(c) => c,
            None => continue,
        };
        if c.is_whitespace() {
            blanks += 1;
        }
        let text = format!("{}x{}", c, c);
        assert_eq!(trim(text.as_bytes()), text.trim().as_bytes(), "U+{:04X}", code);
        let doubled = format!("{}{}x y{}{}", c, c, c, c);
        assert_eq!(trim(doubled.as_bytes()), doubled.trim().as_bytes(), "U+{:04X}", code);
        let alone = format!("{}", c);
        assert_eq!(trim(alone.as_bytes()), alone.trim().as_bytes(), "U+{:04X}", code);
    }
    assert_eq!(blanks, 25);
}

#[test]
fn trim_removes_mixed_blanks() {
    let text = " \u{2003}\t\u{a0}1.5\u{3000} \u{1680}\r\n";
    assert_eq!(trim(text.as_bytes()), b"1.5");
    assert_eq!(trim(text.as_bytes()), text.trim().as_bytes());
}

#[test]
fn trim_leaves_pieces_of_a_blank() {
    assert_eq!(trim(&[0xC2]), &[0xC2]);
    assert_eq!(trim(&[0x85]), &[0x85]);
    assert_eq!(trim(&[0xE2, 0x80]), &[0xE2, 0x80]);
    assert_eq!(trim(&[b'a', 0x80, 0x80]), &[b'a', 0x80, 0x80]);
    assert_eq!(trim(&[0xE2, 0x80, 0x8B]), &[0xE2, 0x80, 0x8B]);
}

#[test]
fn sample_is_built_from_two_numerals() {
    let sample = Sample::new(
        Numeral::from_text(b"1.0").unwrap(),
        Numeral::from_text(b"2.0").unwrap(),
    );
    assert_eq!(sample.position().as_bytes(), b"1.0");
    assert_eq!(sample.value().as_bytes(), b"2.0");
    assert_eq!(Some(sample), parse(b"1.0,2.0"));
}

#[test]
fn sample_clone_is_equal() {
    let sample = parse(b"3.5,-4").unwrap();
    let copy = sample.clone();
    assert_eq!(copy, sample);
    assert_eq!(copy.position().as_bytes(), b"3.5");
    assert_eq!(copy.value().as_bytes(), b"-4");
}
