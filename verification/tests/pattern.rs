use decree::{
    bind, compile, parse_bit_pattern, parse_bits, parse_bits_to_byte, parse_literal, parse_range,
    BindError, BitPattern, Literal, ParseError, Payload, PlanEntry, Range, RawMappingValue, Token,
};

fn name(text: &str) -> Option<String> {
    Some(text.to_string())
}

fn range(name: &str, start: usize, len: usize) -> Token {
    Token::Range(Range { name: name.to_string(), start, len })
}

fn bits(text: &str) -> Token {
    Token::Bits(parse_literal(text))
}

#[test]
fn bits_to_byte_reads_most_significant_first() {
    assert_eq!(parse_bits_to_byte(""), 0);
    assert_eq!(parse_bits_to_byte("1"), 1);
    assert_eq!(parse_bits_to_byte("10"), 2);
    assert_eq!(parse_bits_to_byte("101"), 5);
    assert_eq!(parse_bits_to_byte("10110011"), 0xb3);
    assert_eq!(parse_bits_to_byte("1110110011"), 0xb3);
    assert_eq!(parse_bits_to_byte("1x1"), 5);
}

#[test]
fn literal_bytes_at_boundary_widths() {
    assert_eq!(parse_bits(""), Vec::<u8>::new());
    assert_eq!(parse_bits("1"), vec![0x01]);
    assert_eq!(parse_bits("10"), vec![0x02]);
    assert_eq!(parse_bits("101"), vec![0x05]);
    assert_eq!(parse_bits("1011"), vec![0x0b]);
    assert_eq!(parse_bits("10110"), vec![0x16]);
    assert_eq!(parse_bits("101100"), vec![0x2c]);
    assert_eq!(parse_bits("1011001"), vec![0x59]);
    assert_eq!(parse_bits("10110011"), vec![0xb3]);
    assert_eq!(parse_bits("110110011"), vec![0xb3, 0x01]);
    assert_eq!(parse_bits("1010101111001101"), vec![0xcd, 0xab]);
    assert_eq!(parse_bits("11010101111001101"), vec![0xcd, 0xab, 0x01]);
    assert_eq!(parse_bits("11101110011001101001110"), vec![0x4e, 0x33, 0x77]);
    assert_eq!(parse_bits("1001110011000"), vec![0x98, 0x13]);
}

#[test]
fn literal_counts_its_bits() {
    assert_eq!(parse_literal("1001110011000"), Literal { bytes: vec![0x98, 0x13], bits: 13 });
    assert_eq!(parse_literal("0"), Literal { bytes: vec![0], bits: 1 });
}

#[test]
fn pattern_tokens_in_text_order() {
    let pattern = parse_bit_pattern("111[x:1][y:4-9]0[12:0-63]").unwrap();
    assert_eq!(
        pattern.tokens,
        vec![bits("111"), range("x", 1, 1), range("y", 4, 6), bits("0"), range("12", 0, 64)]
    );
    assert!(pattern.renames.is_empty());
    assert_eq!(pattern.bits(), 3 + 1 + 6 + 1 + 64);
}

#[test]
fn empty_text_is_an_empty_pattern() {
    let pattern = parse_bit_pattern("").unwrap();
    assert!(pattern.tokens.is_empty());
    assert_eq!(pattern.bits(), 0);
}

fn parse_error(text: &str) -> ParseError {
    match parse_bit_pattern(text) {
        Ok(pattern) => panic!("parsed {:?}", pattern),
        Err(e) => e,
    }
}

#[test]
fn malformed_text_reports_offset_and_slice() {
    assert_eq!(parse_error("12"), ParseError { offset: 1, slice: b"2".to_vec() });
    assert_eq!(parse_error("11 0"), ParseError { offset: 2, slice: b" ".to_vec() });
    assert_eq!(parse_error("01[x]"), ParseError { offset: 2, slice: b"[x]".to_vec() });
    assert_eq!(parse_error("[x:]"), ParseError { offset: 0, slice: b"[x:]".to_vec() });
    assert_eq!(parse_error("[:1]"), ParseError { offset: 0, slice: b"[:".to_vec() });
    assert_eq!(parse_error("[x:1"), ParseError { offset: 0, slice: b"[x:1".to_vec() });
    assert_eq!(parse_error("1[x:1-]0"), ParseError { offset: 1, slice: b"[x:1-]".to_vec() });
    assert_eq!(parse_error("[x:5-3]"), ParseError { offset: 0, slice: b"[x:5-3]".to_vec() });
    assert_eq!(parse_error("[x-y:3]"), ParseError { offset: 0, slice: b"[x-".to_vec() });
    assert_eq!(parse_error("1, z = y"), ParseError { offset: 1, slice: b",".to_vec() });
    assert_eq!(
        parse_error("[x:99999999999999999999999999]"),
        ParseError { offset: 0, slice: b"[x:99999999999999999999999999]".to_vec() }
    );
}

#[test]
fn total_width_beyond_the_machine_word_is_refused() {
    let max = usize::MAX;
    let text = format!("[x:0-{}][y:0-{}]", max - 1, 0);
    assert_eq!(
        parse_error(&text),
        ParseError { offset: text.len() - 7, slice: b"[y:0-0]".to_vec() }
    );
    let widest = format!("[x:0-{}]", max - 1);
    assert_eq!(parse_bit_pattern(&widest).unwrap().bits(), max);
}

#[test]
fn renames_follow_the_tokens() {
    let pattern = BitPattern::parse("1[z:12], z = y").unwrap();
    assert_eq!(pattern.tokens, vec![bits("1"), range("z", 12, 1)]);
    assert_eq!(
        pattern.renames,
        vec![("z".to_string(), RawMappingValue::Name("y".to_string()))]
    );
    let pattern = BitPattern::parse("[x:0][y:1],x=0 ,  y = 1  ,_z9=b_2").unwrap();
    assert_eq!(
        pattern.renames,
        vec![
            ("x".to_string(), RawMappingValue::Index(0)),
            ("y".to_string(), RawMappingValue::Index(1)),
            ("_z9".to_string(), RawMappingValue::Name("b_2".to_string())),
        ]
    );
    assert!(BitPattern::parse("101").unwrap().renames.is_empty());
}

fn full_error(text: &str) -> ParseError {
    match BitPattern::parse(text) {
        Ok(pattern) => panic!("parsed {:?}", pattern),
        Err(e) => e,
    }
}

#[test]
fn malformed_renames_are_refused() {
    assert_eq!(full_error("1, 9z = y"), ParseError { offset: 1, slice: b", 9z ".to_vec() });
    assert_eq!(full_error("1, z y"), ParseError { offset: 1, slice: b", z y".to_vec() });
    assert_eq!(full_error("1, z = 1a"), ParseError { offset: 1, slice: b", z = 1a".to_vec() });
    assert_eq!(full_error("1, z = "), ParseError { offset: 1, slice: b", z = ".to_vec() });
    assert_eq!(full_error("1, z = y x"), ParseError { offset: 1, slice: b", z = y x".to_vec() });
    assert_eq!(full_error("1,"), ParseError { offset: 1, slice: b",".to_vec() });
    assert_eq!(full_error("1 , z = y"), ParseError { offset: 1, slice: b" ".to_vec() });
}

#[test]
fn referenced_values_follow_renames() {
    let pattern = BitPattern::parse("[x:1][z:2][0:1]11[x:3][w:0], z = y, w = 0").unwrap();
    assert_eq!(
        pattern.referenced_values(),
        vec![
            RawMappingValue::Name("x".to_string()),
            RawMappingValue::Name("y".to_string()),
            RawMappingValue::Index(0),
        ]
    );
}

#[test]
fn last_rename_of_a_name_decides_the_reference() {
    let pattern = BitPattern {
        tokens: vec![range("z", 0, 1)],
        renames: vec![
            ("z".to_string(), RawMappingValue::Name("x".to_string())),
            ("z".to_string(), RawMappingValue::Index(3)),
        ],
    };
    assert_eq!(pattern.referenced_values(), vec![RawMappingValue::Index(3)]);
}

#[test]
fn bind_resolves_names_positions_and_aliases() {
    let pattern = BitPattern::parse("[x:0][1:0][z:0], z = y").unwrap();
    let binding = bind(&pattern, vec![name("x"), None, name("y")]).unwrap();
    assert_eq!(binding.resolve(&RawMappingValue::Name("x".to_string())), Some(0));
    assert_eq!(binding.resolve(&RawMappingValue::Index(1)), Some(1));
    assert_eq!(binding.resolve(&RawMappingValue::Name("y".to_string())), Some(2));
    assert_eq!(binding.resolve(&RawMappingValue::Name("z".to_string())), Some(2));
    assert_eq!(binding.resolve(&RawMappingValue::Index(0)), None);
    assert_eq!(binding.resolve(&RawMappingValue::Index(7)), None);
    assert_eq!(binding.resolve(&RawMappingValue::Name("w".to_string())), None);
}

#[test]
fn rename_to_a_missing_field_is_refused() {
    let pattern = BitPattern::parse("[z:0], z = y").unwrap();
    assert_eq!(
        bind(&pattern, vec![name("x")]).err(),
        Some(BindError::NotAField {
            new_name: "z".to_string(),
            field: RawMappingValue::Name("y".to_string()),
        })
    );
    let pattern = BitPattern::parse("[z:0], z = 0").unwrap();
    assert_eq!(
        bind(&pattern, vec![name("x")]).err(),
        Some(BindError::NotAField { new_name: "z".to_string(), field: RawMappingValue::Index(0) })
    );
}

#[test]
fn rename_that_collides_is_refused_unless_it_agrees() {
    let pattern = BitPattern::parse("[x:0], x = y").unwrap();
    assert_eq!(
        bind(&pattern, vec![name("x"), name("y")]).err(),
        Some(BindError::AlreadyMapped { new_name: "x".to_string(), position: 0 })
    );
    let pattern = BitPattern::parse("[z:0], z = x, z = y").unwrap();
    assert_eq!(
        bind(&pattern, vec![name("x"), name("y")]).err(),
        Some(BindError::AlreadyMapped { new_name: "z".to_string(), position: 0 })
    );
    let pattern = BitPattern::parse("[y:0], y = y, z = y, z = y").unwrap();
    let binding = bind(&pattern, vec![name("x"), name("y")]).unwrap();
    assert_eq!(binding.resolve(&RawMappingValue::Name("z".to_string())), Some(1));
    assert_eq!(binding.aliases.len(), 1);
}

#[test]
fn unresolved_reference_is_refused() {
    let pattern = BitPattern::parse("1[x:0][q:3]").unwrap();
    assert_eq!(
        bind(&pattern, vec![name("x")]).err(),
        Some(BindError::Unresolved { field: RawMappingValue::Name("q".to_string()) })
    );
    let pattern = BitPattern::parse("[0:3]").unwrap();
    assert_eq!(
        bind(&pattern, vec![name("x")]).err(),
        Some(BindError::Unresolved { field: RawMappingValue::Index(0) })
    );
}

#[test]
fn plan_walks_the_tokens_from_the_last_to_the_first() {
    let pattern = BitPattern::parse("111[x:1]10[y:4-9], x = 0").unwrap();
    let binding = bind(&pattern, vec![None, name("y")]).unwrap();
    let plan = compile(&pattern, &binding);
    assert_eq!(plan.size(), 12);
    assert_eq!(plan.size(), pattern.bits());
    assert_eq!(
        plan.entries,
        vec![
            PlanEntry { start: 0, len: 6, payload: Payload::Field { field: 1, offset: 4 } },
            PlanEntry { start: 6, len: 2, payload: Payload::Literal(vec![0b10]) },
            PlanEntry { start: 8, len: 1, payload: Payload::Field { field: 0, offset: 1 } },
            PlanEntry { start: 9, len: 3, payload: Payload::Literal(vec![0b111]) },
        ]
    );
}

#[test]
fn renamed_reference_compiles_as_the_direct_one() {
    let fields = vec![name("x"), name("y"), None];
    let renamed = BitPattern::parse("1[z:12][w:3], z = y, w = 2").unwrap();
    let direct = BitPattern::parse("1[y:12][2:3]").unwrap();
    let plan_renamed = compile(&renamed, &bind(&renamed, fields.clone()).unwrap());
    let plan_direct = compile(&direct, &bind(&direct, fields).unwrap());
    assert_eq!(plan_renamed, plan_direct);
    assert_eq!(
        plan_renamed.entries[0],
        PlanEntry { start: 0, len: 1, payload: Payload::Field { field: 2, offset: 3 } }
    );
}

#[test]
fn range_in_brackets() {
    assert_eq!(
        parse_range(b"[x:7]", 0),
        Ok((Range { name: "x".to_string(), start: 7, len: 1 }, 5))
    );
    assert_eq!(
        parse_range(b"01[field_2:4-9]1", 2),
        Ok((Range { name: "field_2".to_string(), start: 4, len: 6 }, 15))
    );
    assert_eq!(
        parse_range(b"[3:0-0]", 0),
        Ok((Range { name: "3".to_string(), start: 0, len: 1 }, 7))
    );
    assert_eq!(parse_range(b"[x:4-]", 0), Err(5));
    assert_eq!(parse_range(b"[x:9-4]", 0), Err(6));
    assert_eq!(parse_range(b"[x 1]", 0), Err(2));
    assert_eq!(parse_range(b"[", 0), Err(1));
    let text = format!("[x:{}]", usize::MAX);
    assert_eq!(parse_range(text.as_bytes(), 0), Err(text.len() - 1));
}
