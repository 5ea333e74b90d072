use structured_output::desc::{
    compile_pattern, validate, Bounds, Constraint, Dfa, FieldSpec, MalformedSpec, PrimitiveKind,
    TypeDescription, VariantKind, VariantSpec,
};
use structured_output::parser::{
    advance, advance_all, advance_all_located, compile_parser, create_state, finish, parse,
    Advanced, ParseError,
};
use structured_output::render::schema_document;
use structured_output::schema::compile_schema;
use structured_output::value::Value;

fn nm(s: &str) -> Vec<u8> {
    s.as_bytes().to_vec()
}

fn field(name: &str, ty: TypeDescription) -> FieldSpec {
    FieldSpec { declared_name: nm(name), serialized_name: nm(name), ty }
}

fn renamed_field(declared: &str, serialized: &str, ty: TypeDescription) -> FieldSpec {
    FieldSpec { declared_name: nm(declared), serialized_name: nm(serialized), ty }
}

fn plain_string() -> TypeDescription {
    TypeDescription::Primitive { kind: PrimitiveKind::Text, constraint: None }
}

fn plain_integer() -> TypeDescription {
    TypeDescription::Primitive { kind: PrimitiveKind::Integer, constraint: None }
}

fn ranged_integer(min: u64, max: u64) -> TypeDescription {
    TypeDescription::Primitive {
        kind: PrimitiveKind::Integer,
        constraint: Some(Constraint::Range(Bounds { min, max })),
    }
}

fn unit_variant(name: &str) -> VariantSpec {
    VariantSpec { name: nm(name), kind: VariantKind::Unit }
}

/// The tagged union of the round-trip scenario: `tag="ty"`,
/// `content="contents"`, a record variant renamed `person` with a free
/// string `name` and an `age` in 0..=100, and a payload-free variant
/// renamed `animal`.
fn tagged_person_union() -> TypeDescription {
    TypeDescription::Union {
        variants: vec![
            VariantSpec {
                name: nm("person"),
                kind: VariantKind::Record(vec![
                    field("name", plain_string()),
                    field("age", ranged_integer(0, 100)),
                ]),
            },
            unit_variant("animal"),
        ],
        tag_field: Some(nm("ty")),
        content_field: Some(nm("contents")),
    }
}

/// The mixed union of the schema scenario: `Person { person, age }`,
/// `Animal` (unit), `Turtle(String)` (tuple), default `type`/`data` keys.
fn mixed_union() -> TypeDescription {
    TypeDescription::Union {
        variants: vec![
            VariantSpec {
                name: nm("Person"),
                kind: VariantKind::Record(vec![
                    field("person", plain_string()),
                    field("age", plain_integer()),
                ]),
            },
            unit_variant("Animal"),
            VariantSpec { name: nm("Turtle"), kind: VariantKind::Tuple(Box::new(plain_string())) },
        ],
        tag_field: None,
        content_field: None,
    }
}

fn doc_of(td: &TypeDescription) -> String {
    let schema = compile_schema(td).expect("well-formed description");
    String::from_utf8(schema_document(&schema)).expect("document is ascii")
}

#[test]
fn mixed_enum_schema() {
    let expected = "{\"oneOf\":[{\"type\":\"object\",\"properties\":{\"type\":{\"const\":\"Person\"},\"data\":{\"type\":\"object\",\"properties\":{\"person\":{\"type\":\"string\"},\"age\":{\"type\":\"integer\"}},\"required\":[\"person\",\"age\"],\"additionalProperties\":false}},\"required\":[\"type\",\"data\"],\"additionalProperties\":false},{\"type\":\"object\",\"properties\":{\"type\":{\"const\":\"Animal\"}},\"required\":[\"type\"],\"additionalProperties\":false},{\"type\":\"object\",\"properties\":{\"type\":{\"const\":\"Turtle\"},\"data\":{\"type\":\"string\"}},\"required\":[\"type\",\"data\"],\"additionalProperties\":false}]}";
    assert_eq!(doc_of(&mixed_union()), expected);
}

#[test]
fn unit_enum_schema() {
    let td = TypeDescription::Union {
        variants: vec![unit_variant("First"), unit_variant("second")],
        tag_field: None,
        content_field: None,
    };
    assert_eq!(doc_of(&td), "{\"enum\":[\"First\",\"second\"]}");
}

#[test]
fn unit_enum_parses() {
    let td = TypeDescription::Union {
        variants: vec![unit_variant("Red"), unit_variant("Blue"), unit_variant("Green")],
        tag_field: None,
        content_field: None,
    };
    let parser = compile_parser(td).expect("well-formed description");
    let value = parse(&parser, &nm("\"Red\" ")).expect("complete value");
    assert_eq!(value, Value::VariantValue { name: nm("Red"), payload: None });
}

#[test]
fn tagged_union_round_trip() {
    let parser = compile_parser(tagged_person_union()).expect("well-formed description");
    let input = nm("{\"ty\": \"person\", \"contents\": {\"name\": \"Alice\", \"age\": 30}}");
    let value = parse(&parser, &input).expect("complete value");
    let expected = Value::VariantValue {
        name: nm("person"),
        payload: Some(Box::new(Value::RecordValue(vec![
            (nm("name"), Value::TextValue(nm("Alice"))),
            (nm("age"), Value::IntegerValue(30)),
        ]))),
    };
    assert_eq!(value, expected);
}

#[test]
fn tagged_union_schema() {
    let expected = "{\"oneOf\":[{\"type\":\"object\",\"properties\":{\"ty\":{\"const\":\"person\"},\"contents\":{\"type\":\"object\",\"properties\":{\"name\":{\"type\":\"string\"},\"age\":{\"type\":\"integer\"}},\"required\":[\"name\",\"age\"],\"additionalProperties\":false}},\"required\":[\"ty\",\"contents\"],\"additionalProperties\":false},{\"type\":\"object\",\"properties\":{\"ty\":{\"const\":\"animal\"}},\"required\":[\"ty\"],\"additionalProperties\":false}]}";
    assert_eq!(doc_of(&tagged_person_union()), expected);
}

#[test]
fn tagged_union_unit_variant_parses() {
    let parser = compile_parser(tagged_person_union()).expect("well-formed description");
    let value = parse(&parser, &nm("{\"ty\": \"animal\"}")).expect("complete value");
    assert_eq!(value, Value::VariantValue { name: nm("animal"), payload: None });
}

#[test]
fn mixed_union_tuple_variant_parses() {
    let parser = compile_parser(mixed_union()).expect("well-formed description");
    let value = parse(&parser, &nm("{\"type\": \"Turtle\", \"data\": \"Dave\"}"))
        .expect("complete value");
    assert_eq!(
        value,
        Value::VariantValue {
            name: nm("Turtle"),
            payload: Some(Box::new(Value::TextValue(nm("Dave")))),
        }
    );
}

#[test]
fn mixed_union_unit_variant_parses() {
    let parser = compile_parser(mixed_union()).expect("well-formed description");
    let value = parse(&parser, &nm("{\"type\": \"Animal\"}")).expect("complete value");
    assert_eq!(value, Value::VariantValue { name: nm("Animal"), payload: None });
}

#[test]
fn range_rejects_at_third_digit() {
    let parser = compile_parser(ranged_integer(0, 100)).expect("well-formed description");
    let st = create_state(&parser);
    let st = match advance(st, b'1') {
        Advanced::Continue(st) => st,
        Advanced::Invalid(e) => panic!("rejected early: {:?}", e),
    };
    let st = match advance(st, b'0') {
        Advanced::Continue(st) => st,
        Advanced::Invalid(e) => panic!("rejected early: {:?}", e),
    };
    match advance(st, b'1') {
        Advanced::Continue(_) => panic!("101 must be rejected on its third digit"),
        Advanced::Invalid(e) => assert_eq!(e, ParseError::RangeViolation),
    }
}

#[test]
fn range_rejects_unreachable_lower_bound() {
    // No numeral in 5..=10 starts with 2: 2 is below, 20..29 are above.
    let parser = compile_parser(ranged_integer(5, 10)).expect("well-formed description");
    let st = create_state(&parser);
    match advance(st, b'2') {
        Advanced::Invalid(e) => assert_eq!(e, ParseError::RangeViolation),
        Advanced::Continue(_) => panic!("a dead first digit must be rejected"),
    }

    // 0 admits no further digit, so it is dead when the range excludes it.
    let st = create_state(&parser);
    match advance(st, b'0') {
        Advanced::Invalid(e) => assert_eq!(e, ParseError::RangeViolation),
        Advanced::Continue(_) => panic!("a leading zero below the minimum must be rejected"),
    }

    // 1 stays viable (10 is reachable); a second 1 overshoots.
    let st = create_state(&parser);
    let st = match advance(st, b'1') {
        Advanced::Continue(st) => st,
        Advanced::Invalid(e) => panic!("1 can still reach 10: {:?}", e),
    };
    match advance(st, b'1') {
        Advanced::Invalid(e) => assert_eq!(e, ParseError::RangeViolation),
        Advanced::Continue(_) => panic!("11 lies past the range"),
    }

    let parser = compile_parser(ranged_integer(50, 100)).expect("well-formed description");
    let st = create_state(&parser);
    match advance(st, b'4') {
        Advanced::Invalid(e) => assert_eq!(e, ParseError::RangeViolation),
        Advanced::Continue(_) => panic!("40..49 and 400.. all miss 50..=100"),
    }
    assert_eq!(parse(&parser, &nm("5")), None);
    assert_eq!(parse(&parser, &nm("50")), Some(Value::IntegerValue(50)));
    assert_eq!(parse(&parser, &nm("100")), Some(Value::IntegerValue(100)));
}

#[test]
fn rejection_reports_its_offset() {
    let parser = compile_parser(tagged_person_union()).expect("well-formed description");
    let input = nm("{\"ty\": \"person\", \"contents\": {\"name\": \"Al\", \"age\": 101}}");
    let st = create_state(&parser);
    match advance_all_located(st, &input) {
        (Advanced::Invalid(e), at) => {
            assert_eq!(e, ParseError::RangeViolation);
            // the first two digits of 101 are accepted; the third overshoots
            assert_eq!(at, input.len() - 3);
            assert_eq!(input[at], b'1');
        },
        (Advanced::Continue(_), _) => panic!("101 lies past the age range"),
    }
}

#[test]
fn chunked_and_block_feeding_agree() {
    let input = nm("{\"ty\": \"person\", \"contents\": {\"name\": \"Bo\", \"age\": 7}}");

    let parser = compile_parser(tagged_person_union()).expect("well-formed description");
    let mut st = create_state(&parser);
    for &b in input.iter() {
        st = match advance(st, b) {
            Advanced::Continue(st) => st,
            Advanced::Invalid(e) => panic!("byte {:?} rejected: {:?}", b as char, e),
        };
    }
    let byte_at_a_time = finish(&parser, st).expect("complete value");

    let st = create_state(&parser);
    let block = match advance_all(st, &input) {
        Advanced::Continue(st) => st,
        Advanced::Invalid(e) => panic!("block rejected: {:?}", e),
    };
    let whole_buffer = finish(&parser, block).expect("complete value");

    assert_eq!(byte_at_a_time, whole_buffer);
}

#[test]
fn incomplete_input_does_not_finish() {
    let parser = compile_parser(tagged_person_union()).expect("well-formed description");
    let st = create_state(&parser);
    let st = match advance_all(st, &nm("{\"ty\": \"person\"")) {
        Advanced::Continue(st) => st,
        Advanced::Invalid(e) => panic!("prefix rejected: {:?}", e),
    };
    assert_eq!(finish(&parser, st), None);
}

#[test]
fn top_level_integer_parses() {
    let parser = compile_parser(ranged_integer(0, 100)).expect("well-formed description");
    assert_eq!(parse(&parser, &nm("42")), Some(Value::IntegerValue(42)));
    assert_eq!(parse(&parser, &nm("0")), Some(Value::IntegerValue(0)));
    assert_eq!(parse(&parser, &nm("100")), Some(Value::IntegerValue(100)));
    assert_eq!(parse(&parser, &nm("007")), None);
    assert_eq!(parse(&parser, &nm("101")), None);
}

#[test]
fn record_parses_in_field_order() {
    let td = TypeDescription::Record {
        fields: vec![field("a", plain_integer()), field("b", plain_string())],
    };
    let parser = compile_parser(td).expect("well-formed description");
    let value = parse(&parser, &nm("{\"a\": 5, \"b\": \"x\"}")).expect("complete value");
    assert_eq!(
        value,
        Value::RecordValue(vec![
            (nm("a"), Value::IntegerValue(5)),
            (nm("b"), Value::TextValue(nm("x"))),
        ])
    );
}

#[test]
fn unexpected_byte_is_reported() {
    let td = TypeDescription::Record { fields: vec![field("a", plain_integer())] };
    let parser = compile_parser(td).expect("well-formed description");
    let st = create_state(&parser);
    match advance_all(st, &nm("[")) {
        Advanced::Invalid(ParseError::UnexpectedByte(b)) => assert_eq!(b, b'['),
        other => panic!("expected a rejection, got {:?}", matches!(other, Advanced::Continue(_))),
    }
}

#[test]
fn length_bounds_are_enforced() {
    let td = TypeDescription::Primitive {
        kind: PrimitiveKind::Text,
        constraint: Some(Constraint::Length(Bounds { min: 1, max: 3 })),
    };
    let parser = compile_parser(td).expect("well-formed description");
    assert_eq!(parse(&parser, &nm("\"abc\"")), Some(Value::TextValue(nm("abc"))));

    let st = create_state(&parser);
    match advance_all(st, &nm("\"abcd")) {
        Advanced::Invalid(e) => assert_eq!(e, ParseError::LengthViolation),
        Advanced::Continue(_) => panic!("a fourth body byte must be rejected"),
    }

    let st = create_state(&parser);
    match advance_all(st, &nm("\"\"")) {
        Advanced::Invalid(e) => assert_eq!(e, ParseError::LengthViolation),
        Advanced::Continue(_) => panic!("closing below the minimum length must be rejected"),
    }
}

/// An automaton accepting one or more `a` bytes.
fn a_plus() -> Dfa {
    let dead = 2usize;
    let mut row0 = vec![dead; 256];
    row0[b'a' as usize] = 1;
    let mut row1 = vec![dead; 256];
    row1[b'a' as usize] = 1;
    Dfa { start: 0, accepting: vec![false, true], delta: vec![row0, row1] }
}

#[test]
fn pattern_walks_the_automaton() {
    let td = TypeDescription::Primitive {
        kind: PrimitiveKind::Text,
        constraint: Some(Constraint::Pattern(a_plus())),
    };
    let parser = compile_parser(td).expect("well-formed description");
    assert_eq!(parse(&parser, &nm("\"aaa\"")), Some(Value::TextValue(nm("aaa"))));

    let st = create_state(&parser);
    match advance_all(st, &nm("\"ab")) {
        Advanced::Invalid(e) => assert_eq!(e, ParseError::PatternMismatch),
        Advanced::Continue(_) => panic!("a byte without a transition must be rejected"),
    }

    // The empty body is not in the automaton's language: the closing quote
    // arrives in a non-accepting state.
    let st = create_state(&parser);
    match advance_all(st, &nm("\"\"")) {
        Advanced::Invalid(e) => assert_eq!(e, ParseError::PatternMismatch),
        Advanced::Continue(_) => panic!("closing in a non-accepting state must be rejected"),
    }
}

#[test]
fn pattern_expression_compiles_to_automaton() {
    let dfa = compile_pattern(&nm("cat|dog|bird")).expect("well-formed expression");
    let td = TypeDescription::Primitive {
        kind: PrimitiveKind::Text,
        constraint: Some(Constraint::Pattern(dfa)),
    };
    let parser = compile_parser(td).expect("well-formed description");
    assert_eq!(parse(&parser, &nm("\"dog\"")), Some(Value::TextValue(nm("dog"))));
    assert_eq!(parse(&parser, &nm("\"cat\"")), Some(Value::TextValue(nm("cat"))));
    assert_eq!(parse(&parser, &nm("\"bird\"")), Some(Value::TextValue(nm("bird"))));

    let st = create_state(&parser);
    match advance_all(st, &nm("\"cow")) {
        Advanced::Invalid(e) => assert_eq!(e, ParseError::PatternMismatch),
        Advanced::Continue(_) => panic!("a word outside the pattern must be rejected"),
    }
    // A shared prefix is rejected only where the words diverge.
    let st = create_state(&parser);
    match advance_all(st, &nm("\"ca\"")) {
        Advanced::Invalid(e) => assert_eq!(e, ParseError::PatternMismatch),
        Advanced::Continue(_) => panic!("closing mid-word is not accepting"),
    }
}

#[test]
fn malformed_pattern_expressions_are_rejected() {
    assert_eq!(compile_pattern(&nm("")).err(), Some(MalformedSpec::InvalidPattern));
    assert_eq!(compile_pattern(&nm("|dog")).err(), Some(MalformedSpec::InvalidPattern));
    assert_eq!(compile_pattern(&nm("cat|")).err(), Some(MalformedSpec::InvalidPattern));
    assert_eq!(compile_pattern(&nm("cat||dog")).err(), Some(MalformedSpec::InvalidPattern));
    assert_eq!(compile_pattern(&nm("ca\"t")).err(), Some(MalformedSpec::InvalidPattern));
    assert_eq!(compile_pattern(&nm("ca\\t")).err(), Some(MalformedSpec::InvalidPattern));
    // operator bytes beyond alternation are rejected, not read as literals
    assert_eq!(compile_pattern(&nm("ca*t")).err(), Some(MalformedSpec::InvalidPattern));
    assert_eq!(compile_pattern(&nm("(cat)")).err(), Some(MalformedSpec::InvalidPattern));
}

#[test]
fn unknown_variant_tag_is_reported() {
    let td = TypeDescription::Union {
        variants: vec![unit_variant("Red"), unit_variant("Blue")],
        tag_field: None,
        content_field: None,
    };
    let parser = compile_parser(td).expect("well-formed description");
    let st = create_state(&parser);
    match advance_all(st, &nm("\"X")) {
        Advanced::Invalid(e) => assert_eq!(e, ParseError::UnknownVariantTag),
        Advanced::Continue(_) => panic!("an unknown discriminant must be rejected"),
    }
}

#[test]
fn shared_discriminant_prefixes_stay_live() {
    let td = TypeDescription::Union {
        variants: vec![unit_variant("Anteater"), unit_variant("Antelope")],
        tag_field: None,
        content_field: None,
    };
    let parser = compile_parser(td).expect("well-formed description");
    assert_eq!(
        parse(&parser, &nm("\"Antelope\"")),
        Some(Value::VariantValue { name: nm("Antelope"), payload: None })
    );
    assert_eq!(
        parse(&parser, &nm("\"Anteater\"")),
        Some(Value::VariantValue { name: nm("Anteater"), payload: None })
    );
}

#[test]
fn malformed_descriptions_are_rejected() {
    let dup_fields = TypeDescription::Record {
        fields: vec![
            renamed_field("a", "same", plain_integer()),
            renamed_field("b", "same", plain_integer()),
        ],
    };
    assert_eq!(validate(&dup_fields), Err(MalformedSpec::DuplicateFieldName));

    let dup_variants = TypeDescription::Union {
        variants: vec![unit_variant("A"), unit_variant("A")],
        tag_field: None,
        content_field: None,
    };
    assert_eq!(validate(&dup_variants), Err(MalformedSpec::DuplicateVariantName));

    let inverted = TypeDescription::Primitive {
        kind: PrimitiveKind::Integer,
        constraint: Some(Constraint::Range(Bounds { min: 5, max: 2 })),
    };
    assert_eq!(validate(&inverted), Err(MalformedSpec::InvertedBounds));

    let mismatched = TypeDescription::Primitive {
        kind: PrimitiveKind::Text,
        constraint: Some(Constraint::Range(Bounds { min: 0, max: 2 })),
    };
    assert_eq!(validate(&mismatched), Err(MalformedSpec::MismatchedConstraint));

    let half_tagged = TypeDescription::Union {
        variants: vec![unit_variant("A")],
        tag_field: Some(nm("ty")),
        content_field: None,
    };
    assert_eq!(validate(&half_tagged), Err(MalformedSpec::MismatchedTagging));

    let bad_pattern = TypeDescription::Primitive {
        kind: PrimitiveKind::Text,
        constraint: Some(Constraint::Pattern(Dfa {
            start: 0,
            accepting: vec![true],
            delta: vec![],
        })),
    };
    assert_eq!(validate(&bad_pattern), Err(MalformedSpec::InvalidPattern));

    let unquotable = TypeDescription::Record {
        fields: vec![field("a\"b", plain_integer())],
    };
    assert_eq!(validate(&unquotable), Err(MalformedSpec::UnquotableName));

    assert_eq!(compile_schema(&dup_fields).err(), Some(MalformedSpec::DuplicateFieldName));
    assert!(compile_parser(inverted).is_err());
}

#[test]
fn parser_and_schema_come_from_one_source() {
    let parser = compile_parser(mixed_union()).expect("well-formed description");
    let from_parser = String::from_utf8(schema_document(&parser.schema())).unwrap();
    assert_eq!(from_parser, doc_of(&mixed_union()));
}

#[test]
fn primitive_schemas_render_base_types() {
    assert_eq!(doc_of(&plain_integer()), "{\"type\":\"integer\"}");
    assert_eq!(doc_of(&plain_string()), "{\"type\":\"string\"}");
    assert_eq!(doc_of(&ranged_integer(0, 9)), "{\"type\":\"integer\"}");
    let record = TypeDescription::Record {
        fields: vec![field("name", plain_string())],
    };
    assert_eq!(
        doc_of(&record),
        "{\"type\":\"object\",\"properties\":{\"name\":{\"type\":\"string\"}},\"required\":[\"name\"],\"additionalProperties\":false}"
    );
}
