use jacl::de::from_str;
use jacl::de::Deserializer;
use jacl::de::JaclDeError;
use jacl::structs::Literal;
use jacl::structs::Number;
use jacl::structs::Value;

fn as_u8_vec(v: &Value) -> Vec<u8> {
    match v {
        Value::Sequence(items) => items.iter().map(|x| x.as_u8().unwrap()).collect(),
        _ => panic!("not a sequence"),
    }
}

fn as_string_vec(v: &Value) -> Vec<String> {
    match v {
        Value::Sequence(items) => items.iter().map(|x| x.as_string().unwrap()).collect(),
        _ => panic!("not a sequence"),
    }
}

fn as_f64(v: &Value) -> f64 {
    match v {
        Value::Literal(Literal::Number(Number::Flt(s))) => s.parse::<f64>().unwrap(),
        _ => panic!("not a float"),
    }
}

fn as_opt_u32(v: &Value) -> Option<u32> {
    if v.is_null() {
        None
    } else {
        Some(v.as_u32().unwrap())
    }
}

#[test]
fn test_comments() {
    let v: Vec<u8> = vec![1, 2, 3, 4, 5];
    assert_eq!(
        v,
        as_u8_vec(
            &from_str(
                "
        // single line comment
        1
        2
        /* multiline
           comment */
        3
        /* multiline
        comment */ // comment
        // comment //comment //     comment
        /* comment*/ /*comment */ 4 /*comment*/
        5
        "
            )
            .unwrap()
        )
    );
}

#[test]
fn test_literals() {
    // no whitespace
    assert_eq!(true, from_str("true").unwrap().as_bool().unwrap());
    assert_eq!(1u8, from_str("1").unwrap().as_u8().unwrap());
    assert_eq!(1.0, as_f64(&from_str("1.0").unwrap()));
    assert_eq!(
        "test",
        from_str(r#""test""#).unwrap().as_string().unwrap()
    );

    // with whitespace on back
    assert_eq!(true, from_str("true      ").unwrap().as_bool().unwrap());
    assert_eq!(1u8, from_str("1      ").unwrap().as_u8().unwrap());
    assert_eq!(1.0, as_f64(&from_str("1.0      ").unwrap()));
    assert_eq!(
        "test",
        from_str(r#""test"   "#).unwrap().as_string().unwrap()
    );

    // whitespace front and back
    assert_eq!(true, from_str("     true   ").unwrap().as_bool().unwrap());
    assert_eq!(1.0, as_f64(&from_str("   1.0  ").unwrap()));
    assert_eq!(1u8, from_str("   \n1   ").unwrap().as_u8().unwrap());
    assert_eq!(
        "test",
        from_str(r#"   "test"   ,,,,,,,,,,,"#).unwrap().as_string().unwrap()
    );

    // multiline string literal
    assert_eq!(
        "test\ntest\n",
        from_str(
            r#"
"test
test
""#
        )
        .unwrap()
        .as_string()
        .unwrap()
    );
}

#[test]
fn test_err() {
    let val: JaclDeError =
        from_str("[1 2 3]      abc").expect_err("invalid jacl didn't return error?");
    assert_eq!(1, val.line());
    assert_eq!(13, val.col());
}

#[test]
fn test_option() {
    assert_eq!(Some(0), as_opt_u32(&from_str("0").unwrap()));
    assert_eq!(None, as_opt_u32(&from_str(" null").unwrap()));
}

#[test]
fn test_vec() {
    let v: Vec<u8> = vec![1, 2, 3, 4];
    assert_eq!(v, as_u8_vec(&from_str("1   2 3 4,").unwrap()));
    let v: Vec<String> = vec!["hello".to_string(), "world".to_string()];
    assert_eq!(v, as_string_vec(&from_str(r#" "hello"  "world"     "#).unwrap()));

    let expected = Value::Sequence(vec![
        Value::Record(vec![("int".to_string(), Value::integer(1))]),
        Value::Record(vec![("int".to_string(), Value::integer(2))]),
    ]);
    assert_eq!(expected, from_str(r#" [(int : 1), (int : 2)]     "#).unwrap());
}

#[test]
fn test_number() {
    assert_eq!(
        Value::Literal(Literal::Number(Number::Int(1))),
        from_str("1").unwrap()
    );
    assert_eq!(1.75, as_f64(&from_str("1.75").unwrap()));
}

#[test]
fn test_literal() {
    let int = Literal::from_int(1);
    let flt = Literal::from_flt("1.75");
    let b = Literal::from_bool(true);
    let s = Literal::from_string("hello world");
    let null = Literal::Null;

    assert_eq!(Value::Literal(b), from_str("true").unwrap());
    assert_eq!(Value::Literal(s), from_str(r#"  "hello world"   "#).unwrap());
    assert_eq!(Value::Literal(int), from_str("1").unwrap());
    assert_eq!(Value::Literal(flt), from_str("1.75").unwrap());
    assert_eq!(Value::Literal(null), from_str("null").unwrap());
}

#[test]
fn test_value() {
    let val = Value::Sequence(vec![
        Value::bool(true),
        Value::flt("1.0"),
        Value::string("hello world"),
        Value::null(),
        Value::Mapping(vec![
            ("key_0".to_string(), Value::null()),
            ("key_1".to_string(), Value::bool(false)),
        ]),
    ]);

    assert_eq!(
        val,
        from_str(
            r#"
            true
            1.0
            "hello world"
            null
            {
                "key_0" : null
                "key_1" : false
            }
        "#
        )
        .unwrap()
    );

    let map = Value::Mapping(vec![
        ("key_0".to_string(), Value::null()),
        ("key_1".to_string(), Value::bool(false)),
    ]);

    assert_eq!(
        map,
        from_str(
            r#"
            "key_0" : null
            "key_1" : false
        "#
        )
        .unwrap()
    );
}

// Separator idempotence: extra runs of space, tab, CR, LF and commas at
// separator positions leave the decoded value unchanged.
#[test]
fn separators_are_interchangeable() {
    let plain = from_str("[1 2 3]").unwrap();
    assert_eq!(plain, from_str("[1,,  2 ,\t3,,]").unwrap());
    assert_eq!(plain, from_str(",,[ 1\r\n2 \t,,, 3 ],").unwrap());
    let rec = from_str("(a: 1 b: \"x\")").unwrap();
    assert_eq!(rec, from_str("(,,a :\t1,\r\nb:   \"x\",,,)").unwrap());
}

// Comment transparency: a well-formed line or block comment at a separator
// position does not change the decoded value.
#[test]
fn comments_are_transparent() {
    let plain = from_str("[1 2 3]").unwrap();
    assert_eq!(plain, from_str("[/*x*/1 //c\n 2 /* y */ 3]/*tail*/ ").unwrap());
    let rec = from_str("(a: 1)").unwrap();
    assert_eq!(rec, from_str("(//lead\na/*mid*/: /*deep*/1)").unwrap());
}

// Widening every separator into a run of separators and comments leaves the
// decoded document unchanged.
#[test]
fn trivia_insertion_sweep() {
    let doc = "(a: [1 2] b: \"x\" c: {\"k\": null} d: true)";
    let expected = from_str(doc).unwrap();
    let widened = doc.replace(' ', ",,\t /*c*/ // line\n ");
    assert_eq!(expected, from_str(&widened).unwrap());
}

// Root-shape inference: bare literal runs become a sequence, a leading
// literal with a colon becomes a mapping, a bare identifier a field list
// with identifier keys and the map flavor, and a single literal stays
// unwrapped.
#[test]
fn root_shape_inference() {
    assert_eq!(
        Value::Sequence(vec![Value::integer(1), Value::integer(2), Value::integer(3)]),
        from_str("1 2 3").unwrap()
    );
    assert_eq!(
        Value::Mapping(vec![("a".to_string(), Value::integer(1))]),
        from_str("\"a\":1").unwrap()
    );
    assert_eq!(
        Value::Mapping(vec![("a".to_string(), Value::integer(1))]),
        from_str("a:1").unwrap()
    );
    assert_eq!(Value::bool(true), from_str("true").unwrap());
}

// Terminator tolerance: trailing and repeated separators decode to the
// identical sequence.
#[test]
fn terminator_tolerance() {
    let a = from_str("[1 2 3,,,,]").unwrap();
    let b = from_str("[1 ,2, 3]").unwrap();
    let c = from_str("[1\n2\n3]").unwrap();
    let expected =
        Value::Sequence(vec![Value::integer(1), Value::integer(2), Value::integer(3)]);
    assert_eq!(expected, a);
    assert_eq!(a, b);
    assert_eq!(b, c);
}

// Struct/map discriminator: parentheses written in the source yield the
// struct flavor; braces, a quoted-key implicit root, and a bare field list
// yield the map flavor.
#[test]
fn struct_map_discriminator() {
    assert!(matches!(from_str("(a:0)").unwrap(), Value::Record(_)));
    assert!(matches!(from_str("a:0").unwrap(), Value::Mapping(_)));
    assert!(matches!(from_str("{\"a\":0}").unwrap(), Value::Mapping(_)));
    assert!(matches!(from_str("\"a\":0").unwrap(), Value::Mapping(_)));
}

// Error position: the failure points at the first character of the trailing
// garbage, and the caret marker lines up under it.
#[test]
fn error_position() {
    let e = from_str("[1 2 3]      abc").unwrap_err();
    assert_eq!(1, e.line());
    assert_eq!(13, e.col());
    assert_eq!("[1 2 3]      abc", e.line_str());
    assert_eq!("-------------^", e.marker());
}

// Range check: an 8-bit unsigned extraction rejects 256 and accepts 255.
#[test]
fn range_check() {
    assert!(from_str("256").unwrap().as_u8().is_err());
    assert_eq!(255u8, from_str("255").unwrap().as_u8().unwrap());
}

// Unterminated container: end of input inside a record is an error, never a
// partial success.
#[test]
fn unterminated_container() {
    assert!(from_str("(unterminated").is_err());
    assert!(from_str("[1 2").is_err());
    assert!(from_str("{\"a\": 1").is_err());
    assert!(from_str("\"unclosed").is_err());
}

// Repeated keys replace the stored value and keep first-appearance order.
#[test]
fn repeated_keys_replace() {
    assert_eq!(
        Value::Record(vec![
            ("a".to_string(), Value::integer(3)),
            ("b".to_string(), Value::integer(2)),
        ]),
        from_str("(a: 1 b: 2 a: 3)").unwrap()
    );
}

// Integer literals: underscores are stripped, the sign is kept, and a value
// outside 64 signed bits is a parse error.
#[test]
fn integer_shapes() {
    assert_eq!(1000i64, from_str("1_000").unwrap().as_int().unwrap());
    assert_eq!(-42i64, from_str("-42").unwrap().as_int().unwrap());
    assert_eq!(
        i64::MIN,
        from_str("-9223372036854775808").unwrap().as_int().unwrap()
    );
    assert_eq!(
        i64::MAX,
        from_str("9223372036854775807").unwrap().as_int().unwrap()
    );
    assert!(from_str("9223372036854775808").is_err());
}

// Float literals: the four lexical shapes are recognized and carried as
// source text; an underscore inside a float is a parse error.
#[test]
fn float_shapes() {
    // leading-dot and exponent-only shapes are scanned by the float parse
    // operation; shape-free dispatch reaches a float only through a dot
    // after the integer part
    let mut d = Deserializer::new(None, ".42 .42e-3 42e7", None);
    assert_eq!(".42", d.parse_float().unwrap());
    assert_eq!(".42e-3", d.parse_float().unwrap());
    assert_eq!("42e7", d.parse_float().unwrap());
    assert_eq!(0.0425, as_f64(&from_str("42.5e-3").unwrap()));
    assert_eq!(42.0, as_f64(&from_str("42.").unwrap()));
    assert_eq!(42.5, as_f64(&from_str("42.5").unwrap()));
    assert_eq!(42i64, from_str("42").unwrap().as_int().unwrap());
    assert!(from_str("1_0.5").is_err());
}

// String literals: escapes unescape per RFC 8259, and an invalid escape or
// an unclosed string is a parse error.
#[test]
fn string_escapes() {
    assert_eq!(
        "a\"b\\c\nd",
        from_str(r#""a\"b\\c\nd""#).unwrap().as_string().unwrap()
    );
    assert_eq!(
        "snowman \u{2603}",
        from_str("\"snowman \u{2603}\"").unwrap().as_string().unwrap()
    );
    assert!(from_str(r#""bad \q escape""#).is_err());
}

// Identifiers may start with any letter or an underscore, in either case.
#[test]
fn identifier_case() {
    assert_eq!(
        Value::Record(vec![
            ("Key".to_string(), Value::integer(1)),
            ("_Under".to_string(), Value::bool(true)),
        ]),
        from_str("(Key: 1 _Under: true)").unwrap()
    );
    assert_eq!(
        Value::Mapping(vec![("Abc".to_string(), Value::integer(2))]),
        from_str("Abc: 2").unwrap()
    );
}

// A bare null skips its trailing separators and comments like every other
// literal.
#[test]
fn null_trailing_separators() {
    assert!(from_str("null   ").unwrap().is_null());
    assert!(from_str(" null ,, // c\n").unwrap().is_null());
    assert_eq!(
        Value::Sequence(vec![Value::null(), Value::integer(1)]),
        from_str("[null 1]").unwrap()
    );
}

// Raw line breaks inside a string literal survive into the value verbatim.
#[test]
fn multiline_string_verbatim() {
    assert_eq!(
        "a\r\nb",
        from_str("\"a\r\nb\"").unwrap().as_string().unwrap()
    );
    assert_eq!(
        "x\ny\n",
        from_str("\"x\ny\n\"").unwrap().as_string().unwrap()
    );
}

// Delimiter mismatches: a missing colon, a stray delimiter where an entry is
// expected, and a wrong closer all fail.
#[test]
fn delimiter_mismatches() {
    assert!(from_str("(a 1)").is_err());
    assert!(from_str("{]}").is_err());
    assert!(from_str("[1 2}").is_err());
}

// An unterminated block comment is not a comment, and a line comment needs
// its newline; either way the leftover text fails the decode.
#[test]
fn unterminated_comments() {
    assert!(from_str("1 /* unclosed").is_err());
    assert!(from_str("1 // no newline").is_err());
    assert_eq!(Value::integer(1), from_str("1 // with newline\n").unwrap());
}

// Nested containers of every kind decode together.
#[test]
fn nested_containers() {
    let expected = Value::Record(vec![
        (
            "xs".to_string(),
            Value::Sequence(vec![Value::integer(1), Value::integer(2)]),
        ),
        (
            "m".to_string(),
            Value::Mapping(vec![("k".to_string(), Value::Record(vec![]))]),
        ),
    ]);
    assert_eq!(expected, from_str("(xs: [1 2] m: { \"k\" : () })").unwrap());
}

// The probing cursor constructors stay available to typed consumers.
#[test]
fn cursor_parse_operations() {
    let mut d = Deserializer::from_str("  true rest");
    assert!(d.try_parse_literal());
    let mut d2 = Deserializer::new(None, " ident_1 : 2", None);
    assert_eq!("ident_1", d2.parse_identifier().unwrap());
    assert_eq!(':', d2.parse_delim().unwrap());
    assert_eq!(2, d2.parse_int().unwrap());
    assert!(d2.next_char().is_err());
    let mut d3 = Deserializer::new(None, "null false 1.5 \"s\"", None);
    assert!(d3.parse_null().is_ok());
    assert_eq!(false, d3.parse_bool().unwrap());
    assert_eq!("1.5", d3.parse_float().unwrap());
    assert_eq!("s", d3.parse_string().unwrap());
}
