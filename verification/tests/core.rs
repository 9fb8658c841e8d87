use temple::diag::{get_location, Span};
use temple::text::to_chars;
use temple::values::token::Variant;
use temple::values::{
    from_value, type_eq, value_eq, ConfigError, Decimal, Number, Type, Value, Values,
};

fn parse(text: &str) -> Values {
    Values::from_str(text, "test").expect("expected the source to parse")
}

#[test]
fn tokenize() {
    let inp = "edades = [ 1, 2, 3, ]\nnombre = \"Daniel\"edad = 2";

    let cs = to_chars(inp);
    let (tokens, _spans) = temple::values::token::tokenize(cs.as_slice()).unwrap();

    assert_eq!(
        tokens.as_slice(),
        &[
            Variant::Ident("edades".to_string()),
            Variant::Eq,
            Variant::SqOpen,
            Variant::UNumber(1),
            Variant::Comma,
            Variant::UNumber(2),
            Variant::Comma,
            Variant::UNumber(3),
            Variant::Comma,
            Variant::SqClose,
            Variant::Ident("nombre".to_string()),
            Variant::Eq,
            Variant::String("Daniel".to_string()),
            Variant::Ident("edad".to_string()),
            Variant::Eq,
            Variant::UNumber(2)
        ]
    );
}

#[test]
fn round_trip_unsigned() {
    let v = parse("k = 5");
    let got = v.value_map.get("k").unwrap();
    assert!(value_eq(got, &Value::Number(Number::UInt(5))));
    assert!(type_eq(v.type_map.get("k").unwrap(), &Type::Any));
}

#[test]
fn round_trip_signed() {
    let v = parse("k = -3");
    assert!(value_eq(v.value_map.get("k").unwrap(), &Value::Number(Number::Neg(-3))));
    let v2 = parse("k = +7");
    assert!(value_eq(v2.value_map.get("k").unwrap(), &Value::Number(Number::UInt(7))));
    assert!(type_eq(v.type_map.get("k").unwrap(), &Type::Any));
}

#[test]
fn round_trip_float() {
    let v = parse("k = 1.5");
    let want = Value::Number(Number::Dec(Decimal {
        neg: false,
        int_digits: vec![1],
        frac_digits: vec![5],
    }));
    assert!(value_eq(v.value_map.get("k").unwrap(), &want));
    assert!(type_eq(v.type_map.get("k").unwrap(), &Type::Any));
}

#[test]
fn float_normalization() {
    // `4.` reads as 4.0 and `1.50` as 1.5: one representation per number.
    let a = parse("k = 4.");
    let want_a = Value::Number(Number::Dec(Decimal {
        neg: false,
        int_digits: vec![4],
        frac_digits: vec![0],
    }));
    assert!(value_eq(a.value_map.get("k").unwrap(), &want_a));

    let b = parse("k = 1.50");
    let want_b = Value::Number(Number::Dec(Decimal {
        neg: false,
        int_digits: vec![1],
        frac_digits: vec![5],
    }));
    assert!(value_eq(b.value_map.get("k").unwrap(), &want_b));
}

#[test]
fn round_trip_string() {
    let v = parse("k = 'perro'");
    assert!(value_eq(v.value_map.get("k").unwrap(), &Value::String("perro".to_string())));
    let v2 = parse("k = \"gato\"");
    assert!(value_eq(v2.value_map.get("k").unwrap(), &Value::String("gato".to_string())));
    assert!(type_eq(v.type_map.get("k").unwrap(), &Type::Any));
}

#[test]
fn round_trip_bool() {
    let v = parse("k = true");
    assert!(value_eq(v.value_map.get("k").unwrap(), &Value::Bool(true)));
    let v2 = parse("k = FALSE");
    assert!(value_eq(v2.value_map.get("k").unwrap(), &Value::Bool(false)));
    assert!(type_eq(v.type_map.get("k").unwrap(), &Type::Any));
}

#[test]
fn trailing_comma_idempotence() {
    let a = parse("a = [1, 2, 3, ]");
    let b = parse("a = [1, 2, 3]");
    assert!(value_eq(a.value_map.get("a").unwrap(), b.value_map.get("a").unwrap()));
}

#[test]
fn comma_adjacency_failure() {
    let r = Values::from_str("a = [1,,]", "test");
    assert!(matches!(r, Err(ConfigError::Syntax(_))));
}

#[test]
fn unclosed_bracket_failure() {
    let r = Values::from_str("a = [1, 2", "test");
    assert!(matches!(r, Err(ConfigError::Syntax(_))));
}

#[test]
fn lexical_failure() {
    let r = Values::from_str("a = $", "test");
    match r {
        Err(ConfigError::Lex(sp)) => assert_eq!(sp.start, 4),
        other => panic!("expected a lexical error, got {:?}", other.err()),
    }
}

#[test]
fn integer_overflow_is_lexical_failure() {
    let r = Values::from_str("a = 99999999999999999999999999", "test");
    assert!(matches!(r, Err(ConfigError::Lex(_))));
}

#[test]
fn type_equivalence_reflexivity() {
    let ts = vec![
        Type::Number,
        Type::String,
        Type::Bool,
        Type::Any,
        Type::Unknown,
        Type::Array(Box::new(Type::Number)),
        Type::Object(vec![("a".to_string(), Type::String)]),
    ];
    for t in &ts {
        assert!(t.is_equivalent(t));
        assert!(Type::Any.is_equivalent(t));
        assert!(t.is_equivalent(&Type::Any));
    }
    assert!(!Type::Number.is_equivalent(&Type::String));
}

#[test]
fn object_type_equivalence_ignores_field_order() {
    let a = Type::Object(vec![("a".to_string(), Type::Number), ("b".to_string(), Type::Bool)]);
    let b = Type::Object(vec![("b".to_string(), Type::Bool), ("a".to_string(), Type::Number)]);
    assert!(a.is_equivalent(&b));
}

#[test]
fn merge_precedence() {
    let global = parse("k: number = 1, g = 10");
    let local = parse("k: string = 2, l = 20");
    let template = parse("k = 3");
    let cli = parse("k = 4");

    let merged = global.stash(local).stash(template).stash(cli);

    // the last source's value wins
    assert!(value_eq(merged.value_map.get("k").unwrap(), &Value::Number(Number::UInt(4))));
    // the first source's declared type wins
    assert!(type_eq(merged.type_map.get("k").unwrap(), &Type::Number));
    // bindings set by one source alone come through
    assert!(value_eq(merged.value_map.get("g").unwrap(), &Value::Number(Number::UInt(10))));
    assert!(value_eq(merged.value_map.get("l").unwrap(), &Value::Number(Number::UInt(20))));
}

#[test]
fn verify_types_accepts_matching() {
    let v = parse("a: number = 5, b: string = 'x', c: bool = true, d: [number] = [1, 2]");
    assert!(v.verify_types().is_ok());
}

#[test]
fn verify_types_reports_every_mismatch() {
    let v = parse("a: number = 'x', b: bool = 1, c: string = 'fine'");
    let errs = v.verify_types().unwrap_err();
    assert_eq!(errs.len(), 2);
    assert_eq!(errs[0].key, "a");
    assert_eq!(errs[1].key, "b");
}

#[test]
fn typed_binding_without_value_stores_null() {
    let v = parse("a: string");
    assert!(value_eq(v.value_map.get("a").unwrap(), &Value::Null));
    assert!(type_eq(v.type_map.get("a").unwrap(), &Type::String));
    // a null value defers to its declared type, so the check passes
    assert!(v.verify_types().is_ok());
}

#[test]
fn inference_degrades_mixed_arrays() {
    let mixed = Value::Array(vec![
        Value::Number(Number::UInt(1)),
        Value::String("x".to_string()),
    ]);
    let inferred = from_value(&mixed, &Type::Unknown);
    assert!(type_eq(&inferred, &Type::Array(Box::new(Type::Any))));

    let uniform = Value::Array(vec![
        Value::Number(Number::UInt(1)),
        Value::Number(Number::UInt(2)),
    ]);
    let inferred2 = from_value(&uniform, &Type::Unknown);
    assert!(type_eq(&inferred2, &Type::Array(Box::new(Type::Number))));
}

#[test]
fn nested_objects_parse() {
    let v = parse("obj = { name = 'David', inner = { depth: 2 } }");
    match v.value_map.get("obj").unwrap() {
        Value::Object(entries) => {
            assert_eq!(entries.len(), 2);
        }
        other => panic!("expected an object, got {:?}", other),
    }
}

#[test]
fn redefinition_overwrites() {
    let v = parse("a = 1, a = 2");
    assert!(value_eq(v.value_map.get("a").unwrap(), &Value::Number(Number::UInt(2))));
}

#[test]
fn comments_are_dropped() {
    let v = parse("# leading note\na = 1 # trailing note\nb = 2");
    assert!(value_eq(v.value_map.get("a").unwrap(), &Value::Number(Number::UInt(1))));
    assert!(value_eq(v.value_map.get("b").unwrap(), &Value::Number(Number::UInt(2))));
}

#[test]
fn location_counts_lines_and_columns() {
    let cs = to_chars("ab\ncd\nef");
    let loc = get_location(cs.as_slice(), Span { start: 6, end: 8 });
    assert_eq!(loc.line, 3);
    assert_eq!(loc.col_start, 1);
    assert_eq!(loc.col_end, 3);

    let loc2 = get_location(cs.as_slice(), Span { start: 1, end: 2 });
    assert_eq!(loc2.line, 1);
    assert_eq!(loc2.col_start, 2);
}

#[test]
fn error_rendering_is_exact() {
    let source = "a = $\nb = 1";
    let msg = temple::diag::error_at(
        "unexpected token",
        "conf.tpl",
        source,
        Span { start: 4, end: 5 },
    );
    assert_eq!(
        msg,
        "unexpected token\n   --> conf.tpl:1:5\n    |\n  1 | a = $\n    |     ^\n    |"
    );

    let msg2 = temple::diag::error_at("bad", "f", source, Span { start: 6, end: 11 });
    assert_eq!(msg2, "bad\n   --> f:2:1\n    |\n  2 | b = 1\n    | ^^^^^\n    |");
}

#[test]
fn keywords_are_case_insensitive_but_idents_are_not() {
    let cs = to_chars("NUMBER any");
    let (tokens, _) = temple::values::token::tokenize(cs.as_slice()).unwrap();
    assert_eq!(tokens.as_slice(), &[Variant::KwNumber, Variant::KwAny]);

    // an identifier that merely starts like a keyword stays an identifier
    let cs2 = to_chars("anyx");
    let (tokens2, _) = temple::values::token::tokenize(cs2.as_slice()).unwrap();
    assert_eq!(tokens2.as_slice(), &[Variant::Ident("anyx".to_string())]);
}
