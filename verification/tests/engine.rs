use temple::config::{Prefer, Template, Templates};
use temple::contents::Contents;
use temple::delimit::{Delimiters, DelimiterError};
use temple::indicators::Indicators;
use temple::keys::Keys;
use temple::replacer::{scan_template, ErrorReplace, Replaced, Type};
use temple::values::Values;

fn parse(text: &str) -> Values {
    Values::from_str(text, "test").expect("expected the source to parse")
}

fn render(delims: &Delimiters<'_>, input: &str, values: &Values) -> Result<String, Vec<ErrorReplace>> {
    let (tokens, _spans) = scan_template(input, delims).expect("expected the template to scan");
    Replaced::from(&tokens, values).map(|r| r.get_string())
}

#[test]
fn basic_parse() {
    let contents = Contents::from("lmao {{ jaja }}");
    let indicators = Indicators::new("{{ ", " }}").unwrap();
    let keys = Keys::from("jaja=perro");
    let replaced = contents.replace(indicators, &keys).unwrap();

    let r = replaced.get_string();
    println!("{r}");
    assert_eq!(r, "lmao perro");
}

#[test]
fn resolver_basic_substitution() {
    let values = parse("jaja = 'perro'");
    let delims = Delimiters::new("{{ ", " }}").unwrap();
    assert_eq!(render(&delims, "lmao {{ jaja }}", &values).unwrap(), "lmao perro");
}

#[test]
fn resolver_custom_delimiters() {
    let values = parse("jaja = 'perro'");
    let delims = Delimiters::new("[[[", "]]]").unwrap();
    assert_eq!(render(&delims, "lmao [[[jaja]]]", &values).unwrap(), "lmao perro");
}

#[test]
fn dotted_path_resolution() {
    let values = parse("obj = { name = 'David' }");
    let delims = Delimiters::new("{{ ", " }}").unwrap();
    assert_eq!(render(&delims, "{{ obj.name }}", &values).unwrap(), "David");

    // interpolating the whole object fails
    let errs = render(&delims, "{{ obj }}", &values).unwrap_err();
    assert_eq!(errs.len(), 1);
    assert!(matches!(&errs[0], ErrorReplace::ExpectedValue(name) if name == "obj"));
}

#[test]
fn dotted_path_missing_field() {
    let values = parse("obj = { name = 'David' }");
    let delims = Delimiters::new("{{ ", " }}").unwrap();
    let errs = render(&delims, "{{ obj.age }}", &values).unwrap_err();
    assert_eq!(errs.len(), 1);
    assert!(matches!(&errs[0], ErrorReplace::NoField(path, field) if path == "obj.age" && field == "age"));
}

#[test]
fn dotted_path_through_scalar() {
    let values = parse("n = 5");
    let delims = Delimiters::new("{{ ", " }}").unwrap();
    let errs = render(&delims, "{{ n.x }}", &values).unwrap_err();
    assert_eq!(errs.len(), 1);
    assert!(matches!(&errs[0], ErrorReplace::UnexpectedField(_, field) if field == "x"));
}

#[test]
fn unclosed_delimiter() {
    let delims = Delimiters::new("{{ ", " }}").unwrap();
    let err = scan_template("hello {{ name", &delims).unwrap_err();
    assert_eq!(err.pos, 6);
}

#[test]
fn aggregate_error_collection() {
    let values = Values::new();
    let delims = Delimiters::new("{{ ", " }}").unwrap();
    let errs = render(&delims, "{{ a }} and {{ b }} and {{ c }}", &values).unwrap_err();
    assert_eq!(errs.len(), 3);
    assert!(matches!(&errs[0], ErrorReplace::NoValue(n) if n == "a"));
    assert!(matches!(&errs[1], ErrorReplace::NoValue(n) if n == "b"));
    assert!(matches!(&errs[2], ErrorReplace::NoValue(n) if n == "c"));
}

#[test]
fn null_value_is_missing() {
    let values = parse("x: string");
    let delims = Delimiters::new("{{ ", " }}").unwrap();
    let errs = render(&delims, "{{ x }}", &values).unwrap_err();
    assert_eq!(errs.len(), 1);
    assert!(matches!(&errs[0], ErrorReplace::NoValue(n) if n == "x"));
}

#[test]
fn scalars_render_canonically() {
    let values = parse("n = 42, m = -3, f = 2.5, b = true, arr = [1, 2]");
    let delims = Delimiters::new("{{ ", " }}").unwrap();
    assert_eq!(
        render(&delims, "{{ n }}|{{ m }}|{{ f }}|{{ b }}|{{ arr }}", &values).unwrap(),
        "42|-3|2.5|true|[1,2]"
    );
}

#[test]
fn text_outside_placeholders_is_untouched() {
    let values = parse("a = 'x'");
    let delims = Delimiters::new("{{ ", " }}").unwrap();
    assert_eq!(
        render(&delims, "pre {{ a }} mid {{ a }} post", &values).unwrap(),
        "pre x mid x post"
    );
    assert_eq!(render(&delims, "no placeholders here", &values).unwrap(), "no placeholders here");
}

#[test]
fn delimiters_from_configuration() {
    let values = parse("temple_delimiters = { open = '{{ ', close = ' }}' }, jaja = 'perro'");
    let delims = Delimiters::from_values(&values).unwrap();
    assert_eq!(render(&delims, "lmao {{ jaja }}", &values).unwrap(), "lmao perro");
}

#[test]
fn delimiters_validation() {
    assert!(matches!(Delimiters::new("{", "}}"), Err(DelimiterError::TooShort)));
    assert!(matches!(Delimiters::new("{{", "{{ "), Err(DelimiterError::SameMarkers)));
    assert!(matches!(Delimiters::new("AB", "ab"), Err(DelimiterError::SameMarkers)));
    assert!(Delimiters::new("{{", "}}").is_ok());

    let values = parse("a = 1");
    assert!(matches!(
        Delimiters::from_values(&values),
        Err(DelimiterError::NotConfigured)
    ));
}

#[test]
fn scan_keeps_delimiter_tokens() {
    let delims = Delimiters::new("{{ ", " }}").unwrap();
    let (tokens, _spans) = scan_template("a {{ b }} c", &delims).unwrap();
    assert_eq!(tokens.len(), 5);
    assert!(matches!(&tokens[0], Type::Raw(t) if t == "a "));
    assert!(matches!(&tokens[2], Type::Ident(n) if n == "b"));
    assert!(matches!(&tokens[4], Type::Raw(t) if t == " c"));
}

#[test]
fn keys_parse_and_match() {
    let keys = Keys::from("a=b,c=d,\nbad,=nope,empty=");
    assert_eq!(keys.get_match("a"), Some("b"));
    assert_eq!(keys.get_match("c"), Some("d"));
    assert_eq!(keys.get_match("bad"), None);
    assert_eq!(keys.get_match("empty"), None);
}

#[test]
fn keys_first_binding_wins() {
    let mut keys = Keys::from("k=first");
    keys.add(Keys::from("k=second"));
    assert_eq!(keys.get_match("k"), Some("first"));
}

#[test]
fn contents_unmatched_marker_stays() {
    let contents = Contents::from("open {{ key only");
    let indicators = Indicators::new("{{ ", " }}").unwrap();
    let keys = Keys::from("key=value");
    let replaced = contents.replace(indicators, &keys).unwrap();
    assert_eq!(replaced.get_string(), "open {{ key only");
}

#[test]
fn contents_missing_key_fails() {
    let contents = Contents::from("hi {{ absent }} there");
    let indicators = Indicators::new("{{ ", " }}").unwrap();
    let keys = Keys::from("other=x");
    let err = contents.replace(indicators, &keys).unwrap_err();
    assert_eq!(err.key, "absent");
}

#[test]
fn templates_prefer_local_or_global() {
    let templates = Templates {
        global: vec![Template("/home/user/.config/temple/web".to_string())],
        local: vec![Template("./.temple/web".to_string())],
    };
    let local = templates.get_named("web", &Prefer::Local).unwrap();
    assert_eq!(local.name(), "web");
    assert_eq!(local.0, "./.temple/web");
    let global = templates.get_named("web", &Prefer::Global).unwrap();
    assert_eq!(global.0, "/home/user/.config/temple/web");
    assert!(templates.get_named("missing", &Prefer::Local).is_none());
}
