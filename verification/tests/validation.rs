use config::schema::Predicate;
use config::{Config, ConfigError, Rule, Schema, Validator};

fn parse(text: &str) -> Config {
    Config::parse(text.as_bytes()).unwrap()
}

#[test]
fn test_schema_required_field() {
    let mut schema = Schema::new("", "");
    schema.set("output", "Output stream", true, None);
    let config = parse("input = udp://127.0.0.1:10000\n");
    assert_eq!(config.get_line(), 0);
    assert_eq!(
        schema.check(&config),
        Err(ConfigError::MissingProperty(0, "output".to_string()))
    );
    assert_eq!(
        schema.check(&Config::new("")),
        Err(ConfigError::MissingProperty(0, "output".to_string()))
    );
}

#[test]
fn test_schema_required_field_in_section() {
    let mut schema = Schema::new("", "");
    let mut service = Schema::new("service", "");
    service.set("pnr", "Program number", true, None);
    schema.push(service);
    let config = parse("a = 1\n\n# service\npnr = 1\n\n# service\nname = x\n");
    assert_eq!(
        schema.check(&config),
        Err(ConfigError::MissingProperty(6, "pnr".to_string()))
    );
}

#[test]
fn test_schema_nested_pass_through() {
    let mut schema = Schema::new("", "");
    schema.set("a", "", true, Schema::range(0 .. 10));
    let mut known = Schema::new("known", "");
    known.set("b", "", true, None);
    schema.push(known);
    let config = parse("a = 1\n# extra\nb = x\nzzz = 1\n## known\n## deeper\n# known\nb = 2\n");
    assert_eq!(schema.check(&config), Ok(()));
    let config = parse("a = 1\n# extra\n# known\nb = 2\n# extra\n## extra\n### extra\nq = \n");
    assert_eq!(schema.check(&config), Ok(()));
    let config = parse("a = 1\n# extra\n# known\nc = 2\n");
    assert_eq!(schema.check(&config), Err(ConfigError::MissingProperty(3, "b".to_string())));
}

#[test]
fn test_schema_invalid_property_has_the_line_of_the_property() {
    let mut schema = Schema::new("", "");
    schema.set("port", "", false, Schema::range(1 .. 1024));
    assert_eq!(schema.check(&parse("\n\nport = 1024\n")), Ok(()));
    assert_eq!(schema.check(&parse("\n\nport = 1\n")), Ok(()));
    assert_eq!(schema.check(&parse("a = b\n")), Ok(()));
    assert_eq!(
        schema.check(&parse("\n\nport = 1025\n")),
        Err(ConfigError::InvalidProperty(3, "port".to_string()))
    );
    assert_eq!(
        schema.check(&parse("port = 0\n")),
        Err(ConfigError::InvalidProperty(1, "port".to_string()))
    );
    assert_eq!(
        schema.check(&parse("port = http\n")),
        Err(ConfigError::InvalidProperty(1, "port".to_string()))
    );
    assert_eq!(
        schema.check(&parse("port = -1\n")),
        Err(ConfigError::InvalidProperty(1, "port".to_string()))
    );
}

#[test]
fn test_schema_first_failure_wins() {
    let mut schema = Schema::new("", "");
    schema.set("a", "", true, None);
    schema.set("b", "", true, Schema::range(0 .. 1));
    schema.set("c", "", true, None);
    let mut s = Schema::new("s", "");
    s.set("d", "", true, None);
    schema.push(s);
    assert_eq!(
        schema.check(&parse("b = 5\n# s\n")),
        Err(ConfigError::MissingProperty(0, "a".to_string()))
    );
    assert_eq!(
        schema.check(&parse("b = 5\na = 1\n# s\n")),
        Err(ConfigError::InvalidProperty(1, "b".to_string()))
    );
    assert_eq!(
        schema.check(&parse("b = 1\na = 1\n# s\n")),
        Err(ConfigError::MissingProperty(0, "c".to_string()))
    );
    assert_eq!(
        schema.check(&parse("b = 1\na = 1\nc = \n# s\n")),
        Err(ConfigError::MissingProperty(4, "d".to_string()))
    );
    assert_eq!(schema.check(&parse("b = 1\na = 1\nc = \n# s\nd = 1\n")), Ok(()));
}

#[test]
fn test_schema_validator_sees_first_match() {
    let mut schema = Schema::new("", "");
    schema.set("n", "", true, Schema::range(0 .. 9));
    assert_eq!(schema.check(&parse("n = 5\nn = 50\n")), Ok(()));
    assert_eq!(
        schema.check(&parse("n = 50\nn = 5\n")),
        Err(ConfigError::InvalidProperty(1, "n".to_string()))
    );
}

#[test]
fn test_schema_later_registration_replaces() {
    let mut schema = Schema::new("", "");
    let mut first = Schema::new("s", "first");
    first.set("a", "", true, None);
    let other = Schema::new("t", "other");
    let mut second = Schema::new("s", "second");
    second.set("b", "", true, None);
    schema.push(first);
    schema.push(other);
    schema.push(second);
    assert_eq!(schema.check(&parse("# s\nb = 1\n")), Ok(()));
    assert_eq!(
        schema.check(&parse("# s\na = 1\n")),
        Err(ConfigError::MissingProperty(1, "b".to_string()))
    );
    assert_eq!(schema.info(), "\n# s\n; second\nb = \n\n# t\n; other\n");
}

#[test]
fn test_schema_custom_rule() {
    let mut schema = Schema::new("", "");
    schema.set("url", "", true, Predicate::new(|s: &str| s.starts_with("udp://")));
    assert_eq!(schema.check(&parse("url = udp://127.0.0.1:10000\n")), Ok(()));
    assert_eq!(
        schema.check(&parse("url = http://127.0.0.1\n")),
        Err(ConfigError::InvalidProperty(1, "url".to_string()))
    );
    let prefix = String::from("a");
    let rule = Predicate::new(move |s: &str| s.starts_with(prefix.as_str()));
    assert!(rule.test("abc"));
    assert!(!rule.test("bc"));
    let boxed: Option<Box<dyn Rule>> = Some(Box::new(rule));
    let mut schema = Schema::new("", "");
    schema.set("k", "", false, boxed);
    assert_eq!(schema.check(&parse("k = abc\n")), Ok(()));
    assert!(schema.check(&parse("k = bc\n")).is_err());
}

#[test]
fn test_validator() {
    let none = Validator::from(None);
    assert!(none.test("anything"));
    assert!(none.test(""));
    let some = Validator::from(Schema::range(5 .. 6));
    assert!(some.test("5"));
    assert!(some.test("0x6"));
    assert!(!some.test("7"));
    assert!(!some.test(""));
}

#[test]
fn test_schema_range_limits() {
    let f = Schema::range(0 .. usize::MAX);
    assert!(f.test("0"));
    assert!(f.test(&usize::MAX.to_string()));
    assert!(!f.test("-1"));
    assert!(!f.test("99999999999999999999999999"));
    assert!(f.test("+1"));
    let empty = Schema::range(3 .. 2);
    assert!(!empty.test("2"));
    assert!(!empty.test("3"));
    assert_eq!(f.start, 0);
    assert_eq!(f.end, usize::MAX);
}

#[test]
fn test_schema_info() {
    let mut schema = Schema::new("", "Root of the configuration");
    schema.set("output", "Output stream", true, None);
    schema.set("u16", "Test u16", false, Schema::range(0 .. 65000));
    let mut multiplex = Schema::new("multiplex", "simple dvb multiplex");
    multiplex.set("tsid", "Transport stream id", true, None);
    let mut service = Schema::new("service", "");
    service.set("pnr", "Program number", true, None);
    multiplex.push(service);
    schema.push(multiplex);
    schema.push(Schema::new("empty", ""));
    let expected = "; Root of the configuration
output = Output stream
u16 = Test u16

# multiplex
; simple dvb multiplex
tsid = Transport stream id

## service
pnr = Program number

# empty
";
    assert_eq!(schema.info(), expected);
    assert_eq!(Schema::new("x", "").info(), "");
}

#[test]
fn test_schema_info_reads_as_a_document() {
    let mut schema = Schema::new("", "top");
    schema.set("a", "first", true, None);
    let mut s = Schema::new("s", "inner");
    s.set("b", "second", true, None);
    schema.push(s);
    let doc = parse(&schema.info());
    assert_eq!(doc.get::<&str>("a"), Some("first"));
    assert_eq!(doc.iter()[0].get_name(), "s");
    assert_eq!(doc.iter()[0].get::<&str>("b"), Some("second"));
    assert_eq!(schema.check(&doc), Ok(()));
}
