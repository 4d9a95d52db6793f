use config::Property;
use config::Config;

fn dump(config: &Config) -> String {
    let mut out = Vec::<u8>::new();
    config.dump(&mut out).unwrap();
    String::from_utf8(out).unwrap()
}

fn same(a: &Config, b: &Config) -> bool {
    a.get_name() == b.get_name()
        && a.properties().len() == b.properties().len()
        && a.properties().iter().zip(b.properties()).all(|(x, y)| {
            x.get_name() == y.get_name() && x.get_value() == y.get_value()
        })
        && a.iter().len() == b.iter().len()
        && a.iter().iter().zip(b.iter()).all(|(x, y)| same(x, y))
}

fn sample() -> Config {
    let mut root = Config::new("");
    root.set("title", "hello world");
    root.set("empty", "");
    root.set("count", 42u32);
    root.set("offset", -7i64);
    root.set("flag", false);
    let mut a = Config::new("a");
    a.set("x", "1");
    let mut b = Config::new("b b");
    b.set("y", "= 2 =");
    let c = Config::new("c");
    b.push(c);
    a.push(b);
    let mut d = Config::new("# d");
    d.set("z", "\u{1F43D}");
    a.push(d);
    root.push(a);
    root.push(Config::new("last"));
    root
}

#[test]
fn test_round_trip() {
    let doc = sample();
    let text = dump(&doc);
    let back = Config::parse(text.as_bytes()).unwrap();
    assert!(same(&back, &doc));
}

#[test]
fn test_idempotence() {
    let doc = sample();
    let first = dump(&doc);
    let back = Config::parse(first.as_bytes()).unwrap();
    let second = dump(&back);
    assert_eq!(first, second);
}

#[test]
fn test_dump_text() {
    let expected = "title = hello world
empty = 
count = 42
offset = -7
flag = false

# a
x = 1

## b b
y = = 2 =

### c

## # d
z = \u{1F43D}

# last
";
    assert_eq!(dump(&sample()), expected);
}

#[test]
fn test_dump_appends() {
    let mut out = b"; head\n".to_vec();
    let mut root = Config::new("ignored");
    root.set("a", 1u8);
    root.dump(&mut out).unwrap();
    assert_eq!(String::from_utf8(out).unwrap(), "; head\na = 1\n");
}

#[test]
fn test_parsed_text_round_trips() {
    let text = "  a=1 \n;c\n#  s \n b = 2\n## t\n# u\n";
    let doc = Config::parse(text.as_bytes()).unwrap();
    let first = dump(&doc);
    assert_eq!(first, "a = 1\n\n# s\nb = 2\n\n## t\n\n# u\n");
    let back = Config::parse(first.as_bytes()).unwrap();
    assert!(same(&back, &doc));
    assert_eq!(dump(&back), first);
}

#[test]
fn test_untrimmed_value_does_not_round_trip() {
    let mut doc = Config::new("");
    doc.set("k", " v");
    let first = dump(&doc);
    assert_eq!(first, "k =  v\n");
    let back = Config::parse(first.as_bytes()).unwrap();
    assert_eq!(back.get::<&str>("k"), Some("v"));
    assert_eq!(dump(&back), "k = v\n");
}

#[test]
fn test_push_property_and_section() {
    let mut root = Config::new("");
    root.push(Property::new("a", "1"));
    root.push(Config::new("s"));
    root.push(Property::new("b", "2"));
    assert_eq!(root.properties().len(), 2);
    assert_eq!(root.properties()[1].get_name(), "b");
    assert_eq!(root.properties()[1].get_line(), 0);
    assert_eq!(root.iter().len(), 1);
    assert_eq!(dump(&root), "a = 1\nb = 2\n\n# s\n");
}

#[test]
fn test_set_values() {
    let mut root = Config::new("");
    root.set("a", 0u8);
    root.set("b", u64::MAX);
    root.set("c", i64::MIN);
    root.set("d", -1i8);
    root.set("e", usize::MAX);
    root.set("f", isize::MIN);
    root.set("g", true);
    root.set("h", String::from("text"));
    root.set("i", 1000);
    assert_eq!(root.get::<&str>("a"), Some("0"));
    assert_eq!(root.get::<&str>("b"), Some("18446744073709551615"));
    assert_eq!(root.get::<&str>("c"), Some("-9223372036854775808"));
    assert_eq!(root.get::<&str>("d"), Some("-1"));
    assert_eq!(root.get::<&str>("e").map(String::from), Some(usize::MAX.to_string()));
    assert_eq!(root.get::<&str>("f").map(String::from), Some(isize::MIN.to_string()));
    assert_eq!(root.get::<&str>("g"), Some("true"));
    assert_eq!(root.get::<&str>("h"), Some("text"));
    assert_eq!(root.get::<&str>("i"), Some("1000"));
    assert_eq!(root.get::<u64>("b"), Some(u64::MAX));
    assert_eq!(root.get::<i64>("c"), Some(i64::MIN));
    assert_eq!(root.get::<bool>("g"), Some(true));
}
