use config::parser::{tokenize, Token};
use config::{Config, ConfigError};

fn parse(text: &str) -> Result<Config, ConfigError> {
    Config::parse(text.as_bytes())
}

fn dump(config: &Config) -> String {
    let mut out = Vec::<u8>::new();
    config.dump(&mut out).unwrap();
    String::from_utf8(out).unwrap()
}

#[test]
fn test_scenario_one_section() {
    let root = parse("a = 1\n# s\nb = 2\n").unwrap();
    assert_eq!(root.get_name(), "");
    assert_eq!(root.get_line(), 0);
    assert_eq!(root.properties().len(), 1);
    assert_eq!(root.properties()[0].get_name(), "a");
    assert_eq!(root.properties()[0].get_value(), "1");
    assert_eq!(root.properties()[0].get_line(), 1);
    assert_eq!(root.iter().len(), 1);
    let s = &root.iter()[0];
    assert_eq!(s.get_name(), "s");
    assert_eq!(s.get_line(), 2);
    assert_eq!(s.properties().len(), 1);
    assert_eq!(s.properties()[0].get_name(), "b");
    assert_eq!(s.properties()[0].get_value(), "2");
    assert_eq!(s.properties()[0].get_line(), 3);
    assert_eq!(s.iter().len(), 0);

    let again = parse(&dump(&root)).unwrap();
    assert_eq!(again.properties().len(), 1);
    assert_eq!(again.get::<&str>("a"), Some("1"));
    assert_eq!(again.iter().len(), 1);
    assert_eq!(again.iter()[0].get_name(), "s");
    assert_eq!(again.iter()[0].get::<&str>("b"), Some("2"));
    assert_eq!(dump(&root), "a = 1\n\n# s\nb = 2\n");
}

#[test]
fn test_empty_text_is_empty_root() {
    let root = parse("").unwrap();
    assert_eq!(root.get_name(), "");
    assert_eq!(root.get_line(), 0);
    assert_eq!(root.properties().len(), 0);
    assert_eq!(root.iter().len(), 0);
}

#[test]
fn test_comments_and_blank_lines_are_skipped() {
    let root = parse("; first\n\n   \t\n  ; second\na = 1\n").unwrap();
    assert_eq!(root.properties().len(), 1);
    assert_eq!(root.properties()[0].get_line(), 5);
}

#[test]
fn test_last_line_without_terminator() {
    let root = parse("a = 1\nb = 2").unwrap();
    assert_eq!(root.properties().len(), 2);
    assert_eq!(root.get::<&str>("b"), Some("2"));
    assert_eq!(root.properties()[1].get_line(), 2);
}

#[test]
fn test_carriage_return_is_trimmed() {
    let root = parse("a = 1\r\n# s\r\nb = 2\r\n").unwrap();
    assert_eq!(root.get::<&str>("a"), Some("1"));
    assert_eq!(root.iter()[0].get_name(), "s");
    assert_eq!(root.iter()[0].get::<&str>("b"), Some("2"));
}

#[test]
fn test_key_and_value_are_trimmed() {
    let root = parse("  \t key with space \t=\t  value = with = more  \n").unwrap();
    assert_eq!(root.properties()[0].get_name(), "key with space");
    assert_eq!(root.properties()[0].get_value(), "value = with = more");
}

#[test]
fn test_unicode_whitespace_is_trimmed() {
    let root = parse("\u{3000}a\u{a0}=\u{2003}b\u{2028}\n").unwrap();
    assert_eq!(root.properties()[0].get_name(), "a");
    assert_eq!(root.properties()[0].get_value(), "b");
}

#[test]
fn test_value_may_be_empty() {
    let root = parse("a =\nb=   \n").unwrap();
    assert_eq!(root.get::<&str>("a"), Some(""));
    assert_eq!(root.get::<&str>("b"), Some(""));
}

#[test]
fn test_first_match_wins() {
    let root = parse("a = 1\na = 2\n").unwrap();
    assert_eq!(root.properties().len(), 2);
    assert_eq!(root.get::<&str>("a"), Some("1"));
    assert_eq!(root.get_property("a").unwrap().get_line(), 1);
}

#[test]
fn test_lookup_is_not_recursive() {
    let root = parse("# s\nb = 2\n").unwrap();
    assert!(root.get_property("b").is_none());
    assert_eq!(root.get::<&str>("b"), None);
}

#[test]
fn test_nesting_by_marker_count() {
    let text = "r = 0\n# a\nx = 1\n## b\ny = 2\n### c\nz = 3\n## d\n# e\nw = 4\n";
    let root = parse(text).unwrap();
    assert_eq!(root.iter().len(), 2);
    let a = &root.iter()[0];
    let e = &root.iter()[1];
    assert_eq!(a.get_name(), "a");
    assert_eq!(e.get_name(), "e");
    assert_eq!(a.get::<u8>("x"), Some(1));
    assert_eq!(a.iter().len(), 2);
    let b = &a.iter()[0];
    let d = &a.iter()[1];
    assert_eq!(b.get_name(), "b");
    assert_eq!(b.get::<u8>("y"), Some(2));
    assert_eq!(b.iter().len(), 1);
    assert_eq!(b.iter()[0].get_name(), "c");
    assert_eq!(b.iter()[0].get::<u8>("z"), Some(3));
    assert_eq!(b.iter()[0].get_line(), 6);
    assert_eq!(d.get_name(), "d");
    assert_eq!(d.properties().len(), 0);
    assert_eq!(e.get::<u8>("w"), Some(4));
    assert_eq!(e.iter().len(), 0);
}

#[test]
fn test_header_name_is_trimmed_and_may_hold_markers() {
    let root = parse("#   my section  \n# # odd\n#tight\n").unwrap();
    assert_eq!(root.iter().len(), 3);
    assert_eq!(root.iter()[0].get_name(), "my section");
    assert_eq!(root.iter()[1].get_name(), "# odd");
    assert_eq!(root.iter()[2].get_name(), "tight");
}

#[test]
fn test_depth_jump_fails_at_its_line() {
    assert_eq!(parse("a = 1\n## s\n").err(), Some(ConfigError::InvalidFormat(2)));
    assert_eq!(parse("# a\n## b\n#### d\n").err(), Some(ConfigError::InvalidFormat(3)));
    assert_eq!(parse("# a\n## b\n# c\n### d\n").err(), Some(ConfigError::InvalidFormat(4)));
    assert!(parse("# a\n## b\n### c\n").is_ok());
}

#[test]
fn test_header_without_name_fails() {
    assert_eq!(parse("a = 1\n\n#\n").err(), Some(ConfigError::InvalidFormat(3)));
    assert_eq!(parse("##   \n").err(), Some(ConfigError::InvalidFormat(1)));
}

#[test]
fn test_missing_delimiter_fails_at_its_line() {
    assert_eq!(parse("ok = true\nwrong-format\n").err(), Some(ConfigError::InvalidFormat(2)));
    assert_eq!(parse("\nok = true\nwrong-format\n").err(), Some(ConfigError::InvalidFormat(3)));
    assert_eq!(parse("; c\n; d\n\nx\ny\n").err(), Some(ConfigError::InvalidFormat(4)));
    assert_eq!(parse("x").err(), Some(ConfigError::InvalidFormat(1)));
}

#[test]
fn test_empty_key_fails() {
    assert_eq!(parse("a = 1\n = 2\n").err(), Some(ConfigError::InvalidFormat(2)));
    assert_eq!(parse("=\n").err(), Some(ConfigError::InvalidFormat(1)));
}

#[test]
fn test_first_failure_is_reported() {
    assert_eq!(parse("x\n## s\n").err(), Some(ConfigError::InvalidFormat(1)));
}

#[test]
fn test_input_that_is_no_text_fails() {
    let e = Config::parse(&[b'a', b' ', b'=', b' ', 0xff, b'\n']).err();
    assert_eq!(e, Some(ConfigError::Io("stream did not contain valid UTF-8".to_string())));
    let e = Config::parse(&[0xc3]).err();
    assert_eq!(e, Some(ConfigError::Io("stream did not contain valid UTF-8".to_string())));
    assert!(Config::parse("\u{e9} = \u{1F43D}\n".as_bytes()).is_ok());
}

#[test]
fn test_bytes_are_read_line_by_line() {
    assert_eq!(Config::parse(b"x\n\xff\n").err(), Some(ConfigError::InvalidFormat(1)));
    assert_eq!(
        Config::parse(b"a = 1\n\xff\nx\n").err(),
        Some(ConfigError::Io("stream did not contain valid UTF-8".to_string()))
    );
    assert_eq!(
        Config::parse(b"a = 1\n; \xff\n").err(),
        Some(ConfigError::Io("stream did not contain valid UTF-8".to_string()))
    );
}

#[test]
fn test_error_messages() {
    assert_eq!(ConfigError::InvalidFormat(12).to_string(), "Config: invalid format at line 12");
    assert_eq!(ConfigError::InvalidFormat(0).to_string(), "Config: invalid format at line 0");
    assert_eq!(
        ConfigError::InvalidKey(7, "k".to_string()).to_string(),
        "Config: invalid key 'k' at line 7"
    );
    assert_eq!(
        ConfigError::InvalidProperty(1090, "u8-max".to_string()).to_string(),
        "Config: invalid property 'u8-max' at line 1090"
    );
    assert_eq!(
        ConfigError::MissingProperty(0, "output".to_string()).to_string(),
        "Config: missing required property 'output' at line 0"
    );
    assert_eq!(ConfigError::Io("no such file".to_string()).to_string(), "Config: no such file");
    assert_eq!(
        ConfigError::InvalidFormat(usize::MAX).to_string(),
        format!("Config: invalid format at line {}", usize::MAX)
    );
}

#[test]
fn test_tokenize() {
    let chars: Vec<char> = "  ## name  ".chars().collect();
    match tokenize(&chars) {
        Token::Section(depth, name) => {
            assert_eq!(depth, 2);
            assert_eq!(name, "name");
        }
        _ => unreachable!(),
    }
    let chars: Vec<char> = "k=v".chars().collect();
    match tokenize(&chars) {
        Token::Property(name, value) => {
            assert_eq!(name, "k");
            assert_eq!(value, "v");
        }
        _ => unreachable!(),
    }
    let chars: Vec<char> = " ; k=v".chars().collect();
    assert!(matches!(tokenize(&chars), Token::Blank));
    let chars: Vec<char> = "kv".chars().collect();
    assert!(matches!(tokenize(&chars), Token::Malformed));
}
