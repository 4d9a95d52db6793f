use config::number::read_integer;
use config::text::{char_is_whitespace, skip_both, skip_end, skip_start};
use config::{Config, ConfigError, FromProperty, Property};

fn get<'a, F: FromProperty<'a>>(p: &'a Property) -> Result<F, ConfigError> {
    F::from_property(p)
}

fn value(text: &str) -> Property {
    Property::new("n", text)
}

#[test]
fn test_coercion_boundary() {
    assert_eq!(get::<u8>(&value("188")), Ok(188));
    assert_eq!(get::<u8>(&value("1000")), Err(ConfigError::InvalidProperty(0, "n".to_string())));
    assert_eq!(get::<u16>(&value("0x1234")), Ok(4660));
    assert_eq!(get::<i16>(&value("0x1234")), Ok(4660));
}

#[test]
fn test_coercion_failure_names_the_property() {
    let config = Config::parse("a = 1\nport = 70000\n".as_bytes()).unwrap();
    let p = config.get_property("port").unwrap();
    assert_eq!(
        u16::from_property(p),
        Err(ConfigError::InvalidProperty(2, "port".to_string()))
    );
    assert_eq!(u32::from_property(p), Ok(70000));
    assert_eq!(
        bool::from_property(p),
        Err(ConfigError::InvalidProperty(2, "port".to_string()))
    );
    assert_eq!(<&str>::from_property(p), Ok("70000"));
}

#[test]
fn test_truth_values() {
    assert_eq!(get::<bool>(&value("true")), Ok(true));
    assert_eq!(get::<bool>(&value("false")), Ok(false));
    assert!(get::<bool>(&value("True")).is_err());
    assert!(get::<bool>(&value("FALSE")).is_err());
    assert!(get::<bool>(&value("1")).is_err());
    assert!(get::<bool>(&value("")).is_err());
    assert!(get::<bool>(&value(" true")).is_err());
    assert!(get::<bool>(&value("truee")).is_err());
}

#[test]
fn test_unsigned_limits() {
    assert_eq!(get::<u8>(&value("0")), Ok(0));
    assert_eq!(get::<u8>(&value("255")), Ok(255));
    assert!(get::<u8>(&value("256")).is_err());
    assert_eq!(get::<u16>(&value("65535")), Ok(65535));
    assert!(get::<u16>(&value("65536")).is_err());
    assert_eq!(get::<u32>(&value("4294967295")), Ok(u32::MAX));
    assert!(get::<u32>(&value("4294967296")).is_err());
    assert_eq!(get::<u64>(&value("18446744073709551615")), Ok(u64::MAX));
    assert!(get::<u64>(&value("18446744073709551616")).is_err());
    assert!(get::<u64>(&value("99999999999999999999999999999999999999999")).is_err());
    assert_eq!(get::<usize>(&value(&usize::MAX.to_string())), Ok(usize::MAX));
    assert_eq!(get::<u64>(&value("0xffffffffffffffff")), Ok(u64::MAX));
    assert!(get::<u64>(&value("0x10000000000000000")).is_err());
}

#[test]
fn test_signed_limits() {
    assert_eq!(get::<i8>(&value("-128")), Ok(-128));
    assert_eq!(get::<i8>(&value("127")), Ok(127));
    assert!(get::<i8>(&value("-129")).is_err());
    assert!(get::<i8>(&value("128")).is_err());
    assert_eq!(get::<i16>(&value("-32768")), Ok(i16::MIN));
    assert_eq!(get::<i32>(&value("-2147483648")), Ok(i32::MIN));
    assert!(get::<i32>(&value("-2200000000")).is_err());
    assert_eq!(get::<i64>(&value("-9223372036854775808")), Ok(i64::MIN));
    assert_eq!(get::<i64>(&value("9223372036854775807")), Ok(i64::MAX));
    assert!(get::<i64>(&value("9223372036854775808")).is_err());
    assert!(get::<i64>(&value("-9223372036854775809")).is_err());
    assert_eq!(get::<isize>(&value(&isize::MIN.to_string())), Ok(isize::MIN));
    assert_eq!(get::<i32>(&value("-0")), Ok(0));
}

#[test]
fn test_signs() {
    assert_eq!(get::<u8>(&value("+5")), Ok(5));
    assert_eq!(get::<i8>(&value("+5")), Ok(5));
    assert_eq!(get::<i8>(&value("-5")), Ok(-5));
    assert!(get::<u8>(&value("-5")).is_err());
    assert!(get::<u8>(&value("-0")).is_err());
    assert!(get::<u8>(&value("+")).is_err());
    assert!(get::<i8>(&value("-")).is_err());
    assert!(get::<i8>(&value("+-5")).is_err());
    assert!(get::<i8>(&value("--5")).is_err());
    assert!(get::<i8>(&value("5-")).is_err());
}

#[test]
fn test_hexadecimal() {
    assert_eq!(get::<u8>(&value("0xff")), Ok(255));
    assert_eq!(get::<u8>(&value("0xFF")), Ok(255));
    assert_eq!(get::<u8>(&value("0xfF")), Ok(255));
    assert_eq!(get::<u16>(&value("0x0")), Ok(0));
    assert_eq!(get::<u16>(&value("0x000001")), Ok(1));
    assert!(get::<u8>(&value("0x100")).is_err());
    assert!(get::<u8>(&value("0x")).is_err());
    assert!(get::<u8>(&value("0X10")).is_err());
    assert!(get::<u8>(&value("0xg")).is_err());
    assert!(get::<u8>(&value("ff")).is_err());
    assert!(get::<u8>(&value("x10")).is_err());
    assert_eq!(get::<i32>(&value("0x-1f")), Ok(-31));
    assert_eq!(get::<i32>(&value("0x+1f")), Ok(31));
    assert!(get::<u32>(&value("0x-1f")).is_err());
    assert!(get::<i32>(&value("-0x1f")).is_err());
}

#[test]
fn test_what_is_no_number() {
    assert!(get::<u8>(&value("")).is_err());
    assert!(get::<u8>(&value(" 1")).is_err());
    assert!(get::<u8>(&value("1 ")).is_err());
    assert!(get::<u8>(&value("1q")).is_err());
    assert!(get::<u8>(&value("1_0")).is_err());
    assert!(get::<u8>(&value("1.0")).is_err());
    assert!(get::<u8>(&value("\u{661}")).is_err());
    assert!(get::<u8>(&value("1\u{1F43D}")).is_err());
    assert_eq!(get::<u8>(&value("007")), Ok(7));
}

#[test]
fn test_lenient_get() {
    let mut config = Config::new("");
    config.set("n", "300");
    assert_eq!(config.get::<u8>("n"), None);
    assert_eq!(config.get::<u16>("n"), Some(300));
    assert_eq!(config.get::<u16>("m"), None);
    assert_eq!(config.get::<&str>("n"), Some("300"));
}

#[test]
fn test_read_integer() {
    assert_eq!(read_integer("0x80", false, 0, 255), Some(128));
    assert_eq!(read_integer("-3", true, -3, 3), Some(-3));
    assert_eq!(read_integer("-4", true, -3, 3), None);
    assert_eq!(read_integer("4", true, -3, 3), None);
}

#[test]
fn test_whitespace_is_the_white_space_property() {
    for u in 0u32..=0x10FFFF {
        if let Some(c) = char::from_u32(u) {
            assert_eq!(char_is_whitespace(c), c.is_whitespace(), "U+{:04X}", u);
        }
    }
}

#[test]
fn test_trimming_follows_the_standard_library() {
    for text in ["", " ", "a", " a", "a ", " a b ", "\t\r\n a\u{3000}", "\u{a0}\u{2000}x\u{205F}y\u{1680}"] {
        let chars: Vec<char> = text.chars().collect();
        let trimmed: String = skip_both(&chars).iter().collect();
        assert_eq!(trimmed, text.trim());
        let trimmed: String = skip_start(&chars).iter().collect();
        assert_eq!(trimmed, text.trim_start());
        let trimmed: String = skip_end(&chars).iter().collect();
        assert_eq!(trimmed, text.trim_end());
    }
}

#[test]
fn test_numbers_follow_the_standard_library() {
    let texts = [
        "", "0", "1", "-1", "+1", "-", "+", "--1", "++1", "+-1", "127", "128", "-128", "-129", "255",
        "256", "00", "-0", "+0", "0x", "1e3", " 1", "1 ", "12345678901234567890", "z", "7f", "7F",
        "-80", "+7f", "80", "ff", "100", "\u{ff11}",
    ];
    for text in texts {
        assert_eq!(read_integer(text, true, -128, 127), text.parse::<i8>().ok().map(i128::from), "{:?}", text);
        assert_eq!(read_integer(text, false, 0, 255), text.parse::<u8>().ok().map(i128::from), "{:?}", text);
        let hex = format!("0x{}", text);
        assert_eq!(
            read_integer(&hex, true, -128, 127),
            i8::from_str_radix(text, 16).ok().map(i128::from),
            "{:?}",
            hex
        );
        assert_eq!(
            read_integer(&hex, false, 0, 255),
            u8::from_str_radix(text, 16).ok().map(i128::from),
            "{:?}",
            hex
        );
    }
}

#[test]
fn test_strict_get_with_default() {
    let config = Config::parse("n = 300\nb = yes\n".as_bytes()).unwrap();
    assert_eq!(config.get_or::<u16>("n", 7), Ok(300));
    assert_eq!(config.get_or::<u16>("m", 7), Ok(7));
    assert_eq!(config.get_or::<&str>("m", "none"), Ok("none"));
    assert_eq!(
        config.get_or::<u8>("n", 7),
        Err(ConfigError::InvalidProperty(1, "n".to_string()))
    );
    assert_eq!(
        config.get_or::<bool>("b", false),
        Err(ConfigError::InvalidProperty(2, "b".to_string()))
    );
}
