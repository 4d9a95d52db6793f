use config::text::split_lines;
use config::{Error, EventReader, IniEvent, IniReader, IniWriter, Section};

const TEXT: &str = "; comment
top = level

[ first ]
a = 1
b=2

[second] ignored
  c  =  three = 3  
[]
= bare
";

#[test]
fn test_ini_reader() {
    let ini = IniReader::parse(TEXT.as_bytes()).unwrap();
    assert_eq!(ini.len(), 4);
    assert!(!ini.is_empty());
    let all = ini.sections();
    assert_eq!(all[0].0, "");
    assert_eq!(all[0].1.len(), 1);
    assert_eq!(all[0].1.pairs()[0], ("top".to_string(), "level".to_string()));
    assert_eq!(all[1].0, "first");
    assert_eq!(all[1].1.len(), 2);
    assert_eq!(all[1].1.pairs()[0], ("a".to_string(), "1".to_string()));
    assert_eq!(all[1].1.pairs()[1], ("b".to_string(), "2".to_string()));
    assert_eq!(all[2].0, "second");
    assert_eq!(all[2].1.pairs()[0], ("c".to_string(), "three = 3".to_string()));
    assert_eq!(all[3].0, "");
    assert_eq!(all[3].1.pairs()[0], ("".to_string(), "bare".to_string()));
}

#[test]
fn test_ini_reader_empty_text() {
    let ini = IniReader::parse(b"").unwrap();
    assert_eq!(ini.len(), 1);
    assert_eq!(ini.sections()[0].0, "");
    assert!(ini.sections()[0].1.is_empty());
    assert_eq!(ini.sections()[0].1.len(), 0);
    assert!(IniReader::default().is_empty());
    assert_eq!(IniReader::default().len(), 0);
}

#[test]
fn test_ini_reader_errors() {
    assert_eq!(
        IniReader::parse(b"a = 1\n[broken\n").err(),
        Some(Error::Syntax(2, "Syntax Error: expected \u{2018}]\u{2019} after section name".to_string()))
    );
    assert_eq!(
        IniReader::parse(b"\n\nnothing\n[broken\n").err(),
        Some(Error::Syntax(3, "Syntax Error: expected \u{2018}=\u{2019} after property name".to_string()))
    );
    assert_eq!(
        IniReader::parse(&[b'[', 0x80, b']']).err(),
        Some(Error::Io("stream did not contain valid UTF-8".to_string()))
    );
}

#[test]
fn test_ini_error_messages() {
    assert_eq!(
        Error::Syntax(3, "expected something".to_string()).to_string(),
        "Syntax Error at line 3: expected something"
    );
    assert_eq!(
        Error::ParseBoolError(10, "not a truth value".to_string()).to_string(),
        "Format Error at line 10: not a truth value"
    );
    assert_eq!(
        Error::ParseIntError(0, "not a number".to_string()).to_string(),
        "Format Error at line 0: not a number"
    );
    assert_eq!(Error::Io("broken pipe".to_string()).to_string(), "broken pipe");
}

#[test]
fn test_section() {
    let mut section = Section::new();
    assert!(section.is_empty());
    section.push("k".to_string(), "v".to_string());
    assert_eq!(section.len(), 1);
    assert!(!section.is_empty());
    assert_eq!(section.pairs()[0].0, "k");
    assert_eq!(section.pairs()[0].1, "v");
}

#[test]
fn test_event_reader() {
    let mut reader = EventReader::new(TEXT);
    let mut events = Vec::new();
    loop {
        let event = reader.next().unwrap();
        let done = event == IniEvent::EndDocument;
        events.push(event);
        if done {
            break;
        }
    }
    let expected = vec![
        IniEvent::Property("top".to_string(), "level".to_string()),
        IniEvent::StartSection("first".to_string()),
        IniEvent::Property("a".to_string(), "1".to_string()),
        IniEvent::Property("b".to_string(), "2".to_string()),
        IniEvent::EndSection,
        IniEvent::StartSection("second".to_string()),
        IniEvent::Property("c".to_string(), "three = 3".to_string()),
        IniEvent::EndSection,
        IniEvent::StartSection("".to_string()),
        IniEvent::Property("".to_string(), "bare".to_string()),
        IniEvent::EndDocument,
    ];
    assert_eq!(events, expected);
    assert_eq!(reader.next(), Ok(IniEvent::EndDocument));
    assert_eq!(reader.next(), Ok(IniEvent::EndDocument));
}

#[test]
fn test_event_reader_errors() {
    let mut reader = EventReader::new("a = 1\n\nb\nc = 3\n");
    assert_eq!(reader.next(), Ok(IniEvent::Property("a".to_string(), "1".to_string())));
    assert_eq!(
        reader.next(),
        Err(Error::Syntax(3, "Syntax Error: expected \u{2018}=\u{2019} after property name".to_string()))
    );
    assert_eq!(reader.next(), Ok(IniEvent::Property("c".to_string(), "3".to_string())));
    assert_eq!(reader.next(), Ok(IniEvent::EndDocument));

    let mut reader = EventReader::new("[a]\n[b\n[c]\n");
    assert_eq!(reader.next(), Ok(IniEvent::StartSection("a".to_string())));
    assert_eq!(reader.next(), Ok(IniEvent::EndSection));
    assert_eq!(
        reader.next(),
        Err(Error::Syntax(2, "Syntax Error: expected \u{2018}]\u{2019} after section name".to_string()))
    );
    assert_eq!(reader.next(), Ok(IniEvent::EndSection));
    assert_eq!(reader.next(), Ok(IniEvent::StartSection("c".to_string())));
    assert_eq!(reader.next(), Ok(IniEvent::EndDocument));
}

#[test]
fn test_event_reader_empty_text() {
    let mut reader = EventReader::new("");
    assert_eq!(reader.next(), Ok(IniEvent::EndDocument));
    let mut reader = EventReader::new("\n; only\n   \n");
    assert_eq!(reader.next(), Ok(IniEvent::EndDocument));
}

#[test]
fn test_split_lines() {
    use_split_lines("a\n\nb", &["a", "", "b"]);
    use_split_lines("a\n\nb\n", &["a", "", "b"]);
    use_split_lines("\n", &[""]);
    use_split_lines("", &[]);
    use_split_lines("\r\n\n", &["\r", ""]);
    use_split_lines("\u{1F43D}\n\u{e9}", &["\u{1F43D}", "\u{e9}"]);
}

fn use_split_lines(text: &str, expected: &[&str]) {
    let lines: Vec<&[u8]> = split_lines(text.as_bytes());
    let expected: Vec<&[u8]> = expected.iter().map(|l| l.as_bytes()).collect();
    assert_eq!(lines, expected);
}

#[test]
fn test_ini_reader_reads_line_by_line() {
    assert_eq!(
        IniReader::parse(b"[broken\n\xff\n").err(),
        Some(Error::Syntax(1, "Syntax Error: expected \u{2018}]\u{2019} after section name".to_string()))
    );
    assert_eq!(
        IniReader::parse(b"a = 1\n\xff\n[broken\n").err(),
        Some(Error::Io("stream did not contain valid UTF-8".to_string()))
    );
}

#[test]
fn test_ini_writer() {
    let mut writer = IniWriter::new(Vec::new());
    writer.write_property("top", "level").unwrap();
    writer.write_section("  first \t").unwrap();
    writer.write_property("  a ", " 1 ").unwrap();
    writer.write_property("skipped", "").unwrap();
    writer.write_property("", "").unwrap();
    writer.write_section("\u{1F43D}").unwrap();
    let text = String::from_utf8(writer.into_inner()).unwrap();
    assert_eq!(text, "top = level\n\n[first]\na  =  1 \n\n[\u{1F43D}]\n");
}

#[test]
fn test_ini_writer_errors() {
    let mut writer = IniWriter::new(b"x".to_vec());
    assert_eq!(
        writer.write_section(""),
        Err(Error::Syntax(0, "Syntax Error: missing section name".to_string()))
    );
    assert_eq!(
        writer.write_section(" \t\n"),
        Err(Error::Syntax(0, "Syntax Error: missing section name".to_string()))
    );
    assert_eq!(
        writer.write_property("", "v"),
        Err(Error::Syntax(0, "Syntax Error: missing property name".to_string()))
    );
    assert_eq!(
        writer.write_property("   ", "v"),
        Err(Error::Syntax(0, "Syntax Error: missing property name".to_string()))
    );
    assert_eq!(writer.into_inner(), b"x".to_vec());
}

#[test]
fn test_ini_written_text_is_read_back() {
    let mut writer = IniWriter::new(Vec::new());
    writer.write_section("s").unwrap();
    writer.write_property("k", "v").unwrap();
    let bytes = writer.into_inner();
    let ini = IniReader::parse(&bytes).unwrap();
    assert_eq!(ini.len(), 2);
    assert_eq!(ini.sections()[1].0, "s");
    assert_eq!(ini.sections()[1].1.pairs()[0], ("k".to_string(), "v".to_string()));
}
