use config::Config;

const T1_CONF: &str = "xmltv = /projects/opt/discovery.xml
output = udp://127.0.0.1:10000
u16 = 1234
bool = true

# multiplex
tsid = 1

## service
name = \u{1F43D}
pnr = 1
xmltv-id = discovery-channel

## service
xmltv = /projects/opt/yamal.xml
pnr = 1185
xmltv-id = yamal-region
";

#[test]
fn test_writer() {
    let mut config = Config::new("");
    config.set("xmltv", "/projects/opt/discovery.xml");
    config.set("output", "udp://127.0.0.1:10000");
    config.set("u16", 1234);
    config.set("bool", true);

    let mut m = Config::new("multiplex");
    m.set("tsid", 1);

    let mut s = Config::new("service");
    s.set("name", "🐽");
    s.set("pnr", 1);
    s.set("xmltv-id", "discovery-channel");
    m.push(s);

    let mut s = Config::new("service");
    s.set("xmltv", "/projects/opt/yamal.xml");
    s.set("pnr", 1185);
    s.set("xmltv-id", "yamal-region");
    m.push(s);

    config.push(m);

    let mut s = Vec::<u8>::new();
    config.dump(&mut s).unwrap();
    let s = String::from_utf8(s).unwrap();

    assert_eq!(s.as_str(), T1_CONF);
}
