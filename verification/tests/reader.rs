use config::Config;

const T1_CONF: &str = "xmltv = /projects/opt/discovery.xml
output = udp://127.0.0.1:10000
u16 = 1234
bool = true

# multiplex
tsid = 1

## service
name = \u{1F43D}
pnr = 1
xmltv-id = discovery-channel

## service
xmltv = /projects/opt/yamal.xml
pnr = 1185
xmltv-id = yamal-region
";

#[test]
fn test_reader() {
    let config = Config::parse(T1_CONF.as_bytes()).unwrap();

    assert_eq!(config.get("xmltv"), Some("/projects/opt/discovery.xml"));
    assert_eq!(config.get::<&str>("test"), None);
    assert_eq!(config.get("bool"), Some(true));
    assert_eq!(config.get("u16"), Some(1234u16));

    let mut seen = 0;
    for multiplex in config.iter() {
        assert_eq!(multiplex.get_name(), "multiplex");
        assert_eq!(multiplex.get("tsid"), Some(1u16));

        for service in multiplex.iter() {
            seen += 1;
            match service.get("pnr").unwrap_or(0u16) {
                1 => assert_eq!(service.get("xmltv-id"), Some("discovery-channel")),
                1185 => assert_eq!(service.get("xmltv-id"), Some("yamal-region")),
                _ => unreachable!(),
            }
        }
    }
    assert_eq!(seen, 2);
}
