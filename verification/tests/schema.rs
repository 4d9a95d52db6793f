use config::Config;
use config::Schema;
use config::schema::Rule;

const T1_CONF: &str = "xmltv = /projects/opt/discovery.xml
output = udp://127.0.0.1:10000
u16 = 1234
bool = true

# multiplex
tsid = 1

## service
name = \u{1F43D}
pnr = 1
xmltv-id = discovery-channel

## service
xmltv = /projects/opt/yamal.xml
pnr = 1185
xmltv-id = yamal-region
";

fn t1_conf() -> Config {
    Config::parse(T1_CONF.as_bytes()).unwrap()
}

#[test]
fn test_schema_range_validator() {
    let f = Schema::range(100 .. 200);
    assert!(f.test("150"));
    assert!(f.test("100"));
    assert!(f.test("200"));
    assert!(f.test("0x80"));
    assert!(! f.test("50"));
    assert!(! f.test("250"));
    assert!(! f.test("test"));
}

#[test]
fn test_schema_ok() {
    let mut schema = Schema::new("", "");
    let config = t1_conf();
    schema.set("output", "Output streem", true, None);
    schema.check(&config).unwrap();
}

#[test]
fn test_schema_whithout_parametr() {
    let mut schema = Schema::new("", "");
    let config = t1_conf();
    schema.set("put", "Bad parametr", true, None);
    assert!(schema.check(&config).is_err());
}

#[test]
fn test_schema_unrequred() {
    let mut schema = Schema::new("", "");
    let config = t1_conf();
    schema.set("output", "Output streem", false, None);
    schema.check(&config).unwrap();
}

#[test]
fn test_schema_unrequred_whithout_parametr() {
    let mut schema = Schema::new("", "");
    let config = t1_conf();
    schema.set("put", "Bad parametr", false, None);
    schema.check(&config).unwrap();
}

#[test]
fn test_schema_range() {
    let mut schema = Schema::new("", "");
    let config = t1_conf();
    schema.set("u16", "Test u16", true, Schema::range(0 .. 65000));
    schema.check(&config).unwrap();
}

#[test]
fn test_schema_out_range() {
    let mut schema = Schema::new("", "");
    let config = t1_conf();
    schema.set("u16", "Test u16", true, Schema::range(0 .. 1));
    match schema.check(&config) {
        Ok(_) => unreachable!(),
        Err(e) => println!("{}", e.to_string()),
    }
}

#[test]
fn test_schema_out_range_unrequred() {
    let mut schema = Schema::new("", "");
    let config = t1_conf();
    schema.set("u16", "Test u16", false, Schema::range(0 .. 1));
    match schema.check(&config) {
        Ok(_) => unreachable!(),
        Err(e) => println!("{}", e.to_string()),
    }
}

#[test]
fn test_schema_nested_ok() {
    let mut schema = Schema::new("","");
    let mut multiplex = Schema::new("multiplex","simple dvb multiplex");
    let mut service = Schema::new("service","");
    let config = t1_conf();
    service.set("pnr", "Program name", true, None);
    multiplex.push(service);
    schema.push(multiplex);
    schema.check(&config).unwrap();
}

#[test]
fn test_schema_nested_whithout_parametr() {
    let mut schema = Schema::new("", "");
    let mut multiplex = Schema::new("multiplex", "simple dvb multiplex");
    let mut service = Schema::new("service", "");
    service.set("pttr", "Unreal", true, None);
    multiplex.push(service);
    schema.push(multiplex);

    let config = t1_conf();
    match schema.check(&config) {
        Ok(_) => unreachable!(),
        Err(e) => println!("{}", e.to_string()),
    }
}

#[test]
fn test_schema_nested_range() {
    let mut schema = Schema::new("","");
    let mut multiplex = Schema::new("multiplex","simple dvb multiplex");
    let mut service = Schema::new("service","");
    let config = t1_conf();
    service.set("pnr", "Program name", true, Schema::range(0 .. 65000));
    multiplex.push(service);
    schema.push(multiplex);
    schema.check(&config).unwrap();
}

#[test]
fn test_schema_nested_out_range() {
    let mut schema = Schema::new("","");
    let mut multiplex = Schema::new("multiplex","simple dvb multiplex");
    let mut service = Schema::new("service","");
    let config = t1_conf();
    service.set("pnr", "Program name", true, Schema::range(0 .. 1));
    multiplex.push(service);
    schema.push(multiplex);
    match schema.check(&config) {
        Ok(_) => unreachable!(),
        Err(e) => println!("{}", e.to_string()),
    }
}

#[test]
fn test_schema_nested_out_range_unrequred() {
    let mut schema = Schema::new("","");
    let mut multiplex = Schema::new("multiplex","simple dvb multiplex");
    let mut service = Schema::new("service","");
    let config = t1_conf();
    service.set("pnr", "Program name", false, Schema::range(0 .. 1));
    multiplex.push(service);
    schema.push(multiplex);
    match schema.check(&config) {
        Ok(_) => unreachable!(),
        Err(e) => println!("{}", e.to_string()),
    }
}
