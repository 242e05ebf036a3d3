use flight_telemetry::record::parse_telemetry;
use flight_telemetry::text::{parse_u32_default, split_bytes, trim_bytes};

fn line(s: &str) -> Vec<u8> {
    s.as_bytes().to_vec()
}

#[test]
fn accepts_exactly_17_fields() {
    let l = line("2024-01-01 00:00:00,1.0,2.0,3.0,4.0,5.0,6.0,25.5,1013.2,100.0,0.1,0.2,0.3,45.5,-122.6,8,150.0");
    let r = parse_telemetry(&l).expect("17 fields must parse");
    assert_eq!(r.timestamp, line("2024-01-01 00:00:00"));
    assert_eq!(r.accel_x, line("1.0"));
    assert_eq!(r.gyro_z, line("6.0"));
    assert_eq!(r.temp, line("25.5"));
    assert_eq!(r.pressure, line("1013.2"));
    assert_eq!(r.alt_bmp, line("100.0"));
    assert_eq!(r.mag_z, line("0.3"));
    assert_eq!(r.latitude, line("45.5"));
    assert_eq!(r.longitude, line("-122.6"));
    assert_eq!(r.satellites, 8);
    assert_eq!(r.alt_gps, line("150.0"));
}

#[test]
fn garbage_subfields_do_not_reject() {
    // Any 17-field line yields a record; unparseable numerics default, not fail.
    let l = line("t,x,y,z,a,b,c,d,e,f,g,h,i,j,k,notanumber,m");
    let r = parse_telemetry(&l).expect("garbage subfields must not reject the line");
    assert_eq!(r.timestamp, line("t"));
    assert_eq!(r.accel_x, line("x"));
    assert_eq!(r.satellites, 0);
    assert_eq!(r.alt_gps, line("m"));
}

#[test]
fn rejects_16_fields() {
    let l = line("a,b,c,d,e,f,g,h,i,j,k,l,m,n,o,p");
    assert!(parse_telemetry(&l).is_none());
}

#[test]
fn rejects_18_fields() {
    let l = line("a,b,c,d,e,f,g,h,i,j,k,l,m,n,o,p,q,r");
    assert!(parse_telemetry(&l).is_none());
}

#[test]
fn rejects_empty_line() {
    assert!(parse_telemetry(&line("")).is_none());
}

#[test]
fn fields_are_trimmed() {
    let l = line("  ts  , 1.5 ,2,3,4,5,6,7,8,9,10,11,12,13,14, 9 ,16");
    let r = parse_telemetry(&l).expect("must parse");
    assert_eq!(r.timestamp, line("ts"));
    assert_eq!(r.accel_x, line("1.5"));
    assert_eq!(r.satellites, 9);
}

#[test]
fn satellite_count_parses_decimal() {
    assert_eq!(parse_u32_default(&line("42")), 42);
    assert_eq!(parse_u32_default(&line("0")), 0);
    assert_eq!(parse_u32_default(&line("4294967295")), u32::MAX);
}

#[test]
fn satellite_count_accepts_leading_plus() {
    assert_eq!(parse_u32_default(&line("+42")), 42);
    assert_eq!(parse_u32_default(&line("+")), 0);
}

#[test]
fn satellite_count_defaults_on_malformed() {
    assert_eq!(parse_u32_default(&line("")), 0);
    assert_eq!(parse_u32_default(&line("-1")), 0);
    assert_eq!(parse_u32_default(&line("12x")), 0);
    assert_eq!(parse_u32_default(&line("4294967296")), 0);
    assert_eq!(parse_u32_default(&line("99999999999999999999")), 0);
}

#[test]
fn trim_removes_ascii_whitespace() {
    assert_eq!(trim_bytes(&line("  a b\t")), line("a b"));
    assert_eq!(trim_bytes(&line("\r\n x \r")), line("x"));
    assert_eq!(trim_bytes(&line("   ")), line(""));
    assert_eq!(trim_bytes(&line("")), line(""));
}

#[test]
fn split_keeps_empty_fields() {
    let parts = split_bytes(&line("a,,b"), b',');
    assert_eq!(parts.len(), 3);
    assert_eq!(parts[0], line("a"));
    assert_eq!(parts[1], line(""));
    assert_eq!(parts[2], line("b"));
}

#[test]
fn split_of_empty_is_one_empty_field() {
    let parts = split_bytes(&line(""), b',');
    assert_eq!(parts.len(), 1);
    assert_eq!(parts[0], line(""));
}
