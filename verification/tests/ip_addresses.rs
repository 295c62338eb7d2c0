use mping::ipspec::{generate_ip_range, parse_ip, parse_ip_or_range, parse_ip_range, IpAddress};

#[test]
fn test_parse_single_ip() {
    let result: Vec<IpAddress> = parse_ip_or_range("192.168.1.1").unwrap();
    assert_eq!(result.len(), 1);
    assert_eq!(result[0], parse_ip("192.168.1.1").unwrap());
}

#[test]
fn test_parse_cidr() {
    let result: Vec<IpAddress> = parse_ip_or_range("192.168.1.0/30").unwrap();
    assert_eq!(result.len(), 2); // .1 and .2 (hosts only)
    assert!(result.contains(&parse_ip("192.168.1.1").unwrap()));
    assert!(result.contains(&parse_ip("192.168.1.2").unwrap()));
}

#[test]
fn test_parse_short_range() {
    let result: Vec<IpAddress> = parse_ip_or_range("10.0.0.1-5").unwrap();
    assert_eq!(result.len(), 5);
    assert_eq!(result[0], parse_ip("10.0.0.1").unwrap());
    assert_eq!(result[4], parse_ip("10.0.0.5").unwrap());
}

#[test]
fn test_parse_full_range() {
    let result: Vec<IpAddress> = parse_ip_or_range("10.0.0.1-10.0.0.5").unwrap();
    assert_eq!(result.len(), 5);
    assert_eq!(result[0], parse_ip("10.0.0.1").unwrap());
    assert_eq!(result[4], parse_ip("10.0.0.5").unwrap());
}

#[test]
fn test_invalid_range() {
    let result: Result<Vec<IpAddress>, String> = parse_ip_or_range("10.0.0.5-10.0.0.1");
    assert!(result.is_err());
}

#[test]
fn test_ipv6_short_range() {
    let result: Vec<IpAddress> = parse_ip_or_range("::1-5").unwrap();
    assert_eq!(result.len(), 5);
    assert_eq!(result[0], parse_ip("::1").unwrap());
    assert_eq!(result[4], parse_ip("::5").unwrap());
}

#[test]
fn test_parse_ip_values() {
    assert_eq!(parse_ip("0.0.0.0"), Some(IpAddress::V4(0)));
    assert_eq!(parse_ip("255.255.255.255"), Some(IpAddress::V4(u32::MAX)));
    assert_eq!(parse_ip("10.0.0.1"), Some(IpAddress::V4(0x0a000001)));
    assert_eq!(parse_ip("::"), Some(IpAddress::V6(0)));
    assert_eq!(parse_ip("::1"), Some(IpAddress::V6(1)));
    assert_eq!(parse_ip("1::"), Some(IpAddress::V6(0x0001_0000_0000_0000_0000_0000_0000_0000)));
    assert_eq!(
        parse_ip("2001:db8::ff00:42:8329"),
        Some(IpAddress::V6(0x2001_0db8_0000_0000_0000_ff00_0042_8329))
    );
    assert_eq!(
        parse_ip("1:2:3:4:5:6:7:8"),
        Some(IpAddress::V6(0x0001_0002_0003_0004_0005_0006_0007_0008))
    );
    assert_eq!(parse_ip(""), None);
    assert_eq!(parse_ip("10.0.0"), None);
    assert_eq!(parse_ip("10.0.0.256"), None);
    assert_eq!(parse_ip("10.00.0.1"), None);
    assert_eq!(parse_ip("1:2:3"), None);
    assert_eq!(parse_ip("1::2::3"), None);
    assert_eq!(parse_ip(":::"), None);
    assert_eq!(parse_ip("12345::"), None);
}

#[test]
fn test_cidr_single_host() {
    // /32 and /128 expand to the single network address.
    let result: Vec<IpAddress> = parse_ip_or_range("10.1.2.3/32").unwrap();
    assert_eq!(result, vec![parse_ip("10.1.2.3").unwrap()]);
    let result: Vec<IpAddress> = parse_ip_or_range("::1/128").unwrap();
    assert_eq!(result, vec![parse_ip("::1").unwrap()]);
}

#[test]
fn test_cidr_31_and_24() {
    let result: Vec<IpAddress> = parse_ip_or_range("10.0.0.0/31").unwrap();
    assert_eq!(
        result,
        vec![parse_ip("10.0.0.0").unwrap(), parse_ip("10.0.0.1").unwrap()]
    );
    let result: Vec<IpAddress> = parse_ip_or_range("192.168.5.17/24").unwrap();
    assert_eq!(result.len(), 254);
    assert_eq!(result[0], parse_ip("192.168.5.1").unwrap());
    assert_eq!(result[253], parse_ip("192.168.5.254").unwrap());
}

#[test]
fn test_cidr_too_large() {
    assert!(parse_ip_or_range("10.0.0.0/8").is_err());
    assert!(parse_ip_or_range("2001:db8::/32").is_err());
}

#[test]
fn test_range_trimming_and_mixing() {
    let result: Vec<IpAddress> = parse_ip_or_range("10.0.0.1 - 10.0.0.3").unwrap();
    assert_eq!(result.len(), 3);
    assert!(parse_ip_or_range("10.0.0.1-::5").is_err());
    assert!(parse_ip_or_range("10.0.0.1-300").is_err());
    assert!(parse_ip_or_range("gibberish").is_err());
}

#[test]
fn test_generate_ip_range_bounds() {
    let a = IpAddress::V4(0x0a000001);
    let b = IpAddress::V4(0x0a000001 + 65535);
    assert_eq!(generate_ip_range(a, b).unwrap().len(), 65536);
    let c = IpAddress::V4(0x0a000001 + 65536);
    assert!(generate_ip_range(a, c).is_err());
    assert!(generate_ip_range(b, a).is_err());
    assert!(generate_ip_range(a, IpAddress::V6(7)).is_err());
    let v6 = generate_ip_range(IpAddress::V6(10), IpAddress::V6(12)).unwrap();
    assert_eq!(
        v6,
        vec![IpAddress::V6(10), IpAddress::V6(11), IpAddress::V6(12)]
    );
}

#[test]
fn test_parse_ip_range_direct()  {
    let r = parse_ip_range("192.168.0.250-192.168.1.2").unwrap();
    assert_eq!(r.len(), 9);
    assert_eq!(r[0], parse_ip("192.168.0.250").unwrap());
    assert_eq!(r[8], parse_ip("192.168.1.2").unwrap());
    assert!(parse_ip_range("10.0.0.1-2-3").is_err());
    assert!(parse_ip_range("10.0.0.1").is_err());
    let r6 = parse_ip_range("::ff-::100").unwrap();
    assert_eq!(r6.len(), 2);
    assert_eq!(r6[0], parse_ip("::ff").unwrap());
    assert_eq!(r6[1], parse_ip("::100").unwrap());
}
