use tonnelle::cidr::Ipv6Cidr;
use tonnelle::ipv6::parse_ipv6;
use tonnelle::proxy::TUNNEL_CIDR;

fn v6(text: &str) -> Option<u128> {
    let chars: Vec<char> = text.chars().collect();
    parse_ipv6(&chars)
}

#[test]
fn parses_tunnel_subnet() {
    let c = Ipv6Cidr::parse(TUNNEL_CIDR);
    assert_eq!(c, Ok(Ipv6Cidr::new(0x2001_0470_8a72_0000_0000_0000_0000_0000, 48)));
}

#[test]
fn parse_reports_missing_prefix() {
    assert_eq!(Ipv6Cidr::parse("2001:db8::"), Err("Missing prefix length part".to_string()));
    assert_eq!(Ipv6Cidr::parse(""), Err("Missing prefix length part".to_string()));
}

#[test]
fn parse_reports_invalid_prefix() {
    assert_eq!(Ipv6Cidr::parse("2001:db8::/"), Err("Invalid prefix length".to_string()));
    assert_eq!(Ipv6Cidr::parse("2001:db8::/x"), Err("Invalid prefix length".to_string()));
    assert_eq!(Ipv6Cidr::parse("2001:db8::/-1"), Err("Invalid prefix length".to_string()));
    assert_eq!(Ipv6Cidr::parse("2001:db8::/4294967296"), Err("Invalid prefix length".to_string()));
    // The prefix is checked before the address.
    assert_eq!(Ipv6Cidr::parse("nonsense/x"), Err("Invalid prefix length".to_string()));
}

#[test]
fn parse_reports_invalid_address() {
    assert_eq!(Ipv6Cidr::parse("nonsense/48"), Err("Invalid IPv6 address".to_string()));
    assert_eq!(Ipv6Cidr::parse("1.2.3.4/24"), Err("Invalid IPv6 address".to_string()));
    assert_eq!(Ipv6Cidr::parse("\u{e9}::/48"), Err("Invalid IPv6 address".to_string()));
}

#[test]
fn parse_accepts_prefix_forms() {
    assert_eq!(Ipv6Cidr::parse("::/+7"), Ok(Ipv6Cidr::new(0, 7)));
    assert_eq!(Ipv6Cidr::parse("::/0048"), Ok(Ipv6Cidr::new(0, 48)));
    assert_eq!(Ipv6Cidr::parse("::1/4294967295"), Ok(Ipv6Cidr::new(1, 4294967295)));
    // Text after a second slash is ignored.
    assert_eq!(Ipv6Cidr::parse("::1/64/junk"), Ok(Ipv6Cidr::new(1, 64)));
}

#[test]
fn ipv6_full_and_abbreviated() {
    assert_eq!(v6("::"), Some(0));
    assert_eq!(v6("::1"), Some(1));
    assert_eq!(v6("1::"), Some(1u128 << 112));
    assert_eq!(v6("1:2:3:4:5:6:7:8"), Some(0x0001_0002_0003_0004_0005_0006_0007_0008));
    assert_eq!(v6("1:2:3:4:5:6:7::"), Some(0x0001_0002_0003_0004_0005_0006_0007_0000));
    assert_eq!(v6("::2:3:4:5:6:7:8"), Some(0x0000_0002_0003_0004_0005_0006_0007_0008));
    assert_eq!(v6("fe80::aB:0001"), Some(0xfe80_0000_0000_0000_0000_0000_00ab_0001));
    assert_eq!(v6("FFFF:ffff:FFFF:ffff:FFFF:ffff:FFFF:ffff"), Some(u128::MAX));
}

#[test]
fn ipv6_with_dotted_quad() {
    assert_eq!(v6("::ffff:1.2.3.4"), Some(0xffff_0102_0304));
    assert_eq!(v6("1:2:3:4:5:6:10.0.0.255"), Some(0x0001_0002_0003_0004_0005_0006_0a00_00ff));
    assert_eq!(v6("::0.0.0.0"), Some(0));
    assert_eq!(v6("::1.2.3.04"), None);
    assert_eq!(v6("::1.2.3.256"), None);
    assert_eq!(v6("::1.2.3"), None);
    assert_eq!(v6("1.2.3.4::"), None);
    assert_eq!(v6("1:2:3:4:5:6:7:1.2.3.4"), None);
    assert_eq!(v6("1:2:3:4:5:6:7::1.2.3.4"), None);
    assert_eq!(v6("::1.2.3.4:5"), None);
}

#[test]
fn ipv6_rejects_malformed() {
    for bad in [
        "", ":", ":::", "1:2", "1::2::3", "12345::", "1:2:3:4:5:6:7:8:9", "g::", "::1:2:3:4:5:6:7:8",
        "1:2:3:4:5:6:7:8::", "[::1]", "fe80::1%eth0", ":1::", "1:", "::1:", " ::1", "1::2:",
    ] {
        assert_eq!(v6(bad), None, "{:?}", bad);
    }
}

#[test]
fn random_address_lies_in_subnet() {
    let c = Ipv6Cidr::new(0x2001_0470_8a72_0000_0000_0000_0000_0000, 48);
    for _ in 0..64 {
        let a = c.generate_random_ipv6_in_subnet();
        assert_eq!(a >> 80, 0x2001_0470_8a72);
    }
    let full = Ipv6Cidr::new(0x1234, 128);
    assert_eq!(full.generate_random_ipv6_in_subnet(), 0x1234);
}

#[test]
fn address_in_subnet_takes_host_bits() {
    let c = Ipv6Cidr::new(0xffff_ffff_ffff_ffff_ffff_ffff_ffff_ffff, 64);
    assert_eq!(c.address_in_subnet(0), 0xffff_ffff_ffff_ffff_0000_0000_0000_0000);
    assert_eq!(c.address_in_subnet(0x1234_5678_9abc_def0_1122_3344_5566_7788), 0xffff_ffff_ffff_ffff_1122_3344_5566_7788);
    let one = Ipv6Cidr::new(0, 1);
    assert_eq!(one.address_in_subnet(u128::MAX), u128::MAX >> 1);
}

#[test]
fn address_of_subnet_is_its_own_host_bits() {
    let c = Ipv6Cidr::new(0x2001_0470_8a72_0000_0000_0000_0000_0000, 48);
    let a = 0x2001_0470_8a72_beef_0000_0000_0000_0001;
    assert_eq!(c.address_in_subnet(a), a);
}

#[test]
fn full_text_reads_back() {
    assert_eq!(
        Ipv6Cidr::parse("2001:470:8a72:0:0:0:0:0/48"),
        Ok(Ipv6Cidr::new(0x2001_0470_8a72_0000_0000_0000_0000_0000, 48))
    );
    assert_eq!(
        Ipv6Cidr::parse("ffff:ffff:ffff:ffff:ffff:ffff:ffff:ffff/128"),
        Ok(Ipv6Cidr::new(u128::MAX, 128))
    );
    assert_eq!(Ipv6Cidr::parse("0:0:0:0:0:0:0:1/0"), Ok(Ipv6Cidr::new(1, 0)));
}

#[test]
fn displayed_forms_read_back() {
    assert_eq!(Ipv6Cidr::parse("::ffff:1.2.3.4/96"), Ok(Ipv6Cidr::new(0xffff_0102_0304, 96)));
    assert_eq!(
        Ipv6Cidr::parse("1:0:0:2::3/64"),
        Ok(Ipv6Cidr::new(0x0001_0000_0000_0002_0000_0000_0000_0003, 64))
    );
    assert_eq!(
        Ipv6Cidr::parse("1::2:0:0:3:4/7"),
        Ok(Ipv6Cidr::new(0x0001_0000_0000_0002_0000_0000_0003_0004, 7))
    );
    assert_eq!(Ipv6Cidr::parse("::/0"), Ok(Ipv6Cidr::new(0, 0)));
    assert_eq!(
        Ipv6Cidr::parse("1:2:3:4:5:6:0:8/128"),
        Ok(Ipv6Cidr::new(0x0001_0002_0003_0004_0005_0006_0000_0008, 128))
    );
}
