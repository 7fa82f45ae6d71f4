use notify_server::digits::{decimal, hex, push_decimal, push_hex};
use notify_server::IpAddress;

fn v6(groups: [u16; 8]) -> String {
    IpAddress::V6(groups).to_text()
}

#[test]
fn ipv4_is_dotted_decimal() {
    assert_eq!(IpAddress::V4([192, 168, 0, 1]).to_text(), "192.168.0.1");
    assert_eq!(IpAddress::V4([0, 0, 0, 0]).to_text(), "0.0.0.0");
    assert_eq!(IpAddress::V4([255, 255, 255, 255]).to_text(), "255.255.255.255");
    assert_eq!(IpAddress::V4([1, 20, 100, 9]).to_text(), "1.20.100.9");
    assert_eq!(IpAddress::V4([127, 0, 0, 1]).to_text(), "127.0.0.1");
}

#[test]
fn ipv6_loopback_is_compressed() {
    assert_eq!(v6([0, 0, 0, 0, 0, 0, 0, 1]), "::1");
}

#[test]
fn ipv6_of_zeros_is_two_colons() {
    assert_eq!(v6([0, 0, 0, 0, 0, 0, 0, 0]), "::");
}

#[test]
fn ipv6_groups_are_lower_case_without_leading_zeros() {
    assert_eq!(
        v6([0x2001, 0x0db8, 0x85a3, 0x0008, 0x00d3, 0x8a2e, 0x0370, 0x7334]),
        "2001:db8:85a3:8:d3:8a2e:370:7334"
    );
    assert_eq!(
        v6([0xffff, 0xffff, 0xffff, 0xffff, 0xffff, 0xffff, 0xffff, 0xffff]),
        "ffff:ffff:ffff:ffff:ffff:ffff:ffff:ffff"
    );
    assert_eq!(
        v6([0xabcd, 0xef01, 0x2345, 0x6789, 0xa, 0xb0, 0xc00, 0xd000]),
        "abcd:ef01:2345:6789:a:b0:c00:d000"
    );
}

#[test]
fn ipv6_run_of_zeros_is_shortened_where_it_stands() {
    assert_eq!(v6([0x2001, 0xdb8, 0, 0, 0, 0, 0, 1]), "2001:db8::1");
    assert_eq!(v6([0xfe80, 0, 0, 0, 0, 0, 0, 0]), "fe80::");
    assert_eq!(v6([0, 0, 0, 0, 0, 0, 1, 2]), "::1:2");
    assert_eq!(v6([1, 2, 3, 0, 0, 6, 7, 8]), "1:2:3::6:7:8");
    assert_eq!(v6([1, 0, 0, 0, 0, 0, 0, 0]), "1::");
    assert_eq!(v6([0, 0, 0, 0, 0, 0, 0, 0x100]), "::100");
}

#[test]
fn ipv6_longest_run_of_zeros_is_shortened() {
    assert_eq!(v6([1, 0, 0, 2, 0, 0, 0, 3]), "1:0:0:2::3");
    assert_eq!(v6([1, 0, 0, 0, 2, 0, 0, 3]), "1::2:0:0:3");
    assert_eq!(v6([0, 0, 1, 0, 0, 0, 0, 0]), "0:0:1::");
    assert_eq!(v6([0, 0, 0, 1, 0, 0, 0, 0]), "0:0:0:1::");
}

#[test]
fn ipv6_leftmost_of_equal_runs_is_shortened() {
    assert_eq!(v6([1, 0, 0, 2, 0, 0, 3, 4]), "1::2:0:0:3:4");
    assert_eq!(v6([0, 0, 1, 2, 3, 4, 0, 0]), "::1:2:3:4:0:0");
    assert_eq!(v6([0, 0, 0, 1, 2, 0, 0, 0]), "::1:2:0:0:0");
}

#[test]
fn ipv6_single_zero_is_not_shortened() {
    assert_eq!(v6([1, 0, 2, 3, 4, 5, 6, 7]), "1:0:2:3:4:5:6:7");
    assert_eq!(v6([0, 1, 2, 3, 4, 5, 6, 7]), "0:1:2:3:4:5:6:7");
    assert_eq!(v6([1, 2, 3, 4, 5, 6, 7, 0]), "1:2:3:4:5:6:7:0");
    assert_eq!(v6([0, 1, 0, 1, 0, 1, 0, 1]), "0:1:0:1:0:1:0:1");
    assert_eq!(v6([1, 2, 3, 4, 5, 6, 7, 8]), "1:2:3:4:5:6:7:8");
}

#[test]
fn ipv6_that_carries_ipv4_is_written_with_dots() {
    assert_eq!(v6([0, 0, 0, 0, 0, 0xffff, 0xc0a8, 0x0001]), "::ffff:192.168.0.1");
    assert_eq!(v6([0, 0, 0, 0, 0, 0xffff, 0, 0]), "::ffff:0.0.0.0");
    assert_eq!(v6([0, 0, 0, 0, 0, 0xffff, 0xffff, 0xffff]), "::ffff:255.255.255.255");
    assert_eq!(v6([0, 0, 0, 0, 0, 0xffff, 0x0102, 0x0304]), "::ffff:1.2.3.4");
}

#[test]
fn ipv6_without_the_prefix_is_written_in_groups() {
    assert_eq!(v6([0, 0, 0, 0, 0, 0, 0x0102, 0x0304]), "::102:304");
    assert_eq!(v6([0, 0, 0, 0, 0, 0xfffe, 0x0102, 0x0304]), "::fffe:102:304");
    assert_eq!(v6([0, 0, 0, 0, 1, 0xffff, 0x0102, 0x0304]), "::1:ffff:102:304");
    assert_eq!(v6([0, 0, 0, 0, 0xffff, 0, 0x0102, 0x0304]), "::ffff:0:102:304");
}

#[test]
fn push_text_appends() {
    let mut out = String::from("from ");
    IpAddress::V4([8, 8, 4, 4]).push_text(&mut out);
    out.push_str(" and ");
    IpAddress::V6([0x2001, 0x4860, 0x4860, 0, 0, 0, 0, 0x8844]).push_text(&mut out);
    assert_eq!(out, "from 8.8.4.4 and 2001:4860:4860::8844");
}

#[test]
fn decimal_numerals() {
    assert_eq!(decimal(0), "0");
    assert_eq!(decimal(7), "7");
    assert_eq!(decimal(9), "9");
    assert_eq!(decimal(10), "10");
    assert_eq!(decimal(99), "99");
    assert_eq!(decimal(100), "100");
    assert_eq!(decimal(255), "255");
    assert_eq!(decimal(12413), "12413");
    assert_eq!(decimal(65535), "65535");
    assert_eq!(decimal(u64::MAX), "18446744073709551615");
}

#[test]
fn hexadecimal_numerals() {
    assert_eq!(hex(0), "0");
    assert_eq!(hex(9), "9");
    assert_eq!(hex(10), "a");
    assert_eq!(hex(15), "f");
    assert_eq!(hex(16), "10");
    assert_eq!(hex(0xdb8), "db8");
    assert_eq!(hex(0xffff), "ffff");
    assert_eq!(hex(0x123456789abcdef0), "123456789abcdef0");
    assert_eq!(hex(u64::MAX), "ffffffffffffffff");
}

#[test]
fn numerals_agree_with_formatting() {
    let mut n: u64 = 0;
    while n < 70000 {
        assert_eq!(decimal(n), format!("{}", n));
        assert_eq!(hex(n), format!("{:x}", n));
        n += 1;
    }
}

#[test]
fn pushed_numerals_follow_what_was_there() {
    let mut out = String::from("port ");
    push_decimal(&mut out, 8080);
    out.push_str(" is 0x");
    push_hex(&mut out, 8080);
    assert_eq!(out, "port 8080 is 0x1f90");
}

fn sample_addresses() -> Vec<IpAddress> {
    vec![
        IpAddress::V4([0, 0, 0, 0]),
        IpAddress::V4([1, 2, 3, 4]),
        IpAddress::V4([12, 3, 4, 5]),
        IpAddress::V4([1, 23, 4, 5]),
        IpAddress::V4([1, 2, 34, 5]),
        IpAddress::V4([1, 2, 3, 45]),
        IpAddress::V4([192, 168, 0, 1]),
        IpAddress::V4([255, 255, 255, 255]),
        IpAddress::V6([0, 0, 0, 0, 0, 0, 0, 0]),
        IpAddress::V6([0, 0, 0, 0, 0, 0, 0, 1]),
        IpAddress::V6([1, 0, 0, 0, 0, 0, 0, 0]),
        IpAddress::V6([0, 0, 0, 0, 0, 0, 1, 0]),
        IpAddress::V6([0, 1, 0, 0, 0, 0, 0, 0]),
        IpAddress::V6([0, 0, 0, 0, 0, 0xffff, 0x0102, 0x0304]),
        IpAddress::V6([0, 0, 0, 0, 0, 0, 0x0102, 0x0304]),
        IpAddress::V6([0, 0, 0, 0, 0, 0xffff, 0xc0a8, 0x0001]),
        IpAddress::V6([1, 0, 0, 2, 0, 0, 0, 3]),
        IpAddress::V6([1, 0, 0, 2, 0, 0, 3, 4]),
        IpAddress::V6([1, 0, 0, 0, 2, 0, 0, 3]),
        IpAddress::V6([1, 2, 0, 0, 0, 0, 0, 3]),
        IpAddress::V6([0x12, 0, 0, 0, 0, 0, 0, 3]),
        IpAddress::V6([1, 0x20, 0, 0, 0, 0, 0, 3]),
        IpAddress::V6([1, 0, 2, 3, 4, 5, 6, 7]),
        IpAddress::V6([0x10, 2, 3, 4, 5, 6, 7, 8]),
        IpAddress::V6([1, 2, 3, 4, 5, 6, 7, 8]),
        IpAddress::V6([0x2001, 0xdb8, 0, 0, 0, 0, 0, 1]),
        IpAddress::V6([0x2001, 0xdb8, 0, 0, 0, 0, 1, 0]),
        IpAddress::V6([0xfe80, 0, 0, 0, 0, 0, 0, 0]),
        IpAddress::V6([0xffff, 0xffff, 0xffff, 0xffff, 0xffff, 0xffff, 0xffff, 0xffff]),
    ]
}

#[test]
fn distinct_addresses_have_distinct_texts() {
    let addresses = sample_addresses();
    for (i, first) in addresses.iter().enumerate() {
        for (j, second) in addresses.iter().enumerate() {
            assert_eq!(first.to_text() == second.to_text(), i == j);
        }
    }
}

#[test]
fn address_text_is_made_of_digits_colons_and_dots() {
    for address in sample_addresses() {
        let text = address.to_text();
        assert!(text.len() >= 2);
        assert!(text.chars().all(|c| "0123456789abcdef:.".contains(c)));
    }
}

#[test]
fn only_the_leftmost_longest_run_is_shortened() {
    for address in sample_addresses() {
        if let IpAddress::V6(_) = address {
            let text = address.to_text();
            assert!(text.matches("::").count() <= 1);
            assert!(!text.contains(":::"));
        }
    }
    assert_eq!(v6([0, 0, 1, 0, 0, 2, 0, 0]), "::1:0:0:2:0:0");
    assert_eq!(v6([1, 0, 0, 0, 2, 0, 0, 0]), "1::2:0:0:0");
    assert_eq!(v6([1, 0, 0, 2, 0, 0, 0, 0]), "1:0:0:2::");
}

#[test]
fn numerals_denote_their_numbers() {
    for n in [0u64, 1, 9, 10, 15, 16, 255, 256, 4095, 65535, 65536, u64::MAX] {
        assert_eq!(decimal(n).parse::<u64>(), Ok(n));
        assert_eq!(u64::from_str_radix(&hex(n), 16), Ok(n));
    }
}

#[test]
fn numerals_have_no_leading_zeros() {
    let mut n: u64 = 1;
    while n < 5000 {
        assert!(!decimal(n).starts_with('0'));
        assert!(!hex(n).starts_with('0'));
        n += 1;
    }
    assert_eq!(decimal(0), "0");
    assert_eq!(hex(0), "0");
}
