use hamsando::api::{
    create_path, delete_by_name_type_path, delete_path, edit_by_name_type_path, edit_path,
    ping_path, retrieve_by_name_type_path, retrieve_path,
};
use hamsando::netcmd::parse_ip_output;
use hamsando::record::Type;
use hamsando::strutil::{i64_to_string, u64_to_string};

#[test]
fn operation_paths() {
    assert_eq!(ping_path(), "ping");
    assert_eq!(create_path("example.com"), "dns/create/example.com");
    assert_eq!(edit_path("example.com", 106926652), "dns/edit/example.com/106926652");
    assert_eq!(delete_path("example.com", 7), "dns/delete/example.com/7");
    assert_eq!(
        edit_by_name_type_path("example.com", &Type::A, Some("www")),
        "dns/editByNameType/example.com/A/www"
    );
    assert_eq!(
        edit_by_name_type_path("example.com", &Type::Aaaa, None),
        "dns/editByNameType/example.com/AAAA/"
    );
    assert_eq!(
        delete_by_name_type_path("example.com", &Type::Txt, Some("mail")),
        "dns/deleteByNameType/example.com/TXT/mail"
    );
    assert_eq!(retrieve_path("example.com", None), "dns/retrieve/example.com/");
    assert_eq!(retrieve_path("example.com", Some(31)), "dns/retrieve/example.com/31");
    assert_eq!(
        retrieve_by_name_type_path("example.com", &Type::Cname, None),
        "dns/retrieveByNameType/example.com/CNAME/"
    );
}

#[test]
fn decimal_rendering() {
    assert_eq!(u64_to_string(0), "0");
    assert_eq!(u64_to_string(7), "7");
    assert_eq!(u64_to_string(12345), "12345");
    assert_eq!(u64_to_string(18446744073709551615), "18446744073709551615");
    assert_eq!(i64_to_string(0), "0");
    assert_eq!(i64_to_string(42), "42");
    assert_eq!(i64_to_string(-42), "-42");
    assert_eq!(i64_to_string(i64::MIN), "-9223372036854775808");
    assert_eq!(i64_to_string(i64::MAX), "9223372036854775807");
}

#[test]
fn ip_command_output_parses() {
    let output = "2: wlan0    inet 192.168.1.77/24 brd 192.168.1.255 scope global dynamic \\       valid_lft 85994sec preferred_lft 85994sec\n";
    assert_eq!(parse_ip_output(output).as_deref(), Some("192.168.1.77"));

    let v6 = "2: wlan0    inet6 2001:db8::5054:ff:fe12:3456/64 scope global dynamic \\       valid_lft 86398sec\n";
    assert_eq!(parse_ip_output(v6).as_deref(), Some("2001:db8::5054:ff:fe12:3456"));

    // Only the first line counts.
    let two_lines = "1: lo    inet 127.0.0.1/8 scope host lo\n2: eth0    inet 10.0.0.2/24\n";
    assert_eq!(parse_ip_output(two_lines).as_deref(), Some("127.0.0.1"));

    // A field without a subnet suffix is taken whole.
    assert_eq!(parse_ip_output("a b c 10.1.2.3 d\n").as_deref(), Some("10.1.2.3"));

    // Too few fields, or no output at all.
    assert_eq!(parse_ip_output(""), None);
    assert_eq!(parse_ip_output("\n"), None);
    assert_eq!(parse_ip_output("a b c\nd e f g h\n"), None);
}
