use blastcap::identity::{IdentityExt, SocketAddr, SocketAddrExt, BOT_ADDR, HOST_ADDR};
use blastcap::text::{
    concat2, decimal_string, ends_with, split_once_char, starts_with, str_eq, trim,
};

#[test]
fn decimal_numerals() {
    assert_eq!(decimal_string(0), "0");
    assert_eq!(decimal_string(7), "7");
    assert_eq!(decimal_string(1024), "1024");
    assert_eq!(decimal_string(u64::MAX), "18446744073709551615");
}

#[test]
fn trimming_and_affixes() {
    assert_eq!(trim("  u64 \t"), "u64");
    assert_eq!(trim("\u{3000}x\u{a0}"), "x");
    assert_eq!(trim("   "), "");
    assert!(starts_with("Vec < u8 >", "Vec < "));
    assert!(!starts_with("Ve", "Vec"));
    assert!(ends_with("Vec < u8 >", " >"));
    assert!(!ends_with("u8", " >"));
    assert_eq!(split_once_char("String , u64", ','), Some(("String ", " u64")));
    assert_eq!(split_once_char("a,b,c", ','), Some(("a", "b,c")));
    assert_eq!(split_once_char("abc", ','), None);
    assert_eq!(concat2("ab", "cd"), "abcd");
    assert!(str_eq("x", "x"));
    assert!(!str_eq("x", "y"));
}

#[test]
fn socket_addr_round_trip() {
    let a = SocketAddr { ip: 0x7f00_0001, port: 8080 };
    let raw = a.raw();
    assert_eq!(raw, 0x7f00_0001_1f90_0000);
    assert_eq!(SocketAddr::from_raw(raw), a);
    // the two low bytes are not part of an address
    assert_eq!(SocketAddr::from_raw(raw + 0x1234), a);
}

#[test]
fn reserved_ids() {
    assert!(BOT_ADDR.is_bot());
    assert!(!BOT_ADDR.is_host());
    assert!(HOST_ADDR.is_host());
    assert!(!5u64.is_bot());
}
