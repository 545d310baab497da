use register_excel_parser::output::{access_exec, ensure_hex, parse_or_exec};

#[test]
fn ensure_hex_handles_hex_decimal_and_fallback() {
    assert_eq!(ensure_hex("0x10".to_string()), "0x10");
    assert_eq!(ensure_hex("0X10".to_string()), "0X10");
    assert_eq!(ensure_hex(" 255 ".to_string()), "0xFF");
    assert_eq!(ensure_hex("not-a-number".to_string()), "not-a-number");
}

#[test]
fn ensure_hex_is_idempotent_on_examples() {
    for s in ["0x10", " 255 ", "not-a-number", "", "  ", "007", "+42"] {
        let once = ensure_hex(s.to_string());
        let twice = ensure_hex(once.clone());
        assert_eq!(once, twice);
    }
}

#[test]
fn ensure_hex_renders_decimal_as_uppercase_hex() {
    assert_eq!(ensure_hex("0".to_string()), "0x0");
    assert_eq!(ensure_hex("4096".to_string()), "0x1000");
    assert_eq!(ensure_hex("48879".to_string()), "0xBEEF");
}

#[test]
fn access_mapping_covers_the_named_pairs_and_the_fallback() {
    assert_eq!(access_exec("RW"), "read-write");
    assert_eq!(access_exec("read-write"), "read-write");
    assert_eq!(access_exec("ro"), "read-only");
    assert_eq!(access_exec("READ-ONLY"), "read-only");
    assert_eq!(access_exec("wo"), "write-only");
    assert_eq!(access_exec("Write-Only"), "write-only");
    assert_eq!(access_exec("W1C"), "read-write");
    assert_eq!(access_exec("write-1-to-clear"), "read-write");
    assert_eq!(access_exec("whatever"), "read-write");
}

#[test]
fn parse_or_falls_back_on_unreadable_text() {
    assert_eq!(parse_or_exec("17", 32), 17);
    assert_eq!(parse_or_exec("+5", 0), 5);
    assert_eq!(parse_or_exec("x", 32), 32);
    assert_eq!(parse_or_exec("++1", 32), 32);
    assert_eq!(parse_or_exec("", 1), 1);
}

#[test]
fn trimming_removes_all_unicode_blank_space() {
    assert_eq!(ensure_hex("\u{00A0}7\u{00A0}".to_string()), "0x7");
    assert_eq!(ensure_hex("\u{2003}255\u{3000}".to_string()), "0xFF");
}
