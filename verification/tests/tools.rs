use bridge_checker::download::{
    find_offset, is_partial_content, order_chunks, parse_length, plan_chunks, range_header,
    retry_delay_millis, should_retry, tail_range, Chunk, MAX_CONNECTIONS, MAX_RETRIES,
    PARTIAL_CONTENT, REQSIZE,
};
use bridge_checker::pt_proxy::{
    bind_address, contains_within, extract_cert_info, find_word_with, forwarding_password,
    is_space_char, refusal_reply, BridgeLineParseError,
};
use bridge_checker::text::to_chars;

const MIB: u64 = 1024 * 1024;

#[test]
fn download_constants() {
    assert_eq!(REQSIZE, 1_048_576);
    assert_eq!(MAX_CONNECTIONS, 6);
    assert_eq!(MAX_RETRIES, 6);
    assert_eq!(PARTIAL_CONTENT, 206);
}

#[test]
fn retry_delay_is_power_of_ten_less_one() {
    let delays: Vec<u64> = (0..6).map(retry_delay_millis).collect();
    assert_eq!(delays, vec![0, 9, 99, 999, 9_999, 99_999]);
    assert_eq!(retry_delay_millis(19), 9_999_999_999_999_999_999);
}

#[test]
fn six_tries_then_give_up() {
    assert!(should_retry(0));
    assert!(should_retry(5));
    assert!(!should_retry(6));
    assert!(!should_retry(usize::MAX));
}

#[test]
fn range_header_names_both_ends() {
    assert_eq!(range_header(0, 1_048_575), "bytes=0-1048575");
    assert_eq!(range_header(1_048_576, 2_097_151), "bytes=1048576-2097151");
    assert_eq!(range_header(7, 7), "bytes=7-7");
    assert_eq!(
        range_header(u64::MAX, 10),
        "bytes=18446744073709551615-10"
    );
}

#[test]
fn only_206_is_partial_content() {
    assert!(is_partial_content(206));
    assert!(!is_partial_content(200));
    assert!(!is_partial_content(416));
}

#[test]
fn plan_covers_full_chunks_round_robin() {
    let plan = plan_chunks(7 * MIB + 5);
    assert_eq!(plan.len(), 7);
    assert_eq!(plan[0], Chunk { start: 0, end: MIB - 1, connection: 0 });
    assert_eq!(plan[1], Chunk { start: MIB, end: 2 * MIB - 1, connection: 1 });
    assert_eq!(plan[5].connection, 5);
    assert_eq!(plan[6], Chunk { start: 6 * MIB, end: 7 * MIB - 1, connection: 0 });
    assert!(plan_chunks(MIB - 1).is_empty());
    assert!(plan_chunks(0).is_empty());
    assert_eq!(plan_chunks(MIB).len(), 1);
}

#[test]
fn tail_is_asked_for_up_to_the_length() {
    assert_eq!(tail_range(7 * MIB + 5), Some((7 * MIB, 7 * MIB + 5)));
    assert_eq!(tail_range(7 * MIB), None);
    assert_eq!(tail_range(0), None);
    assert_eq!(tail_range(3), Some((0, 3)));
}

#[test]
fn chunks_are_ordered_by_offset_or_refused() {
    assert_eq!(order_chunks(&vec![2 * MIB, 0, MIB]), Some(vec![1, 2, 0]));
    assert_eq!(order_chunks(&vec![0]), Some(vec![0]));
    assert_eq!(order_chunks(&Vec::new()), Some(Vec::new()));
    assert_eq!(order_chunks(&vec![0, 2 * MIB]), None);
    assert_eq!(order_chunks(&vec![0, 0]), None);
    assert_eq!(order_chunks(&vec![MIB]), None);
    assert_eq!(order_chunks(&vec![0, MIB + 1]), None);
    assert_eq!(find_offset(&vec![5, 6, 7], 6), Some(1));
    assert_eq!(find_offset(&vec![5, 6, 7], 8), None);
}

#[test]
fn bind_address_joins_with_hyphen() {
    assert_eq!(bind_address("obfs4", "0.0.0.0:4200"), "obfs4-0.0.0.0:4200");
    assert_eq!(bind_address("", ""), "-");
}

const BRIDGE_FILE: &str = "# obfs4 torrc client bridge line\n#\n# This file is an automatically generated bridge line based on\n# the current obfs4proxy configuration.\n#\nBridge obfs4 <IP ADDRESS>:<PORT> <FINGERPRINT> cert=abcDEF/+ iat-mode=0\n";

#[test]
fn cert_info_is_read_from_the_bridge_line() {
    assert_eq!(
        extract_cert_info(BRIDGE_FILE),
        Ok("cert=abcDEF/+;iat-mode=0".to_string())
    );
    assert_eq!(
        extract_cert_info("x\r\n\tBridge obfs4 a iat-mode=2\u{3000}cert=Q cert=R\r\nBridge obfs4 cert=late iat-mode=9"),
        Ok("cert=Q;iat-mode=2".to_string())
    );
    assert_eq!(
        extract_cert_info("Bridge obfs4 cert= iat-mode="),
        Ok("cert=;iat-mode=".to_string())
    );
}

#[test]
fn cert_info_is_missing() {
    assert_eq!(extract_cert_info(""), Err(BridgeLineParseError));
    assert_eq!(extract_cert_info("bridge obfs4 cert=a iat-mode=0"), Err(BridgeLineParseError));
    assert_eq!(extract_cert_info("Bridge obfs4 cert=a"), Err(BridgeLineParseError));
    assert_eq!(extract_cert_info("Bridge obfs4 iat-mode=1"), Err(BridgeLineParseError));
    assert_eq!(
        extract_cert_info("Bridge obfs4 xcert=a iat-mode=1"),
        Err(BridgeLineParseError)
    );
    assert_eq!(
        extract_cert_info("Bridge obfs4 iat-mode=1\ncert=a"),
        Err(BridgeLineParseError)
    );
    assert_eq!(
        BridgeLineParseError.message(),
        "Error while obtaining bridge line data"
    );
}

#[test]
fn words_and_spaces() {
    for c in [' ', '\t', '\n', '\r', '\u{b}', '\u{c}', '\u{85}', '\u{a0}', '\u{2003}', '\u{3000}'] {
        assert!(is_space_char(c));
        assert!(c.is_whitespace());
    }
    for c in ['a', '=', '\u{200b}', '\u{1c}', '0'] {
        assert!(!is_space_char(c));
    }
    for u in 0..0x3100u32 {
        if let Some(c) = char::from_u32(u) {
            assert_eq!(is_space_char(c), c.is_whitespace());
        }
    }
    let text = to_chars("  ab cert=x  cert=y");
    assert_eq!(find_word_with(&text, 0, text.len(), &to_chars("cert=")), Some((5, 11)));
    assert_eq!(find_word_with(&text, 6, text.len(), &to_chars("cert=")), Some((13, 19)));
    assert_eq!(find_word_with(&text, 0, 9, &to_chars("cert=")), None);
    assert_eq!(find_word_with(&text, 0, text.len(), &to_chars("nope")), None);
    assert!(contains_within(&text, 0, text.len(), &to_chars("ab c")));
    assert!(!contains_within(&text, 3, text.len(), &to_chars("ab c")));
    assert!(contains_within(&text, 0, 0, &to_chars("")));
}

#[test]
fn empty_password_becomes_nul() {
    assert_eq!(forwarding_password(&[]), Some("\0".to_string()));
    assert_eq!(forwarding_password(b"secret"), Some("secret".to_string()));
    assert_eq!(forwarding_password("pässwörd".as_bytes()), Some("pässwörd".to_string()));
    assert_eq!(forwarding_password(&[0xff, 0x00]), None);
}

#[test]
fn refusal_reply_says_connection_refused() {
    assert_eq!(refusal_reply(), [5, 5, 0, 1, 0, 0, 0, 0, 0, 0]);
}

#[test]
fn length_is_read_as_a_decimal_number() {
    assert_eq!(parse_length("0"), Some(0));
    assert_eq!(parse_length("104857600"), Some(104_857_600));
    assert_eq!(parse_length("+42"), Some(42));
    assert_eq!(parse_length("007"), Some(7));
    assert_eq!(parse_length("18446744073709551615"), Some(u64::MAX));
    assert_eq!(parse_length("18446744073709551616"), None);
    assert_eq!(parse_length("99999999999999999999999"), None);
    for bad in ["", "+", "-1", " 1", "1 ", "1_000", "12a", "++1", "0x10", "１２"] {
        assert_eq!(parse_length(bad), None, "{:?}", bad);
    }
    for text in ["0", "+0", "12345", "18446744073709551615", "18446744073709551616", "", "+", "a", "+-1"] {
        assert_eq!(parse_length(text), text.parse::<u64>().ok(), "{:?}", text);
    }
}
