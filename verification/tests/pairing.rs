use notizli::pairing::{device_label, is_pairing_token, percent_decode, token_from_link, token_from_paste};

const T: &str = "ccp_pair_AbCdEf0123456789-_xyz";

#[test]
fn accepts_real_links() {
    assert_eq!(token_from_link(&format!("notizli-sh://pair?token={T}")).as_deref(), Some(T));
    assert_eq!(token_from_link(&format!("notizli-sh://pair/?token={T}&x=1")).as_deref(), Some(T));
    assert_eq!(token_from_link(&format!("NOTIZLI-SH:pair?token={}", T.replace('_', "%5F"))).as_deref(), Some(T));
}

#[test]
fn rejects_anything_else() {
    for bad in [
        format!("https://notizli.ch/pair?token={T}"),
        format!("notizli-sh://unpair?token={T}"),
        "notizli-sh://pair?token=ccp_abc".to_string(),
        "notizli-sh://pair?token=ccp_pair_<script>".to_string(),
        "notizli-sh://pair".to_string(),
        format!("notizli-sh://pair?tok={T}"),
    ] {
        assert_eq!(token_from_link(&bad), None, "{bad}");
    }
}

#[test]
fn paste_takes_a_token_or_a_link() {
    assert_eq!(token_from_paste(&format!("  {T}\n")).as_deref(), Some(T));
    assert_eq!(token_from_paste(&format!("notizli-sh://pair?token={T}")).as_deref(), Some(T));
    assert_eq!(token_from_paste("hello"), None);
}

#[test]
fn tokens_have_eight_to_512_characters() {
    assert!(!is_pairing_token("ccp_pair_1234567"));
    assert!(is_pairing_token("ccp_pair_12345678"));
    assert!(is_pairing_token(&format!("ccp_pair_{}", "a".repeat(512))));
    assert!(!is_pairing_token(&format!("ccp_pair_{}", "a".repeat(513))));
    assert!(!is_pairing_token("ccp_pair_1234567é"));
    assert!(!is_pairing_token("CCP_pair_12345678"));
    assert!(is_pairing_token("ccp_pair_abcDEF-_=09"));
}

#[test]
fn the_first_token_of_a_query_counts() {
    assert_eq!(token_from_link(&format!("notizli-sh:pair?a=1&token={T}&token=ccp_pair_other999")).as_deref(), Some(T));
    assert_eq!(token_from_link(&format!("notizli-sh:///pair//?token={T}")).as_deref(), Some(T));
    assert_eq!(token_from_link(&format!("notizli-sh:PAIR?token={T}")).as_deref(), Some(T));
}

#[test]
fn escapes_are_replaced() {
    assert_eq!(percent_decode("a%20b+c").as_deref(), Some("a b c"));
    assert_eq!(percent_decode("%C3%a9").as_deref(), Some("é"));
    assert_eq!(percent_decode("%+5").as_deref(), Some("\u{5}"));
    assert_eq!(percent_decode("%4"), None);
    assert_eq!(percent_decode("%4g"), None);
    assert_eq!(percent_decode("%-1"), None);
    assert_eq!(percent_decode("%C3"), None);
}

#[test]
fn the_label_names_the_system() {
    assert_eq!(device_label("windows"), "Desktop (Windows)");
    assert_eq!(device_label("macos"), "Desktop (macOS)");
    assert_eq!(device_label("linux"), "Desktop (linux)");
}
