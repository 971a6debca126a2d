use backup_scan_tool::transformer::{char_len, decode_null, URL_SENTINELS};

#[test]
fn null_sentinel_decodes_to_none() {
    assert_eq!(decode_null("$@NULL@$"), None);
    assert_eq!(decode_null(""), Some(""));
    assert_eq!(decode_null("hello"), Some("hello"));
}

#[test]
fn char_len_is_unicode_aware() {
    assert_eq!(char_len("hello"), 5);
    assert_eq!(char_len("héllo"), 5);
    assert_eq!(char_len("中文"), 2);
}

#[test]
fn url_sentinels_are_recognised_as_literal() {
    for s in URL_SENTINELS {
        assert!(char_len(s) > 0);
    }
}

#[test]
fn null_sentinel_is_exact_match_only() {
    assert_eq!(decode_null(" $@NULL@$"), Some(" $@NULL@$"));
    assert_eq!(decode_null("$@null@$"), Some("$@null@$"));
    assert_eq!(char_len("$@NULL@$"), 8);
}
