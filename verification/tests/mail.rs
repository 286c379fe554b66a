use beckon::mail::{like_pattern, quote_ident};

#[test]
fn like_pattern_escapes_wildcards() {
    assert_eq!(like_pattern("a%b_c"), "%a\\%b\\_c%");
    assert_eq!(like_pattern("plain"), "%plain%");
}

#[test]
fn quote_ident_escapes_quotes() {
    assert_eq!(quote_ident("INBOX"), "\"INBOX\"");
    assert_eq!(quote_ident("[Gmail]/Sent Mail"), "\"[Gmail]/Sent Mail\"");
    assert_eq!(quote_ident("we\"ird"), "\"we\"\"ird\"");
}
