use memory_system_v2::common::encoding::percent_decode;

#[test]
fn test_percent_decode_ascii() {
    assert_eq!(percent_decode("hello"), "hello");
    assert_eq!(percent_decode("hello+world"), "hello world");
    assert_eq!(percent_decode("hello%20world"), "hello world");
}

#[test]
fn test_percent_decode_chinese() {
    assert_eq!(percent_decode("%E4%B8%AD%E6%96%87"), "中文");
    assert_eq!(percent_decode("query=%E4%B8%AD%E6%96%87"), "query=中文");
}

#[test]
fn test_percent_decode_mixed() {
    assert_eq!(
        percent_decode("key=%E4%B8%AD%E6%96%87&lang=zh"),
        "key=中文&lang=zh"
    );
}

#[test]
fn test_percent_decode_incomplete() {
    assert_eq!(percent_decode("%E4"), "%E4");
    assert_eq!(percent_decode("%E4%B8"), "%E4%B8");
    assert_eq!(percent_decode("%E4%B8%AD%E6"), "%E4%B8%AD%E6");
}

#[test]
fn test_percent_decode_invalid_hex() {
    assert_eq!(percent_decode("%ZZ"), "%ZZ");
    assert_eq!(percent_decode("%GG"), "%GG");
}

#[test]
fn test_percent_decode_empty() {
    assert_eq!(percent_decode(""), "");
    assert_eq!(percent_decode("+++"), "   ");
}

#[test]
fn test_percent_decode_emoji() {
    assert_eq!(percent_decode("%F0%9F%98%84"), "😄");
}

#[test]
fn test_percent_decode_query_string() {
    assert_eq!(
        percent_decode("name=%E5%BC%A0%E4%B8%89&desc=hello+world"),
        "name=张三&desc=hello world"
    );
}

#[test]
fn test_percent_decode_e4_in_middle() {
    assert_eq!(percent_decode("%E4%B8%AD"), "中");
}

#[test]
fn percent_signs_without_two_digits_stay() {
    assert_eq!(percent_decode("100%"), "100%");
    assert_eq!(percent_decode("100%2"), "100%2");
    assert_eq!(percent_decode("%4"), "%4");
    assert_eq!(percent_decode("%%41"), "%A");
}

#[test]
fn a_sign_is_no_digit() {
    assert_eq!(percent_decode("%+1"), "% 1");
    assert_eq!(percent_decode("%+A|"), "% A|");
    assert_eq!(percent_decode("%-A|"), "%-A|");
}

#[test]
fn a_text_escaped_in_full_is_read_back() {
    for text in ["a+b %41", "中文😄", "\n\u{7f}"] {
        let escaped: String = text.bytes().map(|b| format!("%{:02X}", b)).collect();
        assert_eq!(percent_decode(&escaped), text);
        assert!(text.len() <= escaped.len());
    }
}

#[test]
fn text_without_signs_is_its_own_decoding() {
    for text in ["plain text", "中文 and 😄", "a=b&c=d", ""] {
        assert_eq!(percent_decode(text), text);
    }
}
