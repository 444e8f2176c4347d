use rust_mule::kad::keyword::{keyword_hash, query_to_keyword_id, words, KeywordError};
use rust_mule::kad::md4::digest;

#[test]
fn splits_words_like_imule() {
    assert_eq!(words("Hello, world!"), vec!["hello".to_string(), "world".to_string()]);
    assert_eq!(words("ab cd"), Vec::<String>::new());
    assert_eq!(words("猫"), vec!["猫".to_string()]);
    assert_eq!(words("Test test TEST"), vec!["test".to_string()]);
}

#[test]
fn words_split_on_every_separator() {
    assert_eq!(
        words("one(two)three[four]{five}<six>seven.eight_nine-ten!abc?def:ghi;jkl\\mno/pqr\"stu"),
        vec![
            "one", "two", "three", "four", "five", "six", "seven", "eight", "nine", "ten", "abc",
            "def", "ghi", "jkl", "mno", "pqr", "stu"
        ]
        .into_iter()
        .map(String::from)
        .collect::<Vec<_>>()
    );
    assert_eq!(words("tab\tnew\nline"), vec!["tab".to_string(), "new".to_string(), "line".to_string()]);
    assert_eq!(words(""), Vec::<String>::new());
    assert_eq!(words("ÄÖ"), vec!["äö".to_string()]);
}

#[test]
fn keyword_hash_is_md4_of_utf8() {
    let id = keyword_hash("hello");
    assert_eq!(id.0, digest(b"hello"));
}

#[test]
fn query_to_keyword_id_takes_first_word() {
    let (w, id) = query_to_keyword_id("  The Matrix 1999").unwrap();
    assert_eq!(w, "the");
    assert_eq!(id.0, digest(b"the"));
    assert_eq!(query_to_keyword_id("a b").unwrap_err(), KeywordError::NoKeyword);
    assert_eq!(KeywordError::NoKeyword.to_string(), "query yielded no valid keyword words");
}

#[test]
fn keyword_hash_lowercases_before_hashing() {
    let upper = keyword_hash("ABC");
    let lower = keyword_hash("abc");
    assert_eq!(upper.0, lower.0);
    let hex: String = lower.0.iter().map(|b| format!("{:02x}", b)).collect();
    assert_eq!(hex, "a448017aaf21d8525fc10ae87aa6729d");
}

#[test]
fn words_lowercase_ascii_and_other_scripts() {
    assert_eq!(words("Hello, World!"), vec!["hello".to_string(), "world".to_string()]);
    assert_eq!(words("Straße ÜBER"), vec!["straße".to_string(), "über".to_string()]);
}
