use narad::credentials::{chars_of, check_credentials, letters_of, split_credentials};
use narad::lossy::decode_lossy;

fn rfc1929(user: &str, pass: &str) -> Vec<u8> {
    let mut m = vec![1u8, user.len() as u8];
    m.extend_from_slice(user.as_bytes());
    m.push(pass.len() as u8);
    m.extend_from_slice(pass.as_bytes());
    m.resize(512, 0);
    m
}

#[test]
fn matching_credentials_are_accepted() {
    assert!(check_credentials(&rfc1929("alice", "secret"), "alice", "secret"));
}

#[test]
fn wrong_password_is_rejected() {
    assert!(!check_credentials(&rfc1929("alice", "wrong"), "alice", "secret"));
}

#[test]
fn only_the_concatenation_is_compared() {
    assert!(check_credentials(&rfc1929("ali", "cesecret"), "alice", "secret"));
}

#[test]
fn digits_in_the_password_never_match() {
    assert!(!check_credentials(&rfc1929("bob", "pass123"), "bob", "pass123"));
}

#[test]
fn a_length_byte_that_is_a_letter_counts() {
    // 65 is the length of the username and the code of 'A'.
    let user = "a".repeat(65);
    assert!(!check_credentials(&rfc1929(&user, "pw"), &user, "pw"));
    let with_a = format!("A{}", user);
    assert!(check_credentials(&rfc1929(&user, "pw"), &with_a, "pw"));
}

#[test]
fn non_ascii_letters_are_kept() {
    assert!(check_credentials(&rfc1929("jürgen", "größe"), "jürgen", "größe"));
}

#[test]
fn letters_skip_invalid_bytes_and_symbols() {
    let data = b"\x01ab\xffc-1\xe4\xb8\xad d";
    assert_eq!(letters_of(data), vec!['a', 'b', 'c', '中', 'd']);
}

#[test]
fn lossy_decoding_replaces_each_bad_byte() {
    assert_eq!(decode_lossy(b"a\xffb"), vec!['a', '\u{FFFD}', 'b']);
    assert_eq!(decode_lossy("é€😀".as_bytes()), vec!['é', '€', '😀']);
    assert_eq!(decode_lossy(b"\xed\xa0\x80"), vec!['\u{FFFD}', '\u{FFFD}', '\u{FFFD}']);
    assert_eq!(decode_lossy(b"\xc0\x80"), vec!['\u{FFFD}', '\u{FFFD}']);
}

#[test]
fn lossy_decoding_replaces_each_maximal_bad_part_once() {
    assert_eq!(decode_lossy(b"\xf0\x9f\x98"), vec!['\u{FFFD}']);
    assert_eq!(decode_lossy(b"a\xe2\x82"), vec!['a', '\u{FFFD}']);
    assert_eq!(decode_lossy(b"\xe2\x82A"), vec!['\u{FFFD}', 'A']);
    assert_eq!(decode_lossy(b"\xf4\x90\x80\x80"), vec!['\u{FFFD}'; 4]);
    assert_eq!(decode_lossy(b"\xf0\x9f\x98\x80\xf0\x9f"), vec!['😀', '\u{FFFD}']);
    let samples: Vec<&[u8]> = vec![b"\xff\xfe", b"\xe0\x80\x80", b"\xc2", b"ok\xc3\xa9\xe9", b"\xf1\x80\x80"];
    for b in samples {
        let expected: Vec<char> = String::from_utf8_lossy(b).chars().collect();
        assert_eq!(decode_lossy(b), expected);
    }
}

#[test]
fn chars_of_a_string() {
    assert_eq!(chars_of("añb"), vec!['a', 'ñ', 'b']);
}

#[test]
fn credentials_argument_is_split_at_colons() {
    assert_eq!(split_credentials("user:pass"), ("user".to_string(), "pass".to_string()));
    assert_eq!(split_credentials("user:pass:extra"), ("user".to_string(), "pass".to_string()));
    assert_eq!(split_credentials(":"), (String::new(), String::new()));
    assert_eq!(split_credentials("ünï:cödé"), ("ünï".to_string(), "cödé".to_string()));
}
