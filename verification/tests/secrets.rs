use scrtsync::secrets::Secrets;
use scrtsync::errors::DecodeError;
use std::collections::BTreeMap;

fn pairs(entries: &[(&str, &str)]) -> Vec<(String, String)> {
    entries.iter().map(|(k, v)| (k.to_string(), v.to_string())).collect()
}

#[test]
fn from_btreemap_borrow() {
    let mut map = BTreeMap::new();
    map.insert("foo".to_string(), "bar".to_string());
    map.insert("baz".to_string(), "qux".to_string());
    let secrets = Secrets::from(&map);

    assert_eq!(secrets.content, pairs(&[("baz", "qux"), ("foo", "bar")]));
}

#[test]
fn from_btreemap_own() {
    let mut map = BTreeMap::new();
    map.insert("foo".to_string(), "bar".to_string());
    map.insert("baz".to_string(), "qux".to_string());
    let secrets = Secrets::from(map.clone());

    assert_eq!(secrets.content, pairs(&[("baz", "qux"), ("foo", "bar")]));
}

#[test]
fn from_reader() {
    let expected = pairs(&[("baz", "qu#x"), ("foo", "bar")]);

    let input = "
            # single line comment
            baz=\"qu#x\" # inline comment
            foo=\"bar\"\n
        ";

    let result = Secrets::from_reader(input.as_bytes()).unwrap();

    assert_eq!(expected, result.content);
}

#[test]
fn to_writer() {
    let mut map = BTreeMap::new();
    map.insert("foo".to_string(), "bar".to_string());
    map.insert("baz".to_string(), "qux".to_string());
    let secrets = Secrets::from(map);

    let mut buf: Vec<u8> = vec![];
    secrets.to_writer(&mut buf).unwrap();
    let secret_string = String::from_utf8(buf).unwrap();

    // Note: Keys are sorted alphabetically
    let expected = "baz=\"qux\"\nfoo=\"bar\"\n";

    assert_eq!(secret_string, expected);
}

#[test]
fn handle_comments_and_white_space() {
    let expected = pairs(&[("baz", "qux"), ("foo", "bar")]);

    let input = r#"
            # This is a comment
            baz="qux"

            foo="bar" # This is another comment
            "#;

    let result = Secrets::from_reader(input.as_bytes()).unwrap();

    assert_eq!(expected, result.content);
}

#[test]
fn try_from_btreemap_bytestring_valid() {
    let map = vec![
        ("foo".to_string(), "bar".as_bytes().to_vec()),
        ("baz".to_string(), "qux".as_bytes().to_vec()),
    ];

    let secrets = Secrets::try_from_bytes(map).unwrap();

    assert_eq!(secrets.content, pairs(&[("baz", "qux"), ("foo", "bar")]));
}

#[test]
fn try_from_btreemap_bytestring_invalid_utf8() {
    let map = vec![
        ("foo".to_string(), "bar".as_bytes().to_vec()),
        // Invalid UTF-8 sequence
        ("invalid".to_string(), vec![0xff, 0xfe, 0xfd]),
    ];

    let result = Secrets::try_from_bytes(map);
    assert!(result.is_err());

    let error_message = result.err().unwrap().message();
    assert!(error_message.contains("Unable to decode UTF-8 value for key 'invalid'"));
}

#[test]
fn comment_and_whitespace_tolerance() {
    let result = Secrets::from_reader("# c\nbaz=\"qux\"\n\nfoo=\"bar\" # inline\n".as_bytes())
        .unwrap();
    assert_eq!(result.content, pairs(&[("baz", "qux"), ("foo", "bar")]));
}

#[test]
fn duplicate_key_last_wins() {
    let result = Secrets::from_reader("k=\"a\"\nk=\"b\"\n".as_bytes()).unwrap();
    assert_eq!(result.content, pairs(&[("k", "b")]));
}

#[test]
fn unterminated_value_fails_decode() {
    let result = Secrets::from_reader("k=\"unterminated\n".as_bytes());
    assert_eq!(result.err(), Some(DecodeError::InvalidValue));
}

#[test]
fn missing_separator_fails_decode() {
    let result = Secrets::from_reader("just some words\n".as_bytes());
    assert_eq!(result.err(), Some(DecodeError::MissingSeparator));
}

#[test]
fn empty_key_fails_decode() {
    let result = Secrets::from_reader("=\"value\"\n".as_bytes());
    assert_eq!(result.err(), Some(DecodeError::EmptyKey));
}

#[test]
fn invalid_escape_fails_decode() {
    let result = Secrets::from_reader("k=\"bad \\x escape\"\n".as_bytes());
    assert_eq!(result.err(), Some(DecodeError::InvalidValue));
}

#[test]
fn invalid_utf8_fails_decode() {
    let result = Secrets::from_reader(b"k=\"a\xff\"\n".as_slice());
    assert_eq!(result.err(), Some(DecodeError::InvalidUtf8));
}

#[test]
fn decode_error_messages() {
    assert_eq!(DecodeError::MissingSeparator.message(), "line has no '=' separator");
    assert_eq!(DecodeError::EmptyKey.message(), "line has an empty key");
    assert_eq!(DecodeError::InvalidValue.message(), "value is not a well-formed escaped string");
    assert_eq!(DecodeError::InvalidUtf8.message(), "key or value is not valid UTF-8");
}

#[test]
fn escaping_is_exact() {
    let mut secrets = Secrets::new();
    secrets.insert("k".to_string(), "a\"b\\c\nd\te\u{1}f".to_string());
    let mut buf: Vec<u8> = vec![];
    secrets.to_writer(&mut buf).unwrap();
    assert_eq!(String::from_utf8(buf).unwrap(), "k=\"a\\\"b\\\\c\\nd\\te\\u0001f\"\n");
}

#[test]
fn unicode_escapes_decode() {
    // \u0041 is 'A'; a surrogate pair spells out a scalar beyond the
    // basic plane; bare tokens are read as if quoted.
    let input = "a=\"\\u0041\"\nb=\"\\ud834\\udd1e\"\nc=bare\n";
    let result = Secrets::from_reader(input.as_bytes()).unwrap();
    assert_eq!(
        result.content,
        pairs(&[("a", "A"), ("b", "\u{1d11e}"), ("c", "bare")])
    );
}

#[test]
fn lone_surrogate_fails_decode() {
    let result = Secrets::from_reader("k=\"\\ud834\"\n".as_bytes());
    assert_eq!(result.err(), Some(DecodeError::InvalidValue));
}

#[test]
fn round_trip_reproduces_collection() {
    let mut secrets = Secrets::new();
    secrets.insert("plain".to_string(), "value".to_string());
    secrets.insert("quoted".to_string(), "he said \"hi\"".to_string());
    secrets.insert("multiline".to_string(), "a\nb\r\nc".to_string());
    secrets.insert("unicode".to_string(), "snow\u{2603}man \u{1f600}".to_string());
    secrets.insert("control".to_string(), "\u{1}\u{2}\u{7f}".to_string());
    secrets.insert("empty".to_string(), "".to_string());

    let mut buf: Vec<u8> = vec![];
    secrets.to_writer(&mut buf).unwrap();
    let decoded = Secrets::from_reader(&buf).unwrap();

    assert_eq!(decoded.content, secrets.content);
}

#[test]
fn encode_is_deterministic_in_the_mapping() {
    let one = Secrets::from_pairs(&pairs(&[("a", "1"), ("b", "2"), ("c", "3")]));
    let other = Secrets::from_pairs(&pairs(&[("c", "3"), ("a", "1"), ("b", "2")]));

    let mut buf_one: Vec<u8> = vec![];
    one.to_writer(&mut buf_one).unwrap();
    let mut buf_other: Vec<u8> = vec![];
    other.to_writer(&mut buf_other).unwrap();

    assert_eq!(buf_one, buf_other);
    assert_eq!(String::from_utf8(buf_one).unwrap(), "a=\"1\"\nb=\"2\"\nc=\"3\"\n");
}

#[test]
fn insert_overwrites_and_sorts() {
    let mut secrets = Secrets::new();
    secrets.insert("b".to_string(), "1".to_string());
    secrets.insert("a".to_string(), "2".to_string());
    secrets.insert("b".to_string(), "3".to_string());
    assert_eq!(secrets.content, pairs(&[("a", "2"), ("b", "3")]));
}

#[test]
fn empty_input_decodes_to_empty_collection() {
    let result = Secrets::from_reader(b"".as_slice()).unwrap();
    assert!(result.content.is_empty());
}
