use p2psync::digest::{hex_digest, is_digest_text, Hasher};

#[test]
fn digest_of_empty_input() {
    assert_eq!(hex_digest(b""), "d41d8cd98f00b204e9800998ecf8427e");
}

#[test]
fn digest_of_known_inputs() {
    assert_eq!(hex_digest(b"a"), "0cc175b9c0f1b6a831c399e269772661");
    assert_eq!(hex_digest(b"abc"), "900150983cd24fb0d6963f7d28e17f72");
    assert_eq!(
        hex_digest(b"abcdefghijklmnopqrstuvwxyz"),
        "c3fcd3d76192e4007dfb496cca67e13b"
    );
    assert_eq!(
        hex_digest(b"The quick brown fox jumps over the lazy dog"),
        "9e107d9d372bb6826bd81d3542a419d6"
    );
}

#[test]
fn digest_is_thirty_two_lowercase_hex_characters() {
    let hex = hex_digest(b"some bytes \xff\x00\x80");
    assert_eq!(hex.len(), 32);
    assert!(hex
        .chars()
        .all(|c| c.is_ascii_digit() || ('a'..='f').contains(&c)));
    assert!(is_digest_text(&hex));
}

#[test]
fn digest_agrees_with_the_hashing_crate() {
    let data = b"Hello, world\n";
    assert_eq!(hex_digest(data), format!("{:x}", md5::compute(data)));
}

#[test]
fn hasher_does_not_care_how_the_stream_is_cut() {
    let mut whole = Hasher::new();
    whole.consume(b"abcdefghijklmnopqrstuvwxyz");
    let mut parts = Hasher::new();
    parts.consume(b"abc");
    parts.consume(b"");
    parts.consume(b"defghijklmnopqrstuvw");
    parts.consume(b"xyz");
    let expected = "c3fcd3d76192e4007dfb496cca67e13b";
    assert_eq!(whole.finish(), expected);
    assert_eq!(parts.finish(), expected);
}

#[test]
fn hasher_of_nothing_is_the_empty_digest() {
    assert_eq!(Hasher::new().finish(), "d41d8cd98f00b204e9800998ecf8427e");
}

#[test]
fn hasher_depends_on_what_it_consumed() {
    let mut first = Hasher::new();
    first.consume(b"one");
    let mut second = Hasher::new();
    second.consume(b"two");
    assert_ne!(first.finish(), second.finish());
}

#[test]
fn digest_text_is_recognised() {
    assert!(is_digest_text("d41d8cd98f00b204e9800998ecf8427e"));
    assert!(is_digest_text("00000000000000000000000000000000"));
    assert!(is_digest_text("ffffffffffffffffffffffffffffffff"));
}

#[test]
fn other_text_is_not_a_digest() {
    assert!(!is_digest_text(""));
    assert!(!is_digest_text("d41d8cd98f00b204e9800998ecf8427"));
    assert!(!is_digest_text("d41d8cd98f00b204e9800998ecf8427e0"));
    assert!(!is_digest_text("D41D8CD98F00B204E9800998ECF8427E"));
    assert!(!is_digest_text("g41d8cd98f00b204e9800998ecf8427e"));
    assert!(!is_digest_text("d41d8cd98f00b204e9800998ecf8427\u{e9}"));
    assert!(!is_digest_text("test_file_md5"));
    assert!(!is_digest_text("/41d8cd98f00b204e9800998ecf8427e"));
    assert!(!is_digest_text(":41d8cd98f00b204e9800998ecf8427e"));
    assert!(!is_digest_text("`41d8cd98f00b204e9800998ecf8427e"));
}
