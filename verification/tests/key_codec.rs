use pagecore::keys::{lex_cmp, prefix_decode, prefix_encode, KeyOrd};

#[test]
fn encode_elides_shared_prefix() {
    assert_eq!(prefix_encode(b"hello", b"help"), vec![3, b'p']);
    assert_eq!(prefix_encode(b"", b"abc"), vec![0, b'a', b'b', b'c']);
    assert_eq!(prefix_encode(b"abc", b"abc"), vec![3]);
    assert_eq!(prefix_encode(b"xyz", b"abc"), vec![0, b'a', b'b', b'c']);
}

#[test]
fn decode_restores_the_prefix() {
    assert_eq!(prefix_decode(b"hello", &[3, b'p']), b"help".to_vec());
    assert_eq!(prefix_decode(b"abc", &[3]), b"abc".to_vec());
}

#[test]
fn encode_decode_round_trip() {
    let cases: &[(&[u8], &[u8])] = &[
        (b"", b""),
        (b"", b"key"),
        (b"prefix", b"prefix-and-more"),
        (b"same", b"same"),
        (b"aaa", b"aab"),
    ];
    for (prefix, key) in cases {
        let encoded = prefix_encode(prefix, key);
        assert_eq!(prefix_decode(prefix, &encoded), key.to_vec());
    }
}

#[test]
fn encode_caps_shared_prefix_at_255() {
    let prefix = vec![7u8; 300];
    let key = vec![7u8; 300];
    let encoded = prefix_encode(&prefix, &key);
    assert_eq!(encoded[0], 255);
    assert_eq!(encoded.len(), 1 + 300 - 255);
    assert_eq!(prefix_decode(&prefix, &encoded), key);
}

#[test]
fn lex_cmp_orders_bytewise_then_by_length() {
    assert_eq!(lex_cmp(b"abc", b"abd"), KeyOrd::Lt);
    assert_eq!(lex_cmp(b"abd", b"abc"), KeyOrd::Gt);
    assert_eq!(lex_cmp(b"abc", b"abc"), KeyOrd::Eq);
    assert_eq!(lex_cmp(b"ab", b"abc"), KeyOrd::Lt);
    assert_eq!(lex_cmp(b"abc", b"ab"), KeyOrd::Gt);
    assert_eq!(lex_cmp(b"", b""), KeyOrd::Eq);
    assert_eq!(lex_cmp(b"", b"a"), KeyOrd::Lt);
}
