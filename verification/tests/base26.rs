use furcons_bsky_labeler::base26::{decode, encode};

#[test]
fn test_base26_encode_small() {
    assert_eq!(encode(0), "");
    assert_eq!(encode(1), "a");
    assert_eq!(encode(2), "b");
    assert_eq!(encode(26), "z");
    assert_eq!(encode(27), "aa");
    assert_eq!(encode(28), "ab");
    assert_eq!(encode(702), "zz");
    assert_eq!(encode(703), "aaa");
}

#[test]
fn test_base26_decode_simple() {
    assert_eq!(decode(""), Some(0));
    assert_eq!(decode("a"), Some(1));
    assert_eq!(decode("z"), Some(26));
    assert_eq!(decode("aa"), Some(27));
}

#[test]
fn test_base26_decode_invalid() {
    assert_eq!(decode("A"), None);
    assert_eq!(decode("1"), None);
    assert_eq!(decode("a b"), None);
}

#[test]
fn test_base26_round_trip() {
    for n in [0u64, 1, 25, 26, 27, 51, 52, 701, 702, 703, 12345, 999999, 123456789] {
        assert_eq!(decode(&encode(n)), Some(n));
    }
}
