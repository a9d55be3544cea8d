use bittorrent_peer::bencode::{decode_bencoded_value, BValue};

fn integer(v: &BValue) -> i64 {
    match v {
        BValue::Integer(n) => *n,
        other => panic!("not an integer: {:?}", other),
    }
}

fn bytes(v: &BValue) -> &[u8] {
    match v {
        BValue::Bytes(b) => b,
        other => panic!("not a byte string: {:?}", other),
    }
}

#[test]
fn decodes_string() {
    let (v, n) = decode_bencoded_value(b"5:hello").unwrap();
    assert_eq!(bytes(&v), b"hello");
    assert_eq!(n, 7);
    let (v, n) = decode_bencoded_value(b"0:rest").unwrap();
    assert_eq!(bytes(&v), b"");
    assert_eq!(n, 2);
}

#[test]
fn decodes_integers() {
    assert_eq!(integer(&decode_bencoded_value(b"i52e").unwrap().0), 52);
    assert_eq!(integer(&decode_bencoded_value(b"i-52e").unwrap().0), -52);
    assert_eq!(integer(&decode_bencoded_value(b"i0e").unwrap().0), 0);
    assert_eq!(
        integer(&decode_bencoded_value(b"i9223372036854775807e").unwrap().0),
        i64::MAX
    );
    assert_eq!(
        integer(&decode_bencoded_value(b"i-9223372036854775808e").unwrap().0),
        i64::MIN
    );
    let (v, n) = decode_bencoded_value(b"i4294967300eXYZ").unwrap();
    assert_eq!(integer(&v), 4294967300);
    assert_eq!(n, 12);
}

#[test]
fn refuses_bad_integers() {
    assert!(decode_bencoded_value(b"i52").is_none());
    assert!(decode_bencoded_value(b"ie").is_none());
    assert!(decode_bencoded_value(b"i-e").is_none());
    assert!(decode_bencoded_value(b"i1x2e").is_none());
    assert!(decode_bencoded_value(b"i9223372036854775808e").is_none());
    assert!(decode_bencoded_value(b"i99999999999999999999999e").is_none());
}

#[test]
fn decodes_list() {
    let (v, n) = decode_bencoded_value(b"l5:helloi52ee").unwrap();
    assert_eq!(n, 13);
    match v {
        BValue::List(items) => {
            assert_eq!(items.len(), 2);
            assert_eq!(bytes(&items[0]), b"hello");
            assert_eq!(integer(&items[1]), 52);
        }
        other => panic!("not a list: {:?}", other),
    }
}

#[test]
fn decodes_nested_and_empty_lists() {
    let (v, n) = decode_bencoded_value(b"lli1eelee").unwrap();
    assert_eq!(n, 9);
    match v {
        BValue::List(items) => {
            assert_eq!(items.len(), 2);
            match &items[0] {
                BValue::List(inner) => assert_eq!(integer(&inner[0]), 1),
                other => panic!("not a list: {:?}", other),
            }
            match &items[1] {
                BValue::List(inner) => assert!(inner.is_empty()),
                other => panic!("not a list: {:?}", other),
            }
        }
        other => panic!("not a list: {:?}", other),
    }
}

#[test]
fn decodes_dictionary() {
    let (v, n) = decode_bencoded_value(b"d3:foo3:bar5:helloi52ee").unwrap();
    assert_eq!(n, 23);
    match v {
        BValue::Dict(entries) => {
            assert_eq!(entries.len(), 2);
            assert_eq!(entries[0].0, b"foo".to_vec());
            assert_eq!(bytes(&entries[0].1), b"bar");
            assert_eq!(entries[1].0, b"hello".to_vec());
            assert_eq!(integer(&entries[1].1), 52);
        }
        other => panic!("not a dictionary: {:?}", other),
    }
}

#[test]
fn refuses_malformed_values() {
    assert!(decode_bencoded_value(b"").is_none());
    assert!(decode_bencoded_value(b"x").is_none());
    assert!(decode_bencoded_value(b"5:hel").is_none());
    assert!(decode_bencoded_value(b"5hello").is_none());
    assert!(decode_bencoded_value(b"l5:hello").is_none());
    assert!(decode_bencoded_value(b"di1e3:fooe").is_none());
    assert!(decode_bencoded_value(b"d3:fooe").is_none());
}
