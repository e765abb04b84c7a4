use protohackers::bytes::part;
use protohackers::kv::{is_version_key, read_command, Command, Store};

#[test]
fn a_datagram_with_an_equals_sign_sets_a_key() {
    assert_eq!(
        Some(Command::Put { key: b"foo".to_vec(), value: b"=bar".to_vec() }),
        read_command(b"foo=bar")
    );
    assert_eq!(
        Some(Command::Put { key: b"foo".to_vec(), value: b"=bar=baz".to_vec() }),
        read_command(b"foo=bar=baz")
    );
    assert_eq!(
        Some(Command::Put { key: b"foo".to_vec(), value: b"=".to_vec() }),
        read_command(b"foo=")
    );
    assert_eq!(
        Some(Command::Put { key: b"".to_vec(), value: b"=x".to_vec() }),
        read_command(b"=x")
    );
}

#[test]
fn a_datagram_without_an_equals_sign_asks_for_a_key() {
    assert_eq!(Some(Command::Get { key: b"foo".to_vec() }), read_command(b"foo"));
    assert_eq!(Some(Command::Get { key: b"".to_vec() }), read_command(b""));
}

#[test]
fn a_datagram_of_a_thousand_bytes_asks_for_nothing() {
    assert_eq!(None, read_command(&[0x61u8; 1000]));
    assert_eq!(None, read_command(&[0x3du8; 1200]));
    assert_eq!(Some(Command::Get { key: vec![0x61u8; 999] }), read_command(&[0x61u8; 999]));
}

#[test]
fn the_store_answers_with_what_was_set() {
    let mut store = Store::new();
    assert_eq!(None, store.apply(Command::Get { key: b"foo".to_vec() }));
    assert_eq!(None, store.apply(read_command(b"foo=bar").unwrap()));
    assert_eq!(Some(b"=bar".to_vec()), store.apply(Command::Get { key: b"foo".to_vec() }));
    assert_eq!(None, store.apply(read_command(b"foo=baz").unwrap()));
    assert_eq!(Some(b"=baz".to_vec()), store.apply(Command::Get { key: b"foo".to_vec() }));
    assert_eq!(None, store.apply(Command::Get { key: b"fo".to_vec() }));
}

#[test]
fn the_version_cannot_be_set() {
    let mut store = Store::new();
    assert_eq!(Some(b"0".to_vec()), store.apply(Command::Get { key: b"version".to_vec() }));
    assert_eq!(None, store.apply(read_command(b"version=1").unwrap()));
    assert_eq!(Some(b"0".to_vec()), store.apply(Command::Get { key: b"version".to_vec() }));
    assert!(is_version_key(&b"version".to_vec()));
    assert!(!is_version_key(&b"versions".to_vec()));
    assert!(!is_version_key(&b"versioN".to_vec()));
    assert!(!is_version_key(&b"".to_vec()));
}

#[test]
fn a_part_of_bytes() {
    assert_eq!(b"cd".to_vec(), part(b"abcdef", 2, 4));
    assert_eq!(Vec::<u8>::new(), part(b"abcdef", 3, 3));
    assert_eq!(b"abcdef".to_vec(), part(b"abcdef", 0, 6));
}
