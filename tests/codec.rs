use nft_state::codec::{index_entry_key, index_prefix, namespaced_key};

#[test]
fn namespaced_key_is_length_prefixed() {
    assert_eq!(
        namespaced_key(b"tokens", b"t1"),
        vec![0, 6, b't', b'o', b'k', b'e', b'n', b's', b't', b'1']
    );
    assert_eq!(namespaced_key(b"", b"k"), vec![0, 0, b'k']);
}

#[test]
fn long_namespace_uses_both_length_bytes() {
    let ns = vec![7u8; 300];
    let key = namespaced_key(&ns, b"x");
    assert_eq!(&key[..2], &[1, 44]);
    assert_eq!(key.len(), 303);
    assert_eq!(key[302], b'x');
}

#[test]
fn namespaces_do_not_collide() {
    assert_ne!(namespaced_key(b"ab", b"c"), namespaced_key(b"a", b"bc"));
}

#[test]
fn index_prefix_separates_nested_secondary_keys() {
    let entry = index_entry_key(b"t", b"owner", b"al", b"ice");
    let p_al = index_prefix(b"t", b"owner", b"al");
    let p_alice = index_prefix(b"t", b"owner", b"alice");
    assert!(entry.starts_with(&p_al));
    assert!(!entry.starts_with(&p_alice));
    assert_eq!(
        entry,
        vec![0, 1, b't', 0, 5, b'o', b'w', b'n', b'e', b'r', 0, 2, b'a', b'l', b'i', b'c', b'e']
    );
}
