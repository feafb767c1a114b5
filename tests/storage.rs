use nft_state::counter::{increment_tokens, num_tokens, TokenCount};
use nft_state::indexed_map::{resolve_scan, StorageError, StoreOp, Store};
use nft_state::records::{
    tokens, transactions, Approval, Expiration, TokenIndexes, TokenInfo, TransactionIndexes,
    TransactionInfo,
};

fn token(owner: &str, name: &str, level: u64) -> TokenInfo {
    TokenInfo {
        owner: owner.as_bytes().to_vec(),
        approvals: vec![],
        name: name.to_string(),
        level,
        description: String::new(),
        image: None,
    }
}

fn transaction(user: &str, input: &str) -> TransactionInfo {
    TransactionInfo {
        user_id: user.as_bytes().to_vec(),
        ai_provider_id: "provider".to_string(),
        ai_service_id: "service".to_string(),
        input_data: input.to_string(),
        ai_output_data: String::new(),
        experts_output_data: String::new(),
        status: 0,
    }
}

#[test]
fn save_then_range_by_owner() {
    let map = tokens();
    let mut st = Store::new();
    let rec = token("alice", "X", 1);
    map.save(&mut st, "t1", rec.clone());
    let hits = map.range_by_index(&st, "owner", b"alice").unwrap();
    assert_eq!(hits, vec![("t1".to_string(), rec)]);
}

#[test]
fn update_owner_moves_index_entry() {
    let map = tokens();
    let mut st = Store::new();
    map.save(&mut st, "t1", token("alice", "X", 1));
    let updated = token("bob", "X", 1);
    map.save(&mut st, "t1", updated.clone());
    assert_eq!(map.range_by_index(&st, "owner", b"alice").unwrap(), vec![]);
    assert_eq!(
        map.range_by_index(&st, "owner", b"bob").unwrap(),
        vec![("t1".to_string(), updated.clone())]
    );
    assert_eq!(map.load(&st, "t1"), Ok(updated));
}

#[test]
fn transactions_share_input_in_key_order() {
    let map = transactions();
    let mut st = Store::new();
    let second = transaction("u2", "hello");
    let first = transaction("u1", "hello");
    map.save(&mut st, "tx2", second.clone());
    map.save(&mut st, "tx1", first.clone());
    map.save(&mut st, "tx3", transaction("u3", "other"));
    let hits = map.range_by_index(&st, "input_data", b"hello").unwrap();
    assert_eq!(
        hits,
        vec![("tx1".to_string(), first), ("tx2".to_string(), second)]
    );
}

#[test]
fn counter_three_increments() {
    let mut count = TokenCount::new();
    assert_eq!(num_tokens(&count), 0);
    assert_eq!(increment_tokens(&mut count), 1);
    assert_eq!(increment_tokens(&mut count), 2);
    assert_eq!(increment_tokens(&mut count), 3);
    assert_eq!(num_tokens(&count), 3);
}

#[test]
fn remove_cleans_record_and_index() {
    let map = tokens();
    let mut st = Store::new();
    map.save(&mut st, "t1", token("alice", "X", 1));
    map.save(&mut st, "t2", token("alice", "Y", 2));
    map.remove(&mut st, "t1");
    assert_eq!(map.load(&st, "t1"), Err(StorageError::NotFound));
    assert_eq!(map.may_load(&st, "t1"), None);
    let hits = map.range_by_index(&st, "owner", b"alice").unwrap();
    assert_eq!(hits, vec![("t2".to_string(), token("alice", "Y", 2))]);
}

#[test]
fn remove_absent_key_changes_nothing() {
    let map = tokens();
    let mut st = Store::new();
    map.save(&mut st, "t1", token("alice", "X", 1));
    map.remove(&mut st, "missing");
    assert_eq!(map.load(&st, "t1"), Ok(token("alice", "X", 1)));
    assert_eq!(map.range_by_index(&st, "owner", b"alice").unwrap().len(), 1);
}

#[test]
fn each_record_listed_once_under_its_owner() {
    let map = tokens();
    let mut st = Store::new();
    map.save(&mut st, "b", token("alice", "B", 1));
    map.save(&mut st, "a", token("bob", "A", 1));
    map.save(&mut st, "c", token("alice", "C", 1));
    map.save(&mut st, "b", token("alice", "B2", 5));
    let alice = map.range_by_index(&st, "owner", b"alice").unwrap();
    let keys: Vec<&str> = alice.iter().map(|(k, _)| k.as_str()).collect();
    assert_eq!(keys, vec!["b", "c"]);
    assert_eq!(alice[0].1, token("alice", "B2", 5));
    let bob = map.range_by_index(&st, "owner", b"bob").unwrap();
    assert_eq!(bob, vec![("a".to_string(), token("bob", "A", 1))]);
}

#[test]
fn load_missing_is_not_found() {
    let map = tokens();
    let st: Store<TokenInfo> = Store::new();
    assert_eq!(map.load(&st, "nope"), Err(StorageError::NotFound));
    assert_eq!(map.may_load(&st, "nope"), None);
}

#[test]
fn unknown_index_name_is_rejected() {
    let map = tokens();
    let st: Store<TokenInfo> = Store::new();
    assert_eq!(
        map.range_by_index(&st, "name", b"alice"),
        Err(StorageError::UnknownIndex)
    );
}

#[test]
fn keys_order_by_code_point() {
    let map = tokens();
    let mut st = Store::new();
    map.save(&mut st, "ab", token("o", "1", 1));
    map.save(&mut st, "a", token("o", "2", 1));
    map.save(&mut st, "B", token("o", "3", 1));
    map.save(&mut st, "\u{e9}", token("o", "4", 1));
    let keys: Vec<String> = map
        .range_by_index(&st, "owner", b"o")
        .unwrap()
        .into_iter()
        .map(|(k, _)| k)
        .collect();
    assert_eq!(keys, vec!["B", "a", "ab", "\u{e9}"]);
}

#[test]
fn loaded_record_keeps_every_field() {
    let map = tokens();
    let mut st = Store::new();
    let rec = TokenInfo {
        owner: vec![1, 2, 3],
        approvals: vec![
            Approval { spender: vec![9], expires: Expiration::AtHeight(7) },
            Approval { spender: vec![8, 8], expires: Expiration::AtTime(1_000) },
            Approval { spender: vec![], expires: Expiration::Never },
        ],
        name: "monster".to_string(),
        level: 42,
        description: "a description".to_string(),
        image: Some("ipfs://img".to_string()),
    };
    map.save(&mut st, "t9", rec.clone());
    assert_eq!(map.load(&st, "t9"), Ok(rec.clone()));
    assert_eq!(map.may_load(&st, "t9"), Some(rec));
}

#[test]
fn transaction_index_uses_utf8_bytes() {
    let map = transactions();
    let mut st = Store::new();
    let rec = transaction("u", "h\u{e9}llo");
    map.save(&mut st, "tx", rec.clone());
    let hits = map.range_by_index(&st, "input_data", "h\u{e9}llo".as_bytes()).unwrap();
    assert_eq!(hits, vec![("tx".to_string(), rec)]);
    assert_eq!(map.range_by_index(&st, "input_data", b"hello").unwrap(), vec![]);
}

#[test]
fn index_lists_name_the_indexes() {
    let t = TokenIndexes { owner: "owner".to_string() };
    assert_eq!(t.get_indexes(), vec!["owner".to_string()]);
    let x = TransactionIndexes { input_data: "input_data".to_string() };
    assert_eq!(x.get_indexes(), vec!["input_data".to_string()]);
    assert_eq!(tokens().get_indexes(), vec!["owner".to_string()]);
    assert_eq!(transactions().index_position("input_data"), Some(0));
    assert_eq!(transactions().index_position("owner"), None);
}

#[test]
fn counter_round_trips_through_stored_value() {
    let mut count = TokenCount::from_stored(Some(41));
    assert_eq!(num_tokens(&count), 41);
    assert_eq!(increment_tokens(&mut count), 42);
    assert_eq!(count.stored(), Some(42));
    assert_eq!(num_tokens(&TokenCount::from_stored(None)), 0);
    assert_eq!(TokenCount::new().stored(), None);
}

#[test]
fn pages_follow_the_cursor() {
    let map = tokens();
    let mut st = Store::new();
    for k in ["k3", "k1", "k5", "k2", "k4"] {
        map.save(&mut st, k, token("alice", k, 1));
    }
    map.save(&mut st, "k0", token("bob", "k0", 1));
    let page = |after: Option<&str>, limit: usize| -> Vec<String> {
        map.range_by_index_page(&st, "owner", b"alice", after, limit)
            .unwrap()
            .into_iter()
            .map(|(k, _)| k)
            .collect()
    };
    assert_eq!(page(None, 2), vec!["k1", "k2"]);
    assert_eq!(page(Some("k2"), 2), vec!["k3", "k4"]);
    assert_eq!(page(Some("k4"), 2), vec!["k5"]);
    assert_eq!(page(Some("k5"), 2), Vec::<String>::new());
    assert_eq!(page(None, 0), Vec::<String>::new());
    assert_eq!(page(Some("k25"), 10), vec!["k3", "k4", "k5"]);
    assert_eq!(
        map.range_by_index_page(&st, "nope", b"alice", None, 3),
        Err(StorageError::UnknownIndex)
    );
}

#[test]
fn storage_keys_follow_the_persisted_layout() {
    let map = tokens();
    let rec = token("al", "X", 1);
    assert_eq!(
        map.primary_storage_key("t1"),
        Some(vec![0, 6, b't', b'o', b'k', b'e', b'n', b's', b't', b'1'])
    );
    let mut entry = vec![0, 6, b't', b'o', b'k', b'e', b'n', b's'];
    entry.extend_from_slice(&[0, 5, b'o', b'w', b'n', b'e', b'r', 0, 2, b'a', b'l', b't', b'1']);
    assert_eq!(map.index_storage_key(0, "t1", &rec), Some(entry.clone()));
    assert_eq!(map.index_storage_key(1, "t1", &rec), None);
    assert_eq!(
        map.index_scan_prefix("owner", b"al"),
        Some(entry[..entry.len() - 2].to_vec())
    );
    assert_eq!(map.index_scan_prefix("name", b"al"), None);
}

#[test]
fn two_token_handles_share_the_store() {
    let mut st = Store::new();
    let rec = token("alice", "X", 1);
    tokens().save(&mut st, "t1", rec.clone());
    let other = tokens();
    assert_eq!(other.load(&st, "t1"), Ok(rec.clone()));
    assert_eq!(
        other.range_by_index(&st, "owner", b"alice").unwrap(),
        vec![("t1".to_string(), rec)]
    );
    assert_eq!(transactions().load(&st_tx(), "t1"), Err(StorageError::NotFound));
}

fn st_tx() -> Store<TransactionInfo> {
    Store::new()
}

#[test]
fn namespaces_keep_records_apart() {
    let mut st = Store::new();
    let a = nft_state::indexed_map::IndexedMap::new("a".to_string(), vec!["owner".to_string()]);
    let b = nft_state::indexed_map::IndexedMap::new("b".to_string(), vec!["owner".to_string()]);
    a.save(&mut st, "k", token("o", "A", 1));
    assert_eq!(b.load(&st, "k"), Err(StorageError::NotFound));
    assert_eq!(b.range_by_index(&st, "owner", b"o").unwrap(), vec![]);
    b.save(&mut st, "k", token("o", "B", 1));
    a.remove(&mut st, "k");
    assert_eq!(b.load(&st, "k"), Ok(token("o", "B", 1)));
}

fn op_keys(ops: &[StoreOp]) -> Vec<(char, Vec<u8>)> {
    ops.iter()
        .map(|o| match o {
            StoreOp::Remove(k) => ('r', k.clone()),
            StoreOp::SetIndex(k) => ('i', k.clone()),
            StoreOp::SetRecord(k) => ('s', k.clone()),
        })
        .collect()
}

#[test]
fn save_ops_replace_the_old_index_entry() {
    let map = tokens();
    let old = token("al", "X", 1);
    let new = token("bo", "X", 1);
    let ops = map.save_ops("t1", Some(&old), &new).unwrap();
    assert_eq!(
        op_keys(&ops),
        vec![
            ('r', map.index_storage_key(0, "t1", &old).unwrap()),
            ('i', map.index_storage_key(0, "t1", &new).unwrap()),
            ('s', map.primary_storage_key("t1").unwrap()),
        ]
    );
    let fresh = map.save_ops("t1", None, &new).unwrap();
    assert_eq!(op_keys(&fresh).len(), 2);
}

#[test]
fn remove_ops_drop_entries_and_record() {
    let map = tokens();
    let old = token("al", "X", 1);
    let ops = map.remove_ops("t1", Some(&old)).unwrap();
    assert_eq!(
        op_keys(&ops),
        vec![
            ('r', map.index_storage_key(0, "t1", &old).unwrap()),
            ('r', map.primary_storage_key("t1").unwrap()),
        ]
    );
    assert!(map.remove_ops::<TokenInfo>("t1", None).unwrap().is_empty());
}

#[test]
fn dangling_index_entry_is_corruption() {
    let rec = token("al", "X", 1);
    assert_eq!(
        resolve_scan(vec![("t1".to_string(), Some(rec.clone())), ("t2".to_string(), None)]),
        Err(StorageError::IndexCorruption)
    );
    assert_eq!(
        resolve_scan(vec![("t1".to_string(), Some(rec.clone()))]),
        Ok(vec![("t1".to_string(), rec)])
    );
}
