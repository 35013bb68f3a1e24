use kvserver::hashtable::HMap;
use kvserver::hashtable::HNode;
use kvserver::hashtable::HTab;
use kvserver::hashtable::hash_key;
use kvserver::hashtable::bytes_eq;
use kvserver::server::do_request;
use kvserver::server::cmd_is;
use kvserver::K_MAX_MSG;

fn set(map: &mut HMap, k: &[u8], v: &[u8]) {
    let h = hash_key(k);
    map.hm_insert(HNode::new(h, k.to_vec(), v.to_vec()));
}

fn get(map: &mut HMap, k: &[u8]) -> Option<Vec<u8>> {
    map.hm_lookup(k)
}

#[test]
fn insert_lookup_remove() {
    let mut map = HMap::new();
    assert_eq!(map.hm_len(), 0);
    set(&mut map, b"alpha", b"1");
    set(&mut map, b"beta", b"2");
    assert_eq!(map.hm_len(), 2);
    assert_eq!(get(&mut map, b"alpha"), Some(b"1".to_vec()));
    assert_eq!(get(&mut map, b"beta"), Some(b"2".to_vec()));
    assert_eq!(get(&mut map, b"gamma"), None);
    assert!(map.hm_remove(b"alpha"));
    assert!(!map.hm_remove(b"alpha"));
    assert_eq!(get(&mut map, b"alpha"), None);
    assert_eq!(map.hm_len(), 1);
}

#[test]
fn overwrite_keeps_one_binding() {
    let mut map = HMap::new();
    set(&mut map, b"k", b"old");
    set(&mut map, b"k", b"new");
    assert_eq!(map.hm_len(), 1);
    assert_eq!(get(&mut map, b"k"), Some(b"new".to_vec()));
    let keys = map.hm_keys();
    assert_eq!(keys, vec![b"k".to_vec()]);
}

#[test]
fn survives_progressive_resize() {
    let mut map = HMap::new();
    for i in 0..2000u32 {
        let k = format!("key-{}", i);
        let v = format!("val-{}", i);
        set(&mut map, k.as_bytes(), v.as_bytes());
    }
    assert_eq!(map.hm_len(), 2000);
    for i in 0..2000u32 {
        let k = format!("key-{}", i);
        let v = format!("val-{}", i);
        assert_eq!(get(&mut map, k.as_bytes()), Some(v.into_bytes()));
    }
    let mut keys = map.hm_keys();
    keys.sort();
    assert_eq!(keys.len(), 2000);
    keys.dedup();
    assert_eq!(keys.len(), 2000, "KEYS must enumerate without duplicates");
}

#[test]
fn resize_work_is_bounded() {
    let mut map = HMap::new();
    let mut prev: usize = 0;
    for i in 0..5000u32 {
        let k = format!("{}", i);
        set(&mut map, k.as_bytes(), b"v");
        let cur = match &map.ht2 {
            Some(t) => t.size,
            None => 0,
        };
        // While more than one batch of rehash work remains, each insert
        // moves exactly K_RESIZING_WORK nodes out of the old table.
        if prev > 128 {
            assert_eq!(cur, prev - 128);
        }
        prev = cur;
    }
    assert_eq!(map.hm_len(), 5000);
}

#[test]
fn help_resizing_drains_in_bounded_batches() {
    let mut map = HMap::new();
    // With 16 buckets, the load check trips once 144 entries are held:
    // the old table then starts with more than one batch of work.
    let mut i: u32 = 0;
    while map.ht2.is_none() || map.ht2.as_ref().unwrap().size <= 128 {
        let k = format!("entry-{}", i);
        set(&mut map, k.as_bytes(), b"v");
        i += 1;
        assert!(i < 100000, "a resize with over 128 pending nodes must occur");
    }
    let pending = map.ht2.as_ref().unwrap().size;
    // KEYS covers both sub-tables even while the resize is in progress.
    let mut mid_keys = map.hm_keys();
    mid_keys.sort();
    mid_keys.dedup();
    assert_eq!(mid_keys.len() as u32, i);
    map.help_resizing();
    assert_eq!(map.ht2.as_ref().map(|t| t.size).unwrap_or(0), pending - 128);
    while map.ht2.is_some() {
        map.help_resizing();
    }
    // Nothing was lost along the way.
    for j in 0..i {
        let k = format!("entry-{}", j);
        assert_eq!(get(&mut map, k.as_bytes()), Some(b"v".to_vec()));
    }
}

#[test]
fn start_resizing_preserves_bindings() {
    let mut map = HMap::new();
    set(&mut map, b"k", b"v");
    assert!(map.ht2.is_none());
    map.start_resizing();
    assert!(map.ht2.is_some());
    assert_eq!(get(&mut map, b"k"), Some(b"v".to_vec()));
}

#[test]
fn keys_cover_exactly_the_bound_keys() {
    let mut map = HMap::new();
    // enough entries that a resize is typically in progress mid-way
    for i in 0..600u32 {
        let k = format!("{}", i);
        set(&mut map, k.as_bytes(), b"v");
    }
    for i in 0..300u32 {
        let k = format!("{}", i);
        assert!(map.hm_remove(k.as_bytes()));
    }
    let mut keys: Vec<Vec<u8>> = map.hm_keys();
    keys.sort();
    let mut expected: Vec<Vec<u8>> = (300..600u32)
        .map(|i| format!("{}", i).into_bytes())
        .collect();
    expected.sort();
    assert_eq!(keys, expected);
}

#[test]
fn equal_keys_hash_equal() {
    assert_eq!(hash_key(b"hello"), hash_key(b"hello"));
    // FNV-1a 64 of the empty string is the offset basis
    assert_eq!(hash_key(b""), 0xcbf2_9ce4_8422_2325);
    // FNV-1a 64 of "a"
    assert_eq!(hash_key(b"a"), 0xaf63_dc4c_8601_ec8c);
}

#[test]
fn sub_table_operations() {
    let mut t = HTab::new(4);
    let h = hash_key(b"k");
    t.insert(Box::new(HNode::new(h, b"k".to_vec(), b"v".to_vec())));
    assert_eq!(t.h_lookup(b"k").cloned(), Some(b"v".to_vec()));
    assert_eq!(t.h_lookup(b"other"), None);
    let pos = (h & 3) as usize;
    let node = t.h_detach(pos).expect("the bucket holds the node");
    assert!(bytes_eq(&node.key, b"k"));
    assert!(bytes_eq(&node.value, b"v"));
    assert_eq!(t.h_lookup(b"k"), None);
    let gone = t.h_remove(b"k");
    assert!(gone.is_none());
}

#[test]
fn verb_match_is_case_insensitive() {
    assert!(cmd_is(b"SeT", b"set"));
    assert!(cmd_is(b"KEYS", b"keys"));
    assert!(!cmd_is(b"gets", b"get"));
    assert!(!cmd_is(b"ge", b"get"));
}

fn run(map: &mut HMap, words: &[&[u8]]) -> Vec<u8> {
    let cmd: Vec<Vec<u8>> = words.iter().map(|w| w.to_vec()).collect();
    let mut out: Vec<u8> = Vec::new();
    do_request(map, &cmd, &mut out);
    out
}

#[test]
fn reply_of_exactly_frame_limit_accepted() {
    // An STR reply of 5 + 4087 = 4092 = K_MAX_MSG - 4 bytes passes the guard.
    let mut map = HMap::new();
    set(&mut map, b"k", &vec![b'x'; K_MAX_MSG - 9]);
    let out = run(&mut map, &[b"get", b"k"]);
    assert_eq!(out.len(), K_MAX_MSG - 4);
    assert_eq!(out[0], 0x02);
}

#[test]
fn reply_one_byte_larger_replaced() {
    let mut map = HMap::new();
    set(&mut map, b"k", &vec![b'x'; K_MAX_MSG - 8]);
    let out = run(&mut map, &[b"get", b"k"]);
    let msg = b"Response is too big";
    let mut expected: Vec<u8> = Vec::new();
    expected.push(0x01);
    expected.extend_from_slice(&2u32.to_le_bytes());
    expected.extend_from_slice(&(msg.len() as u32).to_le_bytes());
    expected.extend_from_slice(msg);
    assert_eq!(out, expected);
}

#[test]
fn oversized_reply_replaced_with_error() {
    let mut map = HMap::new();
    set(&mut map, b"big", &vec![b'x'; 5000]);
    let out = run(&mut map, &[b"GET", b"big"]);
    assert_eq!(out[0], 0x01);
    assert_eq!(&out[1..5], &2u32.to_le_bytes());
}

#[test]
fn oversized_keys_reply_replaced_with_error() {
    let mut map = HMap::new();
    for i in 0..1000u32 {
        let k = format!("key-number-{}", i);
        set(&mut map, k.as_bytes(), b"v");
    }
    let out = run(&mut map, &[b"keys"]);
    assert_eq!(out[0], 0x01);
    assert_eq!(&out[1..5], &2u32.to_le_bytes());
}
