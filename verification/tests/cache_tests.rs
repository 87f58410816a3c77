use cache_proj::cache::bucket::{Bucket, DelRes, FindRes, InsertRes};
use cache_proj::cache::cache::Cache;
use cache_proj::cache::cl::{CacheLine, TCacheLine};
use cache_proj::cache::cl_store::{ClStore, PerClStore, PerClVecMemStore};

fn generate_key(k: usize) -> String {
    format!("{} is the key", k)
}

#[test]
fn cache_upsert_then_get_returns_inline_prefix() {
    let mut cache = Cache::<CacheLine>::new(2, 1024);
    let n = 3000usize;
    for k in 0..n {
        let v = format!("{}", 100_000 + k * 7);
        assert!(cache.upsert(generate_key(k).as_bytes(), v.as_bytes()));
    }
    for k in 0..n {
        let v = format!("{}", 100_000 + k * 7);
        let got = cache.get(generate_key(k).as_bytes()).expect("key present");
        assert_eq!(got, v.as_bytes()[0..4].to_vec());
    }
    assert_eq!(cache.get(b"never written"), None);
}

#[test]
fn cache_short_value_is_zero_padded() {
    let mut cache = Cache::<CacheLine>::new(2, 1024);
    assert!(cache.upsert("my paycheck".as_ref(), "a".as_ref()));
    assert_eq!(cache.get("my paycheck".as_ref()), Some(vec![b'a', 0, 0, 0]));
    assert!(cache.upsert(b"empty", b""));
    assert_eq!(cache.get(b"empty"), Some(vec![0, 0, 0, 0]));
}

#[test]
fn cache_second_upsert_keeps_first_value_visible() {
    let mut cache = Cache::<CacheLine>::new(1, 16);
    assert!(cache.upsert(b"k", b"first"));
    // the write path does not see the existing entry: a second entry is added
    assert!(cache.upsert(b"k", b"second"));
    assert_eq!(cache.get(b"k"), Some(b"firs".to_vec()));
}

#[test]
fn cache_single_bucket_grows_a_chain() {
    let mut cache = Cache::<CacheLine>::new(0, 16);
    for k in 0..50usize {
        assert!(cache.upsert(generate_key(k).as_bytes(), &[k as u8, 1, 2, 3, 4]));
    }
    for k in 0..50usize {
        assert_eq!(cache.get(generate_key(k).as_bytes()), Some(vec![k as u8, 1, 2, 3]));
    }
    assert_eq!(cache.print_bucket(b"anything"), 0);
}

#[test]
fn bucket_put_get_delete_with_reminders() {
    let mut store: ClStore<CacheLine> = ClStore::new(7);
    let mut bucket = Bucket::new::<CacheLine>();
    assert_eq!(bucket.head, CacheLine::INVALID_CL);
    bucket.head = store.allocate_cl();
    let spare = store.allocate_cl();
    let rem_a: &[u8] = &[1, 2, 3];
    let rem_b: &[u8] = &[4, 5, 6];
    // bucket key 9 differs from the zero key of the unused slots
    let r = bucket.put(&mut store, b"id-a", Some(b"value-a"), 9, Some(rem_a), b"abcd", false, Some(spare));
    assert_eq!(r, InsertRes::Success((0, 0)));
    let r = bucket.put(&mut store, b"id-b", Some(b"value-b"), 9, Some(rem_b), b"wxyz", false, Some(spare));
    assert_eq!(r, InsertRes::Success((0, 1)));
    match bucket.get(&store, 9, Some(rem_b)) {
        FindRes::Found((slot, cl, entry, (id, k_rem, v_s))) => {
            assert_eq!((slot, cl), (1, 0));
            assert_eq!(entry.value, *b"wxyz");
            assert_eq!(id, Some(&b"id-b"[..]));
            assert_eq!(k_rem, Some(rem_b));
            assert_eq!(v_s, Some(&b"value-b"[..]));
        },
        FindRes::NotFound => panic!("entry expected"),
    }
    assert!(matches!(bucket.get(&store, 9, Some(&[7u8][..])), FindRes::NotFound));
    match bucket.delete(&mut store, 9, Some(rem_a)) {
        DelRes::Found((slot, cl, entry, (id, k_rem, v_s))) => {
            assert_eq!((slot, cl), (0, 0));
            assert_eq!(entry.value, *b"abcd");
            assert_eq!(id, Some(b"id-a".to_vec()));
            assert_eq!(k_rem, Some(rem_a.to_vec()));
            assert_eq!(v_s, Some(b"value-a".to_vec()));
        },
        DelRes::NotFound => panic!("entry expected"),
    }
    assert!(matches!(bucket.get(&store, 9, Some(rem_a)), FindRes::NotFound));
    assert_eq!(store.get_cl_w_store(0).1.unwrap().get_data(0), (None, None, None));
    assert!(matches!(bucket.delete(&mut store, 9, Some(rem_a)), DelRes::NotFound));
}

#[test]
fn bucket_links_new_line_when_full() {
    let mut store: ClStore<CacheLine> = ClStore::new(7);
    let mut bucket = Bucket::new::<CacheLine>();
    bucket.head = store.allocate_cl();
    let spare = store.allocate_cl();
    for i in 0..7u8 {
        let rem = [i];
        let r = bucket.put(&mut store, &[i], None, 3, Some(&rem[..]), &[i], false, None);
        assert_eq!(r, InsertRes::Success((0, i as u16)));
    }
    let rem = [7u8];
    assert_eq!(bucket.put(&mut store, &[7], None, 3, Some(&rem[..]), &[7], false, None), InsertRes::OutOfSpace);
    assert_eq!(
        bucket.put(&mut store, &[7], None, 3, Some(&rem[..]), &[7], false, Some(spare)),
        InsertRes::Success((spare, 0))
    );
    assert_eq!(store.get_cl(0).unwrap().get_next_cl(), spare);
    match bucket.get(&store, 3, Some(&rem[..])) {
        FindRes::Found((slot, cl, entry, _)) => {
            assert_eq!((slot, cl), (0, spare));
            assert_eq!(entry.value, [7, 0, 0, 0]);
        },
        FindRes::NotFound => panic!("entry expected"),
    }
}

#[test]
fn per_cl_store_free_hands_back_bytes() {
    let mut s = PerClVecMemStore::new();
    assert_eq!(s.free(0), (None, None, None));
    s.set(1, Some(&[1u8][..]), None, Some(&[2u8, 3][..]));
    assert_eq!(s.free(1), (Some(vec![1]), None, Some(vec![2, 3])));
    assert_eq!(s.free(0), (Some(vec![]), None, Some(vec![])));
    assert_eq!(s.get_data(1), (None, None, None));
}

#[test]
fn cl_store_generic_allocate_and_delete() {
    let mut s: ClStore<CacheLine> = ClStore::new(7);
    assert_eq!(s.allocate_cl(), 0);
    assert_eq!(s.allocate_cl(), 1);
    s.delete_cl(0);
    assert!(s.get_cl_w_store(0).1.is_none());
    assert_eq!(s.allocate_cl(), 0);
    assert!(s.get_cl_w_store(0).1.is_some());
    let (line, _) = s.get_mut_cl_w_store(1);
    line.unwrap().set_next_cl(0);
    assert_eq!(s.get_cl(1).unwrap().get_next_cl(), 0);
}

#[test]
fn cache_bucket_is_low_bits_of_murmur3_hash() {
    let mut cache = Cache::<CacheLine>::new(1, 16);
    for key in [&b"alpha"[..], b"beta", b"", b"0123456789abcdef0123"] {
        let mut source = key;
        let h = murmur3::murmur3_x86_128(&mut source, 0).unwrap();
        assert_eq!(cache.print_bucket(key), (h & 0xff) as usize);
    }
}

#[test]
fn cache_by_hash_reads_what_was_written_by_hash() {
    let mut cache = Cache::<CacheLine>::new(1, 16);
    let h: u128 = 0xabcd_0000_0000_0000_0000_0000_0000_0042;
    assert_eq!(cache.bucket_of_hash(h), (0x42, 0xabcd));
    assert_eq!(cache.get_by_hash(h), None);
    assert!(cache.upsert_by_hash(b"any key", b"wxyz!", h));
    assert_eq!(cache.get_by_hash(h), Some(b"wxyz".to_vec()));
    // a hash that differs only in bits above the bucket mask lands in the same bucket but
    // is told apart by its key reminder
    let h2 = h ^ (1u128 << 64);
    assert_eq!(cache.bucket_of_hash(h2), (0x42, 0xabcd));
    assert_eq!(cache.get_by_hash(h2), None);
}

#[test]
fn cache_get_is_get_by_murmur3_hash() {
    let mut cache = Cache::<CacheLine>::new(2, 16);
    assert!(cache.upsert(b"the key", b"12345"));
    let mut source = &b"the key"[..];
    let h = murmur3::murmur3_x86_128(&mut source, 0).unwrap();
    assert_eq!(cache.get_by_hash(h), Some(b"1234".to_vec()));
}

#[test]
fn cl_store_checks_chains_before_bucket_calls() {
    let mut store: ClStore<CacheLine> = ClStore::new(7);
    assert!(store.chain_is_sound(CacheLine::INVALID_CL));
    assert!(!store.chain_is_sound(0));
    let head = store.allocate_cl();
    let spare = store.allocate_cl();
    assert!(store.chain_is_sound(head));
    assert!(store.put_ready(head, Some(spare)));
    assert!(store.put_ready(head, None));
    assert!(!store.put_ready(head, Some(9)));
    assert!(!store.put_ready(CacheLine::INVALID_CL, Some(spare)));
    store.delete_cl(spare);
    assert!(!store.put_ready(head, Some(spare)));
}

#[test]
fn cl_store_finds_a_looping_chain_unsound() {
    let mut store: ClStore<CacheLine> = ClStore::new(7);
    let a = store.allocate_cl();
    let b = store.allocate_cl();
    store.get_mut_cl_w_store(a).0.unwrap().set_next_cl(b);
    assert!(store.chain_is_sound(a));
    store.get_mut_cl_w_store(b).0.unwrap().set_next_cl(a);
    assert!(!store.chain_is_sound(a));
    assert!(!store.put_ready(a, None));
}
