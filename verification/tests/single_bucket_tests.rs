use cache_proj::bucket::{Bucket, FindRes, InsertRes};
use cache_proj::cl::{CacheLine, ClFindResult};
use cache_proj::cl_store::{ClStore, PerClStore, PerClVecMemStore};

fn id_of(k: u16) -> Vec<u8> {
    ((k as usize) + 0xffff66677).to_string().into_bytes()
}

fn put(bucket: &mut Bucket, store: &mut ClStore, k: u16, v: u32, new_cl: Option<u32>) -> InsertRes {
    let id = id_of(k);
    bucket.put(store, &id, None, k, Some(id.clone()), v, false, new_cl)
}

fn get(bucket: &mut Bucket, store: &mut ClStore, k: u16) -> Option<(usize, u32, u32)> {
    match bucket.get(store, k, Some(id_of(k))) {
        FindRes::Found((slot, cl, d)) => Some((slot, cl, d.value)),
        FindRes::NotFound => None,
    }
}

#[test]
fn bucket_put_get_delete_scenario() {
    let mut cl_store = ClStore::new(7);
    let mut bucket = Bucket::new();
    bucket.head = cl_store.allocate_cl();
    assert_eq!(bucket.head, 0);
    let kv_pairs: [(u16, u32); 9] = [
        (20, 199982),
        (32, 9982221),
        (45, 889292),
        (44, 8827272),
        (89, 8872),
        (81, 88711),
        (11, 88711),
        (13, 88711),
        (20, 199982),
    ];
    let mut free_cl = cl_store.allocate_cl();
    assert_eq!(free_cl, 1);
    let mut results = Vec::new();
    for (k, v) in kv_pairs.iter() {
        let res = put(&mut bucket, &mut cl_store, *k, *v, Some(free_cl));
        if let InsertRes::Success(cl) = res {
            if cl == free_cl {
                free_cl = cl_store.allocate_cl();
            }
        }
        results.push(res);
    }
    let mut expected = vec![InsertRes::Success(0); 7];
    expected.push(InsertRes::Success(1));
    expected.push(InsertRes::EntryExists(0));
    assert_eq!(results, expected);
    assert_eq!(free_cl, 2);
    // every pair is found, the first seven in line 0 in order, the eighth in line 1
    for (i, (k, v)) in kv_pairs[0..7].iter().enumerate() {
        assert_eq!(get(&mut bucket, &mut cl_store, *k), Some((i, 0, *v)));
    }
    assert_eq!(get(&mut bucket, &mut cl_store, 13), Some((0, 1, 88711)));
    // deletes: only 20 and 89 are present
    let kv_pairs2: [u16; 9] = [20, 332, 425, 542, 89, 281, 888, 333, 266];
    let mut deleted = Vec::new();
    for k in kv_pairs2.iter() {
        match bucket.delete(&mut cl_store, *k, Some(id_of(*k))) {
            FindRes::Found((slot, cl, d)) => deleted.push((*k, slot, cl, d.value)),
            FindRes::NotFound => {},
        }
    }
    assert_eq!(deleted, vec![(20, 0, 0, 199982), (89, 4, 0, 8872)]);
    assert_eq!(get(&mut bucket, &mut cl_store, 20), None);
    assert_eq!(get(&mut bucket, &mut cl_store, 89), None);
    assert_eq!(get(&mut bucket, &mut cl_store, 32), Some((1, 0, 9982221)));
    // without a new line: the last line with a free slot fills first
    let mut results3 = Vec::new();
    for k in 1..10u16 {
        results3.push(put(&mut bucket, &mut cl_store, k, 1000 + k as u32, None));
    }
    let mut expected3 = vec![InsertRes::Success(1); 6];
    expected3.push(InsertRes::Success(0));
    expected3.push(InsertRes::Success(0));
    expected3.push(InsertRes::OutOfSpace);
    assert_eq!(results3, expected3);
    assert_eq!(get(&mut bucket, &mut cl_store, 1), Some((1, 1, 1001)));
    assert_eq!(get(&mut bucket, &mut cl_store, 7), Some((0, 0, 1007)));
    assert_eq!(get(&mut bucket, &mut cl_store, 8), Some((4, 0, 1008)));
    assert_eq!(get(&mut bucket, &mut cl_store, 9), None);
}

#[test]
fn bucket_empty_chain_finds_nothing() {
    let mut cl_store = ClStore::new(7);
    let mut bucket = Bucket::new();
    assert_eq!(bucket.head, CacheLine::INVALID_CL);
    assert!(matches!(bucket.get(&mut cl_store, 1, None), FindRes::NotFound));
    assert!(matches!(bucket.delete(&mut cl_store, 1, None), FindRes::NotFound));
    assert_eq!(put(&mut bucket, &mut cl_store, 1, 1, None), InsertRes::OutOfSpace);
}

#[test]
fn cl_find_insert_remove() {
    let mut cl = CacheLine::new_with_entry(7, 70);
    let rems: Vec<Option<Vec<u8>>> = vec![Some(vec![1]), None, None, None, None, None, None];
    match cl.find_entry(7, &Some(vec![1]), Some(&rems)) {
        ClFindResult::FoundWSlot((slot, d)) => {
            assert_eq!(slot, 0);
            assert_eq!(d.value, 70);
        },
        _ => panic!("entry expected"),
    }
    // a different reminder is not a match; the first free slot is 1
    match cl.find_entry(7, &Some(vec![2]), Some(&rems)) {
        ClFindResult::NotFountFreeSlotsAndNext((free, next)) => {
            assert_eq!(free, 1);
            assert_eq!(next, CacheLine::INVALID_CL);
        },
        _ => panic!("no entry expected"),
    }
    // without reminders, only an absent key reminder matches
    assert!(matches!(cl.find_entry(7, &None, None), ClFindResult::FoundWSlot((0, _))));
    cl.insert_entry_to_slot(3, 8, 80);
    assert!(matches!(cl.find_entry(8, &None, None), ClFindResult::FoundWSlot((3, _))));
    assert!(matches!(cl.remove_entry(8, &None, None), ClFindResult::FoundWSlot((3, _))));
    assert!(matches!(cl.find_entry(8, &None, None), ClFindResult::NotFountFreeSlotsAndNext((1, _))));
    assert_eq!(cl.set_next_cl(5), None);
    assert_eq!(cl.set_next_cl(6), Some(5));
}

#[test]
fn per_cl_store_set_get_free() {
    let mut s = PerClVecMemStore::new();
    assert_eq!(s.get_id(0), None);
    s.set(2, Some(&[1u8, 2][..]), Some(&[3u8][..]), None);
    assert_eq!(s.get_id(2), Some(&[1u8, 2][..]));
    assert_eq!(s.get_key_rem(2), Some(&[3u8][..]));
    assert_eq!(s.get_value_suffix(2), None);
    // the slots below the one set exist and are empty
    assert_eq!(s.get_id(1), None);
    assert_eq!(s.get_data(2), (Some(&[1u8, 2][..]), Some(&[3u8][..]), None));
    s.set(2, None, Some(&[4u8, 4][..]), Some(&[][..]));
    assert_eq!(s.get_id(2), None);
    assert_eq!(s.get_key_rem(2), Some(&[4u8, 4][..]));
    s.set(2, Some(&[9u8][..]), None, Some(&[5u8][..]));
    s.free(2);
    assert_eq!(s.get_data(2), (None, None, None));
}

#[test]
fn cl_store_allocate_reuses_least_freed() {
    let mut s = ClStore::new(7);
    assert_eq!(s.allocate_cl(), 0);
    assert_eq!(s.allocate_cl(), 1);
    assert_eq!(s.allocate_cl(), 2);
    s.delete_cl(2);
    s.delete_cl(1);
    s.delete_cl(9);
    // the least freed index is handed out, and stays in the freed set
    assert_eq!(s.allocate_cl(), 1);
    assert_eq!(s.allocate_cl(), 1);
    let (line, store) = s.get_cl_w_store(1);
    assert!(line.is_some());
    assert!(store.is_some());
    let (line, store) = s.get_cl_w_store(2);
    assert!(line.is_some());
    assert!(store.is_none());
    assert!(s.get_cl(0).is_some());
}

#[test]
fn single_cl_store_checks_chains_before_bucket_calls() {
    let mut store = ClStore::new(7);
    assert!(store.chain_is_sound(CacheLine::INVALID_CL));
    assert!(!store.chain_is_sound(3));
    let head = store.allocate_cl();
    let spare = store.allocate_cl();
    assert!(store.chain_is_sound(head));
    assert!(store.put_ready(head, Some(spare)));
    assert!(!store.put_ready(head, Some(5)));
    store.delete_cl(spare);
    assert!(!store.put_ready(head, Some(spare)));
}
