use cache_proj::cache::cache::Cache;
use cache_proj::cache::cl::CacheLine;
use cache_proj::performance::store_perf_helper::{
    append_step, batch_range, count_bad_reads, load_key, next_batch, progress,
    range_for_cache_hit, set_ids_data, should_report, should_report_read, AppendState,
};

#[test]
fn load_key_is_big_endian_id_then_suffix() {
    assert_eq!(
        load_key(Some("ab".as_bytes()), 0x0102030405060708),
        vec![1, 2, 3, 4, 5, 6, 7, 8, b'a', b'b']
    );
    assert_eq!(load_key(None, 258), vec![0, 0, 0, 0, 0, 0, 1, 2]);
    assert_eq!(load_key(Some("".as_bytes()), 0), vec![0; 8]);
}

#[test]
fn range_for_cache_hit_values() {
    // nine tenths of one mebibyte holds 1843 vectors of 512 bytes
    assert_eq!(range_for_cache_hit(1, 512, 1_000_000, 50), 3686);
    assert_eq!(range_for_cache_hit(1, 512, 1_000_000, 100), 1843);
    // the expected number of vectors caps the range
    assert_eq!(range_for_cache_hit(1, 512, 1000, 100), 1000);
    // a zero hit ratio asks for every vector
    assert_eq!(range_for_cache_hit(1, 512, 77, 0), 77);
}

#[test]
fn range_for_cache_hit_truncates_to_u32() {
    assert_eq!(range_for_cache_hit(1, 512, (1usize << 32) + 5, 0), 5);
}

#[test]
fn next_batch_takes_batch_or_what_is_left() {
    assert_eq!(next_batch(5, 12, 4), (5, 9));
    assert_eq!(next_batch(9, 12, 4), (9, 12));
    assert_eq!(next_batch(0, 1, 100), (0, 1));
}

#[test]
fn batch_range_values() {
    assert_eq!(batch_range(3, 10), (30, 40));
    assert_eq!(batch_range(0, 7), (0, 7));
}

#[test]
fn progress_rounds_down() {
    assert_eq!(progress(50, 200), 25);
    assert_eq!(progress(3, 7), 42);
    assert_eq!(progress(12, 10), 120);
}

#[test]
fn report_decisions() {
    assert!(should_report(5, 4));
    assert!(!should_report(4, 4));
    assert!(should_report(0, 100));
    assert!(should_report_read(100, 100));
    assert!(!should_report_read(99, 99));
    assert!(should_report_read(1, 0));
}

#[test]
fn count_bad_reads_counts_missing_and_stops_at_wrong_bytes() {
    let one = 1u64.to_be_bytes()[0..4].to_vec();
    let results = vec![Some(one.clone()), None, Some(vec![])];
    assert_eq!(count_bad_reads(&results, &[1, 2, 3]), Ok(2));
    // the first four bytes of ids 1 and 2 agree; all eight do not
    let results = vec![None, Some(one.clone()), Some(1u64.to_be_bytes().to_vec()), Some(vec![9])];
    assert_eq!(count_bad_reads(&results, &[1, 2, 3, 4]), Err(2));
    // bytes longer than eight are checked on their first eight only
    let mut long = 7u64.to_be_bytes().to_vec();
    long.push(0xff);
    assert_eq!(count_bad_reads(&[Some(long)], &[7]), Ok(0));
}

#[test]
fn append_steps_cover_the_range_in_batches() {
    let st = AppendState { curr: 0, op_num: 0, prev_perc: 0 };
    let a = append_step(st, 0, 10, 4);
    assert_eq!((a.lo, a.hi, a.next.curr, a.next.op_num, a.perc, a.report, a.next.prev_perc), (0, 4, 4, 1, 40, true, 40));
    let b = append_step(a.next, 0, 10, 4);
    assert_eq!((b.lo, b.hi, b.perc, b.report), (4, 8, 80, true));
    let c = append_step(b.next, 0, 10, 4);
    assert_eq!((c.lo, c.hi, c.next.curr, c.perc), (8, 10, 10, 120));
    // a step that gains no percent is not reported
    let d = append_step(AppendState { curr: 0, op_num: 0, prev_perc: 0 }, 0, 1000, 1);
    assert_eq!((d.perc, d.report, d.next.prev_perc), (0, false, 0));
}

#[test]
fn set_ids_data_writes_each_id_over_the_vector() {
    let mut cache = Cache::<CacheLine>::new(1, 16);
    let mut vector = vec![9u8; 12];
    assert_eq!(set_ids_data(&mut cache, Some("x".as_bytes()), &[1, 0x0102_0304_0506_0708], &mut vector), Ok(()));
    assert_eq!(vector, vec![1, 2, 3, 4, 5, 6, 7, 8, 9, 9, 9, 9]);
    assert_eq!(cache.get(&load_key(Some("x".as_bytes()), 1)), Some(vec![0, 0, 0, 0]));
    assert_eq!(cache.get(&load_key(Some("x".as_bytes()), 0x0102_0304_0506_0708)), Some(vec![1, 2, 3, 4]));
    assert_eq!(cache.get(&load_key(None, 1)), None);
}
