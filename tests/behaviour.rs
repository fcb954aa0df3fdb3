use simd_psmap::{roughly_log_2, BuildError, SimdPerfectScanMap};

fn entries(keys: &[&str]) -> Vec<(String, u32)> {
    keys.iter().enumerate().map(|(i, k)| (k.to_string(), i as u32 * 10)).collect()
}

#[test]
fn empty_input_is_rejected() {
    let m = SimdPerfectScanMap::<u32, 4, 4>::try_from(Vec::new());
    let (e, back) = m.unwrap_err();
    assert_eq!(e, BuildError::EmptyInput);
    assert_eq!(e.message(), "Empty map not supported");
    assert!(back.is_empty());
}

#[test]
fn too_many_entries_are_rejected_and_handed_back() {
    let kv = entries(&["a", "b", "c"]);
    let m = SimdPerfectScanMap::<u32, 1, 2>::try_from(kv.clone());
    let (e, back) = m.unwrap_err();
    assert_eq!(e, BuildError::CapacityExceeded);
    assert_eq!(e.message(), "Too many keys to perform even a single scan");
    assert_eq!(back, kv);
}

#[test]
fn exactly_full_capacity_is_accepted() {
    let kv = entries(&["a", "b"]);
    let m = SimdPerfectScanMap::<u32, 1, 2>::try_from(kv).unwrap();
    assert_eq!(m.get(&"a".to_string()), Some(&0));
    assert_eq!(m.get(&"b".to_string()), Some(&10));
}

#[test]
fn zero_lane_width_holds_nothing() {
    let kv = entries(&["a"]);
    let (e, _) = SimdPerfectScanMap::<u32, 4, 0>::try_from(kv).unwrap_err();
    assert_eq!(e, BuildError::CapacityExceeded);
}

#[test]
fn unsolvable_entries_are_handed_back_unchanged() {
    let kv = entries(&["aaaa", "abaa", "aaca", "aaad"]);
    let (e, back) = SimdPerfectScanMap::<u32, 2, 16>::try_from(kv.clone()).unwrap_err();
    assert_eq!(e, BuildError::Unsolvable);
    assert_eq!(back, kv);
}

#[test]
fn three_planes_find_every_key_of_the_boundary_set() {
    let kv = entries(&["aaaa", "abaa", "aaca", "aaad"]);
    let m = SimdPerfectScanMap::<u32, 3, 16>::try_from(kv.clone()).unwrap();
    for (k, v) in &kv {
        assert_eq!(m.get(k), Some(v));
    }
    assert_eq!(m.get(&"aaab".to_string()), None);
}

#[test]
fn duplicate_keys_cannot_be_told_apart() {
    let kv = entries(&["same", "same"]);
    let (e, _) = SimdPerfectScanMap::<u32, 8, 4>::try_from(kv).unwrap_err();
    assert_eq!(e, BuildError::Unsolvable);
}

#[test]
fn keys_differing_only_past_the_search_depth_are_unsolvable() {
    let base = "x".repeat(40);
    let kv = vec![(format!("{}a", base), 1u32), (format!("{}b", base), 2u32)];
    let (e, _) = SimdPerfectScanMap::<u32, 64, 4>::try_from(kv).unwrap_err();
    assert_eq!(e, BuildError::Unsolvable);
}

#[test]
fn a_single_empty_key_has_no_offset_to_scan() {
    let kv = entries(&[""]);
    let (e, _) = SimdPerfectScanMap::<u32, 4, 4>::try_from(kv).unwrap_err();
    assert_eq!(e, BuildError::Unsolvable);
}

#[test]
fn every_key_is_found_across_many_groups() {
    let keys: Vec<String> = (0..40).map(|i| format!("field_{}", i)).collect();
    let kv: Vec<(String, u32)> = keys.iter().enumerate().map(|(i, k)| (k.clone(), i as u32)).collect();
    let m = SimdPerfectScanMap::<u32, 64, 4>::try_from(kv.clone()).unwrap();
    assert_eq!(m.len(), 40);
    for (k, v) in &kv {
        assert_eq!(m.get(k), Some(v));
    }
    // the first slot of a later group
    assert_eq!(m.get(&"field_4".to_string()), Some(&4));
    assert_eq!(m.get(&"field_40".to_string()), None);
    assert_eq!(m.get(&"field_".to_string()), None);
}

#[test]
fn prefixes_and_extensions_are_absent() {
    let kv = entries(&["key", "key1", "key1longer", "now4"]);
    let m = SimdPerfectScanMap::<u32, 16, 16>::try_from(kv).unwrap();
    assert_eq!(m.get(&"key".to_string()), Some(&0));
    assert_eq!(m.get(&"ke".to_string()), None);
    assert_eq!(m.get(&"".to_string()), None);
    assert_eq!(m.get(&"key1long".to_string()), None);
    assert_eq!(m.get(&"key1longerer".to_string()), None);
    assert_eq!(m.get(&"now5".to_string()), None);
}

#[test]
fn a_query_matching_every_scanned_byte_is_still_checked_in_full() {
    let kv = entries(&["alpha", "beta"]);
    let m = SimdPerfectScanMap::<u32, 8, 4>::try_from(kv).unwrap();
    // one offset separates the keys; a string with the same first byte but
    // different tail reads like "alpha" there
    assert_eq!(m.get(&"aXXXX".to_string()), None);
    assert_eq!(m.get(&"alpha".to_string()), Some(&0));
    assert_eq!(m.get(&"beta".to_string()), Some(&10));
}

#[test]
fn repeated_lookups_agree() {
    let kv = entries(&["one", "two", "three"]);
    let m = SimdPerfectScanMap::<u32, 8, 4>::try_from(kv).unwrap();
    for q in ["one", "two", "three", "four", "tw"] {
        let q = q.to_string();
        assert_eq!(m.get(&q), m.get(&q));
    }
    assert_eq!(m.get(&"three".to_string()), Some(&20));
}

#[test]
fn iteration_yields_the_entries_in_order() {
    let kv = entries(&["b", "a", "c", "dd"]);
    let m = SimdPerfectScanMap::<u32, 8, 2>::try_from(kv.clone()).unwrap();
    let seen: Vec<(String, u32)> = m.iter().cloned().collect();
    assert_eq!(seen, kv);
    assert_eq!(m.iter().count(), m.len());
    // restartable
    assert_eq!(m.iter().count(), 4);
}

#[test]
fn bit_lengths() {
    assert_eq!(roughly_log_2(0), 0);
    assert_eq!(roughly_log_2(1), 1);
    assert_eq!(roughly_log_2(2), 2);
    assert_eq!(roughly_log_2(3), 2);
    assert_eq!(roughly_log_2(4), 3);
    assert_eq!(roughly_log_2(255), 8);
    assert_eq!(roughly_log_2(usize::MAX), 64);
}

#[test]
fn a_zero_byte_reads_as_the_end_of_the_query() {
    let kv = vec![("a\0".to_string(), 1u32), ("ab".to_string(), 2u32)];
    let m = SimdPerfectScanMap::<u32, 8, 4>::try_from(kv).unwrap();
    assert_eq!(m.get(&"ab".to_string()), Some(&2));
    assert_eq!(m.get(&"a\0".to_string()), None);
}
