use split_check::codec::{decode_bytes, decode_table_id, encode_bytes, gen_table_prefix};
use split_check::engine::{all_cfs, large_cfs, CfName, Engine};
use split_check::keys::{data_key, origin_key};
use split_check::merge::MergedIterator;
use split_check::msgs::{Msg, MsgSink, Region, RegionEpoch};
use split_check::probe::{bound_keys, CheckError};
use split_check::runner::{Runner, Task};
use split_check::size_checker::SizeChecker;
use split_check::table_checker::TableChecker;

fn whole_keyspace_region() -> Region {
    Region {
        id: 1,
        start_key: vec![],
        end_key: vec![],
        epoch: RegionEpoch { conf_ver: 5, version: 2 },
    }
}

fn put(engine: &mut Engine, cf: CfName, key: &[u8]) {
    // the stored value is the key itself, as the worker's callers do
    engine.put_cf(cf, key.to_vec(), key.len());
}

#[test]
fn test_split_check() {
    let region = whole_keyspace_region();
    let mut runnable = Runner::new(Engine::new(), MsgSink::new(), 100, 60);

    // so split key will be z0006
    for i in 0..7 {
        let s = data_key(&format!("{:04}", i).into_bytes());
        put(&mut runnable.engine, CfName::Default, &s);
    }

    runnable.run(Task::new(&region));
    // size has not reached the max_size 100 yet.
    match runnable.ch.try_recv() {
        Some(Msg::ApproximateRegionSize { region_id, .. }) => {
            assert_eq!(region_id, region.id);
        }
        others => panic!("expect recv empty, but got {:?}", others),
    }
    assert!(runnable.ch.try_recv().is_none());

    for i in 7..11 {
        let s = data_key(&format!("{:04}", i).into_bytes());
        put(&mut runnable.engine, CfName::Default, &s);
    }

    runnable.run(Task::new(&region));
    match runnable.ch.try_recv() {
        Some(Msg::ApproximateRegionSize { region_id, .. }) => {
            assert_eq!(region_id, region.id);
        }
        others => panic!("expect approximate region size, but got {:?}", others),
    }
    match runnable.ch.try_recv() {
        Some(Msg::SplitRegion { region_id, region_epoch, split_key }) => {
            assert_eq!(region_id, region.id);
            assert_eq!(region_epoch, region.epoch);
            assert_eq!(split_key, b"0006");
        }
        others => panic!("expect split check result, but got {:?}", others),
    }

    // So split key will be z0003
    for i in 0..6 {
        let s = data_key(&format!("{:04}", i).into_bytes());
        for cf in all_cfs() {
            put(&mut runnable.engine, cf, &s);
        }
    }

    runnable.run(Task::new(&region));
    match runnable.ch.try_recv() {
        Some(Msg::ApproximateRegionSize { region_id, .. }) => {
            assert_eq!(region_id, region.id);
        }
        others => panic!("expect approximate region size, but got {:?}", others),
    }
    match runnable.ch.try_recv() {
        Some(Msg::SplitRegion { region_id, region_epoch, split_key }) => {
            assert_eq!(region_id, region.id);
            assert_eq!(region_epoch, region.epoch);
            assert_eq!(split_key, b"0003");
        }
        others => panic!("expect split check result, but got {:?}", others),
    }

    runnable.ch.close();
    // It should be safe even the result can't be sent back.
    runnable.run(Task::new(&region));
    assert!(runnable.ch.try_recv().is_none());
}

fn check_split_msg(runnable: &mut Runner, expected_raw: Vec<u8>) {
    match runnable.ch.try_recv() {
        Some(Msg::ApproximateRegionSize { .. }) => {}
        others => panic!("expect approximate region size, but got {:?}", others),
    }
    match runnable.ch.try_recv() {
        Some(Msg::SplitRegion { split_key, .. }) => {
            assert_eq!(split_key, encode_bytes(&expected_raw));
        }
        others => panic!("expect split check result, but got {:?}", others),
    }
}

#[test]
fn test_split_table() {
    let mut region = whole_keyspace_region();
    let mut table_runnable = Runner::new(Engine::new(), MsgSink::new(), 200, 120);
    table_runnable.set_priority_checker(Some(TableChecker::new()));

    // arbitrary padding.
    let padding = b"_r00000005";

    // Put some data
    // t1_xx, t3_xx, t5_xx
    for i in 1..6u64 {
        if i % 2 == 0 {
            // leave some space.
            continue;
        }
        let mut key = gen_table_prefix(i);
        key.extend_from_slice(padding);
        let s = data_key(&encode_bytes(&key));
        put(&mut table_runnable.engine, CfName::Default, &s);
    }

    // ["", "") => t3
    region.start_key = vec![];
    region.end_key = vec![];
    table_runnable.run(Task::new(&region));
    check_split_msg(&mut table_runnable, gen_table_prefix(3));

    // ["t1", "") => t3
    region.start_key = encode_bytes(&gen_table_prefix(1));
    region.end_key = vec![];
    table_runnable.run(Task::new(&region));
    check_split_msg(&mut table_runnable, gen_table_prefix(3));

    // ["t1", "t5") => t3
    region.start_key = encode_bytes(&gen_table_prefix(1));
    region.end_key = encode_bytes(&gen_table_prefix(5));
    table_runnable.run(Task::new(&region));
    check_split_msg(&mut table_runnable, gen_table_prefix(3));

    // Put some data to table 3.
    for i in 0..5 {
        // Each kv entry takes about 56 bytes.
        let mut key = gen_table_prefix(3);
        key.extend_from_slice(format!("_r0000000{}", i).as_bytes());
        let s = data_key(&encode_bytes(&key));
        put(&mut table_runnable.engine, CfName::Default, &s);
    }
    // Since region_max_size = 200, split_size = 120
    // for ["t3", ""), the split key should be in table 3.
    region.start_key = encode_bytes(&gen_table_prefix(3));
    region.end_key = vec![];
    table_runnable.run(Task::new(&region));
    match table_runnable.ch.try_recv() {
        Some(Msg::ApproximateRegionSize { .. }) => {}
        others => panic!("expect approximate region size, but got {:?}", others),
    }
    match table_runnable.ch.try_recv() {
        Some(Msg::SplitRegion { split_key, .. }) => {
            let key = decode_bytes(&split_key).unwrap();
            assert_eq!(decode_table_id(&key).unwrap(), 3);
        }
        others => panic!("expect split check result, but got {:?}", others),
    }
}

#[test]
fn merged_iterator_order_and_totality() {
    let mut engine = Engine::new();
    // the same key in two families surfaces twice; keys come out sorted
    put(&mut engine, CfName::Default, b"za");
    put(&mut engine, CfName::Default, b"zc");
    put(&mut engine, CfName::Write, b"zb");
    put(&mut engine, CfName::Write, b"zc");
    put(&mut engine, CfName::Lock, b"zz"); // not a large family: never scanned
    let start = vec![0x7a];
    let end = vec![0x7b];
    let cfs = large_cfs();
    let mut iter = MergedIterator::new(&engine, &cfs, &start, &end, false);
    let mut seen: Vec<(Vec<u8>, usize)> = Vec::new();
    while let Some(e) = iter.next() {
        seen.push((e.key.unwrap(), e.pos));
    }
    let keys: Vec<&[u8]> = seen.iter().map(|p| p.0.as_slice()).collect();
    assert_eq!(keys, vec![b"za".as_slice(), b"zb", b"zc", b"zc"]);
    for w in seen.windows(2) {
        assert!(w[0].0 <= w[1].0);
    }
    // the duplicate came once from each family
    assert_eq!(seen[2].1 + seen[3].1, 1);
}

#[test]
fn size_checker_accumulates_exact_weights() {
    let mut checker = SizeChecker::new(100, 60);
    assert!(checker.find_split_key(&b"za".to_vec(), 8).is_none());
    assert_eq!(checker.current_size, 10);
    assert!(checker.find_split_key(&b"zbcd".to_vec(), 6).is_none());
    assert_eq!(checker.current_size, 20);
    checker.finish();
    assert_eq!(checker.current_size, 0);
    assert!(checker.split_key.is_none());
}

#[test]
fn size_checker_split_key_was_fed() {
    let mut checker = SizeChecker::new(100, 60);
    let fed: Vec<Vec<u8>> = (0..12).map(|i| data_key(&format!("{:04}", i).into_bytes())).collect();
    let mut fired: Option<Vec<u8>> = None;
    for key in &fed {
        if let Some(k) = checker.find_split_key(key, 5) {
            fired = Some(k);
            break;
        }
    }
    let k = fired.expect("checker must fire past the threshold");
    assert!(fed.iter().any(|f| *f == k));
    assert_eq!(k, data_key(&b"0006".to_vec()));
}

#[test]
fn same_task_twice_same_split_key() {
    let region = whole_keyspace_region();
    let mut runnable = Runner::new(Engine::new(), MsgSink::new(), 100, 60);
    for i in 0..11 {
        let s = data_key(&format!("{:04}", i).into_bytes());
        put(&mut runnable.engine, CfName::Default, &s);
    }
    let mut split_keys: Vec<Vec<u8>> = Vec::new();
    for _ in 0..2 {
        runnable.run(Task::new(&region));
        match runnable.ch.try_recv() {
            Some(Msg::ApproximateRegionSize { .. }) => {}
            others => panic!("expect approximate region size, but got {:?}", others),
        }
        match runnable.ch.try_recv() {
            Some(Msg::SplitRegion { split_key, .. }) => split_keys.push(split_key),
            others => panic!("expect split check result, but got {:?}", others),
        }
    }
    assert_eq!(split_keys[0], split_keys[1]);
}

#[test]
fn closed_sink_swallows_everything() {
    let region = whole_keyspace_region();
    let mut runnable = Runner::new(Engine::new(), MsgSink::new(), 100, 60);
    for i in 0..11 {
        let s = data_key(&format!("{:04}", i).into_bytes());
        put(&mut runnable.engine, CfName::Default, &s);
    }
    runnable.ch.close();
    runnable.run(Task::new(&region));
    runnable.run(Task::new(&region));
    assert!(runnable.ch.try_recv().is_none());
}

#[test]
fn bound_keys_empty_and_invalid() {
    let engine = Engine::new();
    let cfs = large_cfs();
    let r = bound_keys(&engine, &cfs, &vec![0x7a], &vec![0x7b]).unwrap();
    assert!(r.is_none());

    let mut engine = Engine::new();
    put(&mut engine, CfName::Default, b"za");
    // a key below the range's start but under its upper bound: the probe
    // sees a maximum without a minimum
    let start = data_key(&b"m".to_vec());
    let r = bound_keys(&engine, &cfs, &start, &vec![0x7b]);
    assert_eq!(r, Err(CheckError::InvalidBounds));

    let mut engine = Engine::new();
    put(&mut engine, CfName::Default, b"zb");
    put(&mut engine, CfName::Write, b"za");
    let (mn, mx) = bound_keys(&engine, &cfs, &vec![0x7a], &vec![0x7b]).unwrap().unwrap();
    assert_eq!(mn, b"za");
    assert_eq!(mx, b"zb");
}

#[test]
fn codec_round_trip_and_table_ids() {
    let raw = b"t3_r00000005".to_vec();
    let enc = encode_bytes(&raw);
    assert_eq!(enc.len(), 18);
    assert_eq!(decode_bytes(&enc), Some(raw));

    let short = b"t".to_vec();
    let enc = encode_bytes(&short);
    assert_eq!(enc, vec![0x74, 0, 0, 0, 0, 0, 0, 0, 0xf8]);
    assert_eq!(decode_bytes(&enc), Some(short));

    // a raw key of exactly eight bytes gains an all-pad terminal group
    let eight = b"12345678".to_vec();
    let enc = encode_bytes(&eight);
    assert_eq!(enc.len(), 18);
    assert_eq!(enc[8], 0xff);
    assert_eq!(enc[17], 0xf7);
    assert_eq!(decode_bytes(&enc), Some(eight));

    assert_eq!(decode_table_id(&gen_table_prefix(7)), Some(7));
    assert_eq!(decode_table_id(&gen_table_prefix(3)), Some(3));
    assert_eq!(decode_table_id(&b"x3_r0000".to_vec()), None);
    assert!(decode_bytes(&vec![1, 2, 3]).is_none());
}

#[test]
fn data_key_prefix_round_trip() {
    let user = b"0006".to_vec();
    let stored = data_key(&user);
    assert_eq!(stored, b"z0006");
    assert_eq!(origin_key(&stored), user);
}

#[test]
fn put_cf_replaces_and_sorts() {
    let mut engine = Engine::new();
    put(&mut engine, CfName::Default, b"zc");
    put(&mut engine, CfName::Default, b"za");
    put(&mut engine, CfName::Default, b"zb");
    engine.put_cf(CfName::Default, b"zb".to_vec(), 99);
    assert_eq!(engine.default_cf.len(), 3);
    let keys: Vec<&[u8]> = engine.default_cf.iter().map(|e| e.key.as_slice()).collect();
    assert_eq!(keys, vec![b"za".as_slice(), b"zb", b"zc"]);
    assert_eq!(engine.default_cf[1].value_size, 99);
    assert!(engine.write_cf.is_empty());
}

#[test]
fn approximate_size_counts_large_families_only() {
    let mut engine = Engine::new();
    put(&mut engine, CfName::Default, b"zaa"); // weight 6
    put(&mut engine, CfName::Write, b"zb"); // weight 4
    put(&mut engine, CfName::Lock, b"zcccccccc"); // ignored
    assert_eq!(engine.approximate_size(&vec![0x7a], &vec![0x7b]), 10);
}

#[test]
fn table_checker_bounds_only_skip() {
    let checker = TableChecker::new();
    let region = whole_keyspace_region();
    // no bounds: nothing to split
    assert!(checker.prev_check(&region, &None));
    // both bounds inside one table: skip
    let mut k1 = gen_table_prefix(3);
    k1.extend_from_slice(b"_r00000001");
    let mut k2 = gen_table_prefix(3);
    k2.extend_from_slice(b"_r00000009");
    let b1 = data_key(&encode_bytes(&k1));
    let b2 = data_key(&encode_bytes(&k2));
    assert!(checker.prev_check(&region, &Some((b1.clone(), b2))));
    // bounds in different tables: scan
    let mut k3 = gen_table_prefix(5);
    k3.extend_from_slice(b"_r00000001");
    let b3 = data_key(&encode_bytes(&k3));
    assert!(!checker.prev_check(&region, &Some((b1, b3))));
}
