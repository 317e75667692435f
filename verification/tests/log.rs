use memory_system_v2::wal::{
    frame, highest_wal_seq, latest_wal_file, log_file, next_wal_seq, replay_files, wal_files,
    wal_name, wal_seq, Wal, WalOutcome, MAX_WAL_SIZE,
};

fn names(list: &[&str]) -> Vec<String> {
    list.iter().map(|s| s.to_string()).collect()
}

#[test]
fn record_has_magic_length_and_payload() {
    assert_eq!(frame(b"hi"), b"WAL1\x02\x00\x00\x00hi".to_vec());
    assert_eq!(frame(b""), b"WAL1\x00\x00\x00\x00".to_vec());
}

#[test]
fn replay_gives_back_what_was_appended() {
    let payloads: Vec<Vec<u8>> = vec![b"one".to_vec(), vec![], vec![7; 300]];
    let mut log: Vec<u8> = Vec::new();
    for p in &payloads {
        log.extend(frame(p));
    }
    assert_eq!(Wal::replay(&log), payloads);
}

#[test]
fn torn_and_foreign_tails_are_dropped() {
    let mut log = frame(b"whole");
    let torn = frame(b"torn");
    for cut in 0..torn.len() {
        let mut bytes = log.clone();
        bytes.extend(&torn[..cut]);
        assert_eq!(Wal::replay(&bytes), vec![b"whole".to_vec()]);
    }
    log.extend(b"XXXX\x01\x00\x00\x00a");
    log.extend(frame(b"after"));
    assert_eq!(Wal::replay(&log), vec![b"whole".to_vec()]);
    assert!(Wal::replay(b"").is_empty());
}

#[test]
fn log_files_are_numbered() {
    assert_eq!(wal_name(7), "wal_000007.wal");
    assert_eq!(wal_name(12_345_678), "wal_12345678.wal");
    assert_eq!(wal_seq("wal_000007.wal"), Some(7));
    assert_eq!(wal_seq("wal_+7.wal"), Some(7));
    assert_eq!(wal_seq("wal_4294967295.wal"), Some(u32::MAX));
    assert_eq!(wal_seq("wal_4294967296.wal"), None);
    assert_eq!(wal_seq("wal_.wal"), None);
    assert_eq!(wal_seq("wal_1.log"), None);
    let files = names(&["wal_000002.wal", "notes.txt", "wal_000010.wal"]);
    assert_eq!(highest_wal_seq(&files), 10);
    assert_eq!(next_wal_seq(&files), 11);
    assert_eq!(next_wal_seq(&vec![]), 1);
}

#[test]
fn log_files_are_replayed_by_name() {
    let files = names(&["wal_000010.wal", ".wal", "x.wal", "wal_000002.wal", "a.wal.bak"]);
    assert_eq!(wal_files(&files), vec!["wal_000002.wal", "wal_000010.wal", "x.wal"]);
    assert_eq!(latest_wal_file(&files).as_deref(), Some("x.wal"));
    assert_eq!(latest_wal_file(&names(&[".wal"])), None);
    assert!(log_file("..wal"));
    assert!(!log_file("wal"));
}

#[test]
fn full_files_are_followed_by_new_ones() {
    let mut wal = Wal::new();
    let files = names(&["wal_000001.wal"]);
    let first = wal.append(b"x", &files);
    assert_eq!(first.create.as_deref(), Some("wal_000002.wal"));
    wal.finish(&first, WalOutcome::CreateFailed);
    assert!(wal.needs_new_file());
    wal.finish(&first, WalOutcome::Written);
    assert!(!wal.needs_new_file());
    let large = vec![0u8; MAX_WAL_SIZE as usize - 8 - 9];
    let second = wal.append(&large, &files);
    assert!(second.create.is_none());
    wal.finish(&second, WalOutcome::WriteFailed);
    assert!(!wal.needs_new_file());
    wal.finish(&second, WalOutcome::Written);
    assert!(wal.needs_new_file());
}

#[test]
fn a_log_over_several_files_is_replayed_in_order() {
    let mut dir: Vec<(String, Vec<u8>)> = vec![("notes.txt".to_string(), vec![1])];
    let mut wal = Wal::new();
    let mut payloads: Vec<Vec<u8>> = Vec::new();
    for i in 0..13u8 {
        let payload = vec![i; 2 * 1024 * 1024];
        let listing: Vec<String> = dir.iter().rev().map(|f| f.0.clone()).collect();
        let plan = wal.append(&payload, &listing);
        match &plan.create {
            Some(name) => dir.push((name.clone(), plan.record.clone())),
            None => dir.last_mut().unwrap().1.extend(&plan.record),
        }
        wal.finish(&plan, WalOutcome::Written);
        payloads.push(payload);
    }
    let listing: Vec<String> = dir.iter().rev().map(|f| f.0.clone()).collect();
    let files = wal_files(&listing);
    assert_eq!(files, names(&["wal_000001.wal", "wal_000002.wal", "wal_000003.wal"]));
    let contents: Vec<Vec<u8>> = files
        .iter()
        .map(|name| dir.iter().find(|f| f.0 == *name).unwrap().1.clone())
        .collect();
    assert!(replay_files(&contents) == payloads);
    assert!(replay_files(&vec![]).is_empty());
}
