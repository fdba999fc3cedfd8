use bedrock_backup::backup::Backuper;
use bedrock_backup::clock::{accept_clock, current_timestamp};
use bedrock_backup::record_name::Timestamp;

fn chars(s: &str) -> Vec<char> {
    s.chars().collect()
}

fn string(v: &[char]) -> String {
    v.iter().collect()
}

fn engine() -> Backuper {
    Backuper::new(chars("./backups"), chars("./server/worlds"), 3)
}

#[test]
fn plan_places_every_entry_with_its_exact_size() {
    let b = engine();
    let now = Timestamp {
        year: 2021,
        month: 8,
        day: 1,
        hour: 12,
        minute: 34,
        second: 56,
        nanos: 0,
        offset_seconds: 0,
    };
    let line = chars(" worlds/Bedrock/db/000123.ldb:4096 worlds/Bedrock/level.dat:8192");
    let existing: Vec<Vec<char>> = Vec::new();
    let plan = b.plan_backup(&line, &now, &existing).unwrap();
    // The world name is everything before the first slash of the line.
    assert_eq!(string(&plan.world_dir), "./backups/ worlds");
    assert_eq!(
        string(&plan.record_dir),
        "./backups/ worlds/2021-08-01 12_34_56 +0000"
    );
    assert_eq!(plan.copies.len(), 2);
    assert_eq!(
        string(&plan.copies[0].source),
        "./server/worlds/worlds/Bedrock/db/000123.ldb"
    );
    assert_eq!(
        string(&plan.copies[0].dest),
        "./backups/ worlds/2021-08-01 12_34_56 +0000/worlds/Bedrock/db/000123.ldb"
    );
    // The reported size is authoritative, whatever the file holds now.
    assert_eq!(plan.copies[0].size, 4096);
    assert_eq!(plan.copies[1].size, 8192);
    assert!(plan.deletes.is_empty());
}

#[test]
fn plan_deletes_oldest_beyond_retention() {
    let b = engine();
    let now = Timestamp {
        year: 2021,
        month: 8,
        day: 2,
        hour: 0,
        minute: 0,
        second: 0,
        nanos: 0,
        offset_seconds: 0,
    };
    let existing = vec![
        chars("2021-08-01 12_00_04 +0000"),
        chars("2021-08-01 12_00_01 +0000"),
        chars("stray-file"),
        chars("2021-08-01 12_00_03 +0000"),
        chars("2021-08-01 12_00_02 +0000"),
    ];
    let plan = b
        .plan_backup(&chars(" w/level.dat:10"), &now, &existing)
        .unwrap();
    let got: Vec<String> = plan.deletes.iter().map(|n| string(n)).collect();
    assert_eq!(
        got,
        vec![
            "./backups/ w/2021-08-01 12_00_01 +0000".to_string(),
            "./backups/ w/2021-08-01 12_00_02 +0000".to_string(),
        ]
    );
}

#[test]
fn world_name_is_whole_line_without_slash() {
    let name = bedrock_backup::backup::world_name_of(&chars("standalone"));
    assert_eq!(string(&name), "standalone");
    let name = bedrock_backup::backup::world_name_of(&chars(" worlds/Bedrock/level.dat:1"));
    assert_eq!(string(&name), " worlds");
}

#[test]
fn malformed_size_fails_the_whole_plan() {
    let b = engine();
    let now = Timestamp {
        year: 2021,
        month: 1,
        day: 1,
        hour: 0,
        minute: 0,
        second: 0,
        nanos: 0,
        offset_seconds: 0,
    };
    let r = b.plan_backup(
        &chars(" w/ok.dat:5 w/too-big.dat:99999999999999999999"),
        &now,
        &Vec::new(),
    );
    assert!(r.is_err());
}

#[test]
fn colliding_record_name_is_fatal() {
    let b = engine();
    let now = Timestamp {
        year: 2021,
        month: 8,
        day: 1,
        hour: 12,
        minute: 34,
        second: 56,
        nanos: 0,
        offset_seconds: 0,
    };
    // A directory already bears the name the new record would get.
    let existing = vec![chars("2021-08-01 12_34_56 +0000")];
    let r = b.plan_backup(&chars(" w/level.dat:10"), &now, &existing);
    assert_eq!(r.unwrap_err(), bedrock_backup::BackupError::FilesystemError);
}

#[test]
fn deletions_never_target_the_new_record() {
    let b = Backuper::new(chars("./backups"), chars("./server/worlds"), 1);
    let now = Timestamp {
        year: 2021,
        month: 8,
        day: 1,
        hour: 12,
        minute: 0,
        second: 4,
        nanos: 0,
        offset_seconds: 0,
    };
    // Retention 1 deletes every pre-existing record, but never the new one.
    let existing = vec![
        chars("2021-08-01 12_00_01 +0000"),
        chars("2021-08-01 12_00_02 +0000"),
    ];
    let plan = b.plan_backup(&chars(" w/level.dat:10"), &now, &existing).unwrap();
    assert_eq!(plan.deletes.len(), 2);
    for d in &plan.deletes {
        assert_ne!(string(d), string(&plan.record_dir));
    }
}

#[test]
fn clock_gate_accepts_only_nameable_readings() {
    let good = Timestamp {
        year: 2021,
        month: 8,
        day: 1,
        hour: 12,
        minute: 34,
        second: 56,
        nanos: 999_999_999,
        offset_seconds: 32400,
    };
    assert_eq!(accept_clock(good), Some(good));
    let year_zero = Timestamp { year: 0, ..good };
    assert_eq!(accept_clock(year_zero), None);
    let feb_30 = Timestamp {
        month: 2,
        day: 30,
        ..good
    };
    assert_eq!(accept_clock(feb_30), None);
    let leap_second = Timestamp {
        nanos: 1_500_000_000,
        ..good
    };
    assert_eq!(accept_clock(leap_second), None);
}

#[test]
fn current_time_is_well_formed() {
    let ts = current_timestamp().expect("the clock lies in range");
    assert!(ts.year >= 2020 && ts.year <= 9999);
    assert!((1..=12).contains(&ts.month));
    assert!((1..=31).contains(&ts.day));
    assert!(ts.hour < 24 && ts.minute < 60 && ts.second < 60);
    assert!(ts.nanos < 1_000_000_000);
}
