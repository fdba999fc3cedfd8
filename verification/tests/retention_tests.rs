use bedrock_backup::retention::plan_prune;

fn chars(s: &str) -> Vec<char> {
    s.chars().collect()
}

fn string(v: &[char]) -> String {
    v.iter().collect()
}

fn names(list: &[&str]) -> Vec<Vec<char>> {
    list.iter().map(|s| chars(s)).collect()
}

const T1: &str = "2021-08-01 12_00_01 +0000";
const T2: &str = "2021-08-01 12_00_02 +0000";
const T3: &str = "2021-08-01 12_00_03 +0000";
const T4: &str = "2021-08-01 12_00_04 +0000";

#[test]
fn four_records_retain_three_deletes_two_oldest() {
    // Listed out of order, with a non-record directory mixed in.
    let existing = names(&[T3, "not-a-backup", T1, T4, T2]);
    let dels = plan_prune(&existing, 3);
    let got: Vec<String> = dels.iter().map(|n| string(n)).collect();
    assert_eq!(got, vec![T1.to_string(), T2.to_string()]);
}

#[test]
fn non_matching_names_are_never_selected_or_counted() {
    let existing = names(&["junk", "2021-99-99", "", T1]);
    // Only one real record; with retain_count 2 nothing must go.
    let dels = plan_prune(&existing, 2);
    assert!(dels.is_empty());
    // With retain_count 1 the single record goes; junk is untouched.
    let dels = plan_prune(&existing, 1);
    let got: Vec<String> = dels.iter().map(|n| string(n)).collect();
    assert_eq!(got, vec![T1.to_string()]);
}

#[test]
fn retain_zero_behaves_like_one() {
    let existing = names(&[T1, T2]);
    let zero = plan_prune(&existing, 0);
    let one = plan_prune(&existing, 1);
    let z: Vec<String> = zero.iter().map(|n| string(n)).collect();
    let o: Vec<String> = one.iter().map(|n| string(n)).collect();
    assert_eq!(z, o);
    assert_eq!(z, vec![T1.to_string(), T2.to_string()]);
}

#[test]
fn large_retention_deletes_nothing() {
    // Retention counts the record about to be created: five keeps all four
    // pre-existing, four keeps three of them.
    let existing = names(&[T1, T2, T3, T4]);
    assert!(plan_prune(&existing, 5).is_empty());
    let dels = plan_prune(&existing, 4);
    let got: Vec<String> = dels.iter().map(|n| string(n)).collect();
    assert_eq!(got, vec![T1.to_string()]);
}

#[test]
fn count_after_pruning_is_min() {
    // M = 4 pre-existing, N = 3: exactly min(M, N-1) = 2 remain.
    let existing = names(&[T1, T2, T3, T4]);
    let dels = plan_prune(&existing, 3);
    assert_eq!(existing.len() - dels.len(), 2);
}
