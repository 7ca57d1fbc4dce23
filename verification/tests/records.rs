use xgov::engine::allow_contains;
use xgov::engine::dedup_notes;
use xgov::engine::filter_notes;
use xgov::engine::sort_notes;
use xgov::note::account_ids;
use xgov::note::le_by_key;
use xgov::note::note_eq;
use xgov::note::Account;
use xgov::note::NoteEntry;

fn note(note_id: u64, owner: Option<u64>, alias: Option<&str>) -> NoteEntry {
    NoteEntry {
        note_id,
        created_at: 0,
        alias: alias.map(|s| s.to_string()),
        tweet_id: None,
        user_id: owner,
        misleading: None,
        helpful: None,
    }
}

#[test]
fn note_eq_is_full_structural_equality() {
    let a = note(1, Some(10), Some("a"));
    assert!(note_eq(&a, &a.clone()));
    let mut b = a.clone();
    b.alias = None;
    assert!(!note_eq(&a, &b));
    let mut c = a.clone();
    c.created_at = 1;
    assert!(!note_eq(&a, &c));
    let mut d = a.clone();
    d.helpful = Some(true);
    assert!(!note_eq(&a, &d));
}

#[test]
fn absence_compares_equal_only_to_absence() {
    let absent = note(1, Some(10), None);
    let empty_alias = note(1, Some(10), Some(""));
    assert!(!note_eq(&absent, &empty_alias));
    assert!(note_eq(&absent, &absent.clone()));
}

#[test]
fn key_order_puts_absent_owner_first() {
    let unowned = note(9, None, None);
    let owned = note(1, Some(0), None);
    assert!(le_by_key(&unowned, &owned));
    assert!(!le_by_key(&owned, &unowned));
}

#[test]
fn key_order_is_owner_then_note_id() {
    let a = note(9, Some(1), None);
    let b = note(1, Some(2), None);
    assert!(le_by_key(&a, &b));
    assert!(!le_by_key(&b, &a));
    let c = note(2, Some(1), None);
    assert!(le_by_key(&c, &a));
    assert!(!le_by_key(&a, &c));
    assert!(le_by_key(&a, &a));
}

#[test]
fn account_ids_projects_in_order() {
    let accounts = vec![
        Account { id: 3, timestamp: 0, screen_name: "c".to_string(), follower_count: 1 },
        Account { id: 1, timestamp: 5, screen_name: "a".to_string(), follower_count: 0 },
        Account { id: 3, timestamp: 9, screen_name: "c2".to_string(), follower_count: 2 },
    ];
    assert_eq!(account_ids(&accounts), vec![3, 1, 3]);
}

#[test]
fn allow_contains_is_membership() {
    let allow = vec![5, 7, 7, 9];
    assert!(allow_contains(&allow, 7));
    assert!(allow_contains(&allow, 9));
    assert!(!allow_contains(&allow, 8));
    assert!(!allow_contains(&vec![], 0));
}

#[test]
fn filter_keeps_batch_order() {
    let allow = vec![10, 20];
    let batch = vec![
        note(3, Some(20), None),
        note(2, None, None),
        note(1, Some(10), None),
        note(4, Some(30), None),
    ];
    let kept = filter_notes(&allow, &batch);
    assert_eq!(kept, vec![note(3, Some(20), None), note(1, Some(10), None)]);
}

#[test]
fn sort_is_stable_for_equal_keys() {
    let a = note(1, Some(10), Some("first"));
    let b = note(1, Some(10), Some("second"));
    let c = note(1, None, None);
    let sorted = sort_notes(&vec![a.clone(), b.clone(), c.clone()]);
    assert_eq!(sorted, vec![c, a, b]);
}

#[test]
fn dedup_collapses_adjacent_runs_only() {
    let a = note(1, Some(10), Some("a"));
    let b = note(1, Some(10), Some("b"));
    let v = vec![a.clone(), a.clone(), a.clone(), b.clone(), a.clone()];
    assert_eq!(dedup_notes(&v), vec![a.clone(), b, a]);
}
