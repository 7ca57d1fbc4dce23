use xgov::engine::merge_notes;
use xgov::engine::update_notes;
use xgov::note::NoteEntry;

fn note(note_id: u64, owner: Option<u64>, alias: Option<&str>) -> NoteEntry {
    NoteEntry {
        note_id,
        created_at: 0,
        alias: alias.map(|s| s.to_string()),
        tweet_id: None,
        user_id: owner,
        misleading: None,
        helpful: None,
    }
}

#[test]
fn spec_example_scenario() {
    // prior table has note 1 of owner 10; the batch repeats it exactly, adds
    // note 2 of owner 20 (allowed) and note 3 of owner 30 (not allowed).
    let prior = vec![note(1, Some(10), Some("a"))];
    let allow = vec![10, 20];
    let batch = vec![
        note(1, Some(10), Some("a")),
        note(2, Some(20), Some("b")),
        note(3, Some(30), Some("c")),
    ];
    let out = update_notes(&allow, &prior, &vec![batch]);
    assert_eq!(
        out,
        vec![note(1, Some(10), Some("a")), note(2, Some(20), Some("b"))]
    );
}

#[test]
fn empty_everything() {
    let out = update_notes(&vec![], &vec![], &vec![]);
    assert!(out.is_empty());
}

#[test]
fn idempotent_on_empty_batch_set() {
    let allow = vec![10, 20];
    let prior = vec![note(5, Some(20), None), note(4, None, Some("x"))];
    let batch = vec![note(6, Some(10), Some("y"))];
    let once = update_notes(&allow, &prior, &vec![batch]);
    let again = update_notes(&allow, &once, &vec![]);
    assert_eq!(again, once);
}

#[test]
fn retried_identical_batch_does_not_grow() {
    let allow = vec![10];
    let batch = vec![note(1, Some(10), Some("a")), note(2, Some(10), None)];
    let once = update_notes(&allow, &vec![], &vec![batch.clone()]);
    let twice = update_notes(&allow, &once, &vec![batch]);
    assert_eq!(twice, once);
}

#[test]
fn filter_drops_absent_and_disallowed_owners() {
    let allow = vec![10];
    let batch = vec![
        note(1, None, Some("unattributed")),
        note(2, Some(99), Some("stranger")),
        note(3, Some(10), Some("ok")),
    ];
    let out = update_notes(&allow, &vec![], &vec![batch]);
    assert_eq!(out, vec![note(3, Some(10), Some("ok"))]);
}

#[test]
fn carry_forward_ignores_current_allow_list() {
    // owner 99 is no longer allowed; its prior record survives anyway, as
    // does the legacy record without any owner.
    let allow = vec![10];
    let prior = vec![note(7, None, None), note(8, Some(99), Some("old"))];
    let out = update_notes(&allow, &prior, &vec![]);
    assert_eq!(out, prior);
}

#[test]
fn identical_records_collapse_to_one() {
    let allow = vec![10];
    let prior = vec![note(1, Some(10), Some("a"))];
    let b1 = vec![note(1, Some(10), Some("a")), note(1, Some(10), Some("a"))];
    let b2 = vec![note(1, Some(10), Some("a"))];
    let out = update_notes(&allow, &prior, &vec![b1, b2]);
    assert_eq!(out, vec![note(1, Some(10), Some("a"))]);
}

#[test]
fn key_collision_keeps_both_records() {
    let allow = vec![10];
    let prior = vec![note(1, Some(10), Some("a"))];
    let batch = vec![note(1, Some(10), Some("b"))];
    let out = update_notes(&allow, &prior, &vec![batch]);
    assert_eq!(out.len(), 2);
    assert!(out.contains(&note(1, Some(10), Some("a"))));
    assert!(out.contains(&note(1, Some(10), Some("b"))));
}

#[test]
fn deterministic_across_runs() {
    let allow = vec![10, 20];
    let prior = vec![note(9, Some(20), None)];
    let batches = vec![
        vec![note(2, Some(10), Some("b")), note(1, Some(10), Some("a"))],
        vec![note(3, Some(20), None)],
    ];
    let first = update_notes(&allow, &prior, &batches);
    let second = update_notes(&allow, &prior, &batches);
    assert_eq!(first, second);
}

#[test]
fn output_sorted_by_owner_then_note_absent_owner_first() {
    let allow = vec![1, 2];
    let prior = vec![note(5, None, None), note(9, Some(2), None)];
    let batch = vec![
        note(7, Some(2), None),
        note(3, Some(1), None),
        note(1, Some(2), None),
    ];
    let out = update_notes(&allow, &prior, &vec![batch]);
    let keys: Vec<(Option<u64>, u64)> = out.iter().map(|n| (n.user_id, n.note_id)).collect();
    assert_eq!(
        keys,
        vec![(None, 5), (Some(1), 3), (Some(2), 1), (Some(2), 7), (Some(2), 9)]
    );
}

#[test]
fn merge_dedups_only_adjacent_full_equals() {
    // two identical copies separated, after the stable sort, by a
    // conflicting record with the same key: both copies survive.
    let a = note(1, Some(10), Some("a"));
    let x = note(1, Some(10), Some("x"));
    let existing = vec![a.clone(), x.clone()];
    let incoming = vec![a.clone()];
    let out = merge_notes(&existing, &incoming);
    assert_eq!(out, vec![a.clone(), x, a]);
}

#[test]
fn merge_keeps_batch_order_among_equal_keys() {
    let first = note(1, Some(10), Some("first"));
    let second = note(1, Some(10), Some("second"));
    let out = merge_notes(&vec![first.clone()], &vec![second.clone()]);
    assert_eq!(out, vec![first, second]);
}

#[test]
fn all_fields_take_part_in_equality() {
    let mut a = note(1, Some(10), Some("a"));
    a.created_at = 100;
    a.tweet_id = Some(7);
    a.misleading = Some(true);
    a.helpful = Some(false);
    let mut b = a.clone();
    b.helpful = None;
    let out = merge_notes(&vec![a.clone()], &vec![b.clone()]);
    assert_eq!(out, vec![a, b]);
}
