//! The record and account types, their mathematical models, and the
//! comparisons the merge pipeline is built on.

use vstd::prelude::*;

verus! {

/// One note record. Optional fields model empty cells: absence compares equal
/// only to absence. The creation time is kept as milliseconds since the epoch.
#[derive(Debug, PartialEq, Eq)]
pub struct NoteEntry {
    pub note_id: u64,
    pub created_at: i64,
    pub alias: Option<String>,
    pub tweet_id: Option<u64>,
    pub user_id: Option<u64>,
    pub misleading: Option<bool>,
    pub helpful: Option<bool>,
}

/// The mathematical model of a record: the same fields, with strings as
/// character sequences. Contracts and lemmas speak of this type.
pub struct NoteView {
    pub note_id: u64,
    pub created_at: i64,
    pub alias: Option<Seq<char>>,
    pub tweet_id: Option<u64>,
    pub user_id: Option<u64>,
    pub misleading: Option<bool>,
    pub helpful: Option<bool>,
}

pub open spec fn view_opt_string(s: Option<String>) -> Option<Seq<char>> {
    match s {
        Option::Some(v) => Option::Some(v@),
        Option::None => Option::None,
    }
}

impl View for NoteEntry {
    type V = NoteView;

    open spec fn view(&self) -> NoteView {
        NoteView {
            note_id: self.note_id,
            created_at: self.created_at,
            alias: view_opt_string(self.alias),
            tweet_id: self.tweet_id,
            user_id: self.user_id,
            misleading: self.misleading,
            helpful: self.helpful,
        }
    }
}

/// The model of a sequence of records.
pub open spec fn views(s: Seq<NoteEntry>) -> Seq<NoteView> {
    Seq::new(s.len(), |i: int| s[i]@)
}

/// Appending a record and taking the model commute.
pub proof fn lemma_views_push(s: Seq<NoteEntry>, x: NoteEntry)
    ensures
        views(s.push(x)) == views(s).push(x@),
{
    assert(views(s.push(x)) =~= views(s).push(x@));
}

/// Concatenating records and taking the model commute.
pub proof fn lemma_views_concat(a: Seq<NoteEntry>, b: Seq<NoteEntry>)
    ensures
        views(a + b) == views(a) + views(b),
{
    assert(views(a + b) =~= views(a) + views(b));
}

fn clone_opt_string(s: &Option<String>) -> (r: Option<String>)
    ensures
        view_opt_string(r) == view_opt_string(*s),
{
    match s {
        Option::Some(v) => Option::Some(v.clone()),
        Option::None => Option::None,
    }
}

impl Clone for NoteEntry {
    fn clone(&self) -> (r: Self)
        ensures
            r@ == self@,
    {
        NoteEntry {
            note_id: self.note_id,
            created_at: self.created_at,
            alias: clone_opt_string(&self.alias),
            tweet_id: self.tweet_id,
            user_id: self.user_id,
            misleading: self.misleading,
            helpful: self.helpful,
        }
    }
}

fn opt_string_eq(a: &Option<String>, b: &Option<String>) -> (r: bool)
    ensures
        r == (view_opt_string(*a) == view_opt_string(*b)),
{
    match (a, b) {
        (Option::Some(x), Option::Some(y)) => x.eq(y),
        (Option::None, Option::None) => true,
        _ => false,
    }
}

fn opt_u64_eq(a: &Option<u64>, b: &Option<u64>) -> (r: bool)
    ensures
        r == (*a == *b),
{
    match (a, b) {
        (Option::Some(x), Option::Some(y)) => x == y,
        (Option::None, Option::None) => true,
        _ => false,
    }
}

fn opt_bool_eq(a: &Option<bool>, b: &Option<bool>) -> (r: bool)
    ensures
        r == (*a == *b),
{
    match (a, b) {
        (Option::Some(x), Option::Some(y)) => x == y,
        (Option::None, Option::None) => true,
        _ => false,
    }
}

/// Full structural equality of two records: the relation deduplication uses.
pub fn note_eq(a: &NoteEntry, b: &NoteEntry) -> (r: bool)
    ensures
        r == (a@ == b@),
{
    a.note_id == b.note_id && a.created_at == b.created_at && opt_string_eq(&a.alias, &b.alias)
        && opt_u64_eq(&a.tweet_id, &b.tweet_id) && opt_u64_eq(&a.user_id, &b.user_id)
        && opt_bool_eq(&a.misleading, &b.misleading) && opt_bool_eq(&a.helpful, &b.helpful)
}

/// Order on optional owner identifiers: an absent owner sorts before any
/// present one.
pub open spec fn opt_owner_lt(a: Option<u64>, b: Option<u64>) -> bool {
    match (a, b) {
        (Option::None, Option::Some(_)) => true,
        (Option::Some(x), Option::Some(y)) => x < y,
        _ => false,
    }
}

/// Two records share a sort key when owner and note identifier agree.
pub open spec fn same_key(a: NoteView, b: NoteView) -> bool {
    a.user_id == b.user_id && a.note_id == b.note_id
}

/// The canonical order: lexicographic on `(owner_id, note_id)`, absent owners
/// first.
pub open spec fn key_le(a: NoteView, b: NoteView) -> bool {
    opt_owner_lt(a.user_id, b.user_id) || (a.user_id == b.user_id && a.note_id <= b.note_id)
}

/// Comparison of two records in the canonical order.
pub fn le_by_key(a: &NoteEntry, b: &NoteEntry) -> (r: bool)
    ensures
        r == key_le(a@, b@),
{
    match (a.user_id, b.user_id) {
        (Option::None, Option::Some(_)) => true,
        (Option::None, Option::None) => a.note_id <= b.note_id,
        (Option::Some(_), Option::None) => false,
        (Option::Some(x), Option::Some(y)) => x < y || (x == y && a.note_id <= b.note_id),
    }
}

/// One row of the allow-list source. Only `id` feeds the pipeline; the other
/// columns are metadata carried alongside it. The timestamp is kept as
/// seconds since the epoch.
#[derive(Debug, PartialEq, Eq)]
pub struct Account {
    pub id: u64,
    pub timestamp: i64,
    pub screen_name: String,
    pub follower_count: usize,
}

/// The owner identifiers of a list of accounts, in order.
pub fn account_ids(accounts: &Vec<Account>) -> (r: Vec<u64>)
    ensures
        r@.len() == accounts@.len(),
        forall|i: int| 0 <= i < accounts@.len() ==> r@[i] == accounts@[i].id,
{
    let mut r: Vec<u64> = Vec::new();
    for i in 0..accounts.len()
        invariant
            r@.len() == i,
            forall|j: int| 0 <= j < i ==> r@[j] == accounts@[j].id,
    {
        r.push(accounts[i].id);
    }
    r
}

} // verus!
