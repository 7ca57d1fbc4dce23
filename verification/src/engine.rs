//! The merge pipeline: filter batches against the allow-list, append them to
//! the accumulated table, sort by `(owner_id, note_id)`, and drop adjacent
//! fully equal records.

use vstd::prelude::*;

use crate::note::key_le;
use crate::note::le_by_key;
use crate::note::note_eq;
use crate::note::views;
use crate::note::NoteEntry;
use crate::note::NoteView;

verus! {

/// A record qualifies for ingestion when its owner is present and allowed.
pub open spec fn allowed(allow: Seq<u64>, n: NoteView) -> bool {
    match n.user_id {
        Option::Some(id) => allow.contains(id),
        Option::None => false,
    }
}

/// The records of a batch that qualify, in batch order.
pub open spec fn filter_allowed(allow: Seq<u64>, s: Seq<NoteView>) -> Seq<NoteView>
    decreases s.len(),
{
    if s.len() == 0 {
        Seq::empty()
    } else if allowed(allow, s.last()) {
        filter_allowed(allow, s.drop_last()).push(s.last())
    } else {
        filter_allowed(allow, s.drop_last())
    }
}

/// A stable insertion into a sequence: the new record goes after every
/// leading record whose key is not above it.
pub open spec fn insert_sorted(x: NoteView, s: Seq<NoteView>) -> Seq<NoteView>
    decreases s.len(),
{
    if s.len() == 0 {
        seq![x]
    } else if key_le(s[0], x) {
        seq![s[0]] + insert_sorted(x, s.drop_first())
    } else {
        seq![x] + s
    }
}

/// A stable sort by `(owner_id, note_id)`: records with equal keys keep their
/// relative order.
pub open spec fn sort_by_key(s: Seq<NoteView>) -> Seq<NoteView>
    decreases s.len(),
{
    if s.len() == 0 {
        Seq::empty()
    } else {
        insert_sorted(s.last(), sort_by_key(s.drop_last()))
    }
}

/// Adjacent fully equal records collapse to one; records that merely share a
/// key stay distinct.
pub open spec fn dedup_adjacent(s: Seq<NoteView>) -> Seq<NoteView>
    decreases s.len(),
{
    if s.len() <= 1 {
        s
    } else if s[0] == s[1] {
        dedup_adjacent(s.drop_first())
    } else {
        seq![s[0]] + dedup_adjacent(s.drop_first())
    }
}

/// What the engine produces from the prior table and the filtered batches.
pub open spec fn merge_spec(existing: Seq<NoteView>, incoming: Seq<NoteView>) -> Seq<NoteView> {
    dedup_adjacent(sort_by_key(existing + incoming))
}

/// Sortedness in the canonical order.
pub open spec fn sorted_by_key(s: Seq<NoteView>) -> bool {
    forall|i: int, j: int| 0 <= i < j < s.len() ==> key_le(s[i], s[j])
}

/// No two neighbouring records are fully equal.
pub open spec fn no_adjacent_dups(s: Seq<NoteView>) -> bool {
    forall|i: int| 0 <= i < s.len() - 1 ==> #[trigger] s[i] != s[i + 1]
}

/// The shape every accumulated table written by the engine has.
pub open spec fn canonical(s: Seq<NoteView>) -> bool {
    sorted_by_key(s) && no_adjacent_dups(s)
}

/// Membership in the allow-list.
pub fn allow_contains(allow: &Vec<u64>, id: u64) -> (r: bool)
    ensures
        r == allow@.contains(id),
{
    let mut i: usize = 0;
    while i < allow.len()
        invariant
            i <= allow@.len(),
            forall|j: int| 0 <= j < i ==> allow@[j] != id,
        decreases allow@.len() - i,
    {
        if allow[i] == id {
            return true;
        }
        i += 1;
    }
    false
}

/// Keeps exactly the records of one batch whose owner is present and on the
/// allow-list, in batch order.
pub fn filter_notes(allow: &Vec<u64>, batch: &Vec<NoteEntry>) -> (r: Vec<NoteEntry>)
    ensures
        views(r@) == filter_allowed(allow@, views(batch@)),
{
    let mut out: Vec<NoteEntry> = Vec::new();
    for i in 0..batch.len()
        invariant
            views(out@) == filter_allowed(allow@, views(batch@).take(i as int)),
    {
        let keep = match batch[i].user_id {
            Option::Some(id) => allow_contains(allow, id),
            Option::None => false,
        };
        proof {
            let vb = views(batch@);
            assert(vb.take(i + 1).drop_last() =~= vb.take(i as int));
            assert(vb.take(i + 1).last() == vb[i as int]);
        }
        if keep {
            let x = batch[i].clone();
            proof {
                crate::note::lemma_views_push(out@, x);
            }
            out.push(x);
        }
    }
    proof {
        assert(views(batch@).take(batch@.len() as int) =~= views(batch@));
    }
    out
}

/// Where the scan of a stable insertion stops is where the record goes.
pub(crate) proof fn lemma_insert_sorted_at(x: NoteView, s: Seq<NoteView>, i: int)
    requires
        0 <= i <= s.len(),
        forall|k: int| 0 <= k < i ==> key_le(#[trigger] s[k], x),
        i < s.len() ==> !key_le(s[i], x),
    ensures
        insert_sorted(x, s) == s.insert(i, x),
    decreases s.len(),
{
    if i == 0 {
        assert(insert_sorted(x, s) =~= s.insert(0, x));
    } else {
        assert(forall|k: int| 0 <= k < i - 1 ==> key_le(#[trigger] s.drop_first()[k], x)) by {
            assert(forall|k: int| 0 <= k < i - 1 ==> s.drop_first()[k] == s[k + 1]);
        }
        lemma_insert_sorted_at(x, s.drop_first(), i - 1);
        assert(seq![s[0]] + s.drop_first().insert(i - 1, x) =~= s.insert(i, x));
    }
}

/// Inserts one record into a run, after every leading record whose key is
/// not above it.
fn insert_by_key(v: &mut Vec<NoteEntry>, x: NoteEntry)
    ensures
        views(final(v)@) == insert_sorted(x@, views(old(v)@)),
{
    let mut i: usize = 0;
    while i < v.len() && le_by_key(&v[i], &x)
        invariant
            i <= v@.len(),
            forall|k: int| 0 <= k < i ==> key_le(#[trigger] views(v@)[k], x@),
        decreases v@.len() - i,
    {
        i += 1;
    }
    proof {
        lemma_insert_sorted_at(x@, views(v@), i as int);
        assert(views(v@.insert(i as int, x)) =~= views(v@).insert(i as int, x@));
    }
    v.insert(i, x);
}

/// Stable insertion sort by `(owner_id, note_id)`: records with equal keys
/// keep their relative order.
pub fn sort_notes(v: &Vec<NoteEntry>) -> (r: Vec<NoteEntry>)
    ensures
        views(r@) == sort_by_key(views(v@)),
{
    let mut out: Vec<NoteEntry> = Vec::new();
    for i in 0..v.len()
        invariant
            views(out@) == sort_by_key(views(v@).take(i as int)),
    {
        proof {
            let vv = views(v@);
            assert(vv.take(i + 1).drop_last() =~= vv.take(i as int));
            assert(vv.take(i + 1).last() == vv[i as int]);
        }
        insert_by_key(&mut out, v[i].clone());
    }
    proof {
        assert(views(v@).take(v@.len() as int) =~= views(v@));
    }
    out
}

/// Deduplication keeps the last record of a sequence.
proof fn lemma_dedup_last(s: Seq<NoteView>)
    requires
        s.len() > 0,
    ensures
        dedup_adjacent(s).len() > 0,
        dedup_adjacent(s).last() == s.last(),
    decreases s.len(),
{
    if s.len() > 1 {
        lemma_dedup_last(s.drop_first());
        if s[0] != s[1] {
            assert((seq![s[0]] + dedup_adjacent(s.drop_first())).last() == dedup_adjacent(
                s.drop_first(),
            ).last());
        }
    }
}

/// What one more record does to a deduplicated sequence: nothing when it
/// repeats the last record, one appended row otherwise.
proof fn lemma_dedup_push(s: Seq<NoteView>, x: NoteView)
    ensures
        s.len() > 0 && s.last() == x ==> dedup_adjacent(s.push(x)) == dedup_adjacent(s),
        !(s.len() > 0 && s.last() == x) ==> dedup_adjacent(s.push(x)) == dedup_adjacent(s).push(x),
    decreases s.len(),
{
    if s.len() == 0 {
        assert(dedup_adjacent(s.push(x)) =~= dedup_adjacent(s).push(x));
    } else if s.len() == 1 {
        assert(s.push(x).drop_first() =~= seq![x]);
        assert(dedup_adjacent(seq![x]) == seq![x]);
        if s[0] == x {
            assert(dedup_adjacent(s.push(x)) =~= dedup_adjacent(s));
        } else {
            assert(dedup_adjacent(s.push(x)) =~= dedup_adjacent(s).push(x));
        }
    } else {
        assert(s.push(x).drop_first() =~= s.drop_first().push(x));
        lemma_dedup_push(s.drop_first(), x);
        assert(s.drop_first().last() == s.last());
        if s[0] == s[1] {
        } else {
            if s.last() == x {
            } else {
                assert(seq![s[0]] + dedup_adjacent(s.drop_first()).push(x) =~= (seq![s[0]]
                    + dedup_adjacent(s.drop_first())).push(x));
            }
        }
    }
}

/// Collapses each run of adjacent fully equal records to one record.
pub fn dedup_notes(v: &Vec<NoteEntry>) -> (r: Vec<NoteEntry>)
    ensures
        views(r@) == dedup_adjacent(views(v@)),
{
    let mut out: Vec<NoteEntry> = Vec::new();
    for i in 0..v.len()
        invariant
            views(out@) == dedup_adjacent(views(v@).take(i as int)),
    {
        proof {
            let vv = views(v@);
            assert(vv.take(i as int).push(vv[i as int]) =~= vv.take(i + 1));
            lemma_dedup_push(vv.take(i as int), vv[i as int]);
            if i > 0 {
                lemma_dedup_last(vv.take(i as int));
            }
        }
        let dup = out.len() > 0 && note_eq(&out[out.len() - 1], &v[i]);
        if !dup {
            let x = v[i].clone();
            proof {
                crate::note::lemma_views_push(out@, x);
            }
            out.push(x);
        }
    }
    proof {
        assert(views(v@).take(v@.len() as int) =~= views(v@));
    }
    out
}

/// Merges the prior accumulated table with already filtered incoming
/// records: their concatenation, sorted by `(owner_id, note_id)` with absent
/// owners first, with adjacent fully equal records collapsed. Records of the
/// prior table are never filtered here.
pub fn merge_notes(existing: &Vec<NoteEntry>, incoming: &Vec<NoteEntry>) -> (r: Vec<NoteEntry>)
    ensures
        views(r@) == merge_spec(views(existing@), views(incoming@)),
        canonical(views(r@)),
{
    proof {
        crate::laws::lemma_merge_canonical(views(existing@), views(incoming@));
    }
    let mut all: Vec<NoteEntry> = Vec::new();
    for i in 0..existing.len()
        invariant
            views(all@) == views(existing@).take(i as int),
    {
        let x = existing[i].clone();
        proof {
            crate::note::lemma_views_push(all@, x);
            assert(views(existing@).take(i as int).push(views(existing@)[i as int]) =~= views(
                existing@,
            ).take(i + 1));
        }
        all.push(x);
    }
    proof {
        assert(views(existing@).take(existing@.len() as int) =~= views(existing@));
        assert(views(existing@) + views(incoming@).take(0) =~= views(existing@));
    }
    for i in 0..incoming.len()
        invariant
            views(all@) == views(existing@) + views(incoming@).take(i as int),
    {
        let x = incoming[i].clone();
        proof {
            crate::note::lemma_views_push(all@, x);
            assert((views(existing@) + views(incoming@).take(i as int)).push(
                views(incoming@)[i as int],
            ) =~= views(existing@) + views(incoming@).take(i + 1));
        }
        all.push(x);
    }
    proof {
        assert(views(existing@) + views(incoming@).take(incoming@.len() as int) =~= views(
            existing@,
        ) + views(incoming@));
    }
    let sorted = sort_notes(&all);
    dedup_notes(&sorted)
}

/// The models of a list of batches.
pub open spec fn batch_views(bs: Seq<Vec<NoteEntry>>) -> Seq<Seq<NoteView>> {
    Seq::new(bs.len(), |i: int| views(bs[i]@))
}

/// What ingestion contributes: the filtered batches, concatenated in the
/// order they were given.
pub open spec fn ingest(allow: Seq<u64>, batches: Seq<Seq<NoteView>>) -> Seq<NoteView>
    decreases batches.len(),
{
    if batches.len() == 0 {
        Seq::empty()
    } else {
        ingest(allow, batches.drop_last()) + filter_allowed(allow, batches.last())
    }
}

/// What one whole run computes from the allow-list, the prior accumulated
/// table and the batches.
pub open spec fn pipeline_spec(
    allow: Seq<u64>,
    existing: Seq<NoteView>,
    batches: Seq<Seq<NoteView>>,
) -> Seq<NoteView> {
    merge_spec(existing, ingest(allow, batches))
}

/// One run of the pipeline: each batch is filtered against the allow-list,
/// the survivors are appended in batch order, and the result is merged with
/// the prior accumulated table.
pub fn update_notes(
    allow: &Vec<u64>,
    existing: &Vec<NoteEntry>,
    batches: &Vec<Vec<NoteEntry>>,
) -> (r: Vec<NoteEntry>)
    ensures
        views(r@) == pipeline_spec(allow@, views(existing@), batch_views(batches@)),
        canonical(views(r@)),
{
    let mut incoming: Vec<NoteEntry> = Vec::new();
    proof {
        assert(views(incoming@) =~= ingest(allow@, batch_views(batches@).take(0)));
    }
    for i in 0..batches.len()
        invariant
            views(incoming@) == ingest(allow@, batch_views(batches@).take(i as int)),
    {
        let mut filtered = filter_notes(allow, &batches[i]);
        proof {
            let bv = batch_views(batches@);
            assert(bv.take(i + 1).drop_last() =~= bv.take(i as int));
            assert(bv.take(i + 1).last() == bv[i as int]);
            crate::note::lemma_views_concat(incoming@, filtered@);
        }
        incoming.append(&mut filtered);
    }
    proof {
        assert(batch_views(batches@).take(batches@.len() as int) =~= batch_views(batches@));
    }
    merge_notes(existing, &incoming)
}

} // verus!
