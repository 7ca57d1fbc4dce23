//! The guarantees the pipeline gives, proved once and for all over the
//! engine's specification functions.

use vstd::prelude::*;

use crate::engine::allowed;
use crate::engine::canonical;
use crate::engine::dedup_adjacent;
use crate::engine::filter_allowed;
use crate::engine::ingest;
use crate::engine::insert_sorted;
use crate::engine::merge_spec;
use crate::engine::no_adjacent_dups;
use crate::engine::pipeline_spec;
use crate::engine::sort_by_key;
use crate::engine::sorted_by_key;
use crate::note::key_le;
use crate::note::same_key;
use crate::note::NoteView;

verus! {

/// How many times a record occurs in a sequence.
pub open spec fn count_of(s: Seq<NoteView>, x: NoteView) -> nat
    decreases s.len(),
{
    if s.len() == 0 {
        0
    } else {
        count_of(s.drop_last(), x) + (if s.last() == x {
            1nat
        } else {
            0nat
        })
    }
}

proof fn lemma_key_total(a: NoteView, b: NoteView)
    ensures
        key_le(a, b) || key_le(b, a),
{
}

proof fn lemma_key_trans(a: NoteView, b: NoteView, c: NoteView)
    requires
        key_le(a, b),
        key_le(b, c),
    ensures
        key_le(a, c),
{
}

proof fn lemma_key_both_same(a: NoteView, b: NoteView)
    requires
        key_le(a, b),
        key_le(b, a),
    ensures
        same_key(a, b),
{
}

proof fn lemma_contains_cons(s: Seq<NoteView>, y: NoteView)
    requires
        s.len() > 0,
    ensures
        s.contains(y) <==> (y == s[0] || s.drop_first().contains(y)),
{
    if s.contains(y) {
        let i = choose|i: int| 0 <= i < s.len() && s[i] == y;
        if i > 0 {
            assert(s.drop_first()[i - 1] == y);
        }
    }
    if s.drop_first().contains(y) {
        let i = choose|i: int| 0 <= i < s.drop_first().len() && s.drop_first()[i] == y;
        assert(s[i + 1] == y);
    }
}

proof fn lemma_contains_concat(a: Seq<NoteView>, b: Seq<NoteView>, y: NoteView)
    ensures
        (a + b).contains(y) <==> (a.contains(y) || b.contains(y)),
{
    if (a + b).contains(y) {
        let i = choose|i: int| 0 <= i < (a + b).len() && (a + b)[i] == y;
        if i < a.len() {
            assert(a[i] == y);
        } else {
            assert(b[i - a.len()] == y);
        }
    }
    if a.contains(y) {
        let i = choose|i: int| 0 <= i < a.len() && a[i] == y;
        assert((a + b)[i] == y);
    }
    if b.contains(y) {
        let i = choose|i: int| 0 <= i < b.len() && b[i] == y;
        assert((a + b)[a.len() + i] == y);
    }
}

proof fn lemma_count_cons(x: NoteView, s: Seq<NoteView>, y: NoteView)
    ensures
        count_of(seq![x] + s, y) == count_of(s, y) + (if x == y {
            1nat
        } else {
            0nat
        }),
    decreases s.len(),
{
    if s.len() == 0 {
        assert(seq![x] + s =~= seq![x]);
        assert((seq![x]).drop_last() =~= Seq::<NoteView>::empty());
        assert(count_of(Seq::<NoteView>::empty(), y) == 0);
        assert((seq![x]).last() == x);
    } else {
        assert((seq![x] + s).drop_last() =~= seq![x] + s.drop_last());
        assert((seq![x] + s).last() == s.last());
        lemma_count_cons(x, s.drop_last(), y);
    }
}

proof fn lemma_count_contains(s: Seq<NoteView>, y: NoteView)
    ensures
        s.contains(y) <==> count_of(s, y) > 0,
    decreases s.len(),
{
    if s.len() > 0 {
        lemma_count_contains(s.drop_last(), y);
        if s.contains(y) && s.last() != y {
            let i = choose|i: int| 0 <= i < s.len() && s[i] == y;
            assert(s.drop_last()[i] == y);
        }
        if count_of(s, y) > 0 {
            if s.last() == y {
                assert(s[s.len() - 1] == y);
            } else {
                let i = choose|i: int| 0 <= i < s.drop_last().len() && s.drop_last()[i] == y;
                assert(s[i] == y);
            }
        }
    }
}

proof fn lemma_count_insert_sorted(x: NoteView, s: Seq<NoteView>, y: NoteView)
    ensures
        count_of(insert_sorted(x, s), y) == count_of(s, y) + (if x == y {
            1nat
        } else {
            0nat
        }),
    decreases s.len(),
{
    if s.len() == 0 {
        lemma_count_cons(x, Seq::empty(), y);
        assert(seq![x] + Seq::<NoteView>::empty() =~= seq![x]);
        assert(count_of(Seq::<NoteView>::empty(), y) == 0);
    } else if key_le(s[0], x) {
        lemma_count_insert_sorted(x, s.drop_first(), y);
        lemma_count_cons(s[0], insert_sorted(x, s.drop_first()), y);
        lemma_count_cons(s[0], s.drop_first(), y);
        assert(seq![s[0]] + s.drop_first() =~= s);
    } else {
        lemma_count_cons(x, s, y);
    }
}

proof fn lemma_count_sort(s: Seq<NoteView>, y: NoteView)
    ensures
        count_of(sort_by_key(s), y) == count_of(s, y),
    decreases s.len(),
{
    if s.len() > 0 {
        lemma_count_sort(s.drop_last(), y);
        lemma_count_insert_sorted(s.last(), sort_by_key(s.drop_last()), y);
    }
}

proof fn lemma_sort_contains(s: Seq<NoteView>, y: NoteView)
    ensures
        sort_by_key(s).contains(y) <==> s.contains(y),
{
    lemma_count_sort(s, y);
    lemma_count_contains(s, y);
    lemma_count_contains(sort_by_key(s), y);
}

proof fn lemma_sorted_drop_first(s: Seq<NoteView>)
    requires
        s.len() > 0,
        sorted_by_key(s),
    ensures
        sorted_by_key(s.drop_first()),
{
    assert forall|i: int, j: int| 0 <= i < j < s.drop_first().len() implies key_le(
        s.drop_first()[i],
        s.drop_first()[j],
    ) by {
        assert(s.drop_first()[i] == s[i + 1]);
        assert(s.drop_first()[j] == s[j + 1]);
    }
}

proof fn lemma_insert_sorted_membership(x: NoteView, s: Seq<NoteView>, y: NoteView)
    ensures
        insert_sorted(x, s).contains(y) <==> (y == x || s.contains(y)),
{
    lemma_count_insert_sorted(x, s, y);
    lemma_count_contains(s, y);
    lemma_count_contains(insert_sorted(x, s), y);
}

proof fn lemma_insert_sorted_sorted(x: NoteView, s: Seq<NoteView>)
    requires
        sorted_by_key(s),
    ensures
        sorted_by_key(insert_sorted(x, s)),
    decreases s.len(),
{
    if s.len() == 0 {
    } else if key_le(s[0], x) {
        lemma_sorted_drop_first(s);
        lemma_insert_sorted_sorted(x, s.drop_first());
        let t = insert_sorted(x, s.drop_first());
        let r = seq![s[0]] + t;
        assert forall|i: int, j: int| 0 <= i < j < r.len() implies key_le(r[i], r[j]) by {
            if i == 0 {
                assert(t.contains(t[j - 1])) by {
                    assert(0 <= j - 1 < t.len());
                }
                lemma_insert_sorted_membership(x, s.drop_first(), t[j - 1]);
                if t[j - 1] == x {
                } else {
                    let k = choose|k: int|
                        0 <= k < s.drop_first().len() && s.drop_first()[k] == t[j - 1];
                    assert(s[k + 1] == t[j - 1]);
                }
            } else {
                assert(r[i] == t[i - 1]);
                assert(r[j] == t[j - 1]);
            }
        }
    } else {
        let r = seq![x] + s;
        lemma_key_total(s[0], x);
        assert forall|i: int, j: int| 0 <= i < j < r.len() implies key_le(r[i], r[j]) by {
            if i == 0 {
                lemma_key_trans(x, s[0], s[j - 1]);
            }
        }
    }
}

/// The sort's result is sorted in the canonical order.
proof fn lemma_sort_sorted(s: Seq<NoteView>)
    ensures
        sorted_by_key(sort_by_key(s)),
    decreases s.len(),
{
    if s.len() > 0 {
        lemma_sort_sorted(s.drop_last());
        lemma_insert_sorted_sorted(s.last(), sort_by_key(s.drop_last()));
    }
}

proof fn lemma_dedup_first(s: Seq<NoteView>)
    requires
        s.len() > 0,
    ensures
        dedup_adjacent(s).len() > 0,
        dedup_adjacent(s)[0] == s[0],
    decreases s.len(),
{
    if s.len() > 1 {
        lemma_dedup_first(s.drop_first());
        if s[0] != s[1] {
            assert((seq![s[0]] + dedup_adjacent(s.drop_first()))[0] == s[0]);
        }
    }
}

proof fn lemma_dedup_contains(s: Seq<NoteView>, y: NoteView)
    ensures
        dedup_adjacent(s).contains(y) <==> s.contains(y),
    decreases s.len(),
{
    if s.len() <= 1 {
    } else {
        lemma_dedup_contains(s.drop_first(), y);
        lemma_contains_cons(s, y);
        if s[0] == s[1] {
            if y == s[0] {
                assert(s.drop_first()[0] == y);
            }
        } else {
            let r = seq![s[0]] + dedup_adjacent(s.drop_first());
            lemma_contains_cons(r, y);
            assert(r.drop_first() =~= dedup_adjacent(s.drop_first()));
        }
    }
}

proof fn lemma_dedup_sorted(s: Seq<NoteView>)
    requires
        sorted_by_key(s),
    ensures
        sorted_by_key(dedup_adjacent(s)),
    decreases s.len(),
{
    if s.len() <= 1 {
    } else {
        lemma_sorted_drop_first(s);
        lemma_dedup_sorted(s.drop_first());
        if s[0] == s[1] {
        } else {
            let d = dedup_adjacent(s.drop_first());
            let r = seq![s[0]] + d;
            assert forall|i: int, j: int| 0 <= i < j < r.len() implies key_le(r[i], r[j]) by {
                if i == 0 {
                    assert(d.contains(d[j - 1])) by {
                        assert(0 <= j - 1 < d.len());
                    }
                    lemma_dedup_contains(s.drop_first(), d[j - 1]);
                    let k = choose|k: int|
                        0 <= k < s.drop_first().len() && s.drop_first()[k] == d[j - 1];
                    assert(s[k + 1] == d[j - 1]);
                } else {
                    assert(r[i] == d[i - 1]);
                    assert(r[j] == d[j - 1]);
                }
            }
        }
    }
}

proof fn lemma_dedup_no_dups(s: Seq<NoteView>)
    ensures
        no_adjacent_dups(dedup_adjacent(s)),
    decreases s.len(),
{
    if s.len() <= 1 {
    } else {
        lemma_dedup_no_dups(s.drop_first());
        if s[0] == s[1] {
        } else {
            let d = dedup_adjacent(s.drop_first());
            let r = seq![s[0]] + d;
            lemma_dedup_first(s.drop_first());
            assert forall|i: int| 0 <= i < r.len() - 1 implies #[trigger] r[i] != r[i + 1] by {
                if i == 0 {
                    assert(r[1] == d[0]);
                    assert(d[0] == s.drop_first()[0]);
                } else {
                    assert(r[i] == d[i - 1]);
                    assert(r[i + 1] == d[i]);
                }
            }
        }
    }
}

proof fn lemma_dedup_id(s: Seq<NoteView>)
    requires
        no_adjacent_dups(s),
    ensures
        dedup_adjacent(s) == s,
    decreases s.len(),
{
    if s.len() <= 1 {
    } else {
        assert(s[0] != s[1]);
        assert forall|i: int| 0 <= i < s.drop_first().len() - 1 implies #[trigger] s.drop_first()[i]
            != s.drop_first()[i + 1] by {
            assert(s.drop_first()[i] == s[i + 1]);
            assert(s.drop_first()[i + 1] == s[i + 2]);
        }
        lemma_dedup_id(s.drop_first());
        assert(seq![s[0]] + s.drop_first() =~= s);
    }
}

proof fn lemma_sort_id(s: Seq<NoteView>)
    requires
        sorted_by_key(s),
    ensures
        sort_by_key(s) == s,
    decreases s.len(),
{
    if s.len() > 0 {
        assert forall|i: int, j: int| 0 <= i < j < s.drop_last().len() implies key_le(
            s.drop_last()[i],
            s.drop_last()[j],
        ) by {
            assert(s.drop_last()[i] == s[i]);
            assert(s.drop_last()[j] == s[j]);
        }
        lemma_sort_id(s.drop_last());
        assert forall|k: int| 0 <= k < s.len() - 1 implies key_le(
            #[trigger] s.drop_last()[k],
            s.last(),
        ) by {
            assert(s.drop_last()[k] == s[k]);
        }
        crate::engine::lemma_insert_sorted_at(s.last(), s.drop_last(), s.len() - 1);
        assert(s.drop_last().insert(s.len() - 1, s.last()) =~= s);
    }
}

proof fn lemma_merge_contains(existing: Seq<NoteView>, incoming: Seq<NoteView>, y: NoteView)
    ensures
        merge_spec(existing, incoming).contains(y) <==> (existing + incoming).contains(y),
{
    lemma_sort_contains(existing + incoming, y);
    lemma_dedup_contains(sort_by_key(existing + incoming), y);
}

/// Only one record of each run of fully equal, key-sharing records survives
/// deduplication, when every record sharing that key is the same record.
proof fn lemma_dedup_count_unique(s: Seq<NoteView>, n: NoteView)
    requires
        sorted_by_key(s),
        s.contains(n),
        forall|m: NoteView| s.contains(m) && same_key(m, n) ==> m == n,
    ensures
        count_of(dedup_adjacent(s), n) == 1,
    decreases s.len(),
{
    lemma_contains_cons(s, n);
    if s.len() == 1 {
        assert(dedup_adjacent(s) == s);
        assert(count_of(s, n) == count_of(s.drop_last(), n) + 1) by {
            assert(s.last() == n);
        }
        assert(s.drop_last() =~= Seq::<NoteView>::empty());
        assert(count_of(Seq::<NoteView>::empty(), n) == 0);
    } else {
        lemma_sorted_drop_first(s);
        assert forall|m: NoteView| #[trigger] s.drop_first().contains(m) implies s.contains(m) by {
            let i = choose|i: int| 0 <= i < s.drop_first().len() && s.drop_first()[i] == m;
            assert(s[i + 1] == m);
        }
        if s[0] == s[1] {
            assert(s.drop_first().contains(n)) by {
                if s[0] == n {
                    assert(s.drop_first()[0] == s[1]);
                } else {
                    let i = choose|i: int| 0 <= i < s.len() && s[i] == n;
                    assert(s.drop_first()[i - 1] == n);
                }
            }
            lemma_dedup_count_unique(s.drop_first(), n);
        } else {
            let d = dedup_adjacent(s.drop_first());
            lemma_count_cons(s[0], d, n);
            if s[0] == n {
                assert(!s.drop_first().contains(n)) by {
                    if s.drop_first().contains(n) {
                        let i = choose|i: int|
                            0 <= i < s.drop_first().len() && s.drop_first()[i] == n;
                        assert(s[i + 1] == n);
                        assert(key_le(s[0], s[1]));
                        if i + 1 > 1 {
                            assert(key_le(s[1], s[i + 1]));
                        }
                        lemma_key_both_same(s[1], n);
                        assert(s.contains(s[1])) by {
                            assert(s[1] == s[1]);
                        }
                    }
                }
                lemma_dedup_contains(s.drop_first(), n);
                lemma_count_contains(d, n);
            } else {
                assert(s.drop_first().contains(n)) by {
                    let i = choose|i: int| 0 <= i < s.len() && s[i] == n;
                    assert(s.drop_first()[i - 1] == n);
                }
                lemma_dedup_count_unique(s.drop_first(), n);
            }
        }
    }
}

proof fn lemma_filter_allowed_member(allow: Seq<u64>, s: Seq<NoteView>, y: NoteView)
    requires
        filter_allowed(allow, s).contains(y),
    ensures
        allowed(allow, y),
        s.contains(y),
    decreases s.len(),
{
    if s.len() > 0 {
        let f = filter_allowed(allow, s.drop_last());
        if allowed(allow, s.last()) && y == s.last() {
            assert(s[s.len() - 1] == y);
        } else {
            if allowed(allow, s.last()) {
                let i = choose|i: int|
                    0 <= i < f.push(s.last()).len() && f.push(s.last())[i] == y;
                assert(f[i] == y);
            }
            lemma_filter_allowed_member(allow, s.drop_last(), y);
            let j = choose|j: int| 0 <= j < s.drop_last().len() && s.drop_last()[j] == y;
            assert(s[j] == y);
        }
    }
}

proof fn lemma_ingest_only_allowed(allow: Seq<u64>, batches: Seq<Seq<NoteView>>, y: NoteView)
    requires
        ingest(allow, batches).contains(y),
    ensures
        allowed(allow, y),
    decreases batches.len(),
{
    if batches.len() > 0 {
        lemma_contains_concat(
            ingest(allow, batches.drop_last()),
            filter_allowed(allow, batches.last()),
            y,
        );
        if ingest(allow, batches.drop_last()).contains(y) {
            lemma_ingest_only_allowed(allow, batches.drop_last(), y);
        } else {
            lemma_filter_allowed_member(allow, batches.last(), y);
        }
    }
}

/// Every merge result is canonical: sorted by `(owner_id, note_id)` with
/// absent owners first, and free of adjacent fully equal records.
pub proof fn lemma_merge_canonical(existing: Seq<NoteView>, incoming: Seq<NoteView>)
    ensures
        canonical(merge_spec(existing, incoming)),
{
    lemma_sort_sorted(existing + incoming);
    lemma_dedup_sorted(sort_by_key(existing + incoming));
    lemma_dedup_no_dups(sort_by_key(existing + incoming));
}

/// Idempotence: merging a canonical accumulated table with an empty batch
/// set returns exactly that table — the same records, in the same canonical
/// order.
pub proof fn lemma_merge_empty_identity(table: Seq<NoteView>)
    requires
        canonical(table),
    ensures
        merge_spec(table, Seq::empty()) == table,
{
    assert(table + Seq::<NoteView>::empty() =~= table);
    lemma_sort_id(table);
    lemma_dedup_id(table);
}

/// Idempotence of a whole run: with no batches at all, the pipeline returns
/// the canonical accumulated table byte for byte, whatever the allow-list.
pub proof fn lemma_run_empty_identity(allow: Seq<u64>, table: Seq<NoteView>)
    requires
        canonical(table),
    ensures
        pipeline_spec(allow, table, Seq::empty()) == table,
{
    lemma_merge_empty_identity(table);
}

/// Filter correctness: a record of the output whose owner is absent or not
/// on the allow-list can only have come from the prior accumulated table;
/// batches contribute no such record.
pub proof fn lemma_filter_correct(
    allow: Seq<u64>,
    existing: Seq<NoteView>,
    batches: Seq<Seq<NoteView>>,
    n: NoteView,
)
    requires
        pipeline_spec(allow, existing, batches).contains(n),
        !allowed(allow, n),
    ensures
        existing.contains(n),
{
    let inc = ingest(allow, batches);
    lemma_merge_contains(existing, inc, n);
    lemma_contains_concat(existing, inc, n);
    if inc.contains(n) {
        lemma_ingest_only_allowed(allow, batches, n);
    }
}

/// Carry-forward: every record of the prior accumulated table appears in the
/// output, whatever the allow-list holds now.
pub proof fn lemma_carry_forward(
    allow: Seq<u64>,
    existing: Seq<NoteView>,
    batches: Seq<Seq<NoteView>>,
    n: NoteView,
)
    requires
        existing.contains(n),
    ensures
        pipeline_spec(allow, existing, batches).contains(n),
{
    let inc = ingest(allow, batches);
    lemma_contains_concat(existing, inc, n);
    lemma_merge_contains(existing, inc, n);
}

/// Dedup by full equality: however many fully identical copies of a record
/// the prior table and the batches hold, exactly one row survives — provided
/// no conflicting record shares its `(owner_id, note_id)` key. (With such a
/// conflict between two identical copies, both orders are stable, so the
/// copies need not end up adjacent and may both survive.)
pub proof fn lemma_dedup_full_equality(existing: Seq<NoteView>, incoming: Seq<NoteView>, n: NoteView)
    requires
        (existing + incoming).contains(n),
        forall|m: NoteView| (existing + incoming).contains(m) && same_key(m, n) ==> m == n,
    ensures
        count_of(merge_spec(existing, incoming), n) == 1,
{
    let all = existing + incoming;
    let t = sort_by_key(all);
    lemma_sort_sorted(all);
    lemma_sort_contains(all, n);
    assert forall|m: NoteView| t.contains(m) && same_key(m, n) implies m == n by {
        lemma_sort_contains(all, m);
    }
    lemma_dedup_count_unique(t, n);
}

/// Key collision without merge: two distinct records sharing a
/// `(owner_id, note_id)` key — differing, say, in `alias` — both survive as
/// rows of the output; nothing reconciles them.
pub proof fn lemma_key_collision_survives(
    existing: Seq<NoteView>,
    incoming: Seq<NoteView>,
    a: NoteView,
    b: NoteView,
)
    requires
        (existing + incoming).contains(a),
        (existing + incoming).contains(b),
        same_key(a, b),
        a != b,
    ensures
        merge_spec(existing, incoming).contains(a),
        merge_spec(existing, incoming).contains(b),
{
    lemma_merge_contains(existing, incoming, a);
    lemma_merge_contains(existing, incoming, b);
}

/// No invention: every record of the output was present in the prior table
/// or in some batch; the engine only rearranges and discards.
pub proof fn lemma_no_invention(
    allow: Seq<u64>,
    existing: Seq<NoteView>,
    batches: Seq<Seq<NoteView>>,
    n: NoteView,
)
    requires
        pipeline_spec(allow, existing, batches).contains(n),
    ensures
        existing.contains(n) || exists|b: int|
            0 <= b < batches.len() && #[trigger] batches[b].contains(n),
{
    let inc = ingest(allow, batches);
    lemma_merge_contains(existing, inc, n);
    lemma_contains_concat(existing, inc, n);
    if inc.contains(n) {
        lemma_ingest_source(allow, batches, n);
    }
}

proof fn lemma_ingest_source(allow: Seq<u64>, batches: Seq<Seq<NoteView>>, y: NoteView)
    requires
        ingest(allow, batches).contains(y),
    ensures
        exists|b: int| 0 <= b < batches.len() && #[trigger] batches[b].contains(y),
    decreases batches.len(),
{
    if batches.len() > 0 {
        lemma_contains_concat(
            ingest(allow, batches.drop_last()),
            filter_allowed(allow, batches.last()),
            y,
        );
        if ingest(allow, batches.drop_last()).contains(y) {
            lemma_ingest_source(allow, batches.drop_last(), y);
            let b = choose|b: int|
                0 <= b < batches.drop_last().len() && #[trigger] batches.drop_last()[b].contains(y);
            assert(batches[b].contains(y));
        } else {
            lemma_filter_allowed_member(allow, batches.last(), y);
            assert(batches[batches.len() - 1].contains(y));
        }
    }
}

/// Determinism: the output is a function of the allow-list, the prior table
/// and the batch sequence alone; two runs on equal inputs agree exactly.
pub proof fn lemma_deterministic(
    allow_a: Seq<u64>,
    existing_a: Seq<NoteView>,
    batches_a: Seq<Seq<NoteView>>,
    allow_b: Seq<u64>,
    existing_b: Seq<NoteView>,
    batches_b: Seq<Seq<NoteView>>,
)
    requires
        allow_a == allow_b,
        existing_a == existing_b,
        batches_a == batches_b,
    ensures
        pipeline_spec(allow_a, existing_a, batches_a) == pipeline_spec(
            allow_b,
            existing_b,
            batches_b,
        ),
{
}

/// Sort order: the output is ordered by `(owner_id, note_id)` ascending,
/// with an absent `owner_id` sorting before any present value.
pub proof fn lemma_output_sorted(
    allow: Seq<u64>,
    existing: Seq<NoteView>,
    batches: Seq<Seq<NoteView>>,
)
    ensures
        sorted_by_key(pipeline_spec(allow, existing, batches)),
{
    lemma_merge_canonical(existing, ingest(allow, batches));
}

} // verus!
