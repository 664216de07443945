//! The dependency resolution table: an ordered index from an alias to the
//! declared dependency names it can confirm.
//!
//! The table is built once from the manifest, then only drained: when a
//! candidate alias from an import matches, its entry is struck off, together
//! with the entries of the declared names it confirmed.  The keys that are
//! left with an empty list at the end of the scan are the unused
//! dependencies.  Keys are kept in strict lexicographic order, the order an
//! ordered mapping keyed by strings would give them.

use vstd::prelude::*;

use crate::text::{
    lemma_seq_lt_asym, lemma_seq_lt_connected, lemma_seq_lt_irrefl, lemma_seq_lt_trans, seq_lt,
    seq_views, str_lt,
};

verus! {

// ---------------------------------------------------------------------------
// The model: a sequence of alias/origins pairs with strictly ordered keys
// ---------------------------------------------------------------------------

/// One table entry at the specification level.
#[verifier::ext_equal]
pub struct EntryModel {
    /// The alias under which a match is sought.
    pub alias: Seq<char>,
    /// The declared dependency names this alias confirms; empty when the
    /// alias is itself a declared name.
    pub origins: Seq<Seq<char>>,
}

/// Keys strictly increase, so each key occurs once.
pub open spec fn table_sorted(t: Seq<EntryModel>) -> bool {
    forall|i: int, j: int| 0 <= i < j < t.len() ==> seq_lt(#[trigger] t[i].alias, #[trigger] t[j].alias)
}

/// The origins stored under key `k`, if the key is present.
pub open spec fn table_lookup(t: Seq<EntryModel>, k: Seq<char>) -> Option<Seq<Seq<char>>>
    decreases t.len(),
{
    if t.len() == 0 {
        None
    } else if t[0].alias == k {
        Some(t[0].origins)
    } else {
        table_lookup(t.drop_first(), k)
    }
}

/// Whether key `k` is present.
pub open spec fn table_contains(t: Seq<EntryModel>, k: Seq<char>) -> bool {
    table_lookup(t, k) is Some
}

/// The table with key `k` bound to exactly `v`, as an ordered mapping's
/// insert: an existing binding of `k` is replaced.
pub open spec fn table_set(t: Seq<EntryModel>, k: Seq<char>, v: Seq<Seq<char>>) -> Seq<EntryModel>
    decreases t.len(),
{
    if t.len() == 0 {
        seq![EntryModel { alias: k, origins: v }]
    } else if seq_lt(k, t[0].alias) {
        seq![EntryModel { alias: k, origins: v }] + t
    } else if t[0].alias == k {
        seq![EntryModel { alias: k, origins: v }] + t.drop_first()
    } else {
        seq![t[0]] + table_set(t.drop_first(), k, v)
    }
}

/// The table with `name` appended to the origins of key `k`; a missing key
/// is created with `name` as its only origin.
pub open spec fn table_register(t: Seq<EntryModel>, k: Seq<char>, name: Seq<char>) -> Seq<
    EntryModel,
>
    decreases t.len(),
{
    if t.len() == 0 {
        seq![EntryModel { alias: k, origins: seq![name] }]
    } else if seq_lt(k, t[0].alias) {
        seq![EntryModel { alias: k, origins: seq![name] }] + t
    } else if t[0].alias == k {
        seq![EntryModel { alias: k, origins: t[0].origins.push(name) }] + t.drop_first()
    } else {
        seq![t[0]] + table_register(t.drop_first(), k, name)
    }
}

/// The table without key `k`; unchanged when `k` is absent.
pub open spec fn table_remove(t: Seq<EntryModel>, k: Seq<char>) -> Seq<EntryModel>
    decreases t.len(),
{
    if t.len() == 0 {
        t
    } else if t[0].alias == k {
        t.drop_first()
    } else {
        seq![t[0]] + table_remove(t.drop_first(), k)
    }
}

/// The keys whose origin list is empty, in table order: the names that were
/// never confirmed.
pub open spec fn table_unused(t: Seq<EntryModel>) -> Seq<Seq<char>>
    decreases t.len(),
{
    if t.len() == 0 {
        Seq::empty()
    } else if t[0].origins.len() == 0 {
        seq![t[0].alias] + table_unused(t.drop_first())
    } else {
        table_unused(t.drop_first())
    }
}

// ---------------------------------------------------------------------------
// Positional characterizations, used to connect the model to the sorted
// vector that implements it
// ---------------------------------------------------------------------------

/// `idx` splits a sorted table into keys below `k` and keys not below `k`.
pub open spec fn split_position(t: Seq<EntryModel>, k: Seq<char>, idx: int) -> bool {
    &&& 0 <= idx <= t.len()
    &&& forall|i: int| 0 <= i < idx ==> seq_lt(#[trigger] t[i].alias, k)
    &&& idx < t.len() ==> !seq_lt(t[idx].alias, k)
}

/// In a sorted table, looking a key up finds it exactly at its split
/// position.
pub proof fn lemma_table_lookup_at(t: Seq<EntryModel>, k: Seq<char>, idx: int)
    requires
        table_sorted(t),
        split_position(t, k, idx),
    ensures
        idx < t.len() && t[idx].alias == k ==> table_lookup(t, k) == Some(t[idx].origins),
        idx == t.len() || t[idx].alias != k ==> table_lookup(t, k) is None,
    decreases t.len(),
{
    if t.len() == 0 {
    } else if idx == 0 {
        if t[0].alias != k {
            // every key is at or above t[0], so k is nowhere in the table
            lemma_lookup_none_when_below(t, k);
        }
    } else {
        assert(seq_lt(t[0].alias, k));
        if t[0].alias == k {
            lemma_seq_lt_irrefl(k);
        }
        let rest = t.drop_first();
        assert forall|i: int, j: int| 0 <= i < j < rest.len() implies seq_lt(
            #[trigger] rest[i].alias,
            #[trigger] rest[j].alias,
        ) by {
            assert(rest[i] == t[i + 1]);
            assert(rest[j] == t[j + 1]);
        }
        assert forall|i: int| 0 <= i < idx - 1 implies seq_lt(#[trigger] rest[i].alias, k) by {
            assert(rest[i] == t[i + 1]);
        }
        if idx - 1 < rest.len() {
            assert(rest[idx - 1] == t[idx]);
        }
        lemma_table_lookup_at(rest, k, idx - 1);
        if idx < t.len() {
            assert(rest[idx - 1] == t[idx]);
        }
    }
}

/// When every key of a sorted table is at or above `k` and the head is not
/// `k`, the key `k` is absent.
proof fn lemma_lookup_none_when_below(t: Seq<EntryModel>, k: Seq<char>)
    requires
        table_sorted(t),
        t.len() > 0 ==> !seq_lt(t[0].alias, k) && t[0].alias != k,
    ensures
        table_lookup(t, k) is None,
    decreases t.len(),
{
    if t.len() > 0 {
        let rest = t.drop_first();
        if rest.len() > 0 {
            assert(rest[0] == t[1]);
            assert(seq_lt(t[0].alias, t[1].alias));
            if seq_lt(rest[0].alias, k) {
                // k would sit above t[1] yet at or below t[0]: impossible
                lemma_seq_lt_connected(t[0].alias, k);
                if seq_lt(k, t[0].alias) {
                    lemma_seq_lt_trans(k, t[0].alias, t[1].alias);
                    lemma_seq_lt_asym(rest[0].alias, k);
                }
            }
            if rest[0].alias == k {
                lemma_seq_lt_connected(t[0].alias, k);
                lemma_seq_lt_asym(k, t[0].alias);
            }
            assert forall|i: int, j: int| 0 <= i < j < rest.len() implies seq_lt(
                #[trigger] rest[i].alias,
                #[trigger] rest[j].alias,
            ) by {
                assert(rest[i] == t[i + 1]);
                assert(rest[j] == t[j + 1]);
            }
        }
        lemma_lookup_none_when_below(rest, k);
    }
}

/// In a sorted table, `table_set` replaces at the split position or inserts
/// there.
pub proof fn lemma_table_set_at(t: Seq<EntryModel>, k: Seq<char>, v: Seq<Seq<char>>, idx: int)
    requires
        table_sorted(t),
        split_position(t, k, idx),
    ensures
        idx < t.len() && t[idx].alias == k ==> table_set(t, k, v) =~= t.update(
            idx,
            EntryModel { alias: k, origins: v },
        ),
        idx == t.len() || t[idx].alias != k ==> table_set(t, k, v) =~= t.take(idx) + seq![
            EntryModel { alias: k, origins: v },
        ] + t.skip(idx),
    decreases t.len(),
{
    if t.len() == 0 {
    } else if idx == 0 {
        if t[0].alias != k {
            lemma_seq_lt_connected(t[0].alias, k);
        }
    } else {
        assert(seq_lt(t[0].alias, k));
        lemma_seq_lt_asym(t[0].alias, k);
        if t[0].alias == k {
            lemma_seq_lt_irrefl(k);
        }
        let rest = t.drop_first();
        assert forall|i: int, j: int| 0 <= i < j < rest.len() implies seq_lt(
            #[trigger] rest[i].alias,
            #[trigger] rest[j].alias,
        ) by {
            assert(rest[i] == t[i + 1]);
            assert(rest[j] == t[j + 1]);
        }
        assert forall|i: int| 0 <= i < idx - 1 implies seq_lt(#[trigger] rest[i].alias, k) by {
            assert(rest[i] == t[i + 1]);
        }
        if idx - 1 < rest.len() {
            assert(rest[idx - 1] == t[idx]);
        }
        lemma_table_set_at(rest, k, v, idx - 1);
        if idx < t.len() && t[idx].alias == k {
            assert(table_set(t, k, v) =~= t.update(idx, EntryModel { alias: k, origins: v }));
        } else {
            assert(table_set(t, k, v) =~= t.take(idx) + seq![EntryModel { alias: k, origins: v }]
                + t.skip(idx));
        }
    }
}

/// In a sorted table, `table_register` appends at the split position or
/// inserts there.
pub proof fn lemma_table_register_at(t: Seq<EntryModel>, k: Seq<char>, name: Seq<char>, idx: int)
    requires
        table_sorted(t),
        split_position(t, k, idx),
    ensures
        idx < t.len() && t[idx].alias == k ==> table_register(t, k, name) =~= t.update(
            idx,
            EntryModel { alias: k, origins: t[idx].origins.push(name) },
        ),
        idx == t.len() || t[idx].alias != k ==> table_register(t, k, name) =~= t.take(idx) + seq![
            EntryModel { alias: k, origins: seq![name] },
        ] + t.skip(idx),
    decreases t.len(),
{
    if t.len() == 0 {
    } else if idx == 0 {
        if t[0].alias != k {
            lemma_seq_lt_connected(t[0].alias, k);
        }
    } else {
        assert(seq_lt(t[0].alias, k));
        lemma_seq_lt_asym(t[0].alias, k);
        if t[0].alias == k {
            lemma_seq_lt_irrefl(k);
        }
        let rest = t.drop_first();
        assert forall|i: int, j: int| 0 <= i < j < rest.len() implies seq_lt(
            #[trigger] rest[i].alias,
            #[trigger] rest[j].alias,
        ) by {
            assert(rest[i] == t[i + 1]);
            assert(rest[j] == t[j + 1]);
        }
        assert forall|i: int| 0 <= i < idx - 1 implies seq_lt(#[trigger] rest[i].alias, k) by {
            assert(rest[i] == t[i + 1]);
        }
        if idx - 1 < rest.len() {
            assert(rest[idx - 1] == t[idx]);
        }
        lemma_table_register_at(rest, k, name, idx - 1);
        if idx < t.len() && t[idx].alias == k {
            assert(table_register(t, k, name) =~= t.update(
                idx,
                EntryModel { alias: k, origins: t[idx].origins.push(name) },
            ));
        } else {
            assert(table_register(t, k, name) =~= t.take(idx) + seq![
                EntryModel { alias: k, origins: seq![name] },
            ] + t.skip(idx));
        }
    }
}

/// In a sorted table, `table_remove` deletes at the split position, or
/// leaves the table unchanged when the key is absent.
pub proof fn lemma_table_remove_at(t: Seq<EntryModel>, k: Seq<char>, idx: int)
    requires
        table_sorted(t),
        split_position(t, k, idx),
    ensures
        idx < t.len() && t[idx].alias == k ==> table_remove(t, k) =~= t.take(idx) + t.skip(idx + 1),
        idx == t.len() || t[idx].alias != k ==> table_remove(t, k) =~= t,
    decreases t.len(),
{
    if t.len() == 0 {
    } else if idx == 0 {
        if t[0].alias != k {
            lemma_remove_absent_below(t, k);
        }
    } else {
        assert(seq_lt(t[0].alias, k));
        if t[0].alias == k {
            lemma_seq_lt_irrefl(k);
        }
        let rest = t.drop_first();
        assert forall|i: int, j: int| 0 <= i < j < rest.len() implies seq_lt(
            #[trigger] rest[i].alias,
            #[trigger] rest[j].alias,
        ) by {
            assert(rest[i] == t[i + 1]);
            assert(rest[j] == t[j + 1]);
        }
        assert forall|i: int| 0 <= i < idx - 1 implies seq_lt(#[trigger] rest[i].alias, k) by {
            assert(rest[i] == t[i + 1]);
        }
        if idx - 1 < rest.len() {
            assert(rest[idx - 1] == t[idx]);
        }
        lemma_table_remove_at(rest, k, idx - 1);
        if idx < t.len() && t[idx].alias == k {
            assert(table_remove(t, k) =~= t.take(idx) + t.skip(idx + 1));
        } else {
            assert(table_remove(t, k) =~= t);
        }
    }
}

/// Removing a key that sits below every key of a sorted table changes
/// nothing.
proof fn lemma_remove_absent_below(t: Seq<EntryModel>, k: Seq<char>)
    requires
        table_sorted(t),
        t.len() > 0 ==> !seq_lt(t[0].alias, k) && t[0].alias != k,
    ensures
        table_remove(t, k) =~= t,
    decreases t.len(),
{
    if t.len() > 0 {
        let rest = t.drop_first();
        if rest.len() > 0 {
            assert(rest[0] == t[1]);
            assert(seq_lt(t[0].alias, t[1].alias));
            if seq_lt(rest[0].alias, k) {
                lemma_seq_lt_connected(t[0].alias, k);
                if seq_lt(k, t[0].alias) {
                    lemma_seq_lt_trans(k, t[0].alias, t[1].alias);
                    lemma_seq_lt_asym(rest[0].alias, k);
                }
            }
            if rest[0].alias == k {
                lemma_seq_lt_connected(t[0].alias, k);
                lemma_seq_lt_asym(k, t[0].alias);
            }
            assert forall|i: int, j: int| 0 <= i < j < rest.len() implies seq_lt(
                #[trigger] rest[i].alias,
                #[trigger] rest[j].alias,
            ) by {
                assert(rest[i] == t[i + 1]);
                assert(rest[j] == t[j + 1]);
            }
        }
        lemma_remove_absent_below(rest, k);
        assert(table_remove(t, k) =~= seq![t[0]] + table_remove(rest, k));
    }
}

/// Removing an absent key changes nothing.
pub proof fn lemma_remove_absent(t: Seq<EntryModel>, k: Seq<char>)
    requires
        table_lookup(t, k) is None,
    ensures
        table_remove(t, k) == t,
    decreases t.len(),
{
    if t.len() > 0 {
        lemma_remove_absent(t.drop_first(), k);
        assert(table_remove(t, k) =~= t);
    }
}

/// A key is present exactly when some entry carries it.
pub proof fn lemma_lookup_membership(t: Seq<EntryModel>, k: Seq<char>)
    ensures
        table_contains(t, k) <==> exists|i: int| 0 <= i < t.len() && #[trigger] t[i].alias == k,
    decreases t.len(),
{
    if t.len() == 0 {
    } else if t[0].alias == k {
        assert(t[0].alias == k);
    } else {
        let rest = t.drop_first();
        lemma_lookup_membership(rest, k);
        assert(forall|i: int| 0 <= i < rest.len() ==> #[trigger] rest[i] == t[i + 1]);
        if table_contains(t, k) {
            let w = choose|i: int| 0 <= i < rest.len() && #[trigger] rest[i].alias == k;
            assert(t[w + 1].alias == k);
        }
        if exists|i: int| 0 <= i < t.len() && #[trigger] t[i].alias == k {
            let w = choose|i: int| 0 <= i < t.len() && #[trigger] t[i].alias == k;
            assert(w != 0);
            assert(rest[w - 1].alias == k);
        }
    }
}

/// Removing a key never makes another key appear.
pub proof fn lemma_remove_preserves_absent(t: Seq<EntryModel>, k: Seq<char>, k2: Seq<char>)
    requires
        !table_contains(t, k2),
    ensures
        !table_contains(table_remove(t, k), k2),
    decreases t.len(),
{
    if t.len() > 0 && t[0].alias != k {
        lemma_remove_preserves_absent(t.drop_first(), k, k2);
        let r = seq![t[0]] + table_remove(t.drop_first(), k);
        assert(r.drop_first() =~= table_remove(t.drop_first(), k));
    }
}

/// After removing `k` from a sorted table, `k` is absent: sorted keys are
/// unique.
pub proof fn lemma_remove_makes_absent(t: Seq<EntryModel>, k: Seq<char>)
    requires
        table_sorted(t),
    ensures
        !table_contains(table_remove(t, k), k),
    decreases t.len(),
{
    if t.len() > 0 {
        let rest = t.drop_first();
        assert(forall|i: int| 0 <= i < rest.len() ==> #[trigger] rest[i] == t[i + 1]);
        assert forall|i: int, j: int| 0 <= i < j < rest.len() implies seq_lt(
            #[trigger] rest[i].alias,
            #[trigger] rest[j].alias,
        ) by {
            assert(rest[i] == t[i + 1]);
            assert(rest[j] == t[j + 1]);
        }
        if t[0].alias == k {
            lemma_lookup_membership(rest, k);
            if table_contains(rest, k) {
                let w = choose|i: int| 0 <= i < rest.len() && #[trigger] rest[i].alias == k;
                assert(seq_lt(t[0].alias, t[w + 1].alias));
                lemma_seq_lt_irrefl(k);
            }
        } else {
            lemma_remove_makes_absent(rest, k);
            let r = seq![t[0]] + table_remove(rest, k);
            assert(r.drop_first() =~= table_remove(rest, k));
        }
    }
}

/// Every entry of `table_remove` is an entry of the table.
pub proof fn lemma_remove_entry_of(t: Seq<EntryModel>, k: Seq<char>)
    ensures
        forall|j: int| 0 <= j < table_remove(t, k).len() ==> exists|i: int|
            0 <= i < t.len() && #[trigger] table_remove(t, k)[j] == t[i],
    decreases t.len(),
{
    if t.len() > 0 {
        let rest = t.drop_first();
        assert(forall|i: int| 0 <= i < rest.len() ==> #[trigger] rest[i] == t[i + 1]);
        if t[0].alias == k {
            assert(table_remove(t, k) == rest);
            assert forall|j: int| 0 <= j < table_remove(t, k).len() implies exists|i: int|
                0 <= i < t.len() && #[trigger] table_remove(t, k)[j] == t[i] by {
                assert(table_remove(t, k)[j] == t[j + 1]);
            }
        } else {
            lemma_remove_entry_of(rest, k);
            let r = seq![t[0]] + table_remove(rest, k);
            assert forall|j: int| 0 <= j < r.len() implies exists|i: int|
                0 <= i < t.len() && #[trigger] r[j] == t[i] by {
                if j == 0 {
                    assert(r[0] == t[0]);
                } else {
                    assert(r[j] == table_remove(rest, k)[j - 1]);
                    let w = choose|i: int|
                        0 <= i < rest.len() && #[trigger] table_remove(rest, k)[j - 1] == rest[i];
                    assert(r[j] == t[w + 1]);
                }
            }
        }
    }
}

/// Removing a key keeps the keys ordered.
pub proof fn lemma_remove_sorted(t: Seq<EntryModel>, k: Seq<char>)
    requires
        table_sorted(t),
    ensures
        table_sorted(table_remove(t, k)),
    decreases t.len(),
{
    if t.len() > 0 {
        let rest = t.drop_first();
        assert(forall|i: int| 0 <= i < rest.len() ==> #[trigger] rest[i] == t[i + 1]);
        assert forall|i: int, j: int| 0 <= i < j < rest.len() implies seq_lt(
            #[trigger] rest[i].alias,
            #[trigger] rest[j].alias,
        ) by {
            assert(rest[i] == t[i + 1]);
            assert(rest[j] == t[j + 1]);
        }
        if t[0].alias == k {
        } else {
            lemma_remove_sorted(rest, k);
            lemma_remove_entry_of(rest, k);
            let rr = table_remove(rest, k);
            let r = seq![t[0]] + rr;
            assert forall|i: int, j: int| 0 <= i < j < r.len() implies seq_lt(
                #[trigger] r[i].alias,
                #[trigger] r[j].alias,
            ) by {
                if i == 0 {
                    assert(r[j] == rr[j - 1]);
                    let w = choose|x: int| 0 <= x < rest.len() && #[trigger] rr[j - 1] == rest[x];
                    assert(rest[w] == t[w + 1]);
                    assert(seq_lt(t[0].alias, t[w + 1].alias));
                } else {
                    assert(r[i] == rr[i - 1]);
                    assert(r[j] == rr[j - 1]);
                }
            }
        }
    }
}

/// `table_set` adds exactly one key.
pub proof fn lemma_set_membership(t: Seq<EntryModel>, k: Seq<char>, v: Seq<Seq<char>>, k2: Seq<char>)
    ensures
        table_contains(table_set(t, k, v), k2) == (k2 == k || table_contains(t, k2)),
    decreases t.len(),
{
    reveal_with_fuel(table_lookup, 3);
    let r = table_set(t, k, v);
    if t.len() == 0 {
        assert(r.drop_first() =~= Seq::<EntryModel>::empty());
    } else if seq_lt(k, t[0].alias) {
        assert(r.drop_first() =~= t);
    } else if t[0].alias == k {
        if k2 != k {
            assert(r.drop_first() =~= t.drop_first());
        }
    } else {
        lemma_set_membership(t.drop_first(), k, v, k2);
        assert(r.drop_first() =~= table_set(t.drop_first(), k, v));
    }
}

/// `table_register` adds exactly one key.
pub proof fn lemma_register_membership(
    t: Seq<EntryModel>,
    k: Seq<char>,
    name: Seq<char>,
    k2: Seq<char>,
)
    ensures
        table_contains(table_register(t, k, name), k2) == (k2 == k || table_contains(t, k2)),
    decreases t.len(),
{
    reveal_with_fuel(table_lookup, 3);
    let r = table_register(t, k, name);
    if t.len() == 0 {
        assert(r.drop_first() =~= Seq::<EntryModel>::empty());
    } else if seq_lt(k, t[0].alias) {
        assert(r.drop_first() =~= t);
    } else if t[0].alias == k {
        if k2 != k {
            assert(r.drop_first() =~= t.drop_first());
        }
    } else {
        lemma_register_membership(t.drop_first(), k, name, k2);
        assert(r.drop_first() =~= table_register(t.drop_first(), k, name));
    }
}

/// Every entry of `table_set` is the new binding or an entry of the table.
pub proof fn lemma_set_entry_of(t: Seq<EntryModel>, k: Seq<char>, v: Seq<Seq<char>>)
    ensures
        forall|j: int| 0 <= j < table_set(t, k, v).len() ==> #[trigger] table_set(t, k, v)[j]
            == (EntryModel { alias: k, origins: v }) || exists|i: int|
            0 <= i < t.len() && table_set(t, k, v)[j] == t[i],
    decreases t.len(),
{
    let e = EntryModel { alias: k, origins: v };
    let r = table_set(t, k, v);
    if t.len() == 0 {
    } else if seq_lt(k, t[0].alias) {
        assert forall|j: int| 0 <= j < r.len() implies #[trigger] r[j] == e || exists|i: int|
            0 <= i < t.len() && r[j] == t[i] by {
            if j > 0 {
                assert(r[j] == t[j - 1]);
            }
        }
    } else if t[0].alias == k {
        assert forall|j: int| 0 <= j < r.len() implies #[trigger] r[j] == e || exists|i: int|
            0 <= i < t.len() && r[j] == t[i] by {
            if j > 0 {
                assert(r[j] == t[j]);
            }
        }
    } else {
        lemma_set_entry_of(t.drop_first(), k, v);
        let rr = table_set(t.drop_first(), k, v);
        assert forall|j: int| 0 <= j < r.len() implies #[trigger] r[j] == e || exists|i: int|
            0 <= i < t.len() && r[j] == t[i] by {
            if j == 0 {
                assert(r[0] == t[0]);
            } else {
                assert(r[j] == rr[j - 1]);
                if rr[j - 1] != e {
                    let w = choose|i: int|
                        0 <= i < t.drop_first().len() && #[trigger] rr[j - 1] == t.drop_first()[i];
                    assert(r[j] == t[w + 1]);
                }
            }
        }
    }
}

/// Every entry of `table_register` carries the registered key with at least
/// one origin, or is an entry of the table.
pub proof fn lemma_register_entry_of(t: Seq<EntryModel>, k: Seq<char>, name: Seq<char>)
    ensures
        forall|j: int| 0 <= j < table_register(t, k, name).len() ==> (#[trigger] table_register(
            t,
            k,
            name,
        )[j].alias == k && table_register(t, k, name)[j].origins.len() > 0) || exists|i: int|
            0 <= i < t.len() && table_register(t, k, name)[j] == t[i],
    decreases t.len(),
{
    let r = table_register(t, k, name);
    if t.len() == 0 {
    } else if seq_lt(k, t[0].alias) {
        assert forall|j: int| 0 <= j < r.len() implies (#[trigger] r[j].alias == k
            && r[j].origins.len() > 0) || exists|i: int| 0 <= i < t.len() && r[j] == t[i] by {
            if j > 0 {
                assert(r[j] == t[j - 1]);
            }
        }
    } else if t[0].alias == k {
        assert forall|j: int| 0 <= j < r.len() implies (#[trigger] r[j].alias == k
            && r[j].origins.len() > 0) || exists|i: int| 0 <= i < t.len() && r[j] == t[i] by {
            if j > 0 {
                assert(r[j] == t[j]);
            }
        }
    } else {
        lemma_register_entry_of(t.drop_first(), k, name);
        let rr = table_register(t.drop_first(), k, name);
        assert forall|j: int| 0 <= j < r.len() implies (#[trigger] r[j].alias == k
            && r[j].origins.len() > 0) || exists|i: int| 0 <= i < t.len() && r[j] == t[i] by {
            if j == 0 {
                assert(r[0] == t[0]);
            } else {
                assert(r[j] == rr[j - 1]);
                if !(rr[j - 1].alias == k && rr[j - 1].origins.len() > 0) {
                    let w = choose|i: int|
                        0 <= i < t.drop_first().len() && #[trigger] rr[j - 1] == t.drop_first()[i];
                    assert(r[j] == t[w + 1]);
                }
            }
        }
    }
}

/// `table_set` keeps the keys ordered.
pub proof fn lemma_set_sorted(t: Seq<EntryModel>, k: Seq<char>, v: Seq<Seq<char>>)
    requires
        table_sorted(t),
    ensures
        table_sorted(table_set(t, k, v)),
    decreases t.len(),
{
    let r = table_set(t, k, v);
    if t.len() == 0 {
    } else if seq_lt(k, t[0].alias) {
        assert forall|i: int, j: int| 0 <= i < j < r.len() implies seq_lt(
            #[trigger] r[i].alias,
            #[trigger] r[j].alias,
        ) by {
            if i == 0 {
                assert(r[j] == t[j - 1]);
                if j > 1 {
                    lemma_seq_lt_trans(k, t[0].alias, t[j - 1].alias);
                }
            } else {
                assert(r[i] == t[i - 1]);
                assert(r[j] == t[j - 1]);
            }
        }
    } else if t[0].alias == k {
        assert forall|i: int, j: int| 0 <= i < j < r.len() implies seq_lt(
            #[trigger] r[i].alias,
            #[trigger] r[j].alias,
        ) by {
            assert(r[i].alias == t[i].alias);
            assert(r[j] == t[j]);
        }
    } else {
        let rest = t.drop_first();
        assert forall|i: int, j: int| 0 <= i < j < rest.len() implies seq_lt(
            #[trigger] rest[i].alias,
            #[trigger] rest[j].alias,
        ) by {
            assert(rest[i] == t[i + 1]);
            assert(rest[j] == t[j + 1]);
        }
        lemma_set_sorted(rest, k, v);
        lemma_set_entry_of(rest, k, v);
        lemma_seq_lt_connected(t[0].alias, k);
        let rr = table_set(rest, k, v);
        assert forall|i: int, j: int| 0 <= i < j < r.len() implies seq_lt(
            #[trigger] r[i].alias,
            #[trigger] r[j].alias,
        ) by {
            if i == 0 {
                assert(r[j] == rr[j - 1]);
                if rr[j - 1] == (EntryModel { alias: k, origins: v }) {
                    assert(seq_lt(t[0].alias, k));
                } else {
                    let w = choose|x: int| 0 <= x < rest.len() && #[trigger] rr[j - 1] == rest[x];
                    assert(rest[w] == t[w + 1]);
                    assert(seq_lt(t[0].alias, t[w + 1].alias));
                }
            } else {
                assert(r[i] == rr[i - 1]);
                assert(r[j] == rr[j - 1]);
            }
        }
    }
}

/// `table_register` keeps the keys ordered.
pub proof fn lemma_register_sorted(t: Seq<EntryModel>, k: Seq<char>, name: Seq<char>)
    requires
        table_sorted(t),
    ensures
        table_sorted(table_register(t, k, name)),
    decreases t.len(),
{
    let r = table_register(t, k, name);
    if t.len() == 0 {
    } else if seq_lt(k, t[0].alias) {
        assert forall|i: int, j: int| 0 <= i < j < r.len() implies seq_lt(
            #[trigger] r[i].alias,
            #[trigger] r[j].alias,
        ) by {
            if i == 0 {
                assert(r[j] == t[j - 1]);
                if j > 1 {
                    lemma_seq_lt_trans(k, t[0].alias, t[j - 1].alias);
                }
            } else {
                assert(r[i] == t[i - 1]);
                assert(r[j] == t[j - 1]);
            }
        }
    } else if t[0].alias == k {
        assert forall|i: int, j: int| 0 <= i < j < r.len() implies seq_lt(
            #[trigger] r[i].alias,
            #[trigger] r[j].alias,
        ) by {
            assert(r[i].alias == t[i].alias);
            assert(r[j] == t[j]);
        }
    } else {
        let rest = t.drop_first();
        assert forall|i: int, j: int| 0 <= i < j < rest.len() implies seq_lt(
            #[trigger] rest[i].alias,
            #[trigger] rest[j].alias,
        ) by {
            assert(rest[i] == t[i + 1]);
            assert(rest[j] == t[j + 1]);
        }
        lemma_register_sorted(rest, k, name);
        lemma_register_entry_of(rest, k, name);
        lemma_seq_lt_connected(t[0].alias, k);
        let rr = table_register(rest, k, name);
        assert forall|i: int, j: int| 0 <= i < j < r.len() implies seq_lt(
            #[trigger] r[i].alias,
            #[trigger] r[j].alias,
        ) by {
            if i == 0 {
                assert(r[j] == rr[j - 1]);
                if rr[j - 1].alias == k {
                    assert(seq_lt(t[0].alias, k));
                } else {
                    let w = choose|x: int| 0 <= x < rest.len() && #[trigger] rr[j - 1] == rest[x];
                    assert(rest[w] == t[w + 1]);
                    assert(seq_lt(t[0].alias, t[w + 1].alias));
                }
            } else {
                assert(r[i] == rr[i - 1]);
                assert(r[j] == rr[j - 1]);
            }
        }
    }
}

/// A table with no empty origin list reports nothing.
pub proof fn lemma_unused_all_nonempty(t: Seq<EntryModel>)
    requires
        forall|j: int| 0 <= j < t.len() ==> #[trigger] t[j].origins.len() > 0,
    ensures
        table_unused(t) == Seq::<Seq<char>>::empty(),
    decreases t.len(),
{
    if t.len() > 0 {
        assert(forall|i: int| 0 <= i < t.drop_first().len() ==> #[trigger] t.drop_first()[i] == t[
            i + 1
        ]);
        lemma_unused_all_nonempty(t.drop_first());
    }
}

/// Binding a fresh key, greater than every unconfirmed key, to an empty
/// origin list appends it to the report.
pub proof fn lemma_unused_of_set_fresh(t: Seq<EntryModel>, k: Seq<char>)
    requires
        table_sorted(t),
        !table_contains(t, k),
        forall|j: int| 0 <= j < t.len() && #[trigger] t[j].origins.len() == 0 ==> seq_lt(
            t[j].alias,
            k,
        ),
    ensures
        table_unused(table_set(t, k, Seq::empty())) =~= table_unused(t) + seq![k],
    decreases t.len(),
{
    reveal_with_fuel(table_unused, 3);
    let e = EntryModel { alias: k, origins: Seq::empty() };
    let r = table_set(t, k, Seq::empty());
    if t.len() == 0 {
        assert(r =~= seq![e]);
        assert(table_unused(r) =~= seq![k]);
    } else if seq_lt(k, t[0].alias) {
        // every key of t is above k, so none is unconfirmed
        assert forall|j: int| 0 <= j < t.len() implies #[trigger] t[j].origins.len() > 0 by {
            if t[j].origins.len() == 0 {
                if j == 0 {
                    lemma_seq_lt_asym(k, t[0].alias);
                } else {
                    lemma_seq_lt_trans(k, t[0].alias, t[j].alias);
                    lemma_seq_lt_asym(k, t[j].alias);
                }
            }
        }
        lemma_unused_all_nonempty(t);
        assert(r.drop_first() =~= t);
        assert(table_unused(r) =~= seq![k] + table_unused(t));
        assert(table_unused(r) =~= table_unused(t) + seq![k]);
    } else if t[0].alias == k {
        assert(false);
    } else {
        let rest = t.drop_first();
        assert(forall|i: int| 0 <= i < rest.len() ==> #[trigger] rest[i] == t[i + 1]);
        assert forall|i: int, j: int| 0 <= i < j < rest.len() implies seq_lt(
            #[trigger] rest[i].alias,
            #[trigger] rest[j].alias,
        ) by {
            assert(rest[i] == t[i + 1]);
            assert(rest[j] == t[j + 1]);
        }
        lemma_unused_of_set_fresh(rest, k);
        assert(r.drop_first() =~= table_set(rest, k, Seq::empty()));
        if t[0].origins.len() == 0 {
            assert(table_unused(r) =~= seq![t[0].alias] + table_unused(table_set(
                rest,
                k,
                Seq::empty(),
            )));
            assert(table_unused(r) =~= table_unused(t) + seq![k]);
        } else {
            assert(table_unused(r) =~= table_unused(t) + seq![k]);
        }
    }
}

/// Registering an origin under a key that is not unconfirmed leaves the
/// report unchanged: the entry it creates or extends has origins.
pub proof fn lemma_unused_of_register(t: Seq<EntryModel>, k: Seq<char>, name: Seq<char>)
    requires
        forall|j: int| 0 <= j < t.len() && #[trigger] t[j].origins.len() == 0 ==> t[j].alias != k,
    ensures
        table_unused(table_register(t, k, name)) =~= table_unused(t),
    decreases t.len(),
{
    reveal_with_fuel(table_unused, 3);
    let r = table_register(t, k, name);
    if t.len() == 0 {
        assert(r.drop_first() =~= Seq::<EntryModel>::empty());
    } else if seq_lt(k, t[0].alias) {
        assert(r.drop_first() =~= t);
    } else if t[0].alias == k {
        assert(t[0].origins.len() > 0);
        assert(r.drop_first() =~= t.drop_first());
    } else {
        let rest = t.drop_first();
        assert(forall|i: int| 0 <= i < rest.len() ==> #[trigger] rest[i] == t[i + 1]);
        lemma_unused_of_register(rest, k, name);
        assert(r.drop_first() =~= table_register(rest, k, name));
        if t[0].origins.len() == 0 {
            assert(table_unused(r) =~= seq![t[0].alias] + table_unused(table_register(
                rest,
                k,
                name,
            )));
        }
    }
}

/// Updating an entry without changing its key keeps the keys ordered.
proof fn lemma_sorted_update(t: Seq<EntryModel>, idx: int, e: EntryModel)
    requires
        table_sorted(t),
        0 <= idx < t.len(),
        e.alias == t[idx].alias,
    ensures
        table_sorted(t.update(idx, e)),
{
    let u = t.update(idx, e);
    assert forall|i: int, j: int| 0 <= i < j < u.len() implies seq_lt(
        #[trigger] u[i].alias,
        #[trigger] u[j].alias,
    ) by {
        assert(u[i].alias == t[i].alias);
        assert(u[j].alias == t[j].alias);
    }
}

/// Inserting a new key at its split position keeps the keys ordered.
proof fn lemma_sorted_insert(t: Seq<EntryModel>, idx: int, e: EntryModel)
    requires
        table_sorted(t),
        0 <= idx <= t.len(),
        forall|i: int| 0 <= i < idx ==> seq_lt(#[trigger] t[i].alias, e.alias),
        idx < t.len() ==> seq_lt(e.alias, t[idx].alias),
    ensures
        table_sorted(t.take(idx) + seq![e] + t.skip(idx)),
{
    let u = t.take(idx) + seq![e] + t.skip(idx);
    assert forall|i: int, j: int| 0 <= i < j < u.len() implies seq_lt(
        #[trigger] u[i].alias,
        #[trigger] u[j].alias,
    ) by {
        if i < idx {
            assert(u[i] == t[i]);
        } else if i == idx {
            assert(u[i] == e);
        } else {
            assert(u[i] == t[i - 1]);
        }
        if j < idx {
            assert(u[j] == t[j]);
        } else if j == idx {
            assert(u[j] == e);
        } else {
            assert(u[j] == t[j - 1]);
        }
        if i == idx && j > idx && j - 1 > idx {
            lemma_seq_lt_trans(e.alias, t[idx].alias, t[j - 1].alias);
        }
        if i < idx && j > idx && i == j - 1 {
            // impossible: i < idx <= j - 1 = i
        }
    }
}

/// Deleting an entry keeps the keys ordered.
proof fn lemma_sorted_delete(t: Seq<EntryModel>, idx: int)
    requires
        table_sorted(t),
        0 <= idx < t.len(),
    ensures
        table_sorted(t.take(idx) + t.skip(idx + 1)),
{
    let u = t.take(idx) + t.skip(idx + 1);
    assert forall|i: int, j: int| 0 <= i < j < u.len() implies seq_lt(
        #[trigger] u[i].alias,
        #[trigger] u[j].alias,
    ) by {
        if i < idx {
            assert(u[i] == t[i]);
        } else {
            assert(u[i] == t[i + 1]);
        }
        if j < idx {
            assert(u[j] == t[j]);
        } else {
            assert(u[j] == t[j + 1]);
        }
    }
}

// ---------------------------------------------------------------------------
// The executable table
// ---------------------------------------------------------------------------

/// One entry of the executable table.
pub struct AliasEntry {
    /// The alias under which a match is sought.
    pub alias: String,
    /// The declared dependency names this alias confirms.
    pub origins: Vec<String>,
}

impl View for AliasEntry {
    type V = EntryModel;

    open spec fn view(&self) -> EntryModel {
        EntryModel { alias: self.alias@, origins: seq_views(self.origins@) }
    }
}

/// The resolution table for one dependency group: alias/origins pairs kept
/// in strict key order, so that the final report comes out in the order an
/// ordered mapping would give it.
pub struct AliasTable {
    entries: Vec<AliasEntry>,
}

impl View for AliasTable {
    type V = Seq<EntryModel>;

    closed spec fn view(&self) -> Seq<EntryModel> {
        self.entries@.map_values(|e: AliasEntry| e@)
    }
}

impl AliasTable {
    /// The table's keys are strictly ordered.
    pub open spec fn wf(&self) -> bool {
        table_sorted(self@)
    }

    /// An empty table.
    pub fn new() -> (r: AliasTable)
        ensures
            r.wf(),
            r@ == Seq::<EntryModel>::empty(),
    {
        let entries: Vec<AliasEntry> = Vec::new();
        let r = AliasTable { entries };
        proof {
            assert(r@ =~= Seq::<EntryModel>::empty());
        }
        r
    }

    /// The number of entries.
    pub fn len(&self) -> (r: usize)
        ensures
            r == self@.len(),
    {
        self.entries.len()
    }

    /// First index whose key is not below `k`.
    fn position(&self, k: &String) -> (idx: usize)
        requires
            self.wf(),
        ensures
            split_position(self@, k@, idx as int),
    {
        let n = self.entries.len();
        let mut idx: usize = 0;
        while idx < n
            invariant
                idx <= n,
                n == self@.len(),
                self.wf(),
                forall|i: int| 0 <= i < idx ==> seq_lt(#[trigger] self@[i].alias, k@),
            decreases n - idx,
        {
            if !str_lt(self.entries[idx].alias.as_str(), k.as_str()) {
                return idx;
            }
            idx = idx + 1;
        }
        idx
    }

    /// Binds `alias` to exactly `origins`, as an ordered mapping's insert:
    /// an existing binding is replaced.
    pub fn set_entry(&mut self, alias: String, origins: Vec<String>)
        requires
            old(self).wf(),
        ensures
            final(self).wf(),
            final(self)@ == table_set(old(self)@, alias@, seq_views(origins@)),
    {
        let ghost t = self@;
        let ghost k = alias@;
        let ghost v = seq_views(origins@);
        let idx = self.position(&alias);
        proof {
            lemma_table_set_at(t, k, v, idx as int);
        }
        let n = self.entries.len();
        if idx < n && self.entries[idx].alias == alias {
            let _ = self.entries.remove(idx);
            self.entries.insert(idx, AliasEntry { alias, origins });
            proof {
                assert(self@ =~= t.update(idx as int, EntryModel { alias: k, origins: v }));
                lemma_sorted_update(t, idx as int, EntryModel { alias: k, origins: v });
            }
        } else {
            self.entries.insert(idx, AliasEntry { alias, origins });
            proof {
                let e = EntryModel { alias: k, origins: v };
                assert(self@ =~= t.take(idx as int) + seq![e] + t.skip(idx as int));
                if (idx as int) < t.len() {
                    lemma_seq_lt_connected(t[idx as int].alias, k);
                }
                lemma_sorted_insert(t, idx as int, e);
            }
        }
    }

    /// Appends `origin` to the origins of `alias`; a missing alias is
    /// created with `origin` as its only origin.
    pub fn register(&mut self, alias: String, origin: String)
        requires
            old(self).wf(),
        ensures
            final(self).wf(),
            final(self)@ == table_register(old(self)@, alias@, origin@),
    {
        let ghost t = self@;
        let ghost k = alias@;
        let ghost nm = origin@;
        let idx = self.position(&alias);
        proof {
            lemma_table_register_at(t, k, nm, idx as int);
        }
        let n = self.entries.len();
        if idx < n && self.entries[idx].alias == alias {
            let mut e = self.entries.remove(idx);
            e.origins.push(origin);
            self.entries.insert(idx, e);
            proof {
                let em = EntryModel { alias: k, origins: t[idx as int].origins.push(nm) };
                assert(seq_views(e.origins@) =~= t[idx as int].origins.push(nm));
                assert(self@ =~= t.update(idx as int, em));
                lemma_sorted_update(t, idx as int, em);
            }
        } else {
            let mut origins: Vec<String> = Vec::new();
            origins.push(origin);
            self.entries.insert(idx, AliasEntry { alias, origins });
            proof {
                let em = EntryModel { alias: k, origins: seq![nm] };
                assert(seq_views(seq![origin]) =~= seq![nm]);
                assert(self@ =~= t.take(idx as int) + seq![em] + t.skip(idx as int));
                if (idx as int) < t.len() {
                    lemma_seq_lt_connected(t[idx as int].alias, k);
                }
                lemma_sorted_insert(t, idx as int, em);
            }
        }
    }

    /// Strikes the entry for `alias` off the table and hands its origins
    /// back; a miss leaves the table unchanged.  A second call with the same
    /// alias is therefore a no-op.
    pub fn try_resolve(&mut self, alias: &String) -> (r: Option<Vec<String>>)
        requires
            old(self).wf(),
        ensures
            final(self).wf(),
            final(self)@ == table_remove(old(self)@, alias@),
            r is Some <==> table_contains(old(self)@, alias@),
            r matches Some(v) ==> table_lookup(old(self)@, alias@) == Some(seq_views(v@)),
    {
        let ghost t = self@;
        let ghost k = alias@;
        let idx = self.position(alias);
        proof {
            lemma_table_lookup_at(t, k, idx as int);
            lemma_table_remove_at(t, k, idx as int);
        }
        let n = self.entries.len();
        if idx < n && self.entries[idx].alias == *alias {
            let e = self.entries.remove(idx);
            proof {
                assert(self@ =~= t.take(idx as int) + t.skip(idx as int + 1));
                lemma_sorted_delete(t, idx as int);
            }
            Some(e.origins)
        } else {
            proof {
                assert(self@ =~= table_remove(t, k));
            }
            None
        }
    }

    /// Strikes the entry for `name` off the table, dropping its origins.
    pub fn strike(&mut self, name: &String)
        requires
            old(self).wf(),
        ensures
            final(self).wf(),
            final(self)@ == table_remove(old(self)@, name@),
    {
        let _ = self.try_resolve(name);
    }

    /// The keys whose origin list is empty, in table order: the declared
    /// names that were never confirmed by any import.
    pub fn remaining_unused(&self) -> (r: Vec<String>)
        ensures
            seq_views(r@) == table_unused(self@),
    {
        let n = self.entries.len();
        let mut out: Vec<String> = Vec::new();
        let mut i: usize = 0;
        proof {
            assert(self@.skip(0) =~= self@);
            assert(seq_views(out@) + table_unused(self@) =~= table_unused(self@));
        }
        while i < n
            invariant
                i <= n,
                n == self@.len(),
                table_unused(self@) == seq_views(out@) + table_unused(self@.skip(i as int)),
            decreases n - i,
        {
            let ghost prev = out@;
            proof {
                assert(self@.skip(i as int).drop_first() =~= self@.skip(i as int + 1));
                assert(self@.skip(i as int)[0] == self@[i as int]);
            }
            if self.entries[i].origins.is_empty() {
                out.push(self.entries[i].alias.clone());
                proof {
                    assert(self@[i as int].origins.len() == 0);
                    assert(seq_views(out@) =~= seq_views(prev).push(self@[i as int].alias));
                    assert(seq_views(out@) + table_unused(self@.skip(i as int + 1)) =~= seq_views(
                        prev,
                    ) + table_unused(self@.skip(i as int)));
                }
            } else {
                proof {
                    assert(self@[i as int].origins.len() != 0);
                }
            }
            i = i + 1;
        }
        proof {
            assert(table_unused(self@.skip(n as int)) =~= Seq::<Seq<char>>::empty());
            assert(seq_views(out@) + table_unused(self@.skip(n as int)) =~= seq_views(out@));
        }
        out
    }
}

} // verus!
