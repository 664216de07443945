//! Builds the resolution tables from the manifest.
//!
//! Reading the manifest's structured data is a thin trusted layer over the
//! `toml` crate; it yields the declared dependency names of the required
//! group and of the development group.  Everything after that point is
//! verified: the language-runtime entry is dropped, and each remaining name
//! is retained under itself with an empty origin list while its derived
//! alias, when there is one, records the name it confirms.

use vstd::prelude::*;

use crate::aliases::{derive_alias, manifest_alias, pair_views};
use crate::table::{
    lemma_register_entry_of, lemma_register_membership, lemma_register_sorted, lemma_set_entry_of,
    lemma_set_membership, lemma_set_sorted, lemma_unused_of_register, lemma_unused_of_set_fresh,
    table_contains, table_register, table_set, table_sorted, table_unused, AliasTable, EntryModel,
};
use crate::text::{lemma_seq_lt_irrefl, seq_lt, seq_views};

verus! {

// ---------------------------------------------------------------------------
// The verified table builder
// ---------------------------------------------------------------------------

/// One declared name folded into the table: the name itself is bound to an
/// empty origin list, and its derived alias, when there is one, records the
/// name.  The language-runtime entry `python` is dropped.
pub open spec fn build_step(
    t: Seq<EntryModel>,
    name: Seq<char>,
    ov: Seq<(Seq<char>, Seq<char>)>,
) -> Seq<EntryModel> {
    if name == "python"@ {
        t
    } else {
        let t1 = table_set(t, name, Seq::empty());
        match manifest_alias(name, ov) {
            Some(a) => table_register(t1, a, name),
            None => t1,
        }
    }
}

/// The table after every declared name has been folded in, in manifest
/// order.
pub open spec fn build_steps(
    t: Seq<EntryModel>,
    names: Seq<Seq<char>>,
    ov: Seq<(Seq<char>, Seq<char>)>,
) -> Seq<EntryModel>
    decreases names.len(),
{
    if names.len() == 0 {
        t
    } else {
        build_steps(build_step(t, names[0], ov), names.drop_first(), ov)
    }
}

/// The resolution table for one group of declared dependency names.
pub open spec fn built_table(names: Seq<Seq<char>>, ov: Seq<(Seq<char>, Seq<char>)>) -> Seq<
    EntryModel,
> {
    build_steps(Seq::empty(), names, ov)
}

/// Builds the resolution table for one group of declared names, under the
/// given override table.
pub fn build_table(names: &Vec<String>, overrides: &Vec<(String, String)>) -> (r: AliasTable)
    ensures
        r.wf(),
        r@ == built_table(seq_views(names@), pair_views(overrides@)),
{
    let ghost ns = seq_views(names@);
    let ghost ov = pair_views(overrides@);
    let python = String::from_str("python");
    let mut table = AliasTable::new();
    let n = names.len();
    let mut i: usize = 0;
    proof {
        assert(ns.skip(0) =~= ns);
    }
    while i < n
        invariant
            i <= n,
            n == names@.len(),
            ns == seq_views(names@),
            ov == pair_views(overrides@),
            python@ == "python"@,
            table.wf(),
            built_table(ns, ov) == build_steps(table@, ns.skip(i as int), ov),
        decreases n - i,
    {
        proof {
            assert(ns.skip(i as int)[0] == ns[i as int]);
            assert(ns.skip(i as int).drop_first() =~= ns.skip(i as int + 1));
        }
        if !(names[i] == python) {
            let no_origins: Vec<String> = Vec::new();
            proof {
                assert(seq_views(no_origins@) =~= Seq::<Seq<char>>::empty());
            }
            table.set_entry(names[i].clone(), no_origins);
            match derive_alias(&names[i], overrides) {
                Some(alias) => {
                    table.register(alias, names[i].clone());
                },
                None => {
                },
            }
        }
        i = i + 1;
    }
    proof {
        assert(ns.skip(n as int).len() == 0);
    }
    table
}

// ---------------------------------------------------------------------------
// The zero-match law: an untouched table reports every name
// ---------------------------------------------------------------------------

/// Folding sorted fresh names into a table appends them to its report, as
/// long as no derived alias collides with a declared name.
proof fn lemma_build_steps_unused(
    t: Seq<EntryModel>,
    names: Seq<Seq<char>>,
    ov: Seq<(Seq<char>, Seq<char>)>,
)
    requires
        table_sorted(t),
        forall|i: int, j: int| 0 <= i < j < names.len() ==> seq_lt(
            #[trigger] names[i],
            #[trigger] names[j],
        ),
        forall|i: int| 0 <= i < names.len() ==> #[trigger] names[i] != "python"@,
        forall|i: int, j: int| 0 <= i < names.len() && 0 <= j < names.len() ==> manifest_alias(
            #[trigger] names[i],
            ov,
        ) != Some(#[trigger] names[j]),
        forall|j: int| 0 <= j < names.len() ==> !table_contains(t, #[trigger] names[j]),
        forall|e: int, i: int|
            0 <= e < t.len() && #[trigger] t[e].origins.len() == 0 && 0 <= i < names.len() ==> {
                &&& seq_lt(t[e].alias, #[trigger] names[i])
                &&& manifest_alias(names[i], ov) != Some(t[e].alias)
            },
    ensures
        table_unused(build_steps(t, names, ov)) == table_unused(t) + names,
    decreases names.len(),
{
    if names.len() == 0 {
        assert(table_unused(t) + names =~= table_unused(t));
    } else {
        let name0 = names[0];
        let rest = names.drop_first();
        assert(forall|i: int| 0 <= i < rest.len() ==> #[trigger] rest[i] == names[i + 1]);
        let t1 = table_set(t, name0, Seq::empty());
        let e0 = EntryModel { alias: name0, origins: Seq::empty() };
        lemma_set_sorted(t, name0, Seq::empty());
        lemma_unused_of_set_fresh(t, name0);
        lemma_set_entry_of(t, name0, Seq::empty());
        let t2 = build_step(t, name0, ov);
        match manifest_alias(name0, ov) {
            Some(a) => {
                assert(t2 == table_register(t1, a, name0));
                assert forall|e: int|
                    0 <= e < t1.len() && #[trigger] t1[e].origins.len() == 0 implies t1[e].alias
                    != a by {
                    if t1[e] != e0 {
                        let w = choose|i: int| 0 <= i < t.len() && t1[e] == #[trigger] t[i];
                        assert(t[w].origins.len() == 0);
                    }
                }
                lemma_unused_of_register(t1, a, name0);
                lemma_register_sorted(t1, a, name0);
                lemma_register_entry_of(t1, a, name0);
            },
            None => {
                assert(t2 == t1);
            },
        }
        // the names still to come are fresh in the new table
        assert forall|j: int| 0 <= j < rest.len() implies !table_contains(
            t2,
            #[trigger] rest[j],
        ) by {
            assert(rest[j] == names[j + 1]);
            assert(seq_lt(names[0], names[j + 1]));
            if rest[j] == name0 {
                lemma_seq_lt_irrefl(name0);
            }
            lemma_set_membership(t, name0, Seq::empty(), rest[j]);
            match manifest_alias(name0, ov) {
                Some(a) => {
                    assert(manifest_alias(names[0], ov) != Some(names[j + 1]));
                    lemma_register_membership(t1, a, name0, rest[j]);
                },
                None => {
                },
            }
        }
        // the unconfirmed keys of the new table sit below the names to come
        // and collide with none of their aliases
        assert forall|e: int, i: int|
            0 <= e < t2.len() && #[trigger] t2[e].origins.len() == 0 && 0 <= i
                < rest.len() implies {
            &&& seq_lt(t2[e].alias, #[trigger] rest[i])
            &&& manifest_alias(rest[i], ov) != Some(t2[e].alias)
        } by {
            assert(rest[i] == names[i + 1]);
            match manifest_alias(name0, ov) {
                Some(a) => {
                    assert(t2[e] == table_register(t1, a, name0)[e]);
                    assert(!(t2[e].alias == a && t2[e].origins.len() > 0));
                },
                None => {
                    assert(t2[e] == t1[e]);
                },
            }
            assert(exists|x: int| 0 <= x < t1.len() && t2[e] == #[trigger] t1[x]);
            let w1 = choose|x: int| 0 <= x < t1.len() && t2[e] == #[trigger] t1[x];
            assert(t1[w1].origins.len() == 0);
            if t1[w1] == e0 {
                assert(seq_lt(names[0], names[i + 1]));
                assert(manifest_alias(names[i + 1], ov) != Some(names[0]));
            } else {
                assert(t1[w1] == table_set(t, name0, Seq::empty())[w1]);
                assert(exists|y: int| 0 <= y < t.len() && t1[w1] == #[trigger] t[y]);
                let w2 = choose|y: int| 0 <= y < t.len() && t1[w1] == #[trigger] t[y];
                assert(t[w2].origins.len() == 0);
            }
        }
        lemma_build_steps_unused(t2, rest, ov);
        assert(build_steps(t, names, ov) == build_steps(t2, rest, ov));
        assert((table_unused(t) + seq![name0]) + rest =~= table_unused(t) + names);
    }
}

/// Law: when no import matches anything, the report lists exactly the
/// declared dependency names, in the order the naturally ordered manifest
/// mapping gives them.  No derived alias may collide with a declared name:
/// a manifest in which one dependency's alias is another dependency's name
/// can mask the masked name.
pub proof fn lemma_report_without_imports(names: Seq<Seq<char>>, ov: Seq<(Seq<char>, Seq<char>)>)
    requires
        forall|i: int, j: int| 0 <= i < j < names.len() ==> seq_lt(
            #[trigger] names[i],
            #[trigger] names[j],
        ),
        forall|i: int| 0 <= i < names.len() ==> #[trigger] names[i] != "python"@,
        forall|i: int, j: int| 0 <= i < names.len() && 0 <= j < names.len() ==> manifest_alias(
            #[trigger] names[i],
            ov,
        ) != Some(#[trigger] names[j]),
    ensures
        table_unused(built_table(names, ov)) == names,
{
    let t0 = Seq::<EntryModel>::empty();
    lemma_build_steps_unused(t0, names, ov);
    assert(table_unused(t0) + names =~= names);
}

// ---------------------------------------------------------------------------
// The trusted layer over the toml crate
// ---------------------------------------------------------------------------

/// The keys of the manifest's required-dependency table, in table order, or
/// nothing when the text does not parse or lacks that table; a function of
/// the text alone.
pub uninterp spec fn main_dep_names_of(s: Seq<char>) -> Option<Seq<Seq<char>>>;

/// The keys of the manifest's development-dependency table, in table order,
/// or nothing when the text does not parse or lacks both development
/// layouts; a function of the text alone.
pub uninterp spec fn dev_dep_names_of(s: Seq<char>) -> Option<Seq<Seq<char>>>;

/// Relies on the `toml` crate (`str::parse::<toml::Table>`, `Map::get`,
/// `Value::get`, `Value::as_table`, `Map::keys`): reads the keys, in table
/// order, of the `tool.poetry.dependencies` table of the manifest text.
#[verifier::external_body]
fn main_group_names(text: &str) -> (r: Option<Vec<String>>)
    ensures
        r is Some <==> main_dep_names_of(text@) is Some,
        r matches Some(v) ==> main_dep_names_of(text@) == Some(seq_views(v@)),
{
    let doc: toml::Table = match text.parse() {
        Ok(t) => t,
        Err(_) => return None,
    };
    let table = doc.get("tool")?.get("poetry")?.get("dependencies")?.as_table()?;
    Some(table.keys().cloned().collect())
}

/// Relies on the `toml` crate (`str::parse::<toml::Table>`, `Map::get`,
/// `Value::get`, `Value::as_table`, `Map::keys`): reads the keys, in table
/// order, of the manifest's `tool.poetry.dev-dependencies` table, falling
/// back to the newer `tool.poetry.group.dev.dependencies` layout.
#[verifier::external_body]
fn dev_group_names(text: &str) -> (r: Option<Vec<String>>)
    ensures
        r is Some <==> dev_dep_names_of(text@) is Some,
        r matches Some(v) ==> dev_dep_names_of(text@) == Some(seq_views(v@)),
{
    let doc: toml::Table = match text.parse() {
        Ok(t) => t,
        Err(_) => return None,
    };
    let poetry = doc.get("tool")?.get("poetry")?;
    let old_layout = match poetry.get("dev-dependencies") {
        Some(dev) => dev.as_table(),
        None => None,
    };
    let table = match old_layout {
        Some(t) => t,
        None => poetry.get("group")?.get("dev")?.get("dependencies")?.as_table()?,
    };
    Some(table.keys().cloned().collect())
}

/// The required-dependency resolution table of a manifest, or nothing when
/// the manifest does not parse or declares no required group.
pub fn main_dependencies(text: &str, overrides: &Vec<(String, String)>) -> (r: Option<AliasTable>)
    ensures
        r is Some <==> main_dep_names_of(text@) is Some,
        r matches Some(t) ==> t.wf() && t@ == built_table(
            main_dep_names_of(text@).unwrap(),
            pair_views(overrides@),
        ),
{
    match main_group_names(text) {
        Some(names) => Some(build_table(&names, overrides)),
        None => None,
    }
}

/// The development-dependency resolution table of a manifest, or nothing
/// when the manifest does not parse or declares no development group.
pub fn dev_dependencies(text: &str, overrides: &Vec<(String, String)>) -> (r: Option<AliasTable>)
    ensures
        r is Some <==> dev_dep_names_of(text@) is Some,
        r matches Some(t) ==> t.wf() && t@ == built_table(
            dev_dep_names_of(text@).unwrap(),
            pair_views(overrides@),
        ),
{
    match dev_group_names(text) {
        Some(names) => Some(build_table(&names, overrides)),
        None => None,
    }
}

} // verus!
