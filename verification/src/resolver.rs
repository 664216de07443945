//! The resolution consumer: feeds extracted import references through the
//! two resolution tables and reports what was never confirmed.
//!
//! Each import reference yields a list of candidate aliases.  A candidate
//! that is present in a table strikes its entry off, together with the
//! entries of the declared names it confirmed.  The required and the
//! development table are fully independent: a match in one never touches
//! the other.  Striking is at most once per key, so the outcome does not
//! depend on the order in which files are scanned.

use vstd::prelude::*;

use crate::aliases::{derive_import_aliases, import_candidates, manifest_alias, override_lookup};
use crate::manifest::{build_step, build_steps, built_table};
use crate::parser::{imports_of, parse_python_file, ImportModel, ImportStatement};
use crate::table::{
    lemma_remove_absent, lemma_remove_makes_absent, lemma_remove_preserves_absent,
    lemma_remove_sorted, table_contains, table_lookup, table_remove, table_sorted, table_unused,
    AliasTable, EntryModel,
};
use crate::text::{seq_contains_char, seq_views};

verus! {

// ---------------------------------------------------------------------------
// The model of one resolution step
// ---------------------------------------------------------------------------

/// Strikes every confirmed declared name off the table.
pub open spec fn resolve_origins(t: Seq<EntryModel>, origins: Seq<Seq<char>>) -> Seq<EntryModel>
    decreases origins.len(),
{
    if origins.len() == 0 {
        t
    } else {
        resolve_origins(table_remove(t, origins[0]), origins.drop_first())
    }
}

/// The table after one candidate alias has been tried: a present alias is
/// struck off together with the declared names it confirms; an absent one
/// changes nothing.
pub open spec fn resolve_candidate(t: Seq<EntryModel>, a: Seq<char>) -> Seq<EntryModel> {
    match table_lookup(t, a) {
        None => t,
        Some(origins) => resolve_origins(table_remove(t, a), origins),
    }
}

/// The table after a list of candidate aliases has been tried in order.
pub open spec fn resolve_candidates(t: Seq<EntryModel>, cs: Seq<Seq<char>>) -> Seq<EntryModel>
    decreases cs.len(),
{
    if cs.len() == 0 {
        t
    } else {
        resolve_candidates(resolve_candidate(t, cs[0]), cs.drop_first())
    }
}

/// The table after one import reference has been tried.
pub open spec fn import_step(t: Seq<EntryModel>, im: ImportModel) -> Seq<EntryModel> {
    resolve_candidates(t, import_candidates(im.package, im.module))
}

/// The table after a sequence of import references has been tried in order.
pub open spec fn import_steps(t: Seq<EntryModel>, ims: Seq<ImportModel>) -> Seq<EntryModel>
    decreases ims.len(),
{
    if ims.len() == 0 {
        t
    } else {
        import_steps(import_step(t, ims[0]), ims.drop_first())
    }
}

/// The table after every import of every source text has been tried, file
/// by file.
pub open spec fn file_steps(t: Seq<EntryModel>, files: Seq<Seq<char>>) -> Seq<EntryModel>
    decreases files.len(),
{
    if files.len() == 0 {
        t
    } else {
        file_steps(import_steps(t, imports_of(files[0])), files.drop_first())
    }
}

// ---------------------------------------------------------------------------
// Idempotence laws: a struck-off alias stays struck off
// ---------------------------------------------------------------------------

/// Striking confirmed names never makes a key appear.
proof fn lemma_resolve_origins_preserves_absent(
    t: Seq<EntryModel>,
    origins: Seq<Seq<char>>,
    k: Seq<char>,
)
    requires
        !table_contains(t, k),
    ensures
        !table_contains(resolve_origins(t, origins), k),
    decreases origins.len(),
{
    if origins.len() > 0 {
        lemma_remove_preserves_absent(t, origins[0], k);
        lemma_resolve_origins_preserves_absent(
            table_remove(t, origins[0]),
            origins.drop_first(),
            k,
        );
    }
}

/// Trying a candidate never makes a key appear.
proof fn lemma_resolve_candidate_preserves_absent(t: Seq<EntryModel>, a: Seq<char>, k: Seq<char>)
    requires
        !table_contains(t, k),
    ensures
        !table_contains(resolve_candidate(t, a), k),
{
    match table_lookup(t, a) {
        None => {
        },
        Some(origins) => {
            lemma_remove_preserves_absent(t, a, k);
            lemma_resolve_origins_preserves_absent(table_remove(t, a), origins, k);
        },
    }
}

/// After a candidate has been tried, that candidate is absent.
proof fn lemma_resolve_candidate_makes_absent(t: Seq<EntryModel>, a: Seq<char>)
    requires
        table_sorted(t),
    ensures
        !table_contains(resolve_candidate(t, a), a),
{
    match table_lookup(t, a) {
        None => {
        },
        Some(origins) => {
            lemma_remove_makes_absent(t, a);
            lemma_resolve_origins_preserves_absent(table_remove(t, a), origins, a);
        },
    }
}

/// Striking confirmed names keeps the keys ordered.
proof fn lemma_resolve_origins_sorted(t: Seq<EntryModel>, origins: Seq<Seq<char>>)
    requires
        table_sorted(t),
    ensures
        table_sorted(resolve_origins(t, origins)),
    decreases origins.len(),
{
    if origins.len() > 0 {
        lemma_remove_sorted(t, origins[0]);
        lemma_resolve_origins_sorted(table_remove(t, origins[0]), origins.drop_first());
    }
}

/// Trying a candidate keeps the keys ordered.
proof fn lemma_resolve_candidate_sorted(t: Seq<EntryModel>, a: Seq<char>)
    requires
        table_sorted(t),
    ensures
        table_sorted(resolve_candidate(t, a)),
{
    match table_lookup(t, a) {
        None => {
        },
        Some(origins) => {
            lemma_remove_sorted(t, a);
            lemma_resolve_origins_sorted(table_remove(t, a), origins);
        },
    }
}

/// Trying a list of candidates keeps the keys ordered.
proof fn lemma_resolve_candidates_sorted(t: Seq<EntryModel>, cs: Seq<Seq<char>>)
    requires
        table_sorted(t),
    ensures
        table_sorted(resolve_candidates(t, cs)),
    decreases cs.len(),
{
    if cs.len() > 0 {
        lemma_resolve_candidate_sorted(t, cs[0]);
        lemma_resolve_candidates_sorted(resolve_candidate(t, cs[0]), cs.drop_first());
    }
}

/// Trying a list of candidates never makes a key appear.
proof fn lemma_resolve_candidates_preserves_absent(
    t: Seq<EntryModel>,
    cs: Seq<Seq<char>>,
    k: Seq<char>,
)
    requires
        !table_contains(t, k),
    ensures
        !table_contains(resolve_candidates(t, cs), k),
    decreases cs.len(),
{
    if cs.len() > 0 {
        lemma_resolve_candidate_preserves_absent(t, cs[0], k);
        lemma_resolve_candidates_preserves_absent(resolve_candidate(t, cs[0]), cs.drop_first(), k);
    }
}

/// After a list of candidates has been tried, every one of them is absent.
proof fn lemma_resolve_candidates_all_absent(t: Seq<EntryModel>, cs: Seq<Seq<char>>)
    requires
        table_sorted(t),
    ensures
        forall|j: int| 0 <= j < cs.len() ==> !table_contains(
            resolve_candidates(t, cs),
            #[trigger] cs[j],
        ),
    decreases cs.len(),
{
    if cs.len() > 0 {
        let t1 = resolve_candidate(t, cs[0]);
        lemma_resolve_candidate_makes_absent(t, cs[0]);
        lemma_resolve_candidate_sorted(t, cs[0]);
        lemma_resolve_candidates_preserves_absent(t1, cs.drop_first(), cs[0]);
        lemma_resolve_candidates_all_absent(t1, cs.drop_first());
        assert forall|j: int| 0 <= j < cs.len() implies !table_contains(
            resolve_candidates(t, cs),
            #[trigger] cs[j],
        ) by {
            if j > 0 {
                assert(cs.drop_first()[j - 1] == cs[j]);
            }
        }
    }
}

/// Trying candidates that are all absent changes nothing.
proof fn lemma_resolve_candidates_noop(t: Seq<EntryModel>, cs: Seq<Seq<char>>)
    requires
        forall|j: int| 0 <= j < cs.len() ==> !table_contains(t, #[trigger] cs[j]),
    ensures
        resolve_candidates(t, cs) == t,
    decreases cs.len(),
{
    if cs.len() > 0 {
        assert(resolve_candidate(t, cs[0]) == t);
        assert forall|j: int| 0 <= j < cs.drop_first().len() implies !table_contains(
            t,
            #[trigger] cs.drop_first()[j],
        ) by {
            assert(cs.drop_first()[j] == cs[j + 1]);
        }
        lemma_resolve_candidates_noop(t, cs.drop_first());
    }
}

/// Law: resolution is set-idempotent.  Once an alias has been struck off
/// the table, trying the same candidate again is a no-op: nothing is
/// double-counted and nothing is re-inserted.
pub proof fn lemma_resolve_candidate_idempotent(t: Seq<EntryModel>, a: Seq<char>)
    requires
        table_sorted(t),
    ensures
        resolve_candidate(resolve_candidate(t, a), a) == resolve_candidate(t, a),
{
    lemma_resolve_candidate_makes_absent(t, a);
}

/// Law: replaying one import reference against a table that has already
/// seen it is a no-op; the whole candidate list of the reference was struck
/// off, or absent, the first time.
pub proof fn lemma_import_step_idempotent(t: Seq<EntryModel>, im: ImportModel)
    requires
        table_sorted(t),
    ensures
        import_step(import_step(t, im), im) == import_step(t, im),
{
    let cs = import_candidates(im.package, im.module);
    lemma_resolve_candidates_all_absent(t, cs);
    lemma_resolve_candidates_noop(resolve_candidates(t, cs), cs);
}

/// Law: exact match.  A dependency with no hyphen in its name and no entry
/// in the override table derives no alias, so in the table built for it the
/// only candidate that resolves it is the name itself: the name empties the
/// table, and every other candidate leaves it untouched.
pub proof fn lemma_exact_match(d: Seq<char>, ov: Seq<(Seq<char>, Seq<char>)>, c: Seq<char>)
    requires
        !seq_contains_char(d, '-'),
        override_lookup(ov, d) is None,
        d != "python"@,
    ensures
        c == d ==> resolve_candidate(built_table(seq![d], ov), c) == Seq::<EntryModel>::empty(),
        c != d ==> resolve_candidate(built_table(seq![d], ov), c) == built_table(seq![d], ov),
{
    reveal_with_fuel(build_steps, 3);
    reveal_with_fuel(table_lookup, 3);
    let ns = seq![d];
    let t = built_table(ns, ov);
    assert(ns.drop_first().len() == 0);
    assert(manifest_alias(d, ov) is None);
    let e = EntryModel { alias: d, origins: Seq::empty() };
    assert(build_step(Seq::empty(), d, ov) =~= seq![e]);
    assert(t =~= seq![e]);
    if c == d {
        assert(table_lookup(t, c) == Some(Seq::<Seq<char>>::empty()));
        assert(table_remove(t, c) =~= Seq::<EntryModel>::empty());
        assert(resolve_candidate(t, c) =~= Seq::<EntryModel>::empty());
    } else {
        assert(t[0].alias == d);
        assert(t.drop_first() =~= Seq::<EntryModel>::empty());
        assert(table_lookup(t, c) is None);
    }
}

// ---------------------------------------------------------------------------
// The executable resolver
// ---------------------------------------------------------------------------

/// The single owner of the two resolution tables for the lifetime of a
/// scan: one for required dependencies, one for development dependencies.
pub struct Resolver {
    /// The required-dependency table.
    pub main: AliasTable,
    /// The development-dependency table.
    pub dev: AliasTable,
}

impl Resolver {
    /// Both tables are well formed.
    pub open spec fn wf(&self) -> bool {
        self.main.wf() && self.dev.wf()
    }

    /// A resolver over freshly built tables.
    pub fn new(main: AliasTable, dev: AliasTable) -> (r: Resolver)
        requires
            main.wf(),
            dev.wf(),
        ensures
            r.wf(),
            r.main@ == main@,
            r.dev@ == dev@,
    {
        Resolver { main, dev }
    }

    /// Tries one candidate alias against one table.
    fn resolve_in(table: &mut AliasTable, alias: &String)
        requires
            old(table).wf(),
        ensures
            final(table).wf(),
            final(table)@ == resolve_candidate(old(table)@, alias@),
    {
        let ghost t0 = table@;
        match table.try_resolve(alias) {
            Some(origins) => {
                let ghost g = seq_views(origins@);
                let n = origins.len();
                let mut i: usize = 0;
                proof {
                    assert(g.skip(0) =~= g);
                }
                while i < n
                    invariant
                        i <= n,
                        n == origins@.len(),
                        g == seq_views(origins@),
                        table.wf(),
                        resolve_origins(table_remove(t0, alias@), g) == resolve_origins(
                            table@,
                            g.skip(i as int),
                        ),
                        table_lookup(t0, alias@) == Some(g),
                    decreases n - i,
                {
                    let ghost cur = table@;
                    table.strike(&origins[i]);
                    proof {
                        assert(g.skip(i as int)[0] == g[i as int]);
                        assert(g.skip(i as int).drop_first() =~= g.skip(i as int + 1));
                    }
                    i = i + 1;
                }
                proof {
                    assert(g.skip(n as int).len() == 0);
                }
            },
            None => {
                proof {
                    lemma_remove_absent(t0, alias@);
                }
            },
        }
    }

    /// Tries every candidate alias of one import reference against both
    /// tables; the tables are independent.
    pub fn process_import(&mut self, st: &ImportStatement)
        requires
            old(self).wf(),
        ensures
            final(self).wf(),
            final(self).main@ == import_step(old(self).main@, st@),
            final(self).dev@ == import_step(old(self).dev@, st@),
    {
        let ghost m0 = self.main@;
        let ghost d0 = self.dev@;
        let aliases = derive_import_aliases(st);
        let ghost cs = seq_views(aliases@);
        let n = aliases.len();
        let mut i: usize = 0;
        proof {
            assert(cs.skip(0) =~= cs);
        }
        while i < n
            invariant
                i <= n,
                n == aliases@.len(),
                self.wf(),
                cs == seq_views(aliases@),
                resolve_candidates(m0, cs) == resolve_candidates(self.main@, cs.skip(i as int)),
                resolve_candidates(d0, cs) == resolve_candidates(self.dev@, cs.skip(i as int)),
            decreases n - i,
        {
            proof {
                assert(cs.skip(i as int)[0] == cs[i as int]);
                assert(cs.skip(i as int).drop_first() =~= cs.skip(i as int + 1));
            }
            Self::resolve_in(&mut self.main, &aliases[i]);
            Self::resolve_in(&mut self.dev, &aliases[i]);
            i = i + 1;
        }
        proof {
            assert(cs.skip(n as int).len() == 0);
        }
    }

    /// Extracts every import of one source text and tries each in order.
    pub fn process_file(&mut self, text: &str)
        requires
            old(self).wf(),
        ensures
            final(self).wf(),
            final(self).main@ == import_steps(old(self).main@, imports_of(text@)),
            final(self).dev@ == import_steps(old(self).dev@, imports_of(text@)),
    {
        let ghost m0 = self.main@;
        let ghost d0 = self.dev@;
        let imports = parse_python_file(text);
        let ghost ims = imports_of(text@);
        let n = imports.len();
        let mut i: usize = 0;
        proof {
            assert(ims.skip(0) =~= ims);
        }
        while i < n
            invariant
                i <= n,
                n == imports@.len(),
                self.wf(),
                ims == imports_of(text@),
                ims.len() == n,
                forall|k: int| 0 <= k < n ==> #[trigger] imports@[k]@ == ims[k],
                import_steps(m0, ims) == import_steps(self.main@, ims.skip(i as int)),
                import_steps(d0, ims) == import_steps(self.dev@, ims.skip(i as int)),
            decreases n - i,
        {
            proof {
                assert(ims.skip(i as int)[0] == ims[i as int]);
                assert(ims.skip(i as int).drop_first() =~= ims.skip(i as int + 1));
            }
            self.process_import(&imports[i]);
            i = i + 1;
        }
        proof {
            assert(ims.skip(n as int).len() == 0);
        }
    }

    /// The unused report: the names left unconfirmed in the required table
    /// and, when development checking is on, in the development table.
    pub fn report(&self, check_dev: bool) -> (r: Vec<String>)
        ensures
            seq_views(r@) == report_names(self.main@, self.dev@, check_dev),
    {
        let mut r = self.main.remaining_unused();
        if check_dev {
            let mut d = self.dev.remaining_unused();
            let ghost rv = seq_views(r@);
            let ghost dv = seq_views(d@);
            r.append(&mut d);
            proof {
                assert(seq_views(r@) =~= rv + dv);
            }
        }
        proof {
            assert(seq_views(r@) =~= report_names(self.main@, self.dev@, check_dev));
        }
        r
    }
}

/// The names of the final report: the unconfirmed required names followed,
/// when development checking is on, by the unconfirmed development names.
pub open spec fn report_names(main: Seq<EntryModel>, dev: Seq<EntryModel>, check_dev: bool) -> Seq<
    Seq<char>,
> {
    table_unused(main) + if check_dev {
        table_unused(dev)
    } else {
        Seq::<Seq<char>>::empty()
    }
}

/// Builds a resolver over the two tables, scans every source text, and
/// reports the dependencies that no import confirmed.
pub fn run_scan(main: AliasTable, dev: AliasTable, files: &Vec<String>, check_dev: bool) -> (r: Vec<
    String,
>)
    requires
        main.wf(),
        dev.wf(),
    ensures
        seq_views(r@) == report_names(
            file_steps(main@, seq_views(files@)),
            file_steps(dev@, seq_views(files@)),
            check_dev,
        ),
{
    let ghost m0 = main@;
    let ghost d0 = dev@;
    let ghost fs = seq_views(files@);
    let mut resolver = Resolver::new(main, dev);
    let n = files.len();
    let mut i: usize = 0;
    proof {
        assert(fs.skip(0) =~= fs);
    }
    while i < n
        invariant
            i <= n,
            n == files@.len(),
            resolver.wf(),
            fs == seq_views(files@),
            file_steps(m0, fs) == file_steps(resolver.main@, fs.skip(i as int)),
            file_steps(d0, fs) == file_steps(resolver.dev@, fs.skip(i as int)),
        decreases n - i,
    {
        proof {
            assert(fs.skip(i as int)[0] == fs[i as int]);
            assert(fs.skip(i as int).drop_first() =~= fs.skip(i as int + 1));
        }
        resolver.process_file(files[i].as_str());
        i = i + 1;
    }
    proof {
        assert(fs.skip(n as int).len() == 0);
    }
    resolver.report(check_dev)
}

} // verus!
