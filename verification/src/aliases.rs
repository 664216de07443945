//! Derives the candidate import names under which a declared dependency may
//! show up, on both sides of the match.
//!
//! For a declared name the alias is the known override when the override
//! table has one, otherwise the hyphens-to-underscores lowercase form when
//! the name has a hyphen, and otherwise nothing: the name then only matches
//! itself.
//!
//! For an extracted import the candidate list covers the common ways an
//! install name encodes a module path: the dotted path with a submodule
//! suffix, adapter-style vendor names, the dotted path joined with hyphens,
//! its first segment, its first two segments, and the path itself.

use vstd::prelude::*;

use crate::parser::ImportStatement;
use crate::text::{
    find_char, join_char, join_strings, lemma_find_char_props, push_char, replace_char,
    seq_contains_char, seq_views, split_char, str_contains_char, str_find_char, str_replace_char,
    str_split_char,
};

verus! {

// ---------------------------------------------------------------------------
// The declared-name side
// ---------------------------------------------------------------------------

/// What `str::to_lowercase` returns; the mapping depends on the characters
/// alone.
pub uninterp spec fn lower_of(s: Seq<char>) -> Seq<char>;

/// Relies on `str::to_lowercase`: returns the string lowercased, a function
/// of the characters alone.
#[verifier::external_body]
fn to_lower(s: &str) -> (r: String)
    ensures
        r@ == lower_of(s@),
{
    s.to_lowercase()
}

/// The views of a sequence of pairs of `String`s.
pub open spec fn pair_views(v: Seq<(String, String)>) -> Seq<(Seq<char>, Seq<char>)> {
    v.map_values(|p: (String, String)| (p.0@, p.1@))
}

/// The override for `name`, if the table has one; the first match wins.
pub open spec fn override_lookup(ov: Seq<(Seq<char>, Seq<char>)>, name: Seq<char>) -> Option<
    Seq<char>,
>
    decreases ov.len(),
{
    if ov.len() == 0 {
        None
    } else if ov[0].0 == name {
        Some(ov[0].1)
    } else {
        override_lookup(ov.drop_first(), name)
    }
}

/// The derived alias for a declared dependency name: the override when one
/// is known, else the hyphens-to-underscores lowercase form when the name
/// has a hyphen, else nothing.
pub open spec fn manifest_alias(name: Seq<char>, ov: Seq<(Seq<char>, Seq<char>)>) -> Option<
    Seq<char>,
> {
    match override_lookup(ov, name) {
        Some(a) => Some(a),
        None => if seq_contains_char(name, '-') {
            Some(lower_of(replace_char(name, '-', '_')))
        } else {
            None
        },
    }
}

/// Derives the alias for one declared dependency name.
pub fn derive_alias(name: &String, overrides: &Vec<(String, String)>) -> (r: Option<String>)
    ensures
        r is Some <==> manifest_alias(name@, pair_views(overrides@)) is Some,
        r matches Some(a) ==> manifest_alias(name@, pair_views(overrides@)) == Some(a@),
{
    let n = overrides.len();
    let mut i: usize = 0;
    proof {
        assert(pair_views(overrides@).skip(0) =~= pair_views(overrides@));
    }
    while i < n
        invariant
            i <= n,
            n == overrides@.len(),
            override_lookup(pair_views(overrides@), name@) == override_lookup(
                pair_views(overrides@).skip(i as int),
                name@,
            ),
        decreases n - i,
    {
        proof {
            assert(pair_views(overrides@).skip(i as int)[0] == (
                overrides@[i as int].0@,
                overrides@[i as int].1@,
            ));
            assert(pair_views(overrides@).skip(i as int).drop_first() =~= pair_views(
                overrides@,
            ).skip(i as int + 1));
        }
        if overrides[i].0 == *name {
            return Some(overrides[i].1.clone());
        }
        i = i + 1;
    }
    proof {
        assert(pair_views(overrides@).skip(n as int).len() == 0);
    }
    if str_contains_char(name.as_str(), '-') {
        let repl = str_replace_char(name.as_str(), '-', '_');
        Some(to_lower(repl.as_str()))
    } else {
        None
    }
}

// ---------------------------------------------------------------------------
// The import side
// ---------------------------------------------------------------------------

/// The dotted path starts with `dbt.adapters`.
pub open spec fn has_dbt_adapters_prefix(p: Seq<char>) -> bool {
    &&& p.len() >= 12
    &&& p[0] == 'd'
    &&& p[1] == 'b'
    &&& p[2] == 't'
    &&& p[3] == '.'
    &&& p[4] == 'a'
    &&& p[5] == 'd'
    &&& p[6] == 'a'
    &&& p[7] == 'p'
    &&& p[8] == 't'
    &&& p[9] == 'e'
    &&& p[10] == 'r'
    &&& p[11] == 's'
}

/// The candidate aliases derived from one import reference, most specific
/// first: the dotted path with dots as hyphens joined to the first imported
/// name; the adapter vendor form of a `dbt.adapters` path; the dotted path
/// joined with hyphens; its first segment; its first two segments joined
/// with a hyphen; and the path itself.
pub open spec fn import_candidates(p: Seq<char>, m: Seq<char>) -> Seq<Seq<char>> {
    let parts = split_char(p, '.');
    (if m.len() > 0 {
        seq![replace_char(p, '.', '-') + seq!['-'] + m]
    } else {
        Seq::<Seq<char>>::empty()
    }) + (if has_dbt_adapters_prefix(p) && parts.len() >= 3 {
        seq![parts[0] + seq!['-'] + parts[2]]
    } else {
        Seq::<Seq<char>>::empty()
    }) + (if seq_contains_char(p, '.') {
        seq![join_char(parts, '-')]
    } else {
        Seq::<Seq<char>>::empty()
    }) + (if seq_contains_char(p, '.') {
        seq![p.take(find_char(p, '.'))]
    } else {
        Seq::<Seq<char>>::empty()
    }) + (if parts.len() >= 2 {
        seq![parts[0] + seq!['-'] + parts[1]]
    } else {
        Seq::<Seq<char>>::empty()
    }) + seq![p]
}

/// Whether the dotted path starts with `dbt.adapters`.
fn dbt_adapters_prefix(p: &str) -> (r: bool)
    ensures
        r == has_dbt_adapters_prefix(p@),
{
    let n = p.unicode_len();
    if n < 12 {
        return false;
    }
    p.get_char(0) == 'd' && p.get_char(1) == 'b' && p.get_char(2) == 't' && p.get_char(3) == '.'
        && p.get_char(4) == 'a' && p.get_char(5) == 'd' && p.get_char(6) == 'a' && p.get_char(7)
        == 'p' && p.get_char(8) == 't' && p.get_char(9) == 'e' && p.get_char(10) == 'r'
        && p.get_char(11) == 's'
}

/// Joins two pieces with a hyphen.
fn hyphen_join(a: &String, b: &str) -> (r: String)
    ensures
        r@ == a@ + seq!['-'] + b@,
{
    let mut out = a.clone();
    push_char(&mut out, '-');
    out.append(b);
    proof {
        assert(out@ =~= a@ + seq!['-'] + b@);
    }
    out
}

/// Derives every candidate alias for one extracted import reference.
pub fn derive_import_aliases(st: &ImportStatement) -> (r: Vec<String>)
    ensures
        seq_views(r@) == import_candidates(st.package@, st.module@),
{
    let ghost p = st.package@;
    let ghost m = st.module@;
    let mut out: Vec<String> = Vec::new();
    let parts = str_split_char(st.package.as_str(), '.');
    if st.module.as_str().unicode_len() > 0 {
        let repl = str_replace_char(st.package.as_str(), '.', '-');
        out.push(hyphen_join(&repl, st.module.as_str()));
    }
    if dbt_adapters_prefix(st.package.as_str()) && parts.len() >= 3 {
        out.push(hyphen_join(&parts[0], parts[2].as_str()));
    }
    let has_dot = str_contains_char(st.package.as_str(), '.');
    if has_dot {
        out.push(join_strings(&parts, '-'));
    }
    if has_dot {
        let cut = str_find_char(st.package.as_str(), '.');
        proof {
            lemma_find_char_props(p, '.');
        }
        out.push(String::from_str(st.package.as_str().substring_char(0, cut)));
    }
    if parts.len() >= 2 {
        out.push(hyphen_join(&parts[0], parts[1].as_str()));
    }
    out.push(st.package.clone());
    proof {
        assert(seq_views(parts@)[0] == parts@[0]@);
        if parts@.len() >= 2 {
            assert(seq_views(parts@)[1] == parts@[1]@);
        }
        if parts@.len() >= 3 {
            assert(seq_views(parts@)[2] == parts@[2]@);
        }
        assert(p.take(find_char(p, '.')) =~= p.subrange(0, find_char(p, '.')));
        assert(seq_views(out@) =~= import_candidates(p, m));
    }
    out
}

} // verus!
