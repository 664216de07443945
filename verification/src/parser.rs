//! Extracts import references from Python source text.
//!
//! The scanner does not understand Python; it walks the text once and, at
//! each position, tries a fixed list of recognizers in priority order:
//! `from <path> import <name>`, `import <path>`, a `#` comment, a
//! triple-quoted block, and finally "skip one character".  Comments and
//! triple-quoted blocks are consumed whole so that import-like text inside
//! them is never reported.

use vstd::prelude::*;

use crate::text::{is_blank, is_ident_cont, is_ident_start, is_line_break};

verus! {

// ---------------------------------------------------------------------------
// The grammar, as specification functions over the character sequence
// ---------------------------------------------------------------------------

/// The word `from` starts at position `i`.
pub open spec fn has_from_at(s: Seq<char>, i: int) -> bool {
    &&& 0 <= i
    &&& i + 4 <= s.len()
    &&& s[i] == 'f'
    &&& s[i + 1] == 'r'
    &&& s[i + 2] == 'o'
    &&& s[i + 3] == 'm'
}

/// The word `import` starts at position `i`.
pub open spec fn has_import_at(s: Seq<char>, i: int) -> bool {
    &&& 0 <= i
    &&& i + 6 <= s.len()
    &&& s[i] == 'i'
    &&& s[i + 1] == 'm'
    &&& s[i + 2] == 'p'
    &&& s[i + 3] == 'o'
    &&& s[i + 4] == 'r'
    &&& s[i + 5] == 't'
}

/// A triple quote `"""` starts at position `i`.
pub open spec fn triple_quote_at(s: Seq<char>, i: int) -> bool {
    &&& 0 <= i
    &&& i + 3 <= s.len()
    &&& s[i] == '"'
    &&& s[i + 1] == '"'
    &&& s[i + 2] == '"'
}

/// End of the run of identifier characters that starts at `i`.
pub open spec fn ident_end(s: Seq<char>, i: int) -> int
    decreases s.len() - i,
{
    if 0 <= i < s.len() && is_ident_cont(s[i]) {
        ident_end(s, i + 1)
    } else {
        i
    }
}

/// End of the run of blanks (spaces and tabs) that starts at `i`.
pub open spec fn blank_end(s: Seq<char>, i: int) -> int
    decreases s.len() - i,
{
    if 0 <= i < s.len() && is_blank(s[i]) {
        blank_end(s, i + 1)
    } else {
        i
    }
}

/// End of the run of non-line-break characters that starts at `i`.
pub open spec fn line_text_end(s: Seq<char>, i: int) -> int
    decreases s.len() - i,
{
    if 0 <= i < s.len() && !is_line_break(s[i]) {
        line_text_end(s, i + 1)
    } else {
        i
    }
}

/// Position of the first triple quote at or after `i`, if any.
pub open spec fn find_triple(s: Seq<char>, i: int) -> Option<int>
    decreases s.len() - i,
{
    if !(0 <= i && i + 3 <= s.len()) {
        None
    } else if triple_quote_at(s, i) {
        Some(i)
    } else {
        find_triple(s, i + 1)
    }
}

/// `from <package> import <module>` at position `i`: the end of the match,
/// the package path and the first imported name.
pub open spec fn try_from_import(s: Seq<char>, i: int) -> Option<(int, Seq<char>, Seq<char>)> {
    if !has_from_at(s, i) {
        None
    } else {
        let a = i + 4;
        if !(a < s.len() && is_blank(s[a])) {
            None
        } else {
            let b = blank_end(s, a);
            if !(b < s.len() && is_ident_start(s[b])) {
                None
            } else {
                let pe = ident_end(s, b + 1);
                if !(pe < s.len() && is_blank(s[pe])) {
                    None
                } else {
                    let c = blank_end(s, pe);
                    if !has_import_at(s, c) {
                        None
                    } else {
                        let d = c + 6;
                        if !(d < s.len() && is_blank(s[d])) {
                            None
                        } else {
                            let e = blank_end(s, d);
                            if !(e < s.len() && is_ident_start(s[e])) {
                                None
                            } else {
                                let me = ident_end(s, e + 1);
                                Some((me, s.subrange(b, pe), s.subrange(e, me)))
                            }
                        }
                    }
                }
            }
        }
    }
}

/// `import <package>` at position `i`: the end of the match and the package
/// path.
pub open spec fn try_simple_import(s: Seq<char>, i: int) -> Option<(int, Seq<char>)> {
    if !has_import_at(s, i) {
        None
    } else {
        let a = i + 6;
        if !(a < s.len() && is_blank(s[a])) {
            None
        } else {
            let b = blank_end(s, a);
            if !(b < s.len() && is_ident_start(s[b])) {
                None
            } else {
                let e = ident_end(s, b + 1);
                Some((e, s.subrange(b, e)))
            }
        }
    }
}

/// A `#` comment at position `i` with at least one following character on
/// the line: the end of the consumed text.
pub open spec fn try_inline_comment(s: Seq<char>, i: int) -> Option<int> {
    if 0 <= i < s.len() && s[i] == '#' && i + 1 < s.len() && !is_line_break(s[i + 1]) {
        Some(line_text_end(s, i + 1))
    } else {
        None
    }
}

/// A triple-quoted block at position `i`, consumed up to and including its
/// closing quote: the end of the consumed text.
pub open spec fn try_triple_quoted(s: Seq<char>, i: int) -> Option<int> {
    if triple_quote_at(s, i) {
        match find_triple(s, i + 3) {
            Some(j) => Some(j + 3),
            None => None,
        }
    } else {
        None
    }
}

/// One extracted import reference: a dotted package path and the first
/// imported name (empty for a bare `import`).
#[verifier::ext_equal]
pub struct ImportModel {
    pub package: Seq<char>,
    pub module: Seq<char>,
}

/// Every import reference extracted from `s` at or after position `i`, in
/// file order.  At each position the first recognizer that matches wins;
/// when none matches, one character is skipped.
pub open spec fn imports_from(s: Seq<char>, i: int) -> Seq<ImportModel>
    decreases s.len() - i,
{
    if !(0 <= i < s.len()) {
        Seq::empty()
    } else if try_from_import(s, i) is Some {
        let (j, p, m) = try_from_import(s, i).unwrap();
        if i < j <= s.len() {
            seq![ImportModel { package: p, module: m }] + imports_from(s, j)
        } else {
            Seq::empty()
        }
    } else if try_simple_import(s, i) is Some {
        let (j, p) = try_simple_import(s, i).unwrap();
        if i < j <= s.len() {
            seq![ImportModel { package: p, module: Seq::empty() }] + imports_from(s, j)
        } else {
            Seq::empty()
        }
    } else if try_inline_comment(s, i) is Some {
        let j = try_inline_comment(s, i).unwrap();
        if i < j <= s.len() {
            imports_from(s, j)
        } else {
            Seq::empty()
        }
    } else if try_triple_quoted(s, i) is Some {
        let j = try_triple_quoted(s, i).unwrap();
        if i < j <= s.len() {
            imports_from(s, j)
        } else {
            Seq::empty()
        }
    } else {
        imports_from(s, i + 1)
    }
}

/// Every import reference extracted from `s`, in file order.
pub open spec fn imports_of(s: Seq<char>) -> Seq<ImportModel> {
    imports_from(s, 0)
}

// ---------------------------------------------------------------------------
// Suppression laws: comments and triple-quoted blocks hide their text
// ---------------------------------------------------------------------------

/// A run of non-line-break characters reaches the end of such text.
proof fn lemma_line_text_runs_out(s: Seq<char>, i: int)
    requires
        0 <= i <= s.len(),
        forall|j: int| i <= j < s.len() ==> !is_line_break(s[j]),
    ensures
        line_text_end(s, i) == s.len(),
    decreases s.len() - i,
{
    if i < s.len() {
        lemma_line_text_runs_out(s, i + 1);
    }
}

/// `find_triple` finds the first triple quote.
proof fn lemma_find_triple_first(s: Seq<char>, i: int, j: int)
    requires
        0 <= i <= j,
        triple_quote_at(s, j),
        forall|k: int| i <= k < j ==> !triple_quote_at(s, k),
    ensures
        find_triple(s, i) == Some(j),
    decreases j - i,
{
    if i < j {
        lemma_find_triple_first(s, i + 1, j);
    }
}

/// A whole line behind a `#` yields no import reference: the comment is
/// consumed up to the line break, whatever it says.
pub proof fn lemma_comment_hides_imports(s: Seq<char>)
    requires
        forall|i: int| 0 <= i < s.len() ==> !is_line_break(s[i]),
    ensures
        imports_of(seq!['#'] + s) == Seq::<ImportModel>::empty(),
{
    let t = seq!['#'] + s;
    assert(t[0] == '#');
    assert(try_from_import(t, 0) is None);
    assert(try_simple_import(t, 0) is None);
    if s.len() == 0 {
        assert(try_inline_comment(t, 0) is None);
        assert(try_triple_quoted(t, 0) is None);
        assert(imports_of(t) =~= imports_from(t, 1));
        assert(imports_from(t, 1) =~= Seq::<ImportModel>::empty());
    } else {
        assert(t[1] == s[0]);
        assert(!is_line_break(t[1]));
        assert forall|j: int| 1 <= j < t.len() implies !is_line_break(t[j]) by {
            assert(t[j] == s[j - 1]);
        }
        lemma_line_text_runs_out(t, 1);
        assert(try_inline_comment(t, 0) == Some(t.len() as int));
        assert(imports_of(t) =~= imports_from(t, t.len() as int));
    }
}

/// Text fenced by triple quotes and free of double quotes yields no import
/// reference: the block is consumed up to its closing quote, whatever it
/// says.
pub proof fn lemma_triple_quoted_hides_imports(s: Seq<char>)
    requires
        forall|i: int| 0 <= i < s.len() ==> s[i] != '"',
    ensures
        imports_of(seq!['"', '"', '"'] + s + seq!['"', '"', '"']) == Seq::<ImportModel>::empty(),
{
    let q = seq!['"', '"', '"'];
    let t = q + s + q;
    assert(t.len() == s.len() + 6);
    assert(t[0] == '"' && t[1] == '"' && t[2] == '"');
    let close = s.len() as int + 3;
    assert(t[close] == '"' && t[close + 1] == '"' && t[close + 2] == '"');
    assert(triple_quote_at(t, 0));
    assert(triple_quote_at(t, close));
    assert forall|k: int| 3 <= k < close implies !triple_quote_at(t, k) by {
        assert(t[k] == s[k - 3]);
    }
    lemma_find_triple_first(t, 3, close);
    assert(try_from_import(t, 0) is None);
    assert(try_simple_import(t, 0) is None);
    assert(try_inline_comment(t, 0) is None);
    assert(try_triple_quoted(t, 0) == Some(t.len() as int));
    assert(imports_of(t) =~= imports_from(t, t.len() as int));
}

// ---------------------------------------------------------------------------
// The extracted statement and its view
// ---------------------------------------------------------------------------

/// One import statement found in source text: the dotted package path and
/// the first imported name (empty for a bare `import`).
#[derive(Debug)]
pub struct ImportStatement {
    pub package: String,
    pub module: String,
}

impl View for ImportStatement {
    type V = ImportModel;

    open spec fn view(&self) -> ImportModel {
        ImportModel { package: self.package@, module: self.module@ }
    }
}

/// The views of a sequence of extracted statements.
pub open spec fn import_views(v: Seq<ImportStatement>) -> Seq<ImportModel> {
    v.map_values(|st: ImportStatement| st@)
}

// ---------------------------------------------------------------------------
// Executable character classes
// ---------------------------------------------------------------------------

fn blank_char(c: char) -> (r: bool)
    ensures
        r == is_blank(c),
{
    c == ' ' || c == '\t'
}

fn line_break_char(c: char) -> (r: bool)
    ensures
        r == is_line_break(c),
{
    c == '\n' || c == '\r'
}

fn ident_start_char(c: char) -> (r: bool)
    ensures
        r == is_ident_start(c),
{
    ('a' <= c && c <= 'z') || ('A' <= c && c <= 'Z') || c == '_'
}

fn ident_cont_char(c: char) -> (r: bool)
    ensures
        r == is_ident_cont(c),
{
    ('a' <= c && c <= 'z') || ('A' <= c && c <= 'Z') || ('0' <= c && c <= '9') || c == '_'
        || c == '.'
}

// ---------------------------------------------------------------------------
// Executable scanners, each equal to its specification counterpart
// ---------------------------------------------------------------------------

fn scan_ident_end(s: &str, n: usize, i: usize) -> (r: usize)
    requires
        n == s@.len(),
        i <= n,
    ensures
        r == ident_end(s@, i as int),
        i <= r <= n,
{
    let mut j = i;
    loop
        invariant
            i <= j <= n,
            n == s@.len(),
            ident_end(s@, i as int) == ident_end(s@, j as int),
        ensures
            i <= j <= n,
            ident_end(s@, i as int) == j,
        decreases n - j,
    {
        if j == n {
            break;
        }
        let c = s.get_char(j);
        if !ident_cont_char(c) {
            break;
        }
        j = j + 1;
    }
    j
}

fn scan_blank_end(s: &str, n: usize, i: usize) -> (r: usize)
    requires
        n == s@.len(),
        i <= n,
    ensures
        r == blank_end(s@, i as int),
        i <= r <= n,
{
    let mut j = i;
    loop
        invariant
            i <= j <= n,
            n == s@.len(),
            blank_end(s@, i as int) == blank_end(s@, j as int),
        ensures
            i <= j <= n,
            blank_end(s@, i as int) == j,
        decreases n - j,
    {
        if j == n {
            break;
        }
        let c = s.get_char(j);
        if !blank_char(c) {
            break;
        }
        j = j + 1;
    }
    j
}

fn scan_line_text_end(s: &str, n: usize, i: usize) -> (r: usize)
    requires
        n == s@.len(),
        i <= n,
    ensures
        r == line_text_end(s@, i as int),
        i <= r <= n,
{
    let mut j = i;
    loop
        invariant
            i <= j <= n,
            n == s@.len(),
            line_text_end(s@, i as int) == line_text_end(s@, j as int),
        ensures
            i <= j <= n,
            line_text_end(s@, i as int) == j,
        decreases n - j,
    {
        if j == n {
            break;
        }
        let c = s.get_char(j);
        if line_break_char(c) {
            break;
        }
        j = j + 1;
    }
    j
}

fn has_from(s: &str, n: usize, i: usize) -> (r: bool)
    requires
        n == s@.len(),
        i <= n,
    ensures
        r == has_from_at(s@, i as int),
{
    if n - i < 4 {
        return false;
    }
    s.get_char(i) == 'f' && s.get_char(i + 1) == 'r' && s.get_char(i + 2) == 'o' && s.get_char(
        i + 3,
    ) == 'm'
}

fn has_import(s: &str, n: usize, i: usize) -> (r: bool)
    requires
        n == s@.len(),
        i <= n,
    ensures
        r == has_import_at(s@, i as int),
{
    if n - i < 6 {
        return false;
    }
    s.get_char(i) == 'i' && s.get_char(i + 1) == 'm' && s.get_char(i + 2) == 'p' && s.get_char(
        i + 3,
    ) == 'o' && s.get_char(i + 4) == 'r' && s.get_char(i + 5) == 't'
}

fn has_triple(s: &str, n: usize, i: usize) -> (r: bool)
    requires
        n == s@.len(),
        i <= n,
    ensures
        r == triple_quote_at(s@, i as int),
{
    if n - i < 3 {
        return false;
    }
    s.get_char(i) == '"' && s.get_char(i + 1) == '"' && s.get_char(i + 2) == '"'
}

fn scan_find_triple(s: &str, n: usize, i: usize) -> (r: Option<usize>)
    requires
        n == s@.len(),
        i <= n,
    ensures
        r matches Some(j) ==> find_triple(s@, i as int) == Some(j as int) && i <= j && j + 3 <= n,
        r is None ==> find_triple(s@, i as int) is None,
{
    let mut j = i;
    loop
        invariant
            i <= j <= n,
            n == s@.len(),
            find_triple(s@, i as int) == find_triple(s@, j as int),
        decreases n - j,
    {
        if n - j < 3 {
            return None;
        }
        if has_triple(s, n, j) {
            return Some(j);
        }
        j = j + 1;
    }
}

fn scan_from_import(s: &str, n: usize, i: usize) -> (r: Option<(usize, ImportStatement)>)
    requires
        n == s@.len(),
        i < n,
    ensures
        r is Some <==> try_from_import(s@, i as int) is Some,
        r matches Some((e, st)) ==> try_from_import(s@, i as int) == Some(
            (e as int, st.package@, st.module@),
        ) && i < e <= n,
{
    if !has_from(s, n, i) {
        return None;
    }
    let a = i + 4;
    if !(a < n && blank_char(s.get_char(a))) {
        return None;
    }
    let b = scan_blank_end(s, n, a);
    if !(b < n && ident_start_char(s.get_char(b))) {
        return None;
    }
    let pe = scan_ident_end(s, n, b + 1);
    if !(pe < n && blank_char(s.get_char(pe))) {
        return None;
    }
    let c = scan_blank_end(s, n, pe);
    if !has_import(s, n, c) {
        return None;
    }
    let d = c + 6;
    if !(d < n && blank_char(s.get_char(d))) {
        return None;
    }
    let e = scan_blank_end(s, n, d);
    if !(e < n && ident_start_char(s.get_char(e))) {
        return None;
    }
    let me = scan_ident_end(s, n, e + 1);
    let package = String::from_str(s.substring_char(b, pe));
    let module = String::from_str(s.substring_char(e, me));
    Some((me, ImportStatement { package, module }))
}

fn scan_simple_import(s: &str, n: usize, i: usize) -> (r: Option<(usize, ImportStatement)>)
    requires
        n == s@.len(),
        i < n,
    ensures
        r is Some <==> try_simple_import(s@, i as int) is Some,
        r matches Some((e, st)) ==> try_simple_import(s@, i as int) == Some((e as int, st.package@))
            && st.module@.len() == 0 && i < e <= n,
{
    if !has_import(s, n, i) {
        return None;
    }
    let a = i + 6;
    if !(a < n && blank_char(s.get_char(a))) {
        return None;
    }
    let b = scan_blank_end(s, n, a);
    if !(b < n && ident_start_char(s.get_char(b))) {
        return None;
    }
    let e = scan_ident_end(s, n, b + 1);
    let package = String::from_str(s.substring_char(b, e));
    Some((e, ImportStatement { package, module: String::new() }))
}

fn scan_inline_comment(s: &str, n: usize, i: usize) -> (r: Option<usize>)
    requires
        n == s@.len(),
        i < n,
    ensures
        r matches Some(j) ==> try_inline_comment(s@, i as int) == Some(j as int) && i < j <= n,
        r is None ==> try_inline_comment(s@, i as int) is None,
{
    if s.get_char(i) != '#' {
        return None;
    }
    if !(i + 1 < n) {
        return None;
    }
    if line_break_char(s.get_char(i + 1)) {
        return None;
    }
    let j = scan_line_text_end(s, n, i + 1);
    Some(j)
}

fn scan_triple_quoted(s: &str, n: usize, i: usize) -> (r: Option<usize>)
    requires
        n == s@.len(),
        i < n,
    ensures
        r matches Some(j) ==> try_triple_quoted(s@, i as int) == Some(j as int) && i < j <= n,
        r is None ==> try_triple_quoted(s@, i as int) is None,
{
    if !has_triple(s, n, i) {
        return None;
    }
    match scan_find_triple(s, n, i + 3) {
        Some(j) => Some(j + 3),
        None => None,
    }
}

// ---------------------------------------------------------------------------
// The scanner itself
// ---------------------------------------------------------------------------

/// Extracts every import reference of `input`, in file order.  The scanner
/// is total: any text that matches no recognizer is skipped one character at
/// a time, so it cannot fail.
pub fn parse_python_file(input: &str) -> (r: Vec<ImportStatement>)
    ensures
        import_views(r@) == imports_of(input@),
{
    let n = input.unicode_len();
    let mut out: Vec<ImportStatement> = Vec::new();
    let mut i: usize = 0;
    proof {
        assert(import_views(out@) + imports_from(input@, 0) =~= imports_from(input@, 0));
    }
    while i < n
        invariant
            i <= n,
            n == input@.len(),
            imports_of(input@) == import_views(out@) + imports_from(input@, i as int),
        decreases n - i,
    {
        let ghost prev = i as int;
        let ghost sofar = out@;
        if let Some((e, st)) = scan_from_import(input, n, i) {
            proof {
                assert(imports_from(input@, prev) =~= seq![st@] + imports_from(input@, e as int));
            }
            out.push(st);
            i = e;
        } else if let Some((e, st)) = scan_simple_import(input, n, i) {
            proof {
                assert(st.module@ =~= Seq::<char>::empty());
                assert(imports_from(input@, prev) =~= seq![st@] + imports_from(input@, e as int));
            }
            out.push(st);
            i = e;
        } else if let Some(e) = scan_inline_comment(input, n, i) {
            proof {
                assert(imports_from(input@, prev) =~= imports_from(input@, e as int));
            }
            i = e;
        } else if let Some(e) = scan_triple_quoted(input, n, i) {
            proof {
                assert(imports_from(input@, prev) =~= imports_from(input@, e as int));
            }
            i = e;
        } else {
            proof {
                assert(imports_from(input@, prev) =~= imports_from(input@, prev + 1));
            }
            i = i + 1;
        }
        proof {
            if out@.len() > sofar.len() {
                assert(import_views(out@) =~= import_views(sofar).push(out@[sofar.len() as int]@));
                assert(import_views(out@) + imports_from(input@, i as int) =~= import_views(sofar)
                    + (seq![out@[sofar.len() as int]@] + imports_from(input@, i as int)));
            }
        }
    }
    proof {
        assert(import_views(out@) + imports_from(input@, i as int) =~= import_views(out@));
    }
    out
}

// ---------------------------------------------------------------------------
// The individual recognizers, offered at the start of the input
// ---------------------------------------------------------------------------

/// Matches an identifier at the start of `input`: a letter or underscore
/// followed by letters, digits, underscores and periods.  Returns the rest
/// of the input and the matched text.
pub fn identifier<'a>(input: &'a str) -> (r: Option<(&'a str, &'a str)>)
    ensures
        r is Some <==> input@.len() > 0 && is_ident_start(input@[0]),
        r matches Some((rest, m)) ==> m@ == input@.take(ident_end(input@, 1)) && rest@
            == input@.skip(ident_end(input@, 1)),
{
    let n = input.unicode_len();
    if n == 0 {
        return None;
    }
    if !ident_start_char(input.get_char(0)) {
        return None;
    }
    let e = scan_ident_end(input, n, 1);
    Some((input.substring_char(e, n), input.substring_char(0, e)))
}

/// Matches `from <package> import <module>` at the start of `input`.
pub fn from_package_import<'a>(input: &'a str) -> (r: Option<(&'a str, ImportStatement)>)
    ensures
        r is Some <==> try_from_import(input@, 0) is Some,
        r matches Some((rest, st)) ==> {
            let t = try_from_import(input@, 0).unwrap();
            &&& st.package@ == t.1
            &&& st.module@ == t.2
            &&& rest@ == input@.skip(t.0)
        },
{
    let n = input.unicode_len();
    if n == 0 {
        return None;
    }
    match scan_from_import(input, n, 0) {
        Some((e, st)) => Some((input.substring_char(e, n), st)),
        None => None,
    }
}

/// Matches `import <package>` at the start of `input`.
pub fn simple_import<'a>(input: &'a str) -> (r: Option<(&'a str, ImportStatement)>)
    ensures
        r is Some <==> try_simple_import(input@, 0) is Some,
        r matches Some((rest, st)) ==> {
            let t = try_simple_import(input@, 0).unwrap();
            &&& st.package@ == t.1
            &&& st.module@.len() == 0
            &&& rest@ == input@.skip(t.0)
        },
{
    let n = input.unicode_len();
    if n == 0 {
        return None;
    }
    match scan_simple_import(input, n, 0) {
        Some((e, st)) => Some((input.substring_char(e, n), st)),
        None => None,
    }
}

/// Matches a `#` comment at the start of `input` and discards it.
pub fn inline_comment<'a>(input: &'a str) -> (r: Option<(&'a str, ())>)
    ensures
        r is Some <==> try_inline_comment(input@, 0) is Some,
        r matches Some((rest, u)) ==> rest@ == input@.skip(try_inline_comment(input@, 0).unwrap()),
{
    let n = input.unicode_len();
    if n == 0 {
        return None;
    }
    match scan_inline_comment(input, n, 0) {
        Some(e) => Some((input.substring_char(e, n), ())),
        None => None,
    }
}

/// Matches a triple-quoted block at the start of `input` and discards it.
pub fn multiline_comment<'a>(input: &'a str) -> (r: Option<(&'a str, ())>)
    ensures
        r is Some <==> try_triple_quoted(input@, 0) is Some,
        r matches Some((rest, u)) ==> rest@ == input@.skip(try_triple_quoted(input@, 0).unwrap()),
{
    let n = input.unicode_len();
    if n == 0 {
        return None;
    }
    match scan_triple_quoted(input, n, 0) {
        Some(e) => Some((input.substring_char(e, n), ())),
        None => None,
    }
}

/// Runs the scanner over the whole input; the input is always fully
/// consumed, so the remaining text is empty.
pub fn parse_file<'a>(input: &'a str) -> (r: Option<(&'a str, Vec<ImportStatement>)>)
    ensures
        r is Some,
        r matches Some((rest, v)) ==> rest@.len() == 0 && import_views(v@) == imports_of(input@),
{
    let n = input.unicode_len();
    let v = parse_python_file(input);
    Some((input.substring_char(n, n), v))
}

} // verus!
