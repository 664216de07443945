//! Character classes and sequence-of-character helpers shared by the scanner,
//! the alias deriver and the resolution table.

use vstd::prelude::*;

verus! {

// ---------------------------------------------------------------------------
// Character classes
// ---------------------------------------------------------------------------

/// An ASCII letter.
pub open spec fn is_ascii_alpha(c: char) -> bool {
    ('a' <= c && c <= 'z') || ('A' <= c && c <= 'Z')
}

/// An ASCII digit.
pub open spec fn is_ascii_digit(c: char) -> bool {
    '0' <= c && c <= '9'
}

/// A character that may open an identifier: a letter or an underscore.
pub open spec fn is_ident_start(c: char) -> bool {
    is_ascii_alpha(c) || c == '_'
}

/// A character that may continue a dotted identifier path.
pub open spec fn is_ident_cont(c: char) -> bool {
    is_ascii_alpha(c) || is_ascii_digit(c) || c == '_' || c == '.'
}

/// Horizontal whitespace inside an import statement.
pub open spec fn is_blank(c: char) -> bool {
    c == ' ' || c == '\t'
}

/// A line break, which ends a single-line comment.
pub open spec fn is_line_break(c: char) -> bool {
    c == '\n' || c == '\r'
}

// ---------------------------------------------------------------------------
// Spec helpers over sequences of characters
// ---------------------------------------------------------------------------

/// Whether `c` occurs in `s`.
pub open spec fn seq_contains_char(s: Seq<char>, c: char) -> bool {
    exists|i: int| 0 <= i < s.len() && s[i] == c
}

/// Index of the first occurrence of `c` in `s`, or `s.len()` if absent.
pub open spec fn find_char(s: Seq<char>, c: char) -> int
    decreases s.len(),
{
    if s.len() == 0 {
        0
    } else if s[0] == c {
        0
    } else {
        1 + find_char(s.drop_first(), c)
    }
}

/// `s` with every occurrence of `a` replaced by `b`.
pub open spec fn replace_char(s: Seq<char>, a: char, b: char) -> Seq<char> {
    s.map_values(|c: char| if c == a { b } else { c })
}

/// `s` split on `sep`; empty pieces are kept, and a sequence with no
/// separator is a single piece.
pub open spec fn split_char(s: Seq<char>, sep: char) -> Seq<Seq<char>>
    decreases s.len(),
{
    if !seq_contains_char(s, sep) {
        seq![s]
    } else {
        let i = find_char(s, sep);
        if 0 <= i < s.len() {
            seq![s.take(i)] + split_char(s.skip(i + 1), sep)
        } else {
            seq![s]
        }
    }
}

/// The pieces joined back with `sep` between them.
pub open spec fn join_char(parts: Seq<Seq<char>>, sep: char) -> Seq<char>
    decreases parts.len(),
{
    if parts.len() == 0 {
        Seq::empty()
    } else if parts.len() == 1 {
        parts[0]
    } else {
        parts[0] + seq![sep] + join_char(parts.drop_first(), sep)
    }
}

/// Strict lexicographic order on character sequences by code point; this is
/// the order `String` keys take in an ordered mapping.
pub open spec fn seq_lt(a: Seq<char>, b: Seq<char>) -> bool
    decreases a.len(),
{
    if b.len() == 0 {
        false
    } else if a.len() == 0 {
        true
    } else if a[0] != b[0] {
        a[0] < b[0]
    } else {
        seq_lt(a.drop_first(), b.drop_first())
    }
}

/// The order never holds of a sequence and itself.
pub proof fn lemma_seq_lt_irrefl(a: Seq<char>)
    ensures
        !seq_lt(a, a),
    decreases a.len(),
{
    if a.len() > 0 {
        lemma_seq_lt_irrefl(a.drop_first());
    }
}

/// The order holds in at most one direction.
pub proof fn lemma_seq_lt_asym(a: Seq<char>, b: Seq<char>)
    requires
        seq_lt(a, b),
    ensures
        !seq_lt(b, a),
    decreases a.len(),
{
    if a.len() > 0 && b.len() > 0 && a[0] == b[0] {
        lemma_seq_lt_asym(a.drop_first(), b.drop_first());
    }
}

/// Distinct sequences are ordered one way or the other.
pub proof fn lemma_seq_lt_connected(a: Seq<char>, b: Seq<char>)
    requires
        a != b,
    ensures
        seq_lt(a, b) || seq_lt(b, a),
    decreases a.len(),
{
    if a.len() == 0 {
        if b.len() == 0 {
            assert(a =~= b);
        }
    } else if b.len() == 0 {
    } else if a[0] == b[0] {
        if a.drop_first() == b.drop_first() {
            assert(a.drop_first().len() == b.drop_first().len());
            assert(a.len() == b.len());
            assert forall|i: int| 0 <= i < a.len() implies a[i] == b[i] by {
                if i >= 1 {
                    assert(a[i] == a.drop_first()[i - 1]);
                    assert(b[i] == b.drop_first()[i - 1]);
                }
            }
            assert(a =~= b);
        } else {
            lemma_seq_lt_connected(a.drop_first(), b.drop_first());
        }
    }
}

/// The order is transitive.
pub proof fn lemma_seq_lt_trans(a: Seq<char>, b: Seq<char>, c: Seq<char>)
    requires
        seq_lt(a, b),
        seq_lt(b, c),
    ensures
        seq_lt(a, c),
    decreases a.len(),
{
    if a.len() > 0 && b.len() > 0 && c.len() > 0 && a[0] == b[0] && b[0] == c[0] {
        lemma_seq_lt_trans(a.drop_first(), b.drop_first(), c.drop_first());
    }
}

/// `find_char` points at the first occurrence: before `k` the character is
/// absent and at `k` it sits.
pub proof fn lemma_find_char_first(s: Seq<char>, c: char, k: int)
    requires
        0 <= k < s.len(),
        s[k] == c,
        forall|j: int| 0 <= j < k ==> s[j] != c,
    ensures
        find_char(s, c) == k,
    decreases k,
{
    if k > 0 {
        assert forall|j: int| 0 <= j < k - 1 implies s.drop_first()[j] != c by {
            assert(s.drop_first()[j] == s[j + 1]);
        }
        assert(s.drop_first()[k - 1] == s[k]);
        lemma_find_char_first(s.drop_first(), c, k - 1);
    }
}

/// When `c` occurs in `s`, `find_char` gives a real position holding `c`,
/// with no earlier occurrence.
pub proof fn lemma_find_char_props(s: Seq<char>, c: char)
    requires
        seq_contains_char(s, c),
    ensures
        0 <= find_char(s, c) < s.len(),
        s[find_char(s, c)] == c,
        forall|j: int| 0 <= j < find_char(s, c) ==> s[j] != c,
    decreases s.len(),
{
    if s.len() > 0 && s[0] != c {
        let w = choose|i: int| 0 <= i < s.len() && s[i] == c;
        assert(s.drop_first()[w - 1] == s[w]);
        lemma_find_char_props(s.drop_first(), c);
        assert forall|j: int| 0 <= j < find_char(s, c) implies s[j] != c by {
            if j >= 1 {
                assert(s[j] == s.drop_first()[j - 1]);
            }
        }
    }
}

/// Splitting a sequence without the separator gives the sequence itself;
/// splitting at the first separator gives the head piece and the split of
/// the rest.
pub proof fn lemma_split_char_step(s: Seq<char>, sep: char)
    ensures
        !seq_contains_char(s, sep) ==> split_char(s, sep) == seq![s],
        seq_contains_char(s, sep) ==> split_char(s, sep) == seq![s.take(find_char(s, sep))]
            + split_char(s.skip(find_char(s, sep) + 1), sep),
{
    if seq_contains_char(s, sep) {
        lemma_find_char_props(s, sep);
    }
}

/// Joining pieces with one more piece appends a separator and the piece.
pub proof fn lemma_join_char_push(parts: Seq<Seq<char>>, x: Seq<char>, sep: char)
    ensures
        parts.len() == 0 ==> join_char(parts.push(x), sep) == x,
        parts.len() > 0 ==> join_char(parts.push(x), sep) == join_char(parts, sep) + seq![sep] + x,
    decreases parts.len(),
{
    let q = parts.push(x);
    if parts.len() == 0 {
        assert(q.len() == 1);
        assert(join_char(q, sep) == q[0]);
    } else {
        assert(q[0] == parts[0]);
        assert(q.drop_first() =~= parts.drop_first().push(x));
        lemma_join_char_push(parts.drop_first(), x, sep);
        if parts.len() == 1 {
            assert(join_char(parts, sep) == parts[0]);
        }
    }
}

// ---------------------------------------------------------------------------
// Views of containers of strings
// ---------------------------------------------------------------------------

/// The views of a sequence of `String`s.
pub open spec fn seq_views(v: Seq<String>) -> Seq<Seq<char>> {
    v.map_values(|s: String| s@)
}

/// Whether `x` occurs among the views of `l`.
pub open spec fn contains_seq(l: Seq<Seq<char>>, x: Seq<char>) -> bool {
    exists|i: int| 0 <= i < l.len() && l[i] == x
}

// ---------------------------------------------------------------------------
// Executable helpers
// ---------------------------------------------------------------------------

/// Relies on `String::push`: appends one character to the string.
#[verifier::external_body]
pub fn push_char(s: &mut String, c: char)
    ensures
        final(s)@ == old(s)@.push(c),
{
    s.push(c);
}

/// Whether `c` occurs in `s`.
pub fn str_contains_char(s: &str, c: char) -> (r: bool)
    ensures
        r == seq_contains_char(s@, c),
{
    let n = s.unicode_len();
    let mut i: usize = 0;
    while i < n
        invariant
            i <= n,
            n == s@.len(),
            forall|k: int| 0 <= k < i ==> s@[k] != c,
        decreases n - i,
    {
        if s.get_char(i) == c {
            return true;
        }
        i = i + 1;
    }
    false
}

/// `s` with every occurrence of `a` replaced by `b`.
pub fn str_replace_char(s: &str, a: char, b: char) -> (r: String)
    ensures
        r@ == replace_char(s@, a, b),
{
    let n = s.unicode_len();
    let mut out = String::new();
    let mut i: usize = 0;
    while i < n
        invariant
            i <= n,
            n == s@.len(),
            out@ == replace_char(s@, a, b).take(i as int),
        decreases n - i,
    {
        let c = s.get_char(i);
        let d = if c == a { b } else { c };
        push_char(&mut out, d);
        proof {
            assert(out@ =~= replace_char(s@, a, b).take(i + 1 as int));
        }
        i = i + 1;
    }
    proof {
        assert(replace_char(s@, a, b).take(n as int) =~= replace_char(s@, a, b));
    }
    out
}

/// `find_char` runs off the end when the character is absent.
pub proof fn lemma_find_char_absent(s: Seq<char>, c: char)
    requires
        !seq_contains_char(s, c),
    ensures
        find_char(s, c) == s.len(),
    decreases s.len(),
{
    if s.len() > 0 {
        assert forall|j: int| 0 <= j < s.drop_first().len() implies s.drop_first()[j] != c by {
            assert(s.drop_first()[j] == s[j + 1]);
        }
        lemma_find_char_absent(s.drop_first(), c);
    }
}

/// Index of the first occurrence of `c` in `s`; the length when absent.
pub fn str_find_char(s: &str, c: char) -> (r: usize)
    ensures
        r as int == find_char(s@, c),
        r <= s@.len(),
        r < s@.len() ==> s@[r as int] == c,
{
    let n = s.unicode_len();
    let mut i: usize = 0;
    while i < n
        invariant
            i <= n,
            n == s@.len(),
            forall|j: int| 0 <= j < i ==> s@[j] != c,
        decreases n - i,
    {
        if s.get_char(i) == c {
            proof {
                lemma_find_char_first(s@, c, i as int);
            }
            return i;
        }
        i = i + 1;
    }
    proof {
        lemma_find_char_absent(s@, c);
    }
    n
}

/// `s` split on `sep`, as owned pieces.
pub fn str_split_char(s: &str, sep: char) -> (r: Vec<String>)
    ensures
        seq_views(r@) == split_char(s@, sep),
        r@.len() >= 1,
{
    let n = s.unicode_len();
    let mut out: Vec<String> = Vec::new();
    let mut start: usize = 0;
    let mut i: usize = 0;
    proof {
        assert(s@.skip(0) =~= s@);
        assert(seq_views(out@) + split_char(s@, sep) =~= split_char(s@, sep));
    }
    while i < n
        invariant
            start <= i <= n,
            n == s@.len(),
            split_char(s@, sep) == seq_views(out@) + split_char(s@.skip(start as int), sep),
            forall|j: int| start <= j < i ==> s@[j] != sep,
        decreases n - i,
    {
        if s.get_char(i) == sep {
            let ghost pre = out@;
            let ghost st = start as int;
            let ghost ii = i as int;
            let piece = String::from_str(s.substring_char(start, i));
            out.push(piece);
            proof {
                let tail = s@.skip(st);
                assert(tail[ii - st] == s@[ii]);
                assert forall|j: int| 0 <= j < ii - st implies tail[j] != sep by {
                    assert(tail[j] == s@[j + st]);
                }
                lemma_find_char_first(tail, sep, ii - st);
                assert(seq_contains_char(tail, sep));
                lemma_split_char_step(tail, sep);
                assert(tail.take(ii - st) =~= s@.subrange(st, ii));
                assert(tail.skip(ii - st + 1) =~= s@.skip(ii + 1));
                assert(seq_views(out@) =~= seq_views(pre).push(s@.subrange(st, ii)));
                assert(seq_views(out@) + split_char(s@.skip(ii + 1), sep) =~= seq_views(pre)
                    + split_char(tail, sep));
            }
            i = i + 1;
            start = i;
        } else {
            i = i + 1;
        }
    }
    let ghost pre = out@;
    let ghost st = start as int;
    let piece = String::from_str(s.substring_char(start, n));
    out.push(piece);
    proof {
        let tail = s@.skip(st);
        assert forall|j: int| 0 <= j < tail.len() implies tail[j] != sep by {
            assert(tail[j] == s@[j + st]);
        }
        assert(!seq_contains_char(tail, sep));
        lemma_split_char_step(tail, sep);
        assert(tail =~= s@.subrange(st, n as int));
        assert(seq_views(out@) =~= seq_views(pre).push(tail));
        assert(seq_views(out@) =~= seq_views(pre) + split_char(tail, sep));
    }
    out
}

/// The pieces joined with `sep` between them.
pub fn join_strings(parts: &Vec<String>, sep: char) -> (r: String)
    ensures
        r@ == join_char(seq_views(parts@), sep),
{
    let n = parts.len();
    if n == 0 {
        proof {
            assert(seq_views(parts@) =~= Seq::<Seq<char>>::empty());
        }
        return String::new();
    }
    let mut out = parts[0].clone();
    let mut i: usize = 1;
    proof {
        assert(seq_views(parts@).take(1).len() == 1);
        assert(seq_views(parts@).take(1)[0] == parts@[0]@);
    }
    while i < n
        invariant
            1 <= i <= n,
            n == parts@.len(),
            out@ == join_char(seq_views(parts@).take(i as int), sep),
        decreases n - i,
    {
        let ghost ps = seq_views(parts@);
        let ghost before = out@;
        push_char(&mut out, sep);
        out.append(parts[i].as_str());
        proof {
            assert(ps.take(i as int).push(ps[i as int]) =~= ps.take(i as int + 1));
            lemma_join_char_push(ps.take(i as int), ps[i as int], sep);
            assert(out@ =~= before + seq![sep] + ps[i as int]);
        }
        i = i + 1;
    }
    proof {
        assert(seq_views(parts@).take(n as int) =~= seq_views(parts@));
    }
    out
}

/// Strict lexicographic comparison of two strings by code point.
pub fn str_lt(a: &str, b: &str) -> (r: bool)
    ensures
        r == seq_lt(a@, b@),
{
    let na = a.unicode_len();
    let nb = b.unicode_len();
    let mut i: usize = 0;
    proof {
        assert(a@.skip(0) =~= a@);
        assert(b@.skip(0) =~= b@);
    }
    loop
        invariant
            i <= na,
            i <= nb,
            na == a@.len(),
            nb == b@.len(),
            seq_lt(a@, b@) == seq_lt(a@.skip(i as int), b@.skip(i as int)),
        ensures
            i <= na,
            i <= nb,
            (i == na || i == nb || a@[i as int] != b@[i as int]),
            seq_lt(a@, b@) == seq_lt(a@.skip(i as int), b@.skip(i as int)),
        decreases na - i,
    {
        if i == na || i == nb {
            break;
        }
        let ca = a.get_char(i);
        let cb = b.get_char(i);
        if ca != cb {
            break;
        }
        proof {
            lemma_seq_lt_skip(a@, b@, i as int);
        }
        i = i + 1;
    }
    proof {
        lemma_seq_lt_head(a@.skip(i as int), b@.skip(i as int));
    }
    if i == nb {
        false
    } else if i == na {
        true
    } else {
        let ca = a.get_char(i);
        let cb = b.get_char(i);
        ca < cb
    }
}

/// Unfolds `seq_lt` once at equal head characters.
proof fn lemma_seq_lt_skip(a: Seq<char>, b: Seq<char>, i: int)
    requires
        0 <= i < a.len(),
        0 <= i < b.len(),
        a[i] == b[i],
    ensures
        seq_lt(a.skip(i), b.skip(i)) == seq_lt(a.skip(i + 1), b.skip(i + 1)),
{
    assert(a.skip(i).len() > 0);
    assert(b.skip(i).len() > 0);
    assert(a.skip(i)[0] == a[i]);
    assert(b.skip(i)[0] == b[i]);
    assert(a.skip(i).drop_first() =~= a.skip(i + 1));
    assert(b.skip(i).drop_first() =~= b.skip(i + 1));
}

/// Evaluates `seq_lt` when one side is empty or the heads differ.
proof fn lemma_seq_lt_head(a: Seq<char>, b: Seq<char>)
    ensures
        b.len() == 0 ==> !seq_lt(a, b),
        b.len() > 0 && a.len() == 0 ==> seq_lt(a, b),
        a.len() > 0 && b.len() > 0 && a[0] != b[0] ==> seq_lt(a, b) == (a[0] < b[0]),
{
}

} // verus!
