//! The ignore list: dependency names to keep out of the final report, one
//! per line.  Blank lines and lines whose first non-whitespace character is
//! `#` carry no name.

use vstd::prelude::*;

use crate::text::{contains_seq, find_char, lemma_find_char_first, seq_contains_char, seq_views};

verus! {

// ---------------------------------------------------------------------------
// Lines
// ---------------------------------------------------------------------------

/// What `char::is_whitespace` returns: whether the character has the
/// Unicode whitespace property.
pub uninterp spec fn is_space_char(c: char) -> bool;

/// Relies on `char::is_whitespace`: whether the character is Unicode
/// whitespace, a function of the character alone.
pub assume_specification[ char::is_whitespace ](c: char) -> (r: bool)
    ensures
        r == is_space_char(c),
;

/// A line read from text, without its terminator: a final carriage return
/// left by a `\r\n` terminator is dropped.
pub open spec fn strip_cr(l: Seq<char>) -> Seq<char> {
    if l.len() > 0 && l[l.len() - 1] == '\r' {
        l.drop_last()
    } else {
        l
    }
}

/// The lines of `s`: pieces separated by `\n`, each with a trailing `\r`
/// stripped; a last piece without a terminator is kept as it stands, and
/// text ending in a terminator yields no extra empty line.
pub open spec fn split_lines(s: Seq<char>) -> Seq<Seq<char>>
    decreases s.len(),
{
    if s.len() == 0 {
        Seq::empty()
    } else if seq_contains_char(s, '\n') {
        let i = find_char(s, '\n');
        if 0 <= i < s.len() {
            seq![strip_cr(s.take(i))] + split_lines(s.skip(i + 1))
        } else {
            seq![s]
        }
    } else {
        seq![s]
    }
}

/// Whether the first non-whitespace character of the line is `#`.
pub open spec fn comment_line(l: Seq<char>) -> bool
    decreases l.len(),
{
    if l.len() == 0 {
        false
    } else if is_space_char(l[0]) {
        comment_line(l.drop_first())
    } else {
        l[0] == '#'
    }
}

/// The lines that carry a name: neither empty nor comments.
pub open spec fn kept_lines(ls: Seq<Seq<char>>) -> Seq<Seq<char>>
    decreases ls.len(),
{
    if ls.len() == 0 {
        Seq::empty()
    } else if ls[0].len() == 0 || comment_line(ls[0]) {
        kept_lines(ls.drop_first())
    } else {
        seq![ls[0]] + kept_lines(ls.drop_first())
    }
}

/// The names an ignore-list text asks to exclude, in file order.
pub open spec fn ignore_names(s: Seq<char>) -> Seq<Seq<char>> {
    kept_lines(split_lines(s))
}

// ---------------------------------------------------------------------------
// Executable reading of the list
// ---------------------------------------------------------------------------

/// Splits text into lines, dropping terminators.
fn read_lines(text: &str) -> (r: Vec<String>)
    ensures
        seq_views(r@) == split_lines(text@),
{
    let n = text.unicode_len();
    let mut out: Vec<String> = Vec::new();
    let mut start: usize = 0;
    let mut i: usize = 0;
    proof {
        assert(text@.skip(0) =~= text@);
        assert(seq_views(out@) + split_lines(text@) =~= split_lines(text@));
    }
    while i < n
        invariant
            start <= i <= n,
            n == text@.len(),
            split_lines(text@) == seq_views(out@) + split_lines(text@.skip(start as int)),
            forall|j: int| start <= j < i ==> text@[j] != '\n',
        decreases n - i,
    {
        if text.get_char(i) == '\n' {
            let ghost pre = out@;
            let ghost st = start as int;
            let ghost ii = i as int;
            let piece = if i > start && text.get_char(i - 1) == '\r' {
                String::from_str(text.substring_char(start, i - 1))
            } else {
                String::from_str(text.substring_char(start, i))
            };
            out.push(piece);
            proof {
                let tail = text@.skip(st);
                assert(tail.len() > 0);
                assert(tail[ii - st] == text@[ii]);
                assert forall|j: int| 0 <= j < ii - st implies tail[j] != '\n' by {
                    assert(tail[j] == text@[j + st]);
                }
                lemma_find_char_first(tail, '\n', ii - st);
                assert(seq_contains_char(tail, '\n'));
                assert(tail.take(ii - st) =~= text@.subrange(st, ii));
                assert(tail.skip(ii - st + 1) =~= text@.skip(ii + 1));
                if ii > st && text@[ii - 1] == '\r' {
                    assert(tail.take(ii - st)[ii - st - 1] == text@[ii - 1]);
                    assert(strip_cr(tail.take(ii - st)) =~= text@.subrange(st, ii - 1));
                } else {
                    if tail.take(ii - st).len() > 0 {
                        assert(tail.take(ii - st)[ii - st - 1] == text@[ii - 1]);
                    }
                    assert(strip_cr(tail.take(ii - st)) =~= text@.subrange(st, ii));
                }
                assert(split_lines(tail) == seq![strip_cr(tail.take(ii - st))] + split_lines(
                    text@.skip(ii + 1),
                ));
                assert(seq_views(out@) =~= seq_views(pre).push(strip_cr(tail.take(ii - st))));
                assert(seq_views(out@) + split_lines(text@.skip(ii + 1)) =~= seq_views(pre)
                    + split_lines(tail));
            }
            i = i + 1;
            start = i;
        } else {
            i = i + 1;
        }
    }
    if start < n {
        let ghost pre = out@;
        let ghost st = start as int;
        let piece = String::from_str(text.substring_char(start, n));
        out.push(piece);
        proof {
            let tail = text@.skip(st);
            assert forall|j: int| 0 <= j < tail.len() implies tail[j] != '\n' by {
                assert(tail[j] == text@[j + st]);
            }
            assert(!seq_contains_char(tail, '\n'));
            assert(tail.len() > 0);
            assert(split_lines(tail) == seq![tail]);
            assert(tail =~= text@.subrange(st, n as int));
            assert(seq_views(out@) =~= seq_views(pre).push(tail));
            assert(seq_views(out@) =~= seq_views(pre) + split_lines(tail));
        }
    } else {
        proof {
            assert(text@.skip(start as int).len() == 0);
            assert(seq_views(out@) + split_lines(text@.skip(start as int)) =~= seq_views(out@));
        }
    }
    out
}

/// Whether the line's first non-whitespace character is `#`.
fn is_comment_line(l: &str) -> (r: bool)
    ensures
        r == comment_line(l@),
{
    let n = l.unicode_len();
    let mut i: usize = 0;
    proof {
        assert(l@.skip(0) =~= l@);
    }
    while i < n
        invariant
            i <= n,
            n == l@.len(),
            comment_line(l@) == comment_line(l@.skip(i as int)),
        decreases n - i,
    {
        let c = l.get_char(i);
        proof {
            assert(l@.skip(i as int)[0] == l@[i as int]);
            assert(l@.skip(i as int).drop_first() =~= l@.skip(i as int + 1));
        }
        if !c.is_whitespace() {
            return c == '#';
        }
        i = i + 1;
    }
    proof {
        assert(l@.skip(n as int).len() == 0);
    }
    false
}

/// Reads the names an ignore-list text asks to exclude.
pub fn parse_ignore_list(text: &str) -> (r: Vec<String>)
    ensures
        seq_views(r@) == ignore_names(text@),
{
    let lines = read_lines(text);
    let ghost ls = seq_views(lines@);
    let n = lines.len();
    let mut out: Vec<String> = Vec::new();
    let mut i: usize = 0;
    proof {
        assert(ls.skip(0) =~= ls);
        assert(seq_views(out@) + kept_lines(ls) =~= kept_lines(ls));
    }
    while i < n
        invariant
            i <= n,
            n == lines@.len(),
            ls == seq_views(lines@),
            kept_lines(ls) == seq_views(out@) + kept_lines(ls.skip(i as int)),
        decreases n - i,
    {
        let ghost pre = out@;
        proof {
            assert(ls.skip(i as int)[0] == ls[i as int]);
            assert(ls.skip(i as int).drop_first() =~= ls.skip(i as int + 1));
        }
        let blank = lines[i].as_str().unicode_len() == 0;
        if !blank && !is_comment_line(lines[i].as_str()) {
            out.push(lines[i].clone());
            proof {
                assert(seq_views(out@) =~= seq_views(pre).push(ls[i as int]));
                assert(seq_views(out@) + kept_lines(ls.skip(i as int + 1)) =~= seq_views(pre)
                    + kept_lines(ls.skip(i as int)));
            }
        }
        i = i + 1;
    }
    proof {
        assert(ls.skip(n as int).len() == 0);
    }
    out
}

// ---------------------------------------------------------------------------
// Filtering the report
// ---------------------------------------------------------------------------

/// The report without the names the ignore list excludes, in report order.
pub open spec fn filtered_report(udeps: Seq<Seq<char>>, ignored: Seq<Seq<char>>) -> Seq<Seq<char>>
    decreases udeps.len(),
{
    if udeps.len() == 0 {
        Seq::empty()
    } else if contains_seq(ignored, udeps[0]) {
        filtered_report(udeps.drop_first(), ignored)
    } else {
        seq![udeps[0]] + filtered_report(udeps.drop_first(), ignored)
    }
}

/// Whether `x` occurs in the list.
fn contains_string(list: &Vec<String>, x: &String) -> (r: bool)
    ensures
        r == contains_seq(seq_views(list@), x@),
{
    let n = list.len();
    let mut i: usize = 0;
    while i < n
        invariant
            i <= n,
            n == list@.len(),
            forall|j: int| 0 <= j < i ==> seq_views(list@)[j] != x@,
        decreases n - i,
    {
        if list[i] == *x {
            proof {
                assert(seq_views(list@)[i as int] == x@);
            }
            return true;
        }
        i = i + 1;
    }
    false
}

/// Drops the ignored names from the report.
pub fn apply_ignore_list(udeps: Vec<String>, ignored: &Vec<String>) -> (r: Vec<String>)
    ensures
        seq_views(r@) == filtered_report(seq_views(udeps@), seq_views(ignored@)),
{
    let ghost us = seq_views(udeps@);
    let ghost ig = seq_views(ignored@);
    let n = udeps.len();
    let mut out: Vec<String> = Vec::new();
    let mut i: usize = 0;
    proof {
        assert(us.skip(0) =~= us);
        assert(seq_views(out@) + filtered_report(us, ig) =~= filtered_report(us, ig));
    }
    while i < n
        invariant
            i <= n,
            n == udeps@.len(),
            us == seq_views(udeps@),
            ig == seq_views(ignored@),
            filtered_report(us, ig) == seq_views(out@) + filtered_report(us.skip(i as int), ig),
        decreases n - i,
    {
        let ghost pre = out@;
        proof {
            assert(us.skip(i as int)[0] == us[i as int]);
            assert(us.skip(i as int).drop_first() =~= us.skip(i as int + 1));
        }
        if !contains_string(ignored, &udeps[i]) {
            out.push(udeps[i].clone());
            proof {
                assert(seq_views(out@) =~= seq_views(pre).push(us[i as int]));
                assert(seq_views(out@) + filtered_report(us.skip(i as int + 1), ig) =~= seq_views(
                    pre,
                ) + filtered_report(us.skip(i as int), ig));
            }
        }
        i = i + 1;
    }
    proof {
        assert(us.skip(n as int).len() == 0);
    }
    out
}

} // verus!
