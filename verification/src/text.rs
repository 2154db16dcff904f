//! Character-level utilities shared by the parsing modules: conversion
//! between strings and character vectors, substring search, splitting,
//! and line splitting in the style of `str::lines`.

use vstd::prelude::*;
use vstd::string::StrSliceExecFns;

verus! {

/// Relies on `String::push`: appends the given character to the end of
/// the string.
pub assume_specification[ String::push ](s: &mut String, ch: char)
    ensures
        final(s)@ == old(s)@.push(ch),
;

/// The characters of a string, as a vector.
pub fn to_chars(s: &str) -> (r: Vec<char>)
    ensures
        r@ == s@,
{
    let n = s.unicode_len();
    let mut r: Vec<char> = Vec::new();
    let mut i: usize = 0;
    while i < n
        invariant
            n == s@.len(),
            i <= n,
            r@ == s@.take(i as int),
        decreases n - i,
    {
        let c = s.get_char(i);
        r.push(c);
        i = i + 1;
        proof {
            assert(r@ =~= s@.take(i as int));
        }
    }
    proof {
        assert(s@.take(n as int) =~= s@);
    }
    r
}

/// A string holding exactly the given characters.
pub fn chars_to_string(v: &Vec<char>) -> (r: String)
    ensures
        r@ == v@,
{
    let mut r = String::new();
    let mut i: usize = 0;
    while i < v.len()
        invariant
            i <= v.len(),
            r@ == v@.take(i as int),
        decreases v.len() - i,
    {
        r.push(v[i]);
        i = i + 1;
        proof {
            assert(r@ =~= v@.take(i as int));
        }
    }
    proof {
        assert(v@.take(v.len() as int) =~= v@);
    }
    r
}

/// `pat` occurs in `s` starting exactly at index `i`.
pub open spec fn match_at(s: Seq<char>, pat: Seq<char>, i: int) -> bool {
    0 <= i && i + pat.len() <= s.len() && s.subrange(i, i + pat.len()) == pat
}

/// `pat` occurs somewhere in `s`.
pub open spec fn contains_seq(s: Seq<char>, pat: Seq<char>) -> bool {
    exists|i: int| match_at(s, pat, i)
}

/// The least index at or after `from` where `pat` occurs in `s`, if any.
pub open spec fn first_match_from(s: Seq<char>, pat: Seq<char>, from: int) -> Option<int>
    decreases s.len() - from,
{
    if from + pat.len() > s.len() {
        None
    } else if pat.len() == 0 {
        Some(from)
    } else if match_at(s, pat, from) {
        Some(from)
    } else {
        first_match_from(s, pat, from + 1)
    }
}

/// `first_match_from` finds the least match position at or after `from`,
/// and `None` means there is none.
pub proof fn lemma_first_match_from(s: Seq<char>, pat: Seq<char>, from: int)
    requires
        0 <= from,
    ensures
        match first_match_from(s, pat, from) {
            Some(i) => from <= i && match_at(s, pat, i) && (forall|k: int|
                from <= k < i ==> !match_at(s, pat, k)),
            None => forall|k: int| from <= k ==> !match_at(s, pat, k),
        },
    decreases s.len() - from,
{
    if from + pat.len() > s.len() {
        assert forall|k: int| from <= k implies !match_at(s, pat, k) by {
            assert(k + pat.len() > s.len());
        };
    } else if pat.len() == 0 {
        assert(s.subrange(from, from) =~= pat);
    } else if match_at(s, pat, from) {
    } else {
        lemma_first_match_from(s, pat, from + 1);
    }
}

/// `pat` occurs in `s` at exactly index `i`, checked character by character.
pub fn check_match_at(s: &Vec<char>, pat: &Vec<char>, i: usize) -> (r: bool)
    requires
        i + pat@.len() <= s@.len(),
    ensures
        r == match_at(s@, pat@, i as int),
{
    let sn = s.len();
    let mut j: usize = 0;
    while j < pat.len()
        invariant
            sn == s@.len(),
            i + pat@.len() <= s@.len(),
            j <= pat@.len(),
            forall|k: int| 0 <= k < j ==> s@[i + k] == pat@[k],
        decreases pat@.len() - j,
    {
        proof {
            assert(i + j < s@.len());
        }
        if s[i + j] != pat[j] {
            proof {
                if match_at(s@, pat@, i as int) {
                    assert(s@.subrange(i as int, i + pat@.len())[j as int] == pat@[j as int]);
                }
            }
            return false;
        }
        j = j + 1;
    }
    proof {
        assert(s@.subrange(i as int, i + pat@.len()) =~= pat@);
    }
    true
}

/// The least index at or after `from` where `pat` occurs in `s`.
pub fn find_from(s: &Vec<char>, pat: &Vec<char>, from: usize) -> (r: Option<usize>)
    requires
        from <= s@.len(),
    ensures
        match r {
            Some(i) => first_match_from(s@, pat@, from as int) == Some(i as int),
            None => first_match_from(s@, pat@, from as int) is None,
        },
{
    if pat.len() > s.len() {
        return None;
    }
    if pat.len() == 0 {
        return Some(from);
    }
    let last = s.len() - pat.len();
    let mut i = from;
    while i <= last
        invariant
            from <= i,
            1 <= pat@.len() <= s@.len(),
            s@.len() <= usize::MAX,
            last == s@.len() - pat@.len(),
            first_match_from(s@, pat@, from as int) == first_match_from(s@, pat@, i as int),
        decreases last + 1 - i,
    {
        if check_match_at(s, pat, i) {
            return Some(i);
        }
        i = i + 1;
    }
    None
}

/// `pat` occurs somewhere in `s`.
pub fn has_sub(s: &Vec<char>, pat: &Vec<char>) -> (r: bool)
    ensures
        r == contains_seq(s@, pat@),
{
    let r = find_from(s, pat, 0);
    proof {
        lemma_first_match_from(s@, pat@, 0);
        if r is Some {
            assert(match_at(s@, pat@, r->Some_0 as int));
        } else {
            assert forall|k: int| !match_at(s@, pat@, k) by {
                if k >= 0 {
                    assert(!match_at(s@, pat@, k));
                }
            };
        }
    }
    r.is_some()
}

/// The deep view of a vector of character vectors indexes to the
/// elements' own views.
pub proof fn lemma_deep_view_chars(v: Vec<Vec<char>>)
    ensures
        v.deep_view().len() == v@.len(),
        forall|i: int| 0 <= i < v@.len() ==> v.deep_view()[i] == v@[i]@,
{
    assert forall|i: int| 0 <= i < v@.len() implies v.deep_view()[i] == v@[i]@ by {
        assert(v@[i].deep_view() =~= v@[i]@);
    }
}

/// Pushing onto a vector of character vectors pushes the element's view
/// onto the deep view.
pub proof fn lemma_deep_view_push(v: Vec<Vec<char>>, w: Vec<Vec<char>>, x: Vec<char>)
    requires
        w@ == v@.push(x),
    ensures
        w.deep_view() == v.deep_view().push(x@),
{
    lemma_deep_view_chars(v);
    lemma_deep_view_chars(w);
    assert(w.deep_view() =~= v.deep_view().push(x@));
}

/// A copy of `v[a..b]`.
pub fn copy_range(v: &Vec<char>, a: usize, b: usize) -> (r: Vec<char>)
    requires
        a <= b <= v@.len(),
    ensures
        r@ == v@.subrange(a as int, b as int),
{
    let mut r: Vec<char> = Vec::new();
    let mut i = a;
    while i < b
        invariant
            a <= i <= b <= v@.len(),
            r@ == v@.subrange(a as int, i as int),
        decreases b - i,
    {
        r.push(v[i]);
        i = i + 1;
        proof {
            assert(r@ =~= v@.subrange(a as int, i as int));
        }
    }
    r
}

/// A copy of the whole character vector.
pub fn clone_chars(v: &Vec<char>) -> (r: Vec<char>)
    ensures
        r@ == v@,
{
    let r = copy_range(v, 0, v.len());
    proof {
        assert(v@.subrange(0, v@.len() as int) =~= v@);
    }
    r
}

/// Appends all of `v` to `out`.
pub fn append_chars(out: &mut Vec<char>, v: &Vec<char>)
    ensures
        final(out)@ == old(out)@ + v@,
{
    let mut j: usize = 0;
    proof {
        assert(old(out)@ + v@.take(0) =~= old(out)@);
    }
    while j < v.len()
        invariant
            j <= v@.len(),
            out@ == old(out)@ + v@.take(j as int),
        decreases v@.len() - j,
    {
        out.push(v[j]);
        j = j + 1;
        proof {
            assert(old(out)@ + v@.take(j as int) =~= (old(out)@ + v@.take(j - 1)).push(
                v@[j - 1],
            ));
        }
    }
    proof {
        assert(v@.take(v@.len() as int) =~= v@);
    }
}

/// A line's trailing carriage return is dropped, as `str::lines` does.
pub open spec fn strip_cr(l: Seq<char>) -> Seq<char> {
    if l.len() > 0 && l.last() == '\r' {
        l.drop_last()
    } else {
        l
    }
}

/// The lines of `s` after the characters in `cur` have already been read:
/// a newline ends the pending line, and a pending non-empty line at the
/// end of input counts as a final line.
pub open spec fn spec_lines_acc(s: Seq<char>, cur: Seq<char>) -> Seq<Seq<char>>
    decreases s.len(),
{
    if s.len() <= 0 {
        if cur.len() == 0 {
            Seq::empty()
        } else {
            seq![cur]
        }
    } else if s[0] == '\n' {
        seq![strip_cr(cur)] + spec_lines_acc(s.skip(1), Seq::empty())
    } else {
        spec_lines_acc(s.skip(1), cur.push(s[0]))
    }
}

/// The lines of `s`, in the manner of `str::lines`: split at `'\n'`,
/// with a line's trailing `'\r'` dropped and no empty line after a
/// trailing newline.
pub open spec fn spec_lines(s: Seq<char>) -> Seq<Seq<char>> {
    spec_lines_acc(s, Seq::empty())
}

/// Shifting the haystack start shifts match positions.
pub proof fn lemma_match_at_shift(s: Seq<char>, pat: Seq<char>, i: int)
    requires
        0 <= i <= s.len(),
    ensures
        match_at(s.skip(i), pat, 0) == match_at(s, pat, i),
{
    if i + pat.len() <= s.len() {
        assert(s.skip(i).subrange(0, pat.len() as int) =~= s.subrange(i, i + pat.len()));
    }
}

/// The lines of `s`, as a vector of character vectors.
pub fn split_lines(s: &Vec<char>) -> (r: Vec<Vec<char>>)
    ensures
        r.deep_view() == spec_lines(s@),
{
    let mut out: Vec<Vec<char>> = Vec::new();
    let mut cur: Vec<char> = Vec::new();
    let mut i: usize = 0;
    proof {
        assert(s@.skip(0) =~= s@);
        assert(out.deep_view() =~= Seq::<Seq<char>>::empty());
        assert(out.deep_view() + spec_lines_acc(s@, cur@) =~= spec_lines_acc(s@, cur@));
    }
    while i < s.len()
        invariant
            i <= s@.len(),
            spec_lines(s@) == out.deep_view() + spec_lines_acc(s@.skip(i as int), cur@),
        decreases s@.len() - i,
    {
        let c = s[i];
        proof {
            assert(s@.skip(i as int)[0] == s@[i as int]);
            assert(s@.skip(i as int).skip(1) =~= s@.skip(i + 1));
        }
        if c == '\n' {
            let ghost out0 = out;
            let ghost cur0 = cur@;
            let mut line = cur;
            cur = Vec::new();
            if line.len() > 0 && line[line.len() - 1] == '\r' {
                line.pop();
                proof {
                    assert(line@ =~= strip_cr(cur0));
                }
            }
            out.push(line);
            proof {
                lemma_deep_view_push(out0, out, line);
                assert(line@ == strip_cr(cur0));
                assert(out0.deep_view() + (seq![strip_cr(cur0)] + spec_lines_acc(
                    s@.skip(i + 1),
                    Seq::empty(),
                )) =~= out.deep_view() + spec_lines_acc(s@.skip(i + 1), Seq::empty()));
            }
        } else {
            cur.push(c);
        }
        i = i + 1;
    }
    proof {
        assert(s@.skip(s@.len() as int) =~= Seq::<char>::empty());
    }
    if cur.len() > 0 {
        let ghost out0 = out;
        let ghost cur0 = cur@;
        out.push(cur);
        proof {
            lemma_deep_view_push(out0, out, out@[out@.len() - 1]);
            assert(out.deep_view() =~= out0.deep_view() + seq![cur0]);
        }
    } else {
        proof {
            assert(out.deep_view() =~= out.deep_view() + Seq::<Seq<char>>::empty());
        }
    }
    out
}

/// The fields of `s` split on non-overlapping occurrences of `sep`,
/// leftmost first, with `cur` the part of the current field already read.
pub open spec fn spec_split_acc(s: Seq<char>, sep: Seq<char>, cur: Seq<char>) -> Seq<Seq<char>>
    decreases s.len(),
{
    if s.len() <= 0 {
        seq![cur]
    } else if 1 <= sep.len() && match_at(s, sep, 0) {
        seq![cur] + spec_split_acc(s.skip(sep.len() as int), sep, Seq::empty())
    } else {
        spec_split_acc(s.skip(1), sep, cur.push(s[0]))
    }
}

/// The fields of `s` split on `sep`, as `str::split` produces them:
/// an empty input gives one empty field, and adjacent separators give
/// empty fields.
pub open spec fn spec_split(s: Seq<char>, sep: Seq<char>) -> Seq<Seq<char>> {
    spec_split_acc(s, sep, Seq::empty())
}

/// The fields of `s` split on the non-empty separator `sep`.
pub fn split_by(s: &Vec<char>, sep: &Vec<char>) -> (r: Vec<Vec<char>>)
    requires
        1 <= sep@.len(),
    ensures
        r.deep_view() == spec_split(s@, sep@),
{
    let mut out: Vec<Vec<char>> = Vec::new();
    let mut cur: Vec<char> = Vec::new();
    let mut i: usize = 0;
    proof {
        assert(s@.skip(0) =~= s@);
        assert(out.deep_view() =~= Seq::<Seq<char>>::empty());
        assert(out.deep_view() + spec_split_acc(s@, sep@, cur@) =~= spec_split_acc(
            s@,
            sep@,
            cur@,
        ));
    }
    while i < s.len()
        invariant
            i <= s@.len(),
            1 <= sep@.len(),
            spec_split(s@, sep@) == out.deep_view() + spec_split_acc(
                s@.skip(i as int),
                sep@,
                cur@,
            ),
        decreases s@.len() - i,
    {
        proof {
            lemma_match_at_shift(s@, sep@, i as int);
            assert(s@.skip(i as int)[0] == s@[i as int]);
            assert(s@.skip(i as int).skip(1) =~= s@.skip(i + 1));
        }
        if sep.len() <= s.len() - i && check_match_at(s, sep, i) {
            let ghost out0 = out;
            let ghost cur0 = cur@;
            proof {
                assert(s@.skip(i as int).skip(sep@.len() as int) =~= s@.skip(
                    i + sep@.len(),
                ));
            }
            out.push(cur);
            cur = Vec::new();
            i = i + sep.len();
            proof {
                lemma_deep_view_push(out0, out, out@[out@.len() - 1]);
                assert(out0.deep_view() + (seq![cur0] + spec_split_acc(
                    s@.skip(i as int),
                    sep@,
                    Seq::empty(),
                )) =~= out.deep_view() + spec_split_acc(s@.skip(i as int), sep@, Seq::empty()));
            }
        } else {
            proof {
                assert(!match_at(s@.skip(i as int), sep@, 0));
            }
            cur.push(s[i]);
            i = i + 1;
        }
    }
    proof {
        assert(s@.skip(s@.len() as int) =~= Seq::<char>::empty());
    }
    let ghost out0 = out;
    let ghost cur0 = cur@;
    out.push(cur);
    proof {
        lemma_deep_view_push(out0, out, out@[out@.len() - 1]);
        assert(out.deep_view() =~= out0.deep_view() + seq![cur0]);
    }
    out
}

/// The fields joined with `sep` between them.
pub open spec fn spec_join_sep(ls: Seq<Seq<char>>, sep: Seq<char>) -> Seq<char>
    decreases ls.len(),
{
    if ls.len() == 0 {
        Seq::empty()
    } else if ls.len() == 1 {
        ls[0]
    } else {
        ls[0] + sep + spec_join_sep(ls.skip(1), sep)
    }
}

/// Splitting always yields at least one field.
proof fn lemma_split_acc_nonempty(s: Seq<char>, sep: Seq<char>, cur: Seq<char>)
    ensures
        spec_split_acc(s, sep, cur).len() >= 1,
    decreases s.len(),
{
    if s.len() <= 0 {
    } else if 1 <= sep.len() && match_at(s, sep, 0) {
    } else {
        lemma_split_acc_nonempty(s.skip(1), sep, cur.push(s[0]));
    }
}

/// Joining the split fields with the separator recovers the pending
/// text and the input: no field is lost, duplicated or reordered.
proof fn lemma_split_acc_join(s: Seq<char>, sep: Seq<char>, cur: Seq<char>)
    requires
        1 <= sep.len(),
    ensures
        spec_join_sep(spec_split_acc(s, sep, cur), sep) == cur + s,
    decreases s.len(),
{
    let acc = spec_split_acc(s, sep, cur);
    if s.len() <= 0 {
        assert(cur + s =~= cur);
    } else if match_at(s, sep, 0) {
        let rest = spec_split_acc(s.skip(sep.len() as int), sep, Seq::empty());
        lemma_split_acc_nonempty(s.skip(sep.len() as int), sep, Seq::empty());
        lemma_split_acc_join(s.skip(sep.len() as int), sep, Seq::empty());
        assert(acc == seq![cur] + rest);
        assert(acc[0] == cur);
        assert(acc.skip(1) =~= rest);
        assert(acc.len() >= 2);
        assert(spec_join_sep(acc, sep) == cur + sep + spec_join_sep(rest, sep));
        assert(Seq::<char>::empty() + s.skip(sep.len() as int) =~= s.skip(sep.len() as int));
        assert(s.subrange(0, sep.len() as int) == sep);
        assert(cur + sep + s.skip(sep.len() as int) =~= cur + s);
    } else {
        lemma_split_acc_join(s.skip(1), sep, cur.push(s[0]));
        assert(cur.push(s[0]) + s.skip(1) =~= cur + s);
    }
}

/// Joining the fields of a split with the separator recovers the input
/// exactly: every field appears once, in its original order.
pub proof fn lemma_split_join_inverse(s: Seq<char>, sep: Seq<char>)
    requires
        1 <= sep.len(),
    ensures
        spec_join_sep(spec_split(s, sep), sep) == s,
{
    lemma_split_acc_join(s, sep, Seq::empty());
    assert(Seq::<char>::empty() + s =~= s);
}

/// No split field holds the separator, as long as the pending text
/// starts no occurrence of it.
proof fn lemma_split_acc_sep_free(s: Seq<char>, sep: Seq<char>, cur: Seq<char>)
    requires
        1 <= sep.len(),
        forall|j: int| 0 <= j < cur.len() ==> !match_at(cur + s, sep, j),
    ensures
        forall|i: int|
            0 <= i < spec_split_acc(s, sep, cur).len() ==> !contains_seq(
                #[trigger] spec_split_acc(s, sep, cur)[i],
                sep,
            ),
    decreases s.len(),
{
    let acc = spec_split_acc(s, sep, cur);
    if s.len() <= 0 {
        assert forall|i: int| 0 <= i < acc.len() implies !contains_seq(
            #[trigger] acc[i],
            sep,
        ) by {
            assert(acc[i] == cur);
            if contains_seq(cur, sep) {
                let j = choose|j: int| match_at(cur, sep, j);
                assert((cur + s).subrange(j, j + sep.len()) =~= cur.subrange(j, j + sep.len()));
                assert(match_at(cur + s, sep, j));
            }
        };
    } else if match_at(s, sep, 0) {
        let rest = spec_split_acc(s.skip(sep.len() as int), sep, Seq::empty());
        lemma_split_acc_sep_free(s.skip(sep.len() as int), sep, Seq::empty());
        assert forall|i: int| 0 <= i < acc.len() implies !contains_seq(
            #[trigger] acc[i],
            sep,
        ) by {
            if i == 0 {
                assert(acc[0] == cur);
                if contains_seq(cur, sep) {
                    let j = choose|j: int| match_at(cur, sep, j);
                    assert((cur + s).subrange(j, j + sep.len()) =~= cur.subrange(
                        j,
                        j + sep.len(),
                    ));
                    assert(match_at(cur + s, sep, j));
                }
            } else {
                assert(acc[i] == rest[i - 1]);
            }
        };
    } else {
        let cur2 = cur.push(s[0]);
        assert(cur2 + s.skip(1) =~= cur + s);
        assert forall|j: int| 0 <= j < cur2.len() implies !match_at(
            cur2 + s.skip(1),
            sep,
            j,
        ) by {
            if j < cur.len() {
                assert(!match_at(cur + s, sep, j));
            } else {
                assert(j == cur.len());
                lemma_match_at_shift(cur + s, sep, cur.len() as int);
                assert((cur + s).skip(cur.len() as int) =~= s);
                assert(!match_at(cur + s, sep, cur.len() as int));
            }
        };
        lemma_split_acc_sep_free(s.skip(1), sep, cur2);
        let rest = spec_split_acc(s.skip(1), sep, cur2);
        assert(acc == rest);
        assert forall|i: int| 0 <= i < acc.len() implies !contains_seq(
            #[trigger] acc[i],
            sep,
        ) by {
            assert(!contains_seq(rest[i], sep));
        };
    }
}

/// No field of a split holds the separator: each field is one whole
/// entry of the input.
pub proof fn lemma_split_fields_sep_free(s: Seq<char>, sep: Seq<char>)
    requires
        1 <= sep.len(),
    ensures
        forall|i: int|
            0 <= i < spec_split(s, sep).len() ==> !contains_seq(
                #[trigger] spec_split(s, sep)[i],
                sep,
            ),
{
    lemma_split_acc_sep_free(s, sep, Seq::empty());
}

/// ASCII whitespace as it occurs at the ends of an interactive input line.
pub open spec fn is_line_ws(c: char) -> bool {
    c == ' ' || c == '\t' || c == '\r' || c == '\n'
}

/// `s` without its leading whitespace.
pub open spec fn trim_front(s: Seq<char>) -> Seq<char>
    decreases s.len(),
{
    if s.len() > 0 && is_line_ws(s[0]) {
        trim_front(s.skip(1))
    } else {
        s
    }
}

/// `s` without its trailing whitespace.
pub open spec fn trim_back(s: Seq<char>) -> Seq<char>
    decreases s.len(),
{
    if s.len() > 0 && is_line_ws(s.last()) {
        trim_back(s.drop_last())
    } else {
        s
    }
}

/// `s` without leading and trailing whitespace.
pub open spec fn spec_trim(s: Seq<char>) -> Seq<char> {
    trim_back(trim_front(s))
}

/// Whether `c` is whitespace, decided in executable code.
pub fn is_ws_char(c: char) -> (r: bool)
    ensures
        r == is_line_ws(c),
{
    c == ' ' || c == '\t' || c == '\r' || c == '\n'
}

/// The characters of `v` without leading and trailing whitespace.
pub fn trim_chars(v: &Vec<char>) -> (r: Vec<char>)
    ensures
        r@ == spec_trim(v@),
{
    let mut a: usize = 0;
    let mut stop = false;
    proof {
        assert(v@.skip(0) =~= v@);
    }
    while a < v.len() && !stop
        invariant
            a <= v@.len(),
            trim_front(v@) == trim_front(v@.skip(a as int)),
            stop ==> a < v@.len() && !is_line_ws(v@[a as int]),
        decreases v@.len() - a + (if stop { 0int } else { 1int }),
    {
        if is_ws_char(v[a]) {
            proof {
                assert(v@.skip(a as int)[0] == v@[a as int]);
                assert(v@.skip(a as int).skip(1) =~= v@.skip(a + 1));
            }
            a = a + 1;
        } else {
            stop = true;
        }
    }
    proof {
        if a == v@.len() {
            assert(v@.skip(a as int) =~= Seq::<char>::empty());
        }
        assert(trim_front(v@) == v@.skip(a as int));
    }
    let mut b: usize = v.len();
    let mut stop2 = false;
    while b > a && !stop2
        invariant
            a <= b <= v@.len(),
            trim_front(v@) == v@.skip(a as int),
            trim_back(v@.skip(a as int)) == trim_back(v@.subrange(a as int, b as int)),
            stop2 ==> a < b && !is_line_ws(v@[b - 1]),
        decreases b - a + (if stop2 { 0int } else { 1int }),
    {
        if is_ws_char(v[b - 1]) {
            proof {
                let sub = v@.subrange(a as int, b as int);
                assert(sub.last() == v@[b - 1]);
                assert(sub.drop_last() =~= v@.subrange(a as int, b - 1));
            }
            b = b - 1;
        } else {
            stop2 = true;
        }
    }
    proof {
        if a == b {
            assert(v@.subrange(a as int, b as int) =~= Seq::<char>::empty());
        }
        assert(trim_back(v@.subrange(a as int, b as int)) == v@.subrange(a as int, b as int));
    }
    copy_range(v, a, b)
}

/// `s` without leading and trailing whitespace, as `str::trim` behaves
/// on ASCII input.
pub fn trim_line(s: &str) -> (r: String)
    ensures
        r@ == spec_trim(s@),
{
    let v = to_chars(s);
    let t = trim_chars(&v);
    chars_to_string(&t)
}

} // verus!
