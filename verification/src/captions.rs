//! Caption text extraction from subtitle-timing content: every line
//! holding a timing-range marker is followed by a cue line; the cues are
//! collected, and every other cue line is kept, a heuristic against the
//! doubled cue text that rolling captions produce.

use vstd::prelude::*;
use crate::text::{
    append_chars, chars_to_string, clone_chars, contains_seq, has_sub, lemma_deep_view_chars, match_at,
    lemma_deep_view_push, spec_lines, spec_lines_acc, split_lines, strip_cr, to_chars,
};

verus! {

/// The timing-range marker: a line holding it announces a cue on the
/// following line.
pub open spec fn arrow_marker() -> Seq<char> {
    seq!['-', '-', '>']
}

/// The cue lines of `ls`: each line after a line holding the timing
/// marker, scanning forward without re-reading captured cues.
pub open spec fn spec_cues(ls: Seq<Seq<char>>) -> Seq<Seq<char>>
    decreases ls.len(),
{
    if ls.len() <= 0 {
        Seq::empty()
    } else if contains_seq(ls[0], arrow_marker()) {
        if ls.len() == 1 {
            Seq::empty()
        } else {
            seq![ls[1]] + spec_cues(ls.skip(2))
        }
    } else {
        spec_cues(ls.skip(1))
    }
}

/// The tail of a newline join: each further part preceded by a newline.
pub open spec fn rest_join(ls: Seq<Seq<char>>) -> Seq<char>
    decreases ls.len(),
{
    if ls.len() <= 0 {
        Seq::empty()
    } else {
        seq!['\n'] + ls[0] + rest_join(ls.skip(1))
    }
}

/// The parts joined with single newlines between them.
pub open spec fn spec_join_nl(ls: Seq<Seq<char>>) -> Seq<char> {
    if ls.len() == 0 {
        Seq::empty()
    } else {
        ls[0] + rest_join(ls.skip(1))
    }
}

/// The lines at even positions: the first of each consecutive pair.
pub open spec fn spec_evens(ls: Seq<Seq<char>>) -> Seq<Seq<char>>
    decreases ls.len(),
{
    if ls.len() <= 0 {
        Seq::empty()
    } else if ls.len() == 1 {
        seq![ls[0]]
    } else {
        seq![ls[0]] + spec_evens(ls.skip(2))
    }
}

/// The lines concatenated, each followed by a newline.
pub open spec fn spec_cat_nl(ls: Seq<Seq<char>>) -> Seq<char>
    decreases ls.len(),
{
    if ls.len() <= 0 {
        Seq::empty()
    } else {
        ls[0] + seq!['\n'] + spec_cat_nl(ls.skip(1))
    }
}

/// The extracted caption text of subtitle-timing content `s`: the cue
/// lines, rejoined and re-split, with every other line kept and each
/// kept line followed by a newline.
pub open spec fn spec_extract(s: Seq<char>) -> Seq<char> {
    spec_cat_nl(spec_evens(spec_lines(spec_join_nl(spec_cues(spec_lines(s))))))
}

/// The cue lines that content `s` announces.
pub open spec fn spec_content_cues(s: Seq<char>) -> Seq<Seq<char>> {
    spec_cues(spec_lines(s))
}

/// Lines never hold a newline character.
proof fn lemma_lines_acc_nl_free(s: Seq<char>, cur: Seq<char>)
    requires
        forall|j: int| 0 <= j < cur.len() ==> cur[j] != '\n',
    ensures
        forall|i: int, j: int|
            0 <= i < spec_lines_acc(s, cur).len() && 0 <= j < spec_lines_acc(s, cur)[i].len()
                ==> spec_lines_acc(s, cur)[i][j] != '\n',
    decreases s.len(),
{
    let acc = spec_lines_acc(s, cur);
    if s.len() <= 0 {
        if cur.len() > 0 {
            assert(acc == seq![cur]);
            assert forall|i: int, j: int|
                0 <= i < acc.len() && 0 <= j < acc[i].len() implies acc[i][j] != '\n' by {
                assert(acc[i] == cur);
            };
        }
    } else if s[0] == '\n' {
        lemma_lines_acc_nl_free(s.skip(1), Seq::empty());
        let rest = spec_lines_acc(s.skip(1), Seq::empty());
        assert(acc == seq![strip_cr(cur)] + rest);
        assert forall|i: int, j: int|
            0 <= i < acc.len() && 0 <= j < acc[i].len() implies acc[i][j] != '\n' by {
            if i == 0 {
                assert(acc[0] == strip_cr(cur));
                assert(strip_cr(cur)[j] == cur[j]);
            } else {
                assert(acc[i] == rest[i - 1]);
            }
        };
    } else {
        assert forall|j: int| 0 <= j < cur.push(s[0]).len() implies cur.push(s[0])[j] != '\n' by {
            if j < cur.len() {
                assert(cur.push(s[0])[j] == cur[j]);
            } else {
                assert(cur.push(s[0])[j] == s[0]);
            }
        };
        lemma_lines_acc_nl_free(s.skip(1), cur.push(s[0]));
        let rest = spec_lines_acc(s.skip(1), cur.push(s[0]));
        assert(acc == rest);
        assert forall|i: int, j: int|
            0 <= i < acc.len() && 0 <= j < acc[i].len() implies acc[i][j] != '\n' by {
            assert(rest[i][j] != '\n');
        };
    }
}

/// Every cue is one of the lines it was taken from.
proof fn lemma_cues_are_lines(ls: Seq<Seq<char>>)
    ensures
        forall|i: int| 0 <= i < spec_cues(ls).len() ==> ls.contains(#[trigger] spec_cues(ls)[i]),
    decreases ls.len(),
{
    let cues = spec_cues(ls);
    if ls.len() <= 0 {
    } else if contains_seq(ls[0], arrow_marker()) {
        if ls.len() == 1 {
        } else {
            lemma_cues_are_lines(ls.skip(2));
            let rest = spec_cues(ls.skip(2));
            assert forall|i: int| 0 <= i < cues.len() implies ls.contains(
                #[trigger] cues[i]) by {
                if i == 0 {
                    assert(cues[0] == ls[1]);
                } else {
                    assert(cues[i] == rest[i - 1]);
                    let k = choose|k: int|
                        0 <= k < ls.skip(2).len() && ls.skip(2)[k] == rest[i - 1];
                    assert(ls[k + 2] == rest[i - 1]);
                }
            };
        }
    } else {
        lemma_cues_are_lines(ls.skip(1));
        let rest = spec_cues(ls.skip(1));
        assert forall|i: int| 0 <= i < cues.len() implies ls.contains(#[trigger] cues[i]) by {
            assert(cues[i] == rest[i]);
            let k = choose|k: int| 0 <= k < ls.skip(1).len() && ls.skip(1)[k] == rest[i];
            assert(ls[k + 1] == rest[i]);
        };
    }
}

/// A newline-free run up to a newline becomes one line, and splitting
/// resumes after it.
proof fn lemma_lines_acc_through(x: Seq<char>, y: Seq<char>, cur: Seq<char>)
    requires
        forall|j: int| 0 <= j < x.len() ==> x[j] != '\n',
    ensures
        spec_lines_acc(x + seq!['\n'] + y, cur) == seq![strip_cr(cur + x)] + spec_lines_acc(
            y,
            Seq::empty(),
        ),
    decreases x.len(),
{
    let s = x + seq!['\n'] + y;
    if x.len() == 0 {
        assert(s[0] == '\n');
        assert(s.skip(1) =~= y);
        assert(cur + x =~= cur);
    } else {
        assert(s[0] == x[0]);
        assert(s[0] != '\n');
        assert(s.skip(1) =~= x.skip(1) + seq!['\n'] + y);
        lemma_lines_acc_through(x.skip(1), y, cur.push(x[0]));
        assert(cur.push(x[0]) + x.skip(1) =~= cur + x);
    }
}

/// A newline-free remainder becomes at most one final line.
proof fn lemma_lines_acc_flat(x: Seq<char>, cur: Seq<char>)
    requires
        forall|j: int| 0 <= j < x.len() ==> x[j] != '\n',
    ensures
        spec_lines_acc(x, cur) == if (cur + x).len() == 0 {
            Seq::<Seq<char>>::empty()
        } else {
            seq![cur + x]
        },
    decreases x.len(),
{
    if x.len() == 0 {
        assert(cur + x =~= cur);
    } else {
        lemma_lines_acc_flat(x.skip(1), cur.push(x[0]));
        assert(cur.push(x[0]) + x.skip(1) =~= cur + x);
    }
}

/// Splitting a newline join back into lines recovers the joined parts,
/// up to a dropped final empty part, provided no part holds a newline
/// or ends with a carriage return.
proof fn lemma_lines_of_join(l: Seq<Seq<char>>)
    requires
        forall|i: int, j: int| 0 <= i < l.len() && 0 <= j < l[i].len() ==> l[i][j] != '\n',
        forall|i: int| 0 <= i < l.len() ==> (l[i].len() == 0 || l[i].last() != '\r'),
    ensures
        spec_lines(spec_join_nl(l)) == if l.len() > 0 && l.last().len() == 0 {
            l.drop_last()
        } else {
            l
        },
    decreases l.len(),
{
    if l.len() == 0 {
        assert(spec_lines(Seq::<char>::empty()) == Seq::<Seq<char>>::empty());
    } else if l.len() == 1 {
        lemma_lines_acc_flat(l[0], Seq::empty());
        assert(Seq::<char>::empty() + l[0] =~= l[0]);
        if l[0].len() == 0 {
            assert(spec_lines(spec_join_nl(l)) =~= l.drop_last());
        } else {
            assert(spec_lines(spec_join_nl(l)) =~= l);
        }
    } else {
        let tail = l.skip(1);
        assert(tail.len() >= 1);
        assert(spec_join_nl(l) == l[0] + rest_join(tail));
        assert(rest_join(tail) == seq!['\n'] + tail[0] + rest_join(tail.skip(1)));
        assert(spec_join_nl(tail) == tail[0] + rest_join(tail.skip(1)));
        assert(l[0] + rest_join(tail) =~= l[0] + seq!['\n'] + spec_join_nl(tail));
        lemma_lines_acc_through(l[0], spec_join_nl(tail), Seq::empty());
        assert(Seq::<char>::empty() + l[0] =~= l[0]);
        assert(strip_cr(l[0]) == l[0]);
        assert forall|i: int, j: int|
            0 <= i < tail.len() && 0 <= j < tail[i].len() implies tail[i][j] != '\n' by {
            assert(tail[i] == l[i + 1]);
        };
        assert forall|i: int|
            0 <= i < tail.len() implies (tail[i].len() == 0 || tail[i].last() != '\r') by {
            assert(tail[i] == l[i + 1]);
        };
        lemma_lines_of_join(tail);
        assert(spec_lines(spec_join_nl(l)) == seq![l[0]] + spec_lines(spec_join_nl(tail)));
        if tail.last().len() == 0 {
            assert(l.last() == tail.last());
            assert(seq![l[0]] + tail.drop_last() =~= l.drop_last());
        } else {
            assert(seq![l[0]] + tail =~= l);
        }
    }
}

/// The even-position lines are the first of each consecutive pair, in
/// their original order.
pub proof fn lemma_evens_index(l: Seq<Seq<char>>)
    ensures
        spec_evens(l).len() == (l.len() + 1) / 2,
        forall|k: int| 0 <= k < spec_evens(l).len() ==> #[trigger] spec_evens(l)[k] == l[2 * k],
    decreases l.len(),
{
    let ev = spec_evens(l);
    if l.len() <= 1 {
    } else {
        lemma_evens_index(l.skip(2));
        let rest = spec_evens(l.skip(2));
        assert forall|k: int| 0 <= k < ev.len() implies #[trigger] ev[k] == l[2 * k] by {
            if k == 0 {
                assert(ev[0] == l[0]);
            } else {
                assert(ev[k] == rest[k - 1]);
                assert(rest[k - 1] == l.skip(2)[2 * (k - 1)]);
                assert(l.skip(2)[2 * (k - 1)] == l[2 * k]);
            }
        };
    }
}

/// Dropping the final element of an even-length sequence leaves the
/// even positions unchanged.
proof fn lemma_evens_drop_last(l: Seq<Seq<char>>)
    requires
        l.len() > 0,
        l.len() % 2 == 0,
    ensures
        spec_evens(l.drop_last()) == spec_evens(l),
{
    lemma_evens_index(l);
    lemma_evens_index(l.drop_last());
    assert forall|k: int|
        0 <= k < spec_evens(l).len() implies spec_evens(l.drop_last())[k] == spec_evens(
        l,
    )[k] by {
        assert(spec_evens(l)[k] == l[2 * k]);
        assert(spec_evens(l.drop_last())[k] == l.drop_last()[2 * k]);
    };
    assert(spec_evens(l.drop_last()) =~= spec_evens(l));
}

/// When content carries each cue twice in a row, the extractor output is
/// exactly the first of each cue pair, in original order, each followed
/// by a newline and with no timing information; cues that end with a
/// bare carriage return are excepted, since rejoining strips it.
pub proof fn lemma_extract_deduplicates(s: Seq<char>)
    requires
        spec_content_cues(s).len() % 2 == 0,
        forall|k: int|
            0 <= k && 2 * k + 1 < spec_content_cues(s).len() ==> #[trigger] spec_content_cues(
                s,
            )[2 * k + 1] == spec_content_cues(s)[2 * k],
        forall|i: int|
            0 <= i < spec_content_cues(s).len() ==> (#[trigger] spec_content_cues(s)[i].len()
                == 0 || spec_content_cues(s)[i].last() != '\r'),
    ensures
        spec_extract(s) == spec_cat_nl(spec_evens(spec_content_cues(s))),
{
    let lines = spec_lines(s);
    let cues = spec_content_cues(s);
    lemma_lines_acc_nl_free(s, Seq::empty());
    lemma_cues_are_lines(lines);
    assert forall|i: int, j: int|
        0 <= i < cues.len() && 0 <= j < cues[i].len() implies cues[i][j] != '\n' by {
        assert(lines.contains(cues[i]));
        let k = choose|k: int| 0 <= k < lines.len() && lines[k] == cues[i];
        assert(lines[k][j] != '\n');
    };
    lemma_lines_of_join(cues);
    let relines = spec_lines(spec_join_nl(cues));
    if cues.len() > 0 && cues.last().len() == 0 {
        assert(relines == cues.drop_last());
        lemma_evens_drop_last(cues);
    } else {
        assert(relines == cues);
    }
}

/// Content whose lines hold no timing markers yields no cues at all.
proof fn lemma_no_marker_no_cues(ls: Seq<Seq<char>>)
    requires
        forall|i: int| 0 <= i < ls.len() ==> !contains_seq(#[trigger] ls[i], arrow_marker()),
    ensures
        spec_cues(ls) == Seq::<Seq<char>>::empty(),
    decreases ls.len(),
{
    if ls.len() > 0 {
        assert(!contains_seq(ls[0], arrow_marker()));
        assert forall|i: int|
            0 <= i < ls.skip(1).len() implies !contains_seq(
            #[trigger] ls.skip(1)[i],
            arrow_marker(),
        ) by {
            assert(ls.skip(1)[i] == ls[i + 1]);
        };
        lemma_no_marker_no_cues(ls.skip(1));
    }
}

/// Content with no line holding a timing marker extracts to nothing.
pub proof fn lemma_extract_no_markers(s: Seq<char>)
    requires
        forall|i: int|
            0 <= i < spec_lines(s).len() ==> !contains_seq(
                #[trigger] spec_lines(s)[i],
                arrow_marker(),
            ),
    ensures
        spec_extract(s) == Seq::<char>::empty(),
{
    lemma_no_marker_no_cues(spec_lines(s));
    assert(spec_join_nl(spec_cues(spec_lines(s))) == Seq::<char>::empty());
    assert(spec_lines(Seq::<char>::empty()) == Seq::<Seq<char>>::empty());
    assert(spec_evens(Seq::<Seq<char>>::empty()) == Seq::<Seq<char>>::empty());
    assert(spec_cat_nl(Seq::<Seq<char>>::empty()) == Seq::<char>::empty());
}

/// `l` stands contiguously somewhere in `w`.
spec fn is_subrange_of(l: Seq<char>, w: Seq<char>) -> bool {
    exists|a: int, b: int| 0 <= a <= b <= w.len() && l == #[trigger] w.subrange(a, b)
}

/// Every line is a contiguous part of the pending text and the input.
proof fn lemma_lines_acc_are_subranges(s: Seq<char>, cur: Seq<char>)
    ensures
        forall|i: int|
            0 <= i < spec_lines_acc(s, cur).len() ==> is_subrange_of(
                #[trigger] spec_lines_acc(s, cur)[i],
                cur + s,
            ),
    decreases s.len(),
{
    let acc = spec_lines_acc(s, cur);
    let whole = cur + s;
    if s.len() <= 0 {
        if cur.len() > 0 {
            assert forall|i: int|
                0 <= i < acc.len() implies is_subrange_of(#[trigger] acc[i], whole) by {
                assert(whole.subrange(0, cur.len() as int) =~= cur);
                assert(acc[i] == whole.subrange(0, cur.len() as int));
            };
        }
    } else if s[0] == '\n' {
        lemma_lines_acc_are_subranges(s.skip(1), Seq::empty());
        let rest = spec_lines_acc(s.skip(1), Seq::empty());
        let rwhole = Seq::<char>::empty() + s.skip(1);
        assert(rwhole =~= s.skip(1));
        assert forall|i: int|
            0 <= i < acc.len() implies is_subrange_of(#[trigger] acc[i], whole) by {
            if i == 0 {
                assert(acc[0] == strip_cr(cur));
                if cur.len() > 0 && cur.last() == '\r' {
                    assert(whole.subrange(0, cur.len() - 1) =~= cur.drop_last());
                    assert(acc[i] == whole.subrange(0, cur.len() - 1));
                } else {
                    assert(whole.subrange(0, cur.len() as int) =~= cur);
                    assert(acc[i] == whole.subrange(0, cur.len() as int));
                }
            } else {
                assert(acc[i] == rest[i - 1]);
                assert(is_subrange_of(rest[i - 1], rwhole));
                let (a, b) = choose|a: int, b: int|
                    0 <= a <= b <= rwhole.len() && rest[i - 1] == rwhole.subrange(a, b);
                assert(whole.subrange(cur.len() + 1 + a, cur.len() + 1 + b) =~= rwhole.subrange(
                    a,
                    b,
                ));
                assert(acc[i] == whole.subrange(cur.len() + 1 + a, cur.len() + 1 + b));
            }
        };
    } else {
        lemma_lines_acc_are_subranges(s.skip(1), cur.push(s[0]));
        let rest = spec_lines_acc(s.skip(1), cur.push(s[0]));
        let rwhole = cur.push(s[0]) + s.skip(1);
        assert(rwhole =~= whole);
        assert forall|i: int|
            0 <= i < acc.len() implies is_subrange_of(#[trigger] acc[i], whole) by {
            assert(acc[i] == rest[i]);
            assert(is_subrange_of(rest[i], rwhole));
            let (a, b) = choose|a: int, b: int|
                0 <= a <= b <= rwhole.len() && rest[i] == rwhole.subrange(a, b);
            assert(whole.subrange(a, b) =~= rwhole.subrange(a, b));
            assert(acc[i] == whole.subrange(a, b));
        };
    }
}

/// Content in which the timing marker occurs nowhere has no line in
/// which it occurs.
proof fn lemma_no_marker_in_lines(s: Seq<char>)
    requires
        !contains_seq(s, arrow_marker()),
    ensures
        forall|i: int|
            0 <= i < spec_lines(s).len() ==> !contains_seq(
                #[trigger] spec_lines(s)[i],
                arrow_marker(),
            ),
{
    lemma_lines_acc_are_subranges(s, Seq::empty());
    let whole = Seq::<char>::empty() + s;
    assert(whole =~= s);
    let lines = spec_lines(s);
    let pat = arrow_marker();
    assert forall|i: int|
        0 <= i < lines.len() implies !contains_seq(#[trigger] lines[i], pat) by {
        if contains_seq(lines[i], pat) {
            let j = choose|j: int| match_at(lines[i], pat, j);
            assert(is_subrange_of(lines[i], whole));
            let (a, b) = choose|a: int, b: int|
                0 <= a <= b <= whole.len() && lines[i] == whole.subrange(a, b);
            assert(lines[i].subrange(j, j + pat.len() as int) == pat);
            assert(s.subrange(a + j, a + j + pat.len() as int) =~= lines[i].subrange(
                j,
                j + pat.len() as int,
            ));
            assert(match_at(s, pat, a + j));
            assert(contains_seq(s, pat));
        }
    };
}

/// Content in which the timing marker occurs nowhere extracts to
/// nothing.
pub proof fn lemma_extract_without_marker(s: Seq<char>)
    requires
        !contains_seq(s, arrow_marker()),
    ensures
        spec_extract(s) == Seq::<char>::empty(),
{
    lemma_no_marker_in_lines(s);
    lemma_extract_no_markers(s);
}

/// The cue lines of `lines`.
pub fn collect_cues(lines: &Vec<Vec<char>>) -> (r: Vec<Vec<char>>)
    ensures
        r.deep_view() == spec_cues(lines.deep_view()),
{
    let arrow: Vec<char> = vec!['-', '-', '>'];
    let ghost ls = lines.deep_view();
    proof {
        assert(arrow@ =~= arrow_marker());
        lemma_deep_view_chars(*lines);
    }
    let mut out: Vec<Vec<char>> = Vec::new();
    let mut i: usize = 0;
    proof {
        assert(ls.skip(0) =~= ls);
        assert(out.deep_view() =~= Seq::<Seq<char>>::empty());
        assert(out.deep_view() + spec_cues(ls) =~= spec_cues(ls));
    }
    while i < lines.len()
        invariant
            i <= ls.len(),
            ls == lines.deep_view(),
            ls.len() == lines@.len(),
            forall|k: int| 0 <= k < ls.len() ==> ls[k] == lines@[k]@,
            arrow@ == arrow_marker(),
            spec_cues(ls) == out.deep_view() + spec_cues(ls.skip(i as int)),
        decreases ls.len() - i,
    {
        proof {
            assert(ls.skip(i as int)[0] == ls[i as int]);
        }
        if has_sub(&lines[i], &arrow) {
            if i + 1 < lines.len() {
                let ghost out0 = out;
                proof {
                    assert(ls.skip(i as int)[1] == ls[i + 1]);
                    assert(ls.skip(i as int).skip(2) =~= ls.skip(i + 2));
                }
                let cue = clone_chars(&lines[i + 1]);
                out.push(cue);
                proof {
                    lemma_deep_view_push(out0, out, out@[out@.len() - 1]);
                    assert(out0.deep_view() + (seq![ls[i + 1]] + spec_cues(ls.skip(i + 2)))
                        =~= out.deep_view() + spec_cues(ls.skip(i + 2)));
                }
                i = i + 2;
            } else {
                proof {
                    assert(ls.skip(i as int).len() == 1);
                    assert(ls.skip(i + 1) =~= Seq::<Seq<char>>::empty());
                    assert(out.deep_view() + spec_cues(ls.skip(i as int)) =~= out.deep_view()
                        + spec_cues(ls.skip(i + 1)));
                }
                i = i + 1;
            }
        } else {
            proof {
                assert(ls.skip(i as int).skip(1) =~= ls.skip(i + 1));
            }
            i = i + 1;
        }
    }
    proof {
        assert(ls.skip(ls.len() as int) =~= Seq::<Seq<char>>::empty());
        assert(out.deep_view() + spec_cues(Seq::<Seq<char>>::empty()) =~= out.deep_view());
    }
    out
}

/// The parts joined with single newlines between them.
pub fn join_nl(parts: &Vec<Vec<char>>) -> (r: Vec<char>)
    ensures
        r@ == spec_join_nl(parts.deep_view()),
{
    let ghost ls = parts.deep_view();
    proof {
        lemma_deep_view_chars(*parts);
    }
    if parts.len() == 0 {
        let r: Vec<char> = Vec::new();
        proof {
            assert(r@ =~= spec_join_nl(ls));
        }
        return r;
    }
    let mut out = clone_chars(&parts[0]);
    let mut i: usize = 1;
    proof {
        assert(out@ + rest_join(ls.skip(1)) == spec_join_nl(ls));
    }
    while i < parts.len()
        invariant
            1 <= i <= ls.len(),
            ls == parts.deep_view(),
            ls.len() == parts@.len(),
            forall|k: int| 0 <= k < ls.len() ==> ls[k] == parts@[k]@,
            spec_join_nl(ls) == out@ + rest_join(ls.skip(i as int)),
        decreases ls.len() - i,
    {
        proof {
            assert(ls.skip(i as int)[0] == ls[i as int]);
            assert(ls.skip(i as int).skip(1) =~= ls.skip(i + 1));
        }
        let ghost out0 = out@;
        out.push('\n');
        append_chars(&mut out, &parts[i]);
        proof {
            assert(out@ =~= out0 + (seq!['\n'] + ls[i as int]));
            assert(out0 + (seq!['\n'] + ls[i as int] + rest_join(ls.skip(i + 1))) =~= out@
                + rest_join(ls.skip(i + 1)));
        }
        i = i + 1;
    }
    proof {
        assert(ls.skip(ls.len() as int) =~= Seq::<Seq<char>>::empty());
        assert(out@ + rest_join(Seq::<Seq<char>>::empty()) =~= out@);
    }
    out
}

/// Every other line, each kept line followed by a newline.
pub fn keep_evens_cat(lines: &Vec<Vec<char>>) -> (r: Vec<char>)
    ensures
        r@ == spec_cat_nl(spec_evens(lines.deep_view())),
{
    let ghost ls = lines.deep_view();
    proof {
        lemma_deep_view_chars(*lines);
    }
    let mut out: Vec<char> = Vec::new();
    let mut i: usize = 0;
    proof {
        assert(ls.skip(0) =~= ls);
        assert(out@ + spec_cat_nl(spec_evens(ls)) =~= spec_cat_nl(spec_evens(ls)));
    }
    while i < lines.len()
        invariant
            i <= ls.len(),
            ls == lines.deep_view(),
            ls.len() == lines@.len(),
            forall|k: int| 0 <= k < ls.len() ==> ls[k] == lines@[k]@,
            spec_cat_nl(spec_evens(ls)) == out@ + spec_cat_nl(spec_evens(ls.skip(i as int))),
        decreases ls.len() - i,
    {
        proof {
            assert(ls.skip(i as int)[0] == ls[i as int]);
        }
        let ghost out0 = out@;
        append_chars(&mut out, &lines[i]);
        out.push('\n');
        proof {
            let tail = ls.skip(i as int);
            if tail.len() == 1 {
                let ev = spec_evens(tail);
                assert(ev == seq![ls[i as int]]);
                assert(ev.skip(1) =~= Seq::<Seq<char>>::empty());
                assert(spec_cat_nl(ev.skip(1)) == Seq::<char>::empty());
                assert(spec_cat_nl(ev) =~= ls[i as int] + seq!['\n']);
                assert(out@ =~= out0 + (ls[i as int] + seq!['\n']));
                assert(out0 + spec_cat_nl(ev) =~= out@);
            } else {
                assert(tail.skip(2) =~= ls.skip(i + 2));
                let ev = spec_evens(tail);
                assert(ev == seq![ls[i as int]] + spec_evens(ls.skip(i + 2)));
                assert(ev[0] == ls[i as int]);
                assert(ev.skip(1) =~= spec_evens(ls.skip(i + 2)));
                assert(spec_cat_nl(ev) == ls[i as int] + seq!['\n'] + spec_cat_nl(
                    spec_evens(ls.skip(i + 2))));
                assert(out@ =~= out0 + (ls[i as int] + seq!['\n']));
                assert(out0 + (ls[i as int] + seq!['\n'] + spec_cat_nl(spec_evens(ls.skip(i + 2))))
                    =~= out@ + spec_cat_nl(spec_evens(ls.skip(i + 2))));
            }
        }
        if 2 <= lines.len() - i {
            i = i + 2;
        } else {
            proof {
                assert(ls.skip(i as int).len() == 1);
                assert(ls.skip(ls.len() as int) =~= Seq::<Seq<char>>::empty());
                assert(spec_cat_nl(spec_evens(ls.skip(ls.len() as int))) == Seq::<char>::empty());
            }
            i = lines.len();
        }
    }
    proof {
        assert(ls.skip(ls.len() as int) =~= Seq::<Seq<char>>::empty());
        assert(out@ + spec_cat_nl(spec_evens(Seq::<Seq<char>>::empty())) =~= out@);
    }
    out
}

/// The plain caption text extracted from subtitle-timing content.
pub fn extract_captions(vtt: &str) -> (r: String)
    ensures
        r@ == spec_extract(vtt@),
{
    let cs = to_chars(vtt);
    let lines = split_lines(&cs);
    let cues = collect_cues(&lines);
    let joined = join_nl(&cues);
    let relines = split_lines(&joined);
    let kept = keep_evens_cat(&relines);
    chars_to_string(&kept)
}

} // verus!
