//! The persisted configuration record and its file encoding: a JSON
//! object with four string fields, written and read by this module's own
//! verified encoder and parser, with escaping of quotes, backslashes and
//! line-control characters.

use vstd::prelude::*;
use vstd::string::StringExecFns;
use crate::text::{chars_to_string, check_match_at, match_at, lemma_match_at_shift, to_chars};

verus! {

/// The persisted configuration: an API key, a caption language code, a
/// prompt template, and a fallback-transcription flag kept as text.
pub struct Config {
    pub api_key: String,
    pub sub_lang: String,
    pub custom_prompt: String,
    pub allow_whisper: String,
}

/// The encoding of one character inside a quoted string: quote,
/// backslash, newline, carriage return and tab are escaped, all else is
/// verbatim.
pub open spec fn esc_char(c: char) -> Seq<char> {
    if c == '"' {
        seq!['\\', '"']
    } else if c == '\\' {
        seq!['\\', '\\']
    } else if c == '\n' {
        seq!['\\', 'n']
    } else if c == '\r' {
        seq!['\\', 'r']
    } else if c == '\t' {
        seq!['\\', 't']
    } else {
        seq![c]
    }
}

/// The escaped form of a whole string.
pub open spec fn esc(x: Seq<char>) -> Seq<char>
    decreases x.len(),
{
    if x.len() == 0 {
        Seq::empty()
    } else {
        esc_char(x[0]) + esc(x.skip(1))
    }
}

/// The decoded character behind a backslash, if the escape is known.
pub open spec fn unesc_char(e: char) -> Option<char> {
    if e == '"' {
        Some('"')
    } else if e == '\\' {
        Some('\\')
    } else if e == 'n' {
        Some('\n')
    } else if e == 'r' {
        Some('\r')
    } else if e == 't' {
        Some('\t')
    } else {
        None
    }
}

/// Parses a quoted string body up to its closing quote: the decoded
/// content and the remainder after the quote, or nothing on a missing
/// quote or an unknown escape.
pub open spec fn parse_str(s: Seq<char>) -> Option<(Seq<char>, Seq<char>)>
    decreases s.len(),
{
    if s.len() == 0 {
        None
    } else if s[0] == '"' {
        Some((Seq::empty(), s.skip(1)))
    } else if s[0] == '\\' {
        if s.len() < 2 {
            None
        } else {
            match unesc_char(s[1]) {
                Some(c) => match parse_str(s.skip(2)) {
                    Some(pr) => Some((seq![c] + pr.0, pr.1)),
                    None => None,
                },
                None => None,
            }
        }
    } else {
        match parse_str(s.skip(1)) {
            Some(pr) => Some((seq![s[0]] + pr.0, pr.1)),
            None => None,
        }
    }
}

/// The remainder of `s` after the prefix `p`, when `s` starts with it.
pub open spec fn strip_prefix(s: Seq<char>, p: Seq<char>) -> Option<Seq<char>> {
    if p.is_prefix_of(s) {
        Some(s.skip(p.len() as int))
    } else {
        None
    }
}

/// The opener of the record and of its first field.
pub open spec fn lit_head() -> Seq<char> {
    "{\"api_key\":\""@
}

/// The separator before the caption-language field.
pub open spec fn lit_lang() -> Seq<char> {
    ",\"sub_lang\":\""@
}

/// The separator before the prompt field.
pub open spec fn lit_prompt() -> Seq<char> {
    ",\"custom_prompt\":\""@
}

/// The separator before the fallback-flag field.
pub open spec fn lit_whisper() -> Seq<char> {
    ",\"allow_whisper\":\""@
}

/// The encoded configuration record.
pub open spec fn spec_encode(k: Seq<char>, l: Seq<char>, p: Seq<char>, w: Seq<char>) -> Seq<
    char,
> {
    lit_head() + esc(k) + seq!['"'] + lit_lang() + esc(l) + seq!['"'] + lit_prompt() + esc(p)
        + seq!['"'] + lit_whisper() + esc(w) + seq!['"', '}']
}

/// The decoded configuration record: the four fields, or nothing when
/// the text is not an encoded record.
pub open spec fn spec_decode(s: Seq<char>) -> Option<(Seq<char>, Seq<char>, Seq<char>, Seq<char>)> {
    match strip_prefix(s, lit_head()) {
        None => None,
        Some(s1) => match parse_str(s1) {
            None => None,
            Some(kr) => match strip_prefix(kr.1, lit_lang()) {
                None => None,
                Some(s2) => match parse_str(s2) {
                    None => None,
                    Some(lr) => match strip_prefix(lr.1, lit_prompt()) {
                        None => None,
                        Some(s3) => match parse_str(s3) {
                            None => None,
                            Some(pr) => match strip_prefix(pr.1, lit_whisper()) {
                                None => None,
                                Some(s4) => match parse_str(s4) {
                                    None => None,
                                    Some(wr) => if wr.1 == seq!['}'] {
                                        Some((kr.0, lr.0, pr.0, wr.0))
                                    } else {
                                        None
                                    },
                                },
                            },
                        },
                    },
                },
            },
        },
    }
}

/// Stripping a prefix off its own concatenation leaves the rest.
proof fn lemma_strip_prefix_concat(p: Seq<char>, rest: Seq<char>)
    ensures
        strip_prefix(p + rest, p) == Some(rest),
{
    assert((p + rest).subrange(0, p.len() as int) =~= p);
    assert(p.is_prefix_of(p + rest));
    assert((p + rest).skip(p.len() as int) =~= rest);
}

/// Parsing an escaped string followed by its closing quote recovers the
/// string and leaves the suffix.
proof fn lemma_parse_esc(x: Seq<char>, suffix: Seq<char>)
    ensures
        parse_str(esc(x) + seq!['"'] + suffix) == Some((x, suffix)),
    decreases x.len(),
{
    let s = esc(x) + seq!['"'] + suffix;
    if x.len() == 0 {
        assert(s =~= seq!['"'] + suffix);
        assert(s[0] == '"');
        assert(s.skip(1) =~= suffix);
        assert(x =~= Seq::<char>::empty());
    } else {
        let c = x[0];
        lemma_parse_esc(x.skip(1), suffix);
        if c == '"' || c == '\\' || c == '\n' || c == '\r' || c == '\t' {
            let e = esc_char(c)[1];
            assert(s[0] == '\\');
            assert(s[1] == e);
            assert(unesc_char(e) == Some(c));
            assert(s.skip(2) =~= esc(x.skip(1)) + seq!['"'] + suffix);
            assert(seq![c] + x.skip(1) =~= x);
        } else {
            assert(s[0] == c);
            assert(s[0] != '"' && s[0] != '\\');
            assert(s.skip(1) =~= esc(x.skip(1)) + seq!['"'] + suffix);
            assert(seq![c] + x.skip(1) =~= x);
        }
    }
}

/// Writing a configuration record and reading it back yields the same
/// four fields.
pub proof fn lemma_config_round_trip(k: Seq<char>, l: Seq<char>, p: Seq<char>, w: Seq<char>)
    ensures
        spec_decode(spec_encode(k, l, p, w)) == Some((k, l, p, w)),
{
    let rest_k = lit_lang() + esc(l) + seq!['"'] + lit_prompt() + esc(p) + seq!['"']
        + lit_whisper() + esc(w) + seq!['"', '}'];
    let rest_l = lit_prompt() + esc(p) + seq!['"'] + lit_whisper() + esc(w) + seq!['"', '}'];
    let rest_p = lit_whisper() + esc(w) + seq!['"', '}'];
    let rest_w = seq!['}'];
    let enc = spec_encode(k, l, p, w);
    assert(enc =~= lit_head() + (esc(k) + seq!['"'] + (lit_lang() + (esc(l) + seq!['"'] + (
    lit_prompt() + (esc(p) + seq!['"'] + (lit_whisper() + (esc(w) + seq!['"'] + rest_w))))))));
    lemma_strip_prefix_concat(
        lit_head(),
        esc(k) + seq!['"'] + (lit_lang() + (esc(l) + seq!['"'] + (lit_prompt() + (esc(p)
            + seq!['"'] + (lit_whisper() + (esc(w) + seq!['"'] + rest_w)))))),
    );
    lemma_parse_esc(
        k,
        lit_lang() + (esc(l) + seq!['"'] + (lit_prompt() + (esc(p) + seq!['"'] + (lit_whisper()
            + (esc(w) + seq!['"'] + rest_w))))),
    );
    lemma_strip_prefix_concat(
        lit_lang(),
        esc(l) + seq!['"'] + (lit_prompt() + (esc(p) + seq!['"'] + (lit_whisper() + (esc(w)
            + seq!['"'] + rest_w)))),
    );
    lemma_parse_esc(
        l,
        lit_prompt() + (esc(p) + seq!['"'] + (lit_whisper() + (esc(w) + seq!['"'] + rest_w))),
    );
    lemma_strip_prefix_concat(
        lit_prompt(),
        esc(p) + seq!['"'] + (lit_whisper() + (esc(w) + seq!['"'] + rest_w)),
    );
    lemma_parse_esc(p, lit_whisper() + (esc(w) + seq!['"'] + rest_w));
    lemma_strip_prefix_concat(lit_whisper(), esc(w) + seq!['"'] + rest_w);
    lemma_parse_esc(w, rest_w);
}

/// Escaping one more character extends the escaped form.
proof fn lemma_esc_snoc(x: Seq<char>, c: char)
    ensures
        esc(x.push(c)) == esc(x) + esc_char(c),
    decreases x.len(),
{
    if x.len() == 0 {
        assert(x.push(c)[0] == c);
        assert(x.push(c).skip(1) =~= x);
        assert(esc(x.push(c)) =~= esc(x) + esc_char(c));
    } else {
        assert(x.push(c)[0] == x[0]);
        assert(x.push(c).skip(1) =~= x.skip(1).push(c));
        lemma_esc_snoc(x.skip(1), c);
        assert(esc_char(x[0]) + (esc(x.skip(1)) + esc_char(c)) =~= (esc_char(x[0]) + esc(
            x.skip(1),
        )) + esc_char(c));
    }
}

/// Appends the escaped form of `f` to `out`.
fn append_escaped(out: &mut String, f: &str)
    ensures
        final(out)@ == old(out)@ + esc(f@),
{
    let v = to_chars(f);
    let mut j: usize = 0;
    proof {
        assert(v@.take(0) =~= Seq::<char>::empty());
        assert(old(out)@ + esc(v@.take(0)) =~= old(out)@);
    }
    while j < v.len()
        invariant
            j <= v@.len(),
            v@ == f@,
            out@ == old(out)@ + esc(v@.take(j as int)),
        decreases v@.len() - j,
    {
        let c = v[j];
        let ghost out0 = out@;
        if c == '"' {
            out.push('\\');
            out.push('"');
        } else if c == '\\' {
            out.push('\\');
            out.push('\\');
        } else if c == '\n' {
            out.push('\\');
            out.push('n');
        } else if c == '\r' {
            out.push('\\');
            out.push('r');
        } else if c == '\t' {
            out.push('\\');
            out.push('t');
        } else {
            out.push(c);
        }
        proof {
            assert(out@ =~= out0 + esc_char(c));
            lemma_esc_snoc(v@.take(j as int), c);
            assert(v@.take(j + 1) =~= v@.take(j as int).push(c));
            assert(out0 + esc_char(c) =~= old(out)@ + esc(v@.take(j + 1)));
        }
        j = j + 1;
    }
    proof {
        assert(v@.take(v@.len() as int) =~= v@);
    }
}

/// The configuration record, encoded for its file.
pub fn encode_config(c: &Config) -> (r: String)
    ensures
        r@ == spec_encode(c.api_key@, c.sub_lang@, c.custom_prompt@, c.allow_whisper@),
{
    let mut out = String::new();
    out.append("{\"api_key\":\"");
    append_escaped(&mut out, c.api_key.as_str());
    out.push('"');
    out.append(",\"sub_lang\":\"");
    append_escaped(&mut out, c.sub_lang.as_str());
    out.push('"');
    out.append(",\"custom_prompt\":\"");
    append_escaped(&mut out, c.custom_prompt.as_str());
    out.push('"');
    out.append(",\"allow_whisper\":\"");
    append_escaped(&mut out, c.allow_whisper.as_str());
    out.push('"');
    out.push('}');
    proof {
        assert(out@ =~= spec_encode(
            c.api_key@,
            c.sub_lang@,
            c.custom_prompt@,
            c.allow_whisper@,
        ));
    }
    out
}

/// The position after `lit` when it stands in `v` at `pos`.
fn expect_lit(v: &Vec<char>, pos: usize, lit: &Vec<char>) -> (r: Option<usize>)
    requires
        pos <= v@.len(),
    ensures
        match r {
            Some(np) => np == pos + lit@.len() && np <= v@.len() && strip_prefix(
                v@.skip(pos as int),
                lit@,
            ) == Some(v@.skip(np as int)),
            None => strip_prefix(v@.skip(pos as int), lit@) is None,
        },
{
    proof {
        lemma_match_at_shift(v@, lit@, pos as int);
    }
    if lit.len() <= v.len() - pos && check_match_at(v, lit, pos) {
        proof {
            let t = v@.skip(pos as int);
            assert(match_at(t, lit@, 0));
            assert(t.subrange(0, lit@.len() as int) == lit@);
            assert(lit@.is_prefix_of(t));
            assert(t.skip(lit@.len() as int) =~= v@.skip(pos + lit@.len()));
        }
        Some(pos + lit.len())
    } else {
        proof {
            let t = v@.skip(pos as int);
            assert(!match_at(t, lit@, 0));
            if lit@.is_prefix_of(t) {
                assert(t.subrange(0, lit@.len() as int) == lit@);
                assert(match_at(t, lit@, 0));
            }
        }
        None
    }
}

/// Parses a quoted string body in `v` from `start`: the decoded content
/// and the position after the closing quote.
fn parse_str_at(v: &Vec<char>, start: usize) -> (r: Option<(Vec<char>, usize)>)
    requires
        start <= v@.len(),
    ensures
        match r {
            Some(pr) => start <= pr.1 <= v@.len() && parse_str(v@.skip(start as int)) == Some(
                (pr.0@, v@.skip(pr.1 as int)),
            ),
            None => parse_str(v@.skip(start as int)) is None,
        },
{
    let mut acc: Vec<char> = Vec::new();
    let mut i = start;
    while i < v.len()
        invariant
            start <= i <= v@.len(),
            (parse_str(v@.skip(i as int)) is Some ==> parse_str(v@.skip(start as int)) == Some(
                (
                    acc@ + parse_str(v@.skip(i as int))->Some_0.0,
                    parse_str(v@.skip(i as int))->Some_0.1,
                ),
            )),
            (parse_str(v@.skip(i as int)) is None ==> parse_str(v@.skip(start as int)) is None),
        decreases v@.len() - i,
    {
        let c = v[i];
        proof {
            assert(v@.skip(i as int)[0] == v@[i as int]);
            assert(v@.skip(i as int).skip(1) =~= v@.skip(i + 1));
        }
        if c == '"' {
            proof {
                assert(parse_str(v@.skip(i as int)) == Some(
                    (Seq::<char>::empty(), v@.skip(i + 1)),
                ));
                assert(acc@ + Seq::<char>::empty() =~= acc@);
            }
            return Some((acc, i + 1));
        } else if c == '\\' {
            if v.len() - i < 2 {
                proof {
                    assert(v@.skip(i as int).len() < 2);
                    assert(parse_str(v@.skip(i as int)) is None);
                }
                return None;
            }
            let e = v[i + 1];
            proof {
                assert(v@.skip(i as int)[1] == v@[i + 1]);
                assert(v@.skip(i as int).skip(2) =~= v@.skip(i + 2));
            }
            let d: char;
            if e == '"' {
                d = '"';
            } else if e == '\\' {
                d = '\\';
            } else if e == 'n' {
                d = '\n';
            } else if e == 'r' {
                d = '\r';
            } else if e == 't' {
                d = '\t';
            } else {
                proof {
                    assert(unesc_char(e) is None);
                    assert(parse_str(v@.skip(i as int)) is None);
                }
                return None;
            }
            let ghost acc0 = acc@;
            acc.push(d);
            proof {
                assert(unesc_char(e) == Some(d));
                if parse_str(v@.skip(i + 2)) is Some {
                    let pr = parse_str(v@.skip(i + 2))->Some_0;
                    assert(parse_str(v@.skip(i as int)) == Some((seq![d] + pr.0, pr.1)));
                    assert(acc0 + (seq![d] + pr.0) =~= acc@ + pr.0);
                }
            }
            i = i + 2;
        } else {
            let ghost acc0 = acc@;
            acc.push(c);
            proof {
                if parse_str(v@.skip(i + 1)) is Some {
                    let pr = parse_str(v@.skip(i + 1))->Some_0;
                    assert(parse_str(v@.skip(i as int)) == Some((seq![c] + pr.0, pr.1)));
                    assert(acc0 + (seq![c] + pr.0) =~= acc@ + pr.0);
                }
            }
            i = i + 1;
        }
    }
    proof {
        assert(v@.skip(i as int).len() == 0);
        assert(parse_str(v@.skip(i as int)) is None);
    }
    None
}

/// The configuration read back from its encoded record, or nothing when
/// the text is not one.
pub fn decode_config(s: &str) -> (r: Option<Config>)
    ensures
        match r {
            Some(c) => spec_decode(s@) == Some(
                (c.api_key@, c.sub_lang@, c.custom_prompt@, c.allow_whisper@),
            ),
            None => spec_decode(s@) is None,
        },
{
    let v = to_chars(s);
    let head = to_chars("{\"api_key\":\"");
    let sep_lang = to_chars(",\"sub_lang\":\"");
    let sep_prompt = to_chars(",\"custom_prompt\":\"");
    let sep_whisper = to_chars(",\"allow_whisper\":\"");
    proof {
        assert(v@.skip(0) =~= v@);
    }
    let p1 = match expect_lit(&v, 0, &head) {
        Some(p) => p,
        None => {
            return None;
        },
    };
    let (key, p2) = match parse_str_at(&v, p1) {
        Some(pr) => pr,
        None => {
            return None;
        },
    };
    let p3 = match expect_lit(&v, p2, &sep_lang) {
        Some(p) => p,
        None => {
            return None;
        },
    };
    let (lang, p4) = match parse_str_at(&v, p3) {
        Some(pr) => pr,
        None => {
            return None;
        },
    };
    let p5 = match expect_lit(&v, p4, &sep_prompt) {
        Some(p) => p,
        None => {
            return None;
        },
    };
    let (prompt, p6) = match parse_str_at(&v, p5) {
        Some(pr) => pr,
        None => {
            return None;
        },
    };
    let p7 = match expect_lit(&v, p6, &sep_whisper) {
        Some(p) => p,
        None => {
            return None;
        },
    };
    let (whisper, p8) = match parse_str_at(&v, p7) {
        Some(pr) => pr,
        None => {
            return None;
        },
    };
    if p8 < v.len() && v.len() - p8 == 1 && v[p8] == '}' {
        proof {
            assert(v@.skip(p8 as int) =~= seq!['}']);
        }
        Some(
            Config {
                api_key: chars_to_string(&key),
                sub_lang: chars_to_string(&lang),
                custom_prompt: chars_to_string(&prompt),
                allow_whisper: chars_to_string(&whisper),
            },
        )
    } else {
        proof {
            let tail = v@.skip(p8 as int);
            if tail == seq!['}'] {
                assert(tail.len() == 1);
                assert(v@[p8 as int] == tail[0]);
            }
        }
        None
    }
}

} // verus!
