//! Parsing of the caption downloader's announced output: the line that
//! names the destination file, the title and identifier encoded in that
//! name, and the notice that no subtitles exist for the chosen language.

use vstd::prelude::*;
use crate::text::{
    chars_to_string, clone_chars, contains_seq, has_sub, lemma_deep_view_chars, spec_lines,
    spec_split, split_by, split_lines, to_chars,
};

verus! {

/// The token that marks the line announcing the output file.
pub open spec fn dest_marker() -> Seq<char> {
    "Destination:"@
}

/// The separator behind which the announced file name stands.
pub open spec fn dest_sep() -> Seq<char> {
    "Destination: "@
}

/// The separator between title, identifier and extension in the
/// announced file name.
pub open spec fn field_sep() -> Seq<char> {
    ":::::"@
}

/// The notice that the requested language has no subtitles.
pub open spec fn nosubs_marker() -> Seq<char> {
    "There's no subtitles"@
}

/// The first line of `ls` in which `pat` occurs, if any.
pub open spec fn spec_first_line_with(ls: Seq<Seq<char>>, pat: Seq<char>) -> Option<Seq<char>>
    decreases ls.len(),
{
    if ls.len() <= 0 {
        None
    } else if contains_seq(ls[0], pat) {
        Some(ls[0])
    } else {
        spec_first_line_with(ls.skip(1), pat)
    }
}

/// What the downloader's output announces: the destination file name,
/// the title and identifier split out of it, and whether the output
/// carries the no-subtitles notice. Nothing, when no destination line
/// stands in the output or the name lacks its parts.
pub open spec fn spec_report(s: Seq<char>) -> Option<(Seq<char>, Seq<char>, Seq<char>, bool)> {
    match spec_first_line_with(spec_lines(s), dest_marker()) {
        None => None,
        Some(line) => {
            let parts = spec_split(line, dest_sep());
            if parts.len() < 2 {
                None
            } else {
                let fields = spec_split(parts[1], field_sep());
                if fields.len() < 2 {
                    None
                } else {
                    Some((parts[1], fields[0], fields[1], contains_seq(s, nosubs_marker())))
                }
            }
        },
    }
}

/// What the downloader announced about one video.
pub struct DownloadReport {
    pub file_name: String,
    pub title: String,
    pub video_id: String,
    pub no_subtitles: bool,
}

/// The first line of `lines` in which `pat` occurs.
fn first_line_with(lines: &Vec<Vec<char>>, pat: &Vec<char>) -> (r: Option<Vec<char>>)
    ensures
        match r {
            Some(l) => spec_first_line_with(lines.deep_view(), pat@) == Some(l@),
            None => spec_first_line_with(lines.deep_view(), pat@) is None,
        },
{
    let ghost ls = lines.deep_view();
    proof {
        lemma_deep_view_chars(*lines);
        assert(ls.skip(0) =~= ls);
    }
    let mut i: usize = 0;
    while i < lines.len()
        invariant
            i <= ls.len(),
            ls == lines.deep_view(),
            ls.len() == lines@.len(),
            forall|k: int| 0 <= k < ls.len() ==> ls[k] == lines@[k]@,
            spec_first_line_with(ls, pat@) == spec_first_line_with(ls.skip(i as int), pat@),
        decreases ls.len() - i,
    {
        proof {
            assert(ls.skip(i as int)[0] == ls[i as int]);
            assert(ls.skip(i as int).skip(1) =~= ls.skip(i + 1));
        }
        if has_sub(&lines[i], pat) {
            let r = clone_chars(&lines[i]);
            return Some(r);
        }
        i = i + 1;
    }
    proof {
        assert(ls.skip(ls.len() as int) =~= Seq::<Seq<char>>::empty());
    }
    None
}

/// The destination report parsed out of the downloader's standard
/// output, or nothing when the output does not announce one.
pub fn parse_downloader_output(out: &str) -> (r: Option<DownloadReport>)
    ensures
        match r {
            Some(rep) => spec_report(out@) == Some(
                (rep.file_name@, rep.title@, rep.video_id@, rep.no_subtitles),
            ),
            None => spec_report(out@) is None,
        },
{
    let cs = to_chars(out);
    let lines = split_lines(&cs);
    let marker = to_chars("Destination:");
    let line = match first_line_with(&lines, &marker) {
        Some(l) => l,
        None => {
            return None;
        },
    };
    let sep = to_chars("Destination: ");
    proof {
        reveal_strlit("Destination: ");
    }
    let parts = split_by(&line, &sep);
    proof {
        lemma_deep_view_chars(parts);
    }
    if parts.len() < 2 {
        return None;
    }
    let fname = clone_chars(&parts[1]);
    let fsep = to_chars(":::::");
    proof {
        reveal_strlit(":::::");
    }
    let fields = split_by(&fname, &fsep);
    proof {
        lemma_deep_view_chars(fields);
    }
    if fields.len() < 2 {
        return None;
    }
    let nosubs = to_chars("There's no subtitles");
    let no_subtitles = has_sub(&cs, &nosubs);
    Some(
        DownloadReport {
            file_name: chars_to_string(&fname),
            title: chars_to_string(&fields[0]),
            video_id: chars_to_string(&fields[1]),
            no_subtitles,
        },
    )
}

/// The caption body handed on for extraction: empty when the downloader
/// reported that no subtitles exist, else the downloaded file's content.
pub fn caption_body(no_subtitles: bool, file_content: String) -> (r: String)
    ensures
        no_subtitles ==> r@ == Seq::<char>::empty(),
        !no_subtitles ==> r == file_content,
{
    if no_subtitles {
        let r = String::new();
        r
    } else {
        file_content
    }
}

} // verus!
