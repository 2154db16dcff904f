//! Batch orchestration over a URL list: splitting the list into one
//! entry per unit of work, the deterministic result file name, and the
//! labeled result text written to it.

use vstd::prelude::*;
use vstd::string::StringExecFns;
use crate::text::{chars_to_string, spec_split, split_by, to_chars, lemma_deep_view_chars};

verus! {

/// The comma-separated URL entries of a list file's content: every
/// entry appears once, in its original position.
pub fn split_urls(list: &str) -> (r: Vec<String>)
    ensures
        r.deep_view() == spec_split(list@, seq![',']),
{
    let cs = to_chars(list);
    let sep: Vec<char> = vec![','];
    proof {
        assert(sep@ =~= seq![',']);
    }
    let parts = split_by(&cs, &sep);
    proof {
        lemma_deep_view_chars(parts);
    }
    let mut out: Vec<String> = Vec::new();
    let mut i: usize = 0;
    while i < parts.len()
        invariant
            i <= parts@.len(),
            parts.deep_view() == spec_split(list@, seq![',']),
            parts.deep_view().len() == parts@.len(),
            forall|k: int| 0 <= k < parts@.len() ==> parts.deep_view()[k] == parts@[k]@,
            out@.len() == i,
            forall|k: int| 0 <= k < i ==> out@[k]@ == parts.deep_view()[k],
        decreases parts@.len() - i,
    {
        let entry = chars_to_string(&parts[i]);
        out.push(entry);
        i = i + 1;
    }
    proof {
        assert forall|k: int| 0 <= k < out@.len() implies out.deep_view()[k] == out@[k]@ by {
            assert(out@[k].deep_view() =~= out@[k]@);
        };
        assert(out.deep_view() =~= spec_split(list@, seq![',']));
    }
    out
}

/// The deterministic result file name for a processed video.
pub fn result_file_name(title: &str, id: &str, lang: &str) -> (r: String)
    ensures
        r@ == "Result-"@ + title@ + "."@ + id@ + "."@ + lang@ + ".summary"@,
{
    let mut r = String::new();
    r.append("Result-");
    r.append(title);
    r.append(".");
    r.append(id);
    r.append(".");
    r.append(lang);
    r.append(".summary");
    proof {
        assert(r@ =~= "Result-"@ + title@ + "."@ + id@ + "."@ + lang@ + ".summary"@);
    }
    r
}

/// The labeled result text: the title line, the summary, and a final
/// blank line in list mode.
pub fn format_summary(title: &str, summary: &str, list_mode: bool) -> (r: String)
    ensures
        list_mode ==> r@ == "Result for "@ + title@ + ":\n"@ + summary@ + "\n\n"@,
        !list_mode ==> r@ == "Result for "@ + title@ + ":\n"@ + summary@ + "\n"@,
{
    let mut r = String::new();
    r.append("Result for ");
    r.append(title);
    r.append(":\n");
    r.append(summary);
    if list_mode {
        r.append("\n\n");
        proof {
            assert(r@ =~= "Result for "@ + title@ + ":\n"@ + summary@ + "\n\n"@);
        }
    } else {
        r.append("\n");
        proof {
            assert(r@ =~= "Result for "@ + title@ + ":\n"@ + summary@ + "\n"@);
        }
    }
    r
}

} // verus!
