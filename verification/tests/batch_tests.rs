use gptube::batch::{format_summary, result_file_name, split_urls};

#[test]
fn list_splits_into_three_units() {
    let urls = split_urls("a,b,c");
    assert_eq!(urls, vec!["a", "b", "c"]);
}

#[test]
fn empty_list_is_one_empty_entry() {
    assert_eq!(split_urls(""), vec![""]);
}

#[test]
fn adjacent_commas_keep_empty_entries() {
    assert_eq!(split_urls("a,,b"), vec!["a", "", "b"]);
}

#[test]
fn single_url_is_one_entry() {
    assert_eq!(split_urls("https://example.invalid/v"), vec!["https://example.invalid/v"]);
}

#[test]
fn result_file_name_is_deterministic() {
    let name = result_file_name("T", "ID123", "en");
    assert_eq!(name, "Result-T.ID123.en.summary");
}

#[test]
fn formatted_summary_single_mode() {
    let s = format_summary("T", "body", false);
    assert_eq!(s, "Result for T:\nbody\n");
}

#[test]
fn formatted_summary_list_mode() {
    let s = format_summary("T", "body", true);
    assert_eq!(s, "Result for T:\nbody\n\n");
}
