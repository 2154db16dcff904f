use gptube::captions::extract_captions;
use gptube::downloader::{caption_body, parse_downloader_output};

#[test]
fn destination_line_is_parsed() {
    let out = "[youtube] extracting\n[info] Writing video subtitles to: x\n[download] Destination: My Title:::::abc123:::::.en.vtt\n[download] 100%\n";
    let rep = parse_downloader_output(out).expect("a destination line must parse");
    assert_eq!(rep.file_name, "My Title:::::abc123:::::.en.vtt");
    assert_eq!(rep.title, "My Title");
    assert_eq!(rep.video_id, "abc123");
    assert!(!rep.no_subtitles);
}

#[test]
fn no_subtitles_notice_is_reported() {
    let out = "[download] Destination: T:::::id9:::::.en.vtt\nThere's no subtitles for the requested language\n";
    let rep = parse_downloader_output(out).expect("a destination line must parse");
    assert!(rep.no_subtitles);
    assert_eq!(rep.title, "T");
    assert_eq!(rep.video_id, "id9");
}

#[test]
fn missing_destination_line_gives_nothing() {
    assert!(parse_downloader_output("[youtube] nothing useful\n").is_none());
    assert!(parse_downloader_output("").is_none());
}

#[test]
fn destination_without_name_fields_gives_nothing() {
    assert!(parse_downloader_output("[download] Destination: plainname.vtt\n").is_none());
}

#[test]
fn missing_subtitles_still_summarizes_empty_input() {
    let body = caption_body(true, String::from("ignored leftover content"));
    assert_eq!(body, "");
    assert_eq!(extract_captions(&body), "");
    let kept = caption_body(false, String::from("kept"));
    assert_eq!(kept, "kept");
}
