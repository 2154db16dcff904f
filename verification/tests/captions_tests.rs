use gptube::captions::extract_captions;

#[test]
fn dedup_extraction_of_doubled_cues() {
    let vtt = "WEBVTT\n\n00:00:00.000 --> 00:00:01.000\nhello world\n00:00:01.000 --> 00:00:02.000\nhello world\n00:00:02.000 --> 00:00:03.000\nsecond line\n00:00:03.000 --> 00:00:04.000\nsecond line\n";
    let out = extract_captions(vtt);
    assert_eq!(out, "hello world\nsecond line\n");
}

#[test]
fn no_timing_markers_gives_empty_output() {
    let content = "WEBVTT\n\njust prose\nwith no timing lines\n";
    let out = extract_captions(content);
    assert_eq!(out, "");
}

#[test]
fn empty_input_gives_empty_output() {
    assert_eq!(extract_captions(""), "");
}

#[test]
fn undoubled_cues_drop_every_other_line() {
    let vtt = "0 --> 1\nfirst\n1 --> 2\nsecond\n2 --> 3\nthird\n";
    let out = extract_captions(vtt);
    assert_eq!(out, "first\nthird\n");
}

#[test]
fn marker_line_without_following_line_yields_nothing() {
    let vtt = "0 --> 1";
    assert_eq!(extract_captions(vtt), "");
}

#[test]
fn crlf_content_is_handled() {
    let vtt = "0 --> 1\r\ncue text\r\n1 --> 2\r\ncue text\r\n";
    assert_eq!(extract_captions(vtt), "cue text\n");
}
