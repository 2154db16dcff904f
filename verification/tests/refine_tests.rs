use gptube::summarize::{combine_prompt, extract_summary, Refiner};

#[test]
fn one_refinement_then_stop() {
    let mut r = Refiner::new(String::from("first summary"));
    assert_eq!(r.refinements, 0);
    assert!(r.on_decision("y"));
    let prompt = r.refine_prompt("new prompt");
    assert_eq!(prompt, "new prompt first summary");
    r.on_refined(String::from("refined summary"));
    assert_eq!(r.refinements, 1);
    assert!(!r.on_decision("n"));
    assert!(!r.awaiting);
    assert_eq!(r.summary, "refined summary");
    assert_eq!(r.refinements, 1);
}

#[test]
fn immediate_decline_leaves_summary_unchanged() {
    let mut r = Refiner::new(String::from("original"));
    assert!(!r.on_decision("n"));
    assert_eq!(r.summary, "original");
    assert_eq!(r.refinements, 0);
    assert!(!r.awaiting);
}

#[test]
fn decision_lines_are_trimmed() {
    let mut r = Refiner::new(String::from("s"));
    assert!(r.on_decision("  y \n"));
    let mut r2 = Refiner::new(String::from("s"));
    assert!(!r2.on_decision("yes"));
    let mut r3 = Refiner::new(String::from("s"));
    assert!(!r3.on_decision(""));
}

#[test]
fn refine_prompt_trims_only_the_new_prompt() {
    let r = Refiner::new(String::from("kept  as-is "));
    let p = r.refine_prompt(" shorten it \n");
    assert_eq!(p, "shorten it kept  as-is ");
}

#[test]
fn combined_request_text() {
    let t = combine_prompt("Summarize this video", "caption text");
    assert_eq!(t, "Summarize this video:caption text");
}

#[test]
fn missing_answer_falls_back_to_placeholder() {
    assert_eq!(extract_summary(None), "Failed to create transcript");
    assert_eq!(
        extract_summary(Some(String::from("a real answer"))),
        "a real answer"
    );
}
