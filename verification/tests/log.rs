//! The log.
use textfold::log::{path, say, started, trim, KEEP, KEEP_UNDER};

#[test]
fn a_log_that_has_grown_too_big_keeps_its_end() {
    // The end is the part anybody reads. What has to be true after a trim is
    // that the file still starts with a whole line.
    let line = "14:03:22 [textfold] a line of the log\n";
    let mut text = String::new();
    while text.len() as u64 <= KEEP_UNDER + KEEP as u64 {
        text.push_str(line);
    }
    let was = text.len();
    let from = trim(&text.clone().into_bytes()).expect("too big to keep whole");
    let now = &text[from..];
    assert!(now.len() < was, "nothing was dropped");
    assert!(now.len() <= KEEP, "more than the end was kept");
    assert!(now.starts_with(line), "it starts halfway through a line");
    assert!(now.ends_with(line), "the end is what was kept");

    // And a file that is not too big is left exactly as it is.
    assert_eq!(trim(&"14:03:22 [textfold] short\n".to_string().into_bytes()), None);
}

#[test]
fn what_is_said_is_said_a_line_at_a_time() {
    assert_eq!(
        say("14:03:22", "git", "one\ntwo\n"),
        vec!["14:03:22 [git] one".to_string(), "14:03:22 [git] two".to_string()]
    );
    assert_eq!(say("14:03:22", "git", ""), Vec::<String>::new());
}

#[test]
fn the_log_is_kept_with_what_a_program_remembers() {
    let state = Some("/home/me/.local/state".to_string());
    let cache = Some("/home/me/.cache".to_string());
    assert_eq!(
        path(&state, &cache).as_deref(),
        Some("/home/me/.local/state/textfold/textfold.log")
    );
    assert_eq!(path(&None, &cache).as_deref(), Some("/home/me/.cache/textfold/textfold.log"));
    assert_eq!(path(&None, &None), None);
    assert_eq!(
        started("1.2.3", "2024-05-06", "/work"),
        "---- textfold 1.2.3 started 2024-05-06 in /work ----"
    );
}
