use nomi::naming::{build_prompt, count_words, extract_candidate, NamingAction, NamingRun, MAX_ATTEMPTS};

fn strings(items: &[&str]) -> Vec<String> {
    items.iter().map(|s| s.to_string()).collect()
}

#[test]
fn extracts_clean_identifier() {
    assert_eq!(extract_candidate("ApplyPhotoFilters"), Some("ApplyPhotoFilters".into()));
}

#[test]
fn strips_quotes_and_punctuation() {
    assert_eq!(extract_candidate("\"ApplyPhotoFilters\"."), Some("ApplyPhotoFilters".into()));
}

#[test]
fn extracts_from_noisy_response() {
    let raw = "Here is the identifier: ApplyPhotoFilters - hope this helps!";
    assert_eq!(extract_candidate(raw), Some("ApplyPhotoFilters".into()));
}

#[test]
fn counts_words_correctly() {
    assert_eq!(count_words("ApplyPhotoFilters"), 3);
    assert_eq!(count_words("Apply"), 1);
    assert_eq!(count_words("ApplyPhotoStripFilters"), 4);
}

#[test]
fn extract_reads_only_the_first_line() {
    assert_eq!(extract_candidate("  \n\n  SaveUserProfile\nIgnoredSecondLine"), Some("SaveUserProfile".into()));
    assert_eq!(extract_candidate("LoadData\r\nOther"), Some("LoadData".into()));
}

#[test]
fn extract_of_blank_reply_is_none() {
    assert_eq!(extract_candidate(""), None);
    assert_eq!(extract_candidate("   \n\t  "), None);
}

#[test]
fn extract_without_capitalised_run_is_none() {
    assert_eq!(extract_candidate("a b c"), None);
    assert_eq!(extract_candidate("A b C"), None);
}

#[test]
fn extract_takes_the_last_of_equally_long_runs() {
    assert_eq!(extract_candidate("Use PhotoFilterApply or ApplyPhotoFilters now"), Some("ApplyPhotoFilters".into()));
    assert_eq!(extract_candidate("First line Alpha"), Some("Alpha".into()));
}

#[test]
fn extract_takes_the_longest_run() {
    assert_eq!(extract_candidate("try Save or SaveUserProfileData, ok"), Some("SaveUserProfileData".into()));
}

#[test]
fn extract_strips_non_alphanumeric_ends_only() {
    // digits keep the cleaned text from being a letters-only identifier
    assert_eq!(extract_candidate("**Load2Data**"), Some("Data".into()));
    assert_eq!(extract_candidate("**Loads2Data**"), Some("Loads".into()));
    assert_eq!(extract_candidate("«ApplyFilters»"), Some("ApplyFilters".into()));
}

#[test]
fn extracted_candidates_are_pascal_case() {
    for raw in ["x: SendEmailNow!", "Hello world", "«ApplyFilters»", "Q1 Report"] {
        if let Some(c) = extract_candidate(raw) {
            let mut chars = c.chars();
            assert!(chars.next().unwrap().is_ascii_uppercase());
            assert!(chars.all(|ch| ch.is_ascii_alphabetic()));
        }
    }
}

#[test]
fn count_words_counts_capitals_of_pascal_identifiers() {
    for name in ["ApplyPhotoFilters", "AB", "XMLHttpRequest", "Go"] {
        let capitals = name.chars().filter(|c| c.is_ascii_uppercase()).count();
        assert_eq!(count_words(name), capitals);
    }
}

#[test]
fn count_words_skips_lower_case_and_digits() {
    assert_eq!(count_words("apply photo"), 0);
    assert_eq!(count_words("iPhone12Case"), 2);
    assert_eq!(count_words(""), 0);
}

#[test]
fn prompt_without_previous_names() {
    assert_eq!(build_prompt("photo filters", 3, &[]), "Phrase: photo filters\nWords: 3");
}

#[test]
fn prompt_with_previous_names() {
    let prev = strings(&["ApplyFilters", "PhotoFx"]);
    assert_eq!(
        build_prompt("photo filters", 2, &prev),
        "Phrase: photo filters\nWords: 2\nAvoid (do not repeat): ApplyFilters, PhotoFx"
    );
}

#[test]
fn start_refuses_word_count_out_of_range() {
    for wc in [0u8, 1, 6, 200] {
        match NamingRun::start("photo", wc, &[]) {
            Err(e) => assert_eq!(e, "word_count must be between 2 and 5"),
            Ok(_) => panic!("accepted {wc}"),
        }
    }
}

#[test]
fn start_refuses_blank_phrase() {
    match NamingRun::start("  \t ", 3, &[]) {
        Err(e) => assert_eq!(e, "phrase is empty"),
        Ok(_) => panic!("accepted a blank phrase"),
    }
}

#[test]
fn start_builds_prompt_from_trimmed_phrase() {
    let run = NamingRun::start("  photo filters  ", 5, &strings(&["A"])).ok().unwrap();
    assert_eq!(run.prompt, "Phrase: photo filters\nWords: 5\nAvoid (do not repeat): A");
    assert_eq!(run.attempts, 0);
    assert_eq!(run.previous, strings(&["A"]));
}

#[test]
fn run_accepts_new_name_with_requested_words() {
    let mut run = NamingRun::start("photo filters", 3, &[]).ok().unwrap();
    match run.on_response(Ok("Sure! ApplyPhotoFilters".to_string())) {
        NamingAction::Finish(Ok(name)) => assert_eq!(name, "ApplyPhotoFilters"),
        _ => panic!("not accepted"),
    }
}

#[test]
fn run_asks_again_for_wrong_word_count_or_repeated_name() {
    let mut run = NamingRun::start("photo filters", 2, &strings(&["PhotoFilters"])).ok().unwrap();
    match run.on_response(Ok("ApplyPhotoFilters".to_string())) {
        NamingAction::Ask { attempt } => assert_eq!(attempt, 1),
        _ => panic!("expected another request"),
    }
    match run.on_response(Ok("PhotoFilters".to_string())) {
        NamingAction::Ask { attempt } => assert_eq!(attempt, 2),
        _ => panic!("expected another request"),
    }
    match run.on_response(Ok("FilterPhotos".to_string())) {
        NamingAction::Finish(Ok(name)) => assert_eq!(name, "FilterPhotos"),
        _ => panic!("not accepted"),
    }
}

#[test]
fn run_gives_up_after_max_attempts() {
    let mut run = NamingRun::start("photo filters", 2, &[]).ok().unwrap();
    for i in 1..MAX_ATTEMPTS {
        match run.on_response(Ok("nothing useful".to_string())) {
            NamingAction::Ask { attempt } => assert_eq!(attempt, i),
            _ => panic!("gave up early"),
        }
    }
    match run.on_response(Ok("still nothing".to_string())) {
        NamingAction::Finish(Err(e)) => assert_eq!(
            e,
            "model failed to produce a valid 2-word PascalCase name after 5 attempts. last response: still nothing"
        ),
        _ => panic!("expected failure"),
    }
    assert_eq!(run.last_raw, "still nothing");
}

#[test]
fn run_stops_on_request_error() {
    let mut run = NamingRun::start("photo filters", 2, &[]).ok().unwrap();
    match run.on_response(Ok("nothing".to_string())) {
        NamingAction::Ask { attempt } => assert_eq!(attempt, 1),
        _ => panic!("expected another request"),
    }
    match run.on_response(Err("ollama request failed: refused".to_string())) {
        NamingAction::Finish(Err(e)) => assert_eq!(e, "ollama request failed: refused"),
        _ => panic!("expected the request's error"),
    }
    assert_eq!(run.last_raw, "nothing");
}

#[test]
fn surrounding_space_gives_same_prompt() {
    let a = NamingRun::start("  photo  ", 2, &[]).ok().unwrap();
    let b = NamingRun::start("photo", 2, &[]).ok().unwrap();
    assert_eq!(a.prompt, b.prompt);
}
