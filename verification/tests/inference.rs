use nomi::inference::{
    count_words, generate_name, is_valid, leading_words, source_ids, suppressed_indices,
    to_pascal_case, unique_word_count, words, Decoding, SearchStep, MAX_ATTEMPTS,
};

fn strings(items: &[&str]) -> Vec<String> {
    items.iter().map(|s| s.to_string()).collect()
}

#[test]
fn pascal_case_of_phrases() {
    assert_eq!(to_pascal_case("product card"), "ProductCard");
    assert_eq!(to_pascal_case("Product card"), "ProductCard");
    assert_eq!(to_pascal_case("product Card"), "ProductCard");
}

#[test]
fn pascal_case_collapses_white_space() {
    assert_eq!(to_pascal_case("  multiple   spaces\there\n"), "MultipleSpacesHere");
    assert_eq!(to_pascal_case(""), "");
    assert_eq!(to_pascal_case(" \t "), "");
}

#[test]
fn pascal_case_upper_cases_beyond_ascii() {
    assert_eq!(to_pascal_case("élan vital"), "ÉlanVital");
    assert_eq!(to_pascal_case("straße"), "Straße");
    assert_eq!(to_pascal_case("ß x"), "SSX");
}

#[test]
fn pascal_case_keeps_pascal_names() {
    for name in ["ProductCard", "Api2Client", "X"] {
        assert_eq!(to_pascal_case(name), name);
    }
}

#[test]
fn words_and_counts() {
    assert_eq!(words("ProductCard"), strings(&["Product", "Card"]));
    assert_eq!(words("iPhone12Case x"), strings(&["i", "Phone12", "Case", "x"]));
    assert_eq!(count_words("ProductCard"), 2);
    assert_eq!(count_words("product card"), 2);
    assert_eq!(count_words("42 -- !"), 0);
}

#[test]
fn unique_words() {
    assert_eq!(unique_word_count("CardCard"), 1);
    assert_eq!(count_words("CardCard"), 2);
    assert_eq!(unique_word_count("CardListCard"), 2);
    assert_eq!(unique_word_count(""), 0);
}

#[test]
fn unique_never_exceeds_count() {
    for t in ["AaAaBb", "one two one", "XYZ", ""] {
        assert!(unique_word_count(t) <= count_words(t));
    }
}

#[test]
fn pascal_word_count_is_capital_count() {
    for name in ["ProductCard", "Api2Client", "ABC"] {
        let capitals = name.chars().filter(|c| c.is_ascii_uppercase()).count();
        assert_eq!(count_words(name), capitals);
    }
}

#[test]
fn validity() {
    assert!(is_valid("ProductCard", 2));
    assert!(is_valid("Api2Client", 2));
    assert!(!is_valid("ProductCard", 3));
    assert!(!is_valid("ProductProduct", 2));
    assert!(!is_valid("productCard", 2));
    assert!(!is_valid("Product_Card", 2));
    assert!(!is_valid("", 0));
}

/// Runs a search to its end, answering each generation with `engine`;
/// returns the result and the calls made (phrase, word count, attempt).
fn drive(
    phrase: &str,
    word_count: u8,
    previous: &[String],
    engine: impl Fn(usize) -> Result<String, String>,
) -> (Result<String, String>, Vec<(String, u8, usize)>) {
    let mut calls = Vec::new();
    let mut search = match generate_name(phrase, word_count, previous) {
        Ok(s) => s,
        Err(e) => return (Err(e), calls),
    };
    assert_eq!(search.attempts, 0);
    let mut step = SearchStep::Generate { attempt: 0 };
    loop {
        match step {
            SearchStep::Generate { attempt } => {
                assert_eq!(search.previous, previous.to_vec());
                calls.push((search.phrase.clone(), search.word_count, attempt));
                step = search.on_answer(engine(attempt));
            }
            SearchStep::Finish(r) => return (r, calls),
        }
    }
}

#[test]
fn generate_refuses_word_count_out_of_range() {
    for wc in [0u8, 1, 5, 9] {
        let (r, calls) = drive("cards", wc, &[], |_| panic!("model must not run"));
        assert_eq!(r, Err("word_count must be between 2 and 4".to_string()));
        assert!(calls.is_empty());
    }
}

#[test]
fn generate_refuses_blank_phrase() {
    let (r, calls) = drive(" \n ", 2, &[], |_| panic!("model must not run"));
    assert_eq!(r, Err("phrase is empty".to_string()));
    assert!(calls.is_empty());
}

#[test]
fn generate_retries_until_valid() {
    let answers = ["product card", "ProductProduct", "ProductCard", "Unused"];
    let (r, calls) = drive("  карточка товара ", 2, &[], |attempt| Ok(answers[attempt].to_string()));
    assert_eq!(r, Ok("ProductCard".to_string()));
    assert_eq!(calls.len(), 3);
    for (i, (p, wc, attempt)) in calls.iter().enumerate() {
        assert_eq!(p, "карточка товара");
        assert_eq!(*wc, 2);
        assert_eq!(*attempt, i);
    }
}

#[test]
fn generate_skips_previous_names() {
    let prev = strings(&["ProductCard"]);
    let answers = ["ProductCard", "ItemCard"];
    let (r, calls) = drive("card", 2, &prev, |attempt| Ok(answers[attempt].to_string()));
    assert_eq!(r, Ok("ItemCard".to_string()));
    assert_eq!(calls.len(), 2);
}

#[test]
fn generate_falls_back_to_valid_repeat() {
    let prev = strings(&["ProductCard"]);
    let (r, calls) = drive("card", 2, &prev, |_| Ok("ProductCard".to_string()));
    assert_eq!(r, Ok("ProductCard".to_string()));
    assert_eq!(calls.len(), MAX_ATTEMPTS);
}

#[test]
fn generate_fails_with_last_answer() {
    let (r, calls) = drive("card", 3, &[], |attempt| Ok(format!("bad{attempt}")));
    assert_eq!(r, Err("failed to produce valid 3-word name after 5 attempts; last: bad4".to_string()));
    assert_eq!(calls.len(), MAX_ATTEMPTS);
}

#[test]
fn generate_passes_model_errors_on() {
    let (r, calls) = drive("card", 2, &[], |attempt| {
        if attempt == 0 { Ok("nope".to_string()) } else { Err("decode: boom".to_string()) }
    });
    assert_eq!(r, Err("decode: boom".to_string()));
    assert_eq!(calls.len(), 2);
}

#[test]
fn generate_ignores_surrounding_space() {
    let answers = ["x", "ProductCard"];
    let a = drive(" card\t", 2, &[], |attempt| Ok(answers[attempt].to_string()));
    let b = drive("card", 2, &[], |attempt| Ok(answers[attempt].to_string()));
    assert_eq!(a, b);
}

#[test]
fn source_ids_frame_the_phrase() {
    assert_eq!(source_ids(7, &[10, 11, 12], 0), vec![7, 10, 11, 12, 0]);
    assert_eq!(source_ids(7, &[], 0), vec![7, 0]);
}

#[test]
fn suppressed_tokens_in_order() {
    assert_eq!(suppressed_indices(100, 5, 0, 1, 2, &[40, 41], true, &[50]), vec![5, 0, 40, 41, 50]);
    assert_eq!(suppressed_indices(100, 5, 0, 2, 2, &[40], false, &[50]), vec![5, 40]);
    assert_eq!(suppressed_indices(45, 5, 0, 0, 3, &[40, 400], true, &[50, 44]), vec![5, 0, 40, 44]);
}

#[test]
fn leading_words_of_previous_names() {
    let prev = strings(&["ProductCard", "42", "itemList", ""]);
    assert_eq!(leading_words(&prev), strings(&["Product", "item"]));
}

#[test]
fn pascal_case_is_idempotent_on_ascii() {
    for t in ["product card", "  a1 b2\tc3 ", "already PascalCase", "x"] {
        let once = to_pascal_case(t);
        assert_eq!(to_pascal_case(&once), once);
    }
}

#[test]
fn pascal_case_of_ascii_has_no_space_and_keeps_length() {
    for t in ["product card", "  a1 b2\tc3 ", "x  y\nz", ""] {
        let r = to_pascal_case(t);
        assert!(!r.chars().any(|c| c.is_whitespace()));
        assert_eq!(r.len(), t.chars().filter(|c| !c.is_whitespace()).count());
    }
}

#[test]
fn decoding_bookkeeping() {
    let mut d = Decoding::new(58100, 0, 3);
    assert_eq!(d.current_input, vec![58100]);
    assert!(d.continues());
    assert!(!d.on_token(17));
    assert_eq!((d.output_ids.clone(), d.current_input.clone(), d.past_kv_len, d.step), (vec![17], vec![17], 1, 1));
    assert!(!d.on_token(23));
    assert!(d.on_token(0));
    assert_eq!(d.output_ids, vec![17, 23]);
    assert_eq!(d.step, 2);
    assert!(!d.on_token(5));
    assert!(!d.continues());
    assert_eq!(d.output_ids, vec![17, 23, 5]);
}

#[test]
fn space_joins_add_words_and_concatenate_pascal_case() {
    for (a, b) in [("product", "card"), ("ProductCard", "iPhone12"), ("", "x y"), ("a ", " b")] {
        let joined = format!("{a} {b}");
        assert_eq!(count_words(&joined), count_words(a) + count_words(b));
        assert_eq!(to_pascal_case(&joined), to_pascal_case(a) + &to_pascal_case(b));
    }
}
