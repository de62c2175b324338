use caser::{capitalize, Case};

const ALL: [Case; 7] = [
    Case::Snake,
    Case::ScreamingSnake,
    Case::Kebab,
    Case::Path,
    Case::Dot,
    Case::Camel,
    Case::Pascal,
];

fn words(ws: &[&str]) -> Vec<String> {
    ws.iter().map(|w| w.to_string()).collect()
}

#[test]
fn scenario_snake() {
    assert_eq!(Case::guess("snake_case"), Case::Snake);
    assert_eq!(Case::Snake.tokenize("snake_case"), vec!["snake", "case"]);
    assert_eq!(Case::Snake.join(words(&["snake", "case"])), "snake_case");
}

#[test]
fn scenario_screaming_snake() {
    assert_eq!(Case::guess("SCREAMING_SNAKE_CASE"), Case::ScreamingSnake);
    assert_eq!(
        Case::ScreamingSnake.tokenize("SCREAMING_SNAKE_CASE"),
        vec!["screaming", "snake", "case"]
    );
    assert_eq!(
        Case::ScreamingSnake.join(words(&["screaming", "snake", "case"])),
        "SCREAMING_SNAKE_CASE"
    );
}

#[test]
fn scenario_kebab() {
    assert_eq!(Case::guess("kebab-case"), Case::Kebab);
    assert_eq!(Case::Kebab.join(words(&["kebab", "case"])), "kebab-case");
}

#[test]
fn scenario_camel_to_pascal() {
    assert_eq!(Case::guess("camelCase"), Case::Camel);
    assert_eq!(Case::Camel.tokenize("camelCase"), vec!["camel", "case"]);
    assert_eq!(Case::Pascal.join(words(&["camel", "case"])), "CamelCase");
}

#[test]
fn scenario_join_empty_boundary() {
    assert_eq!(Case::Camel.join(Vec::new()), "");
    assert_eq!(Case::Pascal.join(Vec::new()), "");
}

#[test]
fn scenario_acronym_splits_per_letter() {
    assert_eq!(Case::Pascal.tokenize("ABCWord"), vec!["a", "b", "c", "word"]);
}

#[test]
fn join_empty_every_case() {
    for case in ALL.iter() {
        assert_eq!(case.join(Vec::new()), "");
    }
}

#[test]
fn round_trip_every_case() {
    let ts = words(&["alpha", "beta2", "gamma"]);
    for case in ALL.iter() {
        let joined = case.join(ts.clone());
        assert_eq!(case.tokenize(&joined), ts);
    }
}

#[test]
fn round_trip_camel_first_word_may_start_with_digit() {
    let ts = words(&["1st", "place"]);
    assert_eq!(Case::Camel.join(ts.clone()), "1stPlace");
    assert_eq!(Case::Camel.tokenize("1stPlace"), ts);
}

#[test]
fn round_trip_fails_on_empty_list_for_separators() {
    let joined = Case::Snake.join(Vec::new());
    assert_eq!(Case::Snake.tokenize(&joined), vec![""]);
}

#[test]
fn idempotent_on_canonical_strings() {
    let cases = [
        (Case::Snake, "snake_case_2"),
        (Case::ScreamingSnake, "SCREAMING_SNAKE_2"),
        (Case::Kebab, "kebab-case"),
        (Case::Path, "path/to/case"),
        (Case::Dot, "dot.case"),
        (Case::Camel, "camelCaseX"),
        (Case::Pascal, "ABCWord"),
        (Case::Camel, ""),
    ];
    for (case, s) in cases.iter() {
        assert_eq!(case.join(case.tokenize(s)), *s);
    }
}

#[test]
fn guess_priority_order() {
    assert_eq!(Case::guess(""), Case::ScreamingSnake);
    assert_eq!(Case::guess("X"), Case::ScreamingSnake);
    assert_eq!(Case::guess("123"), Case::ScreamingSnake);
    assert_eq!(Case::guess("A-B"), Case::ScreamingSnake);
    assert_eq!(Case::guess("Mixed_Case"), Case::ScreamingSnake);
    assert_eq!(Case::guess("snake_case1"), Case::ScreamingSnake);
    assert_eq!(Case::guess("a_b_c"), Case::Snake);
    assert_eq!(Case::guess("a_b-c"), Case::ScreamingSnake);
    assert_eq!(Case::guess("a-B"), Case::Kebab);
    assert_eq!(Case::guess("a-b/c"), Case::Kebab);
    assert_eq!(Case::guess("a/b.c"), Case::Path);
    assert_eq!(Case::guess("a.b"), Case::Dot);
    assert_eq!(Case::guess("Xy"), Case::Pascal);
    assert_eq!(Case::guess("x"), Case::Camel);
    assert_eq!(Case::guess("1a"), Case::Camel);
}

#[test]
fn guess_unicode_letters() {
    assert_eq!(Case::guess("ÉCOLE"), Case::ScreamingSnake);
    assert_eq!(Case::guess("école_été"), Case::Snake);
    assert_eq!(Case::guess("École"), Case::Pascal);
    assert_eq!(Case::guess("éCole"), Case::Camel);
}

#[test]
fn tokenize_degenerate_inputs() {
    assert_eq!(Case::Snake.tokenize(""), vec![""]);
    assert_eq!(Case::Dot.tokenize("nodots"), vec!["nodots"]);
    assert_eq!(Case::Kebab.tokenize("a--b"), vec!["a", "", "b"]);
    assert_eq!(Case::Path.tokenize("/a/"), vec!["", "a", ""]);
    assert!(Case::Camel.tokenize("").is_empty());
    assert_eq!(Case::Camel.tokenize("aBC"), vec!["a", "b", "c"]);
    assert_eq!(Case::Camel.tokenize("Word"), vec!["word"]);
    assert_eq!(Case::Pascal.tokenize("x"), vec!["x"]);
}

#[test]
fn tokenize_lowercases_unicode() {
    assert_eq!(Case::Snake.tokenize("ÀB_Ç"), vec!["àb", "ç"]);
    assert_eq!(Case::Pascal.tokenize("ÉcoleÉté"), vec!["école", "été"]);
}

#[test]
fn join_case_transforms() {
    assert_eq!(Case::Snake.join(words(&["A", "bC"])), "a_bc");
    assert_eq!(Case::ScreamingSnake.join(words(&["straße", "x"])), "STRASSE_X");
    assert_eq!(Case::Path.join(words(&["Usr", "BIN"])), "usr/bin");
    assert_eq!(Case::Dot.join(words(&["one"])), "one");
    assert_eq!(Case::Camel.join(words(&["HELLO", "wORLD", ""])), "helloWorld");
    assert_eq!(Case::Pascal.join(words(&["éCOLE", "x"])), "ÉcoleX");
}

#[test]
fn capitalize_edges() {
    assert_eq!(capitalize(""), "");
    assert_eq!(capitalize("a"), "A");
    assert_eq!(capitalize("ß"), "SS");
    assert_eq!(capitalize("1ABC"), "1abc");
}
