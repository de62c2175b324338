use caser::{capitalize, Case};

#[test]
fn capitalize_test() {
    assert_eq!(capitalize("something"), "Something");
    assert_eq!(capitalize("Something"), "Something");
    assert_eq!(capitalize("SomeThing"), "Something");
    assert_eq!(capitalize("someThing"), "Something");
}

enum Test {
    Guess(&'static str),
    Tokenize(&'static str, Vec<&'static str>),
    Join(Vec<&'static str>, &'static str),
}

const ALL: [Case; 7] = [
    Case::Snake,
    Case::ScreamingSnake,
    Case::Kebab,
    Case::Path,
    Case::Dot,
    Case::Camel,
    Case::Pascal,
];

fn tests(case: &Case) -> Vec<Test> {
    match case {
        Case::Snake => vec![
            Test::Guess("snake_case"),
            Test::Tokenize("snake_case", vec!["snake", "case"]),
            Test::Join(vec!["snake", "case"], "snake_case"),
        ],
        Case::ScreamingSnake => vec![
            Test::Guess("SCREAMING"),
            Test::Guess("SCREAMING_SNAKE_CASE"),
            Test::Tokenize("SCREAMING_SNAKE_CASE", vec!["screaming", "snake", "case"]),
            Test::Join(vec!["screaming", "snake", "case"], "SCREAMING_SNAKE_CASE"),
        ],
        Case::Kebab => vec![
            Test::Guess("kebab-case"),
            Test::Tokenize("kebab-case", vec!["kebab", "case"]),
            Test::Join(vec!["kebab", "case"], "kebab-case"),
        ],
        Case::Path => vec![
            Test::Guess("path/case"),
            Test::Tokenize("path/case", vec!["path", "case"]),
            Test::Join(vec!["path", "case"], "path/case"),
        ],
        Case::Dot => vec![
            Test::Guess("dot.case"),
            Test::Tokenize("dot.case", vec!["dot", "case"]),
            Test::Join(vec!["dot", "case"], "dot.case"),
        ],
        Case::Camel => vec![
            Test::Guess("camelCase"),
            Test::Tokenize("camelCase", vec!["camel", "case"]),
            Test::Join(vec!["camel", "case"], "camelCase"),
        ],
        Case::Pascal => vec![
            Test::Guess("PascalCase"),
            Test::Tokenize("PascalCase", vec!["pascal", "case"]),
            Test::Join(vec!["pascal", "case"], "PascalCase"),
        ],
    }
}

#[test]
fn table() {
    for case in ALL.iter() {
        for test in tests(case) {
            match test {
                Test::Guess(guess) => assert_eq!(Case::guess(guess), *case),
                Test::Tokenize(string, tokens) => assert_eq!(case.tokenize(string), tokens),
                Test::Join(tokens, string) => assert_eq!(
                    case.join(tokens.iter().map(|token| token.to_string()).collect()),
                    string
                ),
            }
        }
    }
}
