//! The case engine: guessing a string's convention, splitting it into
//! lowercase words, and joining words in a target convention.
use vstd::prelude::*;

use crate::text::{
    all_ascii, alpha_char, ascii_lower, ascii_upper, char_to_upper, char_upper_of, is_alpha,
    is_ascii_char, is_ascii_lower, is_ascii_upper, is_lower, is_upper, lower_char, lower_of,
    push_char, to_lower, to_upper, upper_char, upper_of,
};

verus! {

/// A lexical case convention.
#[derive(Debug, Clone, Copy, PartialEq, Eq, Structural)]
pub enum Case {
    Snake,
    ScreamingSnake,
    Kebab,
    Path,
    Dot,
    Camel,
    Pascal,
}

/// The word separator of a separator-based convention; `None` for the
/// conventions that mark words by capitalisation.
pub open spec fn separator(v: Case) -> Option<char> {
    match v {
        Case::Snake | Case::ScreamingSnake => Some('_'),
        Case::Kebab => Some('-'),
        Case::Path => Some('/'),
        Case::Dot => Some('.'),
        Case::Camel | Case::Pascal => None,
    }
}

/// The convention that `s` appears to be written in, by the first rule that applies.
pub open spec fn guess_spec(s: Seq<char>) -> Case {
    if forall|i: int| 0 <= i < s.len() && alpha_char(#[trigger] s[i]) ==> upper_char(s[i]) {
        Case::ScreamingSnake
    } else if s.contains('_') {
        if forall|i: int| 0 <= i < s.len() && #[trigger] s[i] != '_' ==> lower_char(s[i]) {
            Case::Snake
        } else {
            Case::ScreamingSnake
        }
    } else if s.contains('-') {
        Case::Kebab
    } else if s.contains('/') {
        Case::Path
    } else if s.contains('.') {
        Case::Dot
    } else if s.len() > 0 && upper_char(s[0]) {
        Case::Pascal
    } else {
        Case::Camel
    }
}

/// `guess_spec` on an ASCII string, where the letters are `a`..`z` and `A`..`Z`.
pub open spec fn guess_ascii(s: Seq<char>) -> Case {
    if forall|i: int| 0 <= i < s.len() ==> !is_ascii_lower(#[trigger] s[i]) {
        Case::ScreamingSnake
    } else if s.contains('_') {
        if forall|i: int| 0 <= i < s.len() && #[trigger] s[i] != '_' ==> is_ascii_lower(s[i]) {
            Case::Snake
        } else {
            Case::ScreamingSnake
        }
    } else if s.contains('-') {
        Case::Kebab
    } else if s.contains('/') {
        Case::Path
    } else if s.contains('.') {
        Case::Dot
    } else if s.len() > 0 && is_ascii_upper(s[0]) {
        Case::Pascal
    } else {
        Case::Camel
    }
}

/// The pieces of `s` between occurrences of `sep`, in order; always at least one.
pub open spec fn split_spec(s: Seq<char>, sep: char) -> Seq<Seq<char>>
    decreases s.len(),
{
    if s.len() == 0 {
        seq![Seq::<char>::empty()]
    } else {
        let prev = split_spec(s.drop_last(), sep);
        if s.last() == sep {
            prev.push(Seq::<char>::empty())
        } else {
            prev.update(prev.len() - 1, prev.last().push(s.last()))
        }
    }
}

/// The words of `s` cut before each character that `up` holds of: such a
/// character opens a new word, any other joins the open word, or opens the
/// first one.
pub open spec fn bounds_by(s: Seq<char>, up: spec_fn(char) -> bool) -> Seq<Seq<char>>
    decreases s.len(),
{
    if s.len() == 0 {
        Seq::<Seq<char>>::empty()
    } else {
        let prev = bounds_by(s.drop_last(), up);
        let c = s.last();
        if up(c) || prev.len() == 0 {
            prev.push(seq![c])
        } else {
            prev.update(prev.len() - 1, prev.last().push(c))
        }
    }
}

/// The words of `s` cut before each uppercase character.
pub open spec fn bounds_spec(s: Seq<char>) -> Seq<Seq<char>> {
    bounds_by(s, |c: char| upper_char(c))
}

/// The words of an ASCII string cut before each of `A`..`Z`.
pub open spec fn bounds_ascii(s: Seq<char>) -> Seq<Seq<char>> {
    bounds_by(s, |c: char| is_ascii_upper(c))
}

/// Each word lowercased.
pub open spec fn lower_all(ts: Seq<Seq<char>>) -> Seq<Seq<char>> {
    ts.map_values(|t: Seq<char>| lower_of(t))
}

/// The words of `s` in convention `v`, lowercased.
pub open spec fn tokenize_spec(v: Case, s: Seq<char>) -> Seq<Seq<char>> {
    match separator(v) {
        Some(sep) => lower_all(split_spec(s, sep)),
        None => lower_all(bounds_spec(s)),
    }
}

/// A string in ASCII lowercase.
pub open spec fn lower_ascii(t: Seq<char>) -> Seq<char> {
    t.map_values(|c: char| ascii_lower(c))
}

/// A string in ASCII uppercase.
pub open spec fn upper_ascii(t: Seq<char>) -> Seq<char> {
    t.map_values(|c: char| ascii_upper(c))
}

/// Each word in ASCII lowercase.
pub open spec fn lower_all_ascii(ts: Seq<Seq<char>>) -> Seq<Seq<char>> {
    ts.map_values(|t: Seq<char>| lower_ascii(t))
}

/// Whether every word is ASCII.
pub open spec fn all_ascii_words(ts: Seq<Seq<char>>) -> bool {
    forall|k: int| 0 <= k < ts.len() ==> all_ascii(#[trigger] ts[k])
}

/// The words of the ASCII string `s` in convention `v`, lowercased.
pub open spec fn tokenize_ascii(v: Case, s: Seq<char>) -> Seq<Seq<char>> {
    match separator(v) {
        Some(sep) => lower_all_ascii(split_spec(s, sep)),
        None => lower_all_ascii(bounds_ascii(s)),
    }
}

/// The words concatenated with `sep` between each two.
pub open spec fn join_sep(ts: Seq<Seq<char>>, sep: char) -> Seq<char>
    decreases ts.len(),
{
    if ts.len() == 0 {
        Seq::<char>::empty()
    } else if ts.len() == 1 {
        ts[0]
    } else {
        join_sep(ts.drop_last(), sep) + seq![sep] + ts.last()
    }
}

/// A word with its first character uppercased and the rest lowercased.
pub open spec fn capitalize_spec(t: Seq<char>) -> Seq<char> {
    if t.len() == 0 {
        Seq::<char>::empty()
    } else {
        char_upper_of(t[0]) + lower_of(t.drop_first())
    }
}

/// The words capitalised and concatenated; with `lower_first`, the first word
/// is lowercased instead of capitalised.
pub open spec fn join_words(ts: Seq<Seq<char>>, lower_first: bool) -> Seq<char>
    decreases ts.len(),
{
    if ts.len() == 0 {
        Seq::<char>::empty()
    } else {
        let t = ts.last();
        let w = if lower_first && ts.len() == 1 {
            lower_of(t)
        } else {
            capitalize_spec(t)
        };
        join_words(ts.drop_last(), lower_first) + w
    }
}

/// The words `ts` written in convention `v`.
pub open spec fn join_spec(v: Case, ts: Seq<Seq<char>>) -> Seq<char> {
    match v {
        Case::ScreamingSnake => upper_of(join_sep(ts, '_')),
        Case::Snake => lower_of(join_sep(ts, '_')),
        Case::Kebab => lower_of(join_sep(ts, '-')),
        Case::Path => lower_of(join_sep(ts, '/')),
        Case::Dot => lower_of(join_sep(ts, '.')),
        Case::Camel => join_words(ts, true),
        Case::Pascal => join_words(ts, false),
    }
}

/// An ASCII word with its first character in uppercase and the rest in lowercase.
pub open spec fn capitalize_ascii(t: Seq<char>) -> Seq<char> {
    if t.len() == 0 {
        Seq::<char>::empty()
    } else {
        seq![ascii_upper(t[0])] + lower_ascii(t.drop_first())
    }
}

/// ASCII words capitalised and concatenated; with `lower_first`, the first
/// word is lowercased instead.
pub open spec fn join_words_ascii(ts: Seq<Seq<char>>, lower_first: bool) -> Seq<char>
    decreases ts.len(),
{
    if ts.len() == 0 {
        Seq::<char>::empty()
    } else {
        let t = ts.last();
        let w = if lower_first && ts.len() == 1 {
            lower_ascii(t)
        } else {
            capitalize_ascii(t)
        };
        join_words_ascii(ts.drop_last(), lower_first) + w
    }
}

/// The ASCII words `ts` written in convention `v`.
pub open spec fn join_ascii(v: Case, ts: Seq<Seq<char>>) -> Seq<char> {
    match v {
        Case::ScreamingSnake => upper_ascii(join_sep(ts, '_')),
        Case::Snake => lower_ascii(join_sep(ts, '_')),
        Case::Kebab => lower_ascii(join_sep(ts, '-')),
        Case::Path => lower_ascii(join_sep(ts, '/')),
        Case::Dot => lower_ascii(join_sep(ts, '.')),
        Case::Camel => join_words_ascii(ts, true),
        Case::Pascal => join_words_ascii(ts, false),
    }
}

/// The views of a list of strings.
pub open spec fn views(ts: Seq<String>) -> Seq<Seq<char>> {
    ts.map_values(|t: String| t@)
}

impl Case {
    /// The word separator of this convention, if it has one.
    pub fn separator(&self) -> (r: Option<char>)
        ensures
            r == separator(*self),
    {
        match self {
            Case::Snake | Case::ScreamingSnake => Some('_'),
            Case::Kebab => Some('-'),
            Case::Path => Some('/'),
            Case::Dot => Some('.'),
            Case::Camel | Case::Pascal => None,
        }
    }

    /// Guesses the convention that `string` is written in.
    pub fn guess(string: &str) -> (r: Case)
        ensures
            r == guess_spec(string@),
            all_ascii(string@) ==> r == guess_ascii(string@),
    {
        let s = string;
        let mut all_upper = true;
        let mut rest_lower = true;
        let mut has_under = false;
        let mut has_dash = false;
        let mut has_slash = false;
        let mut has_dot = false;
        let mut first_upper = false;
        let mut started = false;
        for ch in it: s.chars()
            invariant
                it.seq() == s@,
                all_upper <==> forall|i: int|
                    0 <= i < it.index() && alpha_char(#[trigger] s@[i]) ==> upper_char(s@[i]),
                rest_lower <==> forall|i: int|
                    0 <= i < it.index() && #[trigger] s@[i] != '_' ==> lower_char(s@[i]),
                has_under <==> exists|i: int| 0 <= i < it.index() && #[trigger] s@[i] == '_',
                has_dash <==> exists|i: int| 0 <= i < it.index() && #[trigger] s@[i] == '-',
                has_slash <==> exists|i: int| 0 <= i < it.index() && #[trigger] s@[i] == '/',
                has_dot <==> exists|i: int| 0 <= i < it.index() && #[trigger] s@[i] == '.',
                first_upper <==> (it.index() > 0 && upper_char(s@[0])),
                all_ascii(s@) ==> forall|j: int|
                    0 <= j < it.index() ==> {
                        &&& upper_char(#[trigger] s@[j]) == is_ascii_upper(s@[j])
                        &&& lower_char(s@[j]) == is_ascii_lower(s@[j])
                        &&& alpha_char(s@[j]) == (is_ascii_upper(s@[j]) || is_ascii_lower(s@[j]))
                    },
                started <==> it.index() > 0,
        {
            proof {
                if all_ascii(s@) {
                    assert(is_ascii_char(s@[it.index() as int]));
                }
            }
            let up = is_upper(ch);
            let low = is_lower(ch);
            if is_alpha(ch) && !up {
                all_upper = false;
            }
            if ch != '_' && !low {
                rest_lower = false;
            }
            if ch == '_' {
                has_under = true;
            }
            if ch == '-' {
                has_dash = true;
            }
            if ch == '/' {
                has_slash = true;
            }
            if ch == '.' {
                has_dot = true;
            }
            if !started && up {
                first_upper = true;
            }
            started = true;
        }
        proof {
            if all_ascii(s@) {
                assert(all_upper <==> forall|i: int|
                    0 <= i < s@.len() ==> !is_ascii_lower(#[trigger] s@[i])) by {
                    if !all_upper {
                        let i = choose|i: int|
                            0 <= i < s@.len() && alpha_char(#[trigger] s@[i]) && !upper_char(s@[i]);
                        assert(!is_ascii_upper(s@[i]));
                    }
                }
            }
        }
        if all_upper {
            Case::ScreamingSnake
        } else if has_under {
            if rest_lower {
                Case::Snake
            } else {
                Case::ScreamingSnake
            }
        } else if has_dash {
            Case::Kebab
        } else if has_slash {
            Case::Path
        } else if has_dot {
            Case::Dot
        } else if first_upper {
            Case::Pascal
        } else {
            Case::Camel
        }
    }

    /// Splits `string`, written in this convention, into lowercase words.
    pub fn tokenize(&self, string: &str) -> (r: Vec<String>)
        ensures
            views(r@) == tokenize_spec(*self, string@),
            all_ascii(string@) ==> views(r@) == tokenize_ascii(*self, string@),
    {
        match self.separator() {
            Some(sep) => split_lower(string, sep),
            None => bounds_lower(string),
        }
    }

    /// Writes the words `tokens` in this convention.
    pub fn join(&self, tokens: Vec<String>) -> (r: String)
        ensures
            r@ == join_spec(*self, views(tokens@)),
            all_ascii_words(views(tokens@)) ==> r@ == join_ascii(*self, views(tokens@)),
            tokens@.len() == 0 ==> r@.len() == 0,
    {
        match self {
            Case::Snake => to_lower(join_with(&tokens, '_').as_str()),
            Case::ScreamingSnake => to_upper(join_with(&tokens, '_').as_str()),
            Case::Kebab => to_lower(join_with(&tokens, '-').as_str()),
            Case::Path => to_lower(join_with(&tokens, '/').as_str()),
            Case::Dot => to_lower(join_with(&tokens, '.').as_str()),
            Case::Camel => join_capitalized(&tokens, true),
            Case::Pascal => join_capitalized(&tokens, false),
        }
    }
}

/// The words concatenated with `sep` between each two.
fn join_with(tokens: &Vec<String>, sep: char) -> (r: String)
    ensures
        r@ == join_sep(views(tokens@), sep),
        all_ascii_words(views(tokens@)) && is_ascii_char(sep) ==> all_ascii(r@),
{
    let mut r = String::new();
    let n = tokens.len();
    for i in 0..n
        invariant
            n == tokens@.len(),
            r@ == join_sep(views(tokens@).take(i as int), sep),
            all_ascii_words(views(tokens@)) && is_ascii_char(sep) ==> all_ascii(r@),
    {
        proof {
            assert(views(tokens@).take(i + 1).drop_last() =~= views(tokens@).take(i as int));
        }
        if i > 0 {
            push_char(&mut r, sep);
        } else {
            proof {
                assert(r@ =~= Seq::<char>::empty());
            }
        }
        proof {
            assert(views(tokens@)[i as int] == tokens@[i as int]@);
        }
        r.append(tokens[i].as_str());
    }
    proof {
        assert(views(tokens@).take(n as int) =~= views(tokens@));
    }
    r
}

/// The words capitalised and concatenated; with `lower_first`, the first word
/// is lowercased instead.
fn join_capitalized(tokens: &Vec<String>, lower_first: bool) -> (r: String)
    ensures
        r@ == join_words(views(tokens@), lower_first),
        all_ascii_words(views(tokens@)) ==> r@ == join_words_ascii(views(tokens@), lower_first),
{
    let mut r = String::new();
    let n = tokens.len();
    for i in 0..n
        invariant
            n == tokens@.len(),
            r@ == join_words(views(tokens@).take(i as int), lower_first),
            all_ascii_words(views(tokens@)) ==> r@ == join_words_ascii(
                views(tokens@).take(i as int),
                lower_first,
            ),
    {
        proof {
            assert(views(tokens@).take(i + 1).drop_last() =~= views(tokens@).take(i as int));
        }
        let w = if lower_first && i == 0 {
            to_lower(tokens[i].as_str())
        } else {
            capitalize(tokens[i].as_str())
        };
        proof {
            assert(views(tokens@)[i as int] == tokens@[i as int]@);
        }
        r.append(w.as_str());
    }
    proof {
        assert(views(tokens@).take(n as int) =~= views(tokens@));
    }
    r
}

proof fn lemma_lower_all_ascii_last(ts: Seq<Seq<char>>)
    requires
        ts.len() > 0,
    ensures
        lower_all_ascii(ts) == lower_all_ascii(ts.drop_last()).push(lower_ascii(ts.last())),
{
    assert(lower_all_ascii(ts) =~= lower_all_ascii(ts.drop_last()).push(lower_ascii(ts.last())));
}

/// Cutting at characters by two predicates that agree on every character of
/// `s` gives the same words.
proof fn lemma_bounds_agree(s: Seq<char>, a: spec_fn(char) -> bool, b: spec_fn(char) -> bool)
    requires
        forall|i: int| 0 <= i < s.len() ==> a(#[trigger] s[i]) == b(s[i]),
    ensures
        bounds_by(s, a) == bounds_by(s, b),
    decreases s.len(),
{
    if s.len() > 0 {
        lemma_bounds_agree(s.drop_last(), a, b);
        assert(a(s[s.len() - 1]) == b(s[s.len() - 1]));
    }
}

/// The views of a list with one more string.
proof fn lemma_views_push(ts: Seq<String>, t: String)
    ensures
        views(ts.push(t)) == views(ts).push(t@),
{
    assert(views(ts.push(t)) =~= views(ts).push(t@));
}

/// Lowercasing every word of a non-empty list is lowercasing all but the last,
/// then the last.
proof fn lemma_lower_all_last(ts: Seq<Seq<char>>)
    requires
        ts.len() > 0,
    ensures
        lower_all(ts) == lower_all(ts.drop_last()).push(lower_of(ts.last())),
{
    assert(lower_all(ts) =~= lower_all(ts.drop_last()).push(lower_of(ts.last())));
}

/// The pieces of `s` between occurrences of `sep`, each lowercased.
fn split_lower(s: &str, sep: char) -> (r: Vec<String>)
    ensures
        views(r@) == lower_all(split_spec(s@, sep)),
        all_ascii(s@) ==> views(r@) == lower_all_ascii(split_spec(s@, sep)),
{
    let mut done: Vec<String> = Vec::new();
    let mut cur = String::new();
    for ch in it: s.chars()
        invariant
            it.seq() == s@,
            split_spec(s@.take(it.index() as int), sep).len() == done@.len() + 1,
            views(done@) == lower_all(split_spec(s@.take(it.index() as int), sep).drop_last()),
            cur@ == split_spec(s@.take(it.index() as int), sep).last(),
            all_ascii(s@) ==> all_ascii(cur@),
            all_ascii(s@) ==> views(done@) == lower_all_ascii(
                split_spec(s@.take(it.index() as int), sep).drop_last(),
            ),
    {
        proof {
            assert(s@.take(it.index() + 1).drop_last() =~= s@.take(it.index() as int));
        }
        if ch == sep {
            let piece = to_lower(cur.as_str());
            proof {
                lemma_views_push(done@, piece);
                lemma_lower_all_last(split_spec(s@.take(it.index() as int), sep));
                lemma_lower_all_ascii_last(split_spec(s@.take(it.index() as int), sep));
            }
            done.push(piece);
            cur = String::new();
        } else {
            push_char(&mut cur, ch);
            proof {
                if all_ascii(s@) {
                    assert(is_ascii_char(s@[it.index() as int]));
                }
                assert(split_spec(s@.take(it.index() + 1), sep).drop_last() =~= split_spec(s@.take(it.index() as int), sep).drop_last());
            }
        }
    }
    proof {
        assert(s@.take(s@.len() as int) =~= s@);
    }
    let piece = to_lower(cur.as_str());
    proof {
        lemma_views_push(done@, piece);
        lemma_lower_all_last(split_spec(s@, sep));
        lemma_lower_all_ascii_last(split_spec(s@, sep));
    }
    done.push(piece);
    done
}

/// The words of `s` cut before each uppercase character, each lowercased.
fn bounds_lower(s: &str) -> (r: Vec<String>)
    ensures
        views(r@) == lower_all(bounds_spec(s@)),
        all_ascii(s@) ==> views(r@) == lower_all_ascii(bounds_ascii(s@)),
{
    let mut done: Vec<String> = Vec::new();
    let mut cur = String::new();
    let mut open = false;
    for ch in it: s.chars()
        invariant
            it.seq() == s@,
            open <==> bounds_spec(s@.take(it.index() as int)).len() > 0,
            !open ==> done@.len() == 0,
            open ==> bounds_spec(s@.take(it.index() as int)).len() == done@.len() + 1,
            open ==> views(done@) == lower_all(bounds_spec(s@.take(it.index() as int)).drop_last()),
            open ==> cur@ == bounds_spec(s@.take(it.index() as int)).last(),
            all_ascii(s@) ==> all_ascii(cur@),
            all_ascii(s@) && open ==> views(done@) == lower_all_ascii(
                bounds_spec(s@.take(it.index() as int)).drop_last(),
            ),
            all_ascii(s@) ==> forall|j: int|
                0 <= j < it.index() ==> upper_char(#[trigger] s@[j]) == is_ascii_upper(s@[j]),
    {
        proof {
            assert(s@.take(it.index() + 1).drop_last() =~= s@.take(it.index() as int));
        }
        proof {
            if all_ascii(s@) {
                assert(is_ascii_char(s@[it.index() as int]));
            }
        }
        if is_upper(ch) || !open {
            if open {
                let piece = to_lower(cur.as_str());
                proof {
                    lemma_views_push(done@, piece);
                    lemma_lower_all_last(bounds_spec(s@.take(it.index() as int)));
                    lemma_lower_all_ascii_last(bounds_spec(s@.take(it.index() as int)));
                }
                done.push(piece);
            } else {
                proof {
                    assert(views(done@) =~= lower_all(Seq::<Seq<char>>::empty()));
                    assert(views(done@) =~= lower_all_ascii(Seq::<Seq<char>>::empty()));
                }
            }
            cur = String::new();
            push_char(&mut cur, ch);
            open = true;
            proof {
                assert(bounds_spec(s@.take(it.index() + 1)).drop_last() =~= bounds_spec(s@.take(it.index() as int)));
                assert(cur@ =~= seq![ch]);
            }
        } else {
            push_char(&mut cur, ch);
            proof {
                assert(bounds_spec(s@.take(it.index() + 1)).drop_last() =~= bounds_spec(s@.take(it.index() as int)).drop_last());
            }
        }
    }
    proof {
        assert(s@.take(s@.len() as int) =~= s@);
    }
    if open {
        let piece = to_lower(cur.as_str());
        proof {
            lemma_views_push(done@, piece);
            lemma_lower_all_last(bounds_spec(s@));
            lemma_lower_all_ascii_last(bounds_spec(s@));
        }
        done.push(piece);
    } else {
        proof {
            assert(views(done@) =~= lower_all(bounds_spec(s@)));
            assert(views(done@) =~= lower_all_ascii(bounds_spec(s@)));
        }
    }
    proof {
        if all_ascii(s@) {
            lemma_bounds_agree(s@, |c: char| upper_char(c), |c: char| is_ascii_upper(c));
        }
    }
    done
}

/// Uppercases the first character of `s` and lowercases the rest.
pub fn capitalize(s: &str) -> (r: String)
    ensures
        r@ == capitalize_spec(s@),
        all_ascii(s@) ==> r@ == capitalize_ascii(s@),
{
    let mut first: Option<char> = None;
    let mut rest = String::new();
    for ch in it: s.chars()
        invariant
            it.seq() == s@,
            it.index() == 0 ==> first is None && rest@.len() == 0,
            it.index() > 0 ==> first == Some(s@[0]) && rest@ == s@.subrange(1, it.index() as int),
    {
        match first {
            None => {
                first = Some(ch);
            },
            Some(_) => {
                push_char(&mut rest, ch);
                proof {
                    assert(rest@ =~= s@.subrange(1, it.index() + 1));
                }
            },
        }
    }
    match first {
        None => String::new(),
        Some(c) => {
            proof {
                assert(rest@ =~= s@.drop_first());
            }
            let mut r = char_to_upper(c);
            let low = to_lower(rest.as_str());
            proof {
                if all_ascii(s@) {
                    assert(is_ascii_char(s@[0]));
                    assert(all_ascii(rest@));
                }
            }
            r.append(low.as_str());
            r
        },
    }
}

} // verus!
