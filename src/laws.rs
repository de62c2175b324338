//! Laws relating `Case::tokenize` and `Case::join`, stated over the ASCII
//! model that their contracts give for ASCII text.
use vstd::prelude::*;

use crate::case::{
    all_ascii_words, bounds_ascii, bounds_by, capitalize_ascii, join_ascii, join_sep,
    join_words_ascii, lower_all_ascii, lower_ascii, separator, split_spec, tokenize_ascii,
    upper_ascii, Case,
};
use crate::text::{all_ascii, ascii_lower, ascii_upper, is_ascii_char, is_ascii_lower, is_ascii_upper};

verus! {

/// Whether `s` is ASCII without any of `A`..`Z`.
pub open spec fn plain_lower(s: Seq<char>) -> bool {
    forall|i: int| 0 <= i < s.len() ==> is_ascii_char(#[trigger] s[i]) && !is_ascii_upper(s[i])
}

/// What the ASCII case mappings do to one character.
proof fn lemma_ascii_char(c: char)
    ensures
        is_ascii_char(c) ==> is_ascii_char(ascii_lower(c)) && is_ascii_char(ascii_upper(c)),
        !is_ascii_upper(ascii_lower(c)),
        !is_ascii_lower(ascii_upper(c)),
        !is_ascii_upper(c) ==> ascii_lower(c) == c,
        !is_ascii_lower(c) ==> ascii_upper(c) == c,
        is_ascii_lower(c) ==> is_ascii_upper(ascii_upper(c)) && ascii_lower(ascii_upper(c)) == c,
        is_ascii_upper(c) ==> ascii_upper(ascii_lower(c)) == c,
{
}

/// Appending a stretch free of `sep` extends the last piece.
proof fn lemma_split_append(x: Seq<char>, t: Seq<char>, sep: char)
    requires
        !t.contains(sep),
    ensures
        split_spec(x + t, sep) == split_spec(x, sep).update(
            split_spec(x, sep).len() - 1,
            split_spec(x, sep).last() + t,
        ),
        split_spec(x + t, sep).len() == split_spec(x, sep).len(),
    decreases t.len(),
{
    lemma_split_len(x, sep);
    if t.len() == 0 {
        assert(x + t =~= x);
        assert(split_spec(x, sep).last() + t =~= split_spec(x, sep).last());
        assert(split_spec(x, sep).update(split_spec(x, sep).len() - 1, split_spec(x, sep).last())
            =~= split_spec(x, sep));
    } else {
        let t2 = t.drop_last();
        assert(!t2.contains(sep)) by {
            if t2.contains(sep) {
                let j = choose|j: int| 0 <= j < t2.len() && t2[j] == sep;
                assert(t[j] == sep);
            }
        }
        lemma_split_append(x, t2, sep);
        assert((x + t).drop_last() =~= x + t2);
        assert(t[t.len() - 1] != sep);
        assert((x + t).last() == t.last());
        assert(split_spec(x, sep).last() + t =~= (split_spec(x, sep).last() + t2).push(t.last()));
        assert(split_spec(x + t, sep) =~= split_spec(x, sep).update(
            split_spec(x, sep).len() - 1,
            split_spec(x, sep).last() + t,
        ));
    }
}

/// Splitting always gives at least one piece.
proof fn lemma_split_len(s: Seq<char>, sep: char)
    ensures
        split_spec(s, sep).len() > 0,
    decreases s.len(),
{
    if s.len() > 0 {
        lemma_split_len(s.drop_last(), sep);
    }
}

/// Splitting the separator-joined words gives the words back.
proof fn lemma_split_join(ts: Seq<Seq<char>>, sep: char)
    requires
        ts.len() > 0,
        forall|k: int| 0 <= k < ts.len() ==> !(#[trigger] ts[k]).contains(sep),
    ensures
        split_spec(join_sep(ts, sep), sep) == ts,
    decreases ts.len(),
{
    let t = ts.last();
    assert(!ts[ts.len() - 1].contains(sep));
    if ts.len() == 1 {
        lemma_split_append(Seq::<char>::empty(), t, sep);
        assert(Seq::<char>::empty() + t =~= t);
        assert(split_spec(Seq::<char>::empty(), sep).last() + t =~= t);
        assert(split_spec(t, sep) =~= ts);
    } else {
        let p = ts.drop_last();
        assert forall|k: int| 0 <= k < p.len() implies !(#[trigger] p[k]).contains(sep) by {
            assert(p[k] == ts[k]);
        }
        lemma_split_join(p, sep);
        let x = join_sep(p, sep) + seq![sep];
        assert(x.drop_last() =~= join_sep(p, sep));
        lemma_split_append(x, t, sep);
        assert(join_sep(ts, sep) == x + t);
        assert(split_spec(x, sep).last() + t =~= t);
        assert(split_spec(join_sep(ts, sep), sep) =~= ts);
    }
}

/// Joining the pieces of `s` with `sep` gives `s` back.
proof fn lemma_join_split(s: Seq<char>, sep: char)
    ensures
        join_sep(split_spec(s, sep), sep) == s,
    decreases s.len(),
{
    if s.len() > 0 {
        let p = s.drop_last();
        lemma_join_split(p, sep);
        lemma_split_len(p, sep);
        let prev = split_spec(p, sep);
        if s.last() == sep {
            assert(prev.push(Seq::<char>::empty()).drop_last() =~= prev);
            assert(s =~= p + seq![sep] + Seq::<char>::empty());
        } else {
            let q = prev.update(prev.len() - 1, prev.last().push(s.last()));
            if prev.len() == 1 {
                assert(s =~= p.push(s.last()));
            } else {
                assert(q.drop_last() =~= prev.drop_last());
                assert(s =~= (join_sep(prev.drop_last(), sep) + seq![sep] + prev.last()).push(s.last()));
                assert(join_sep(q, sep) =~= s);
            }
        }
    }
}

/// ASCII lowercasing commutes with joining on a separator that it keeps.
proof fn lemma_join_lower(ts: Seq<Seq<char>>, sep: char)
    requires
        !is_ascii_upper(sep),
    ensures
        lower_ascii(join_sep(ts, sep)) == join_sep(lower_all_ascii(ts), sep),
    decreases ts.len(),
{
    lemma_ascii_char(sep);
    if ts.len() == 1 {
        assert(lower_all_ascii(ts)[0] == lower_ascii(ts[0]));
    } else if ts.len() > 1 {
        lemma_join_lower(ts.drop_last(), sep);
        assert(lower_all_ascii(ts).drop_last() =~= lower_all_ascii(ts.drop_last()));
        assert(lower_all_ascii(ts).last() == lower_ascii(ts.last()));
        assert(lower_ascii(join_sep(ts.drop_last(), sep) + seq![sep] + ts.last()) =~= lower_ascii(
            join_sep(ts.drop_last(), sep),
        ) + seq![sep] + lower_ascii(ts.last()));
    } else {
        assert(lower_ascii(join_sep(ts, sep)) =~= join_sep(lower_all_ascii(ts), sep));
    }
}

/// ASCII uppercasing commutes with joining on a separator that it keeps.
proof fn lemma_join_upper(ts: Seq<Seq<char>>, sep: char)
    requires
        !is_ascii_lower(sep),
    ensures
        upper_ascii(join_sep(ts, sep)) == join_sep(
            ts.map_values(|t: Seq<char>| upper_ascii(t)),
            sep,
        ),
    decreases ts.len(),
{
    lemma_ascii_char(sep);
    let us = ts.map_values(|t: Seq<char>| upper_ascii(t));
    if ts.len() == 1 {
        assert(us[0] == upper_ascii(ts[0]));
    } else if ts.len() > 1 {
        lemma_join_upper(ts.drop_last(), sep);
        assert(us.drop_last() =~= ts.drop_last().map_values(|t: Seq<char>| upper_ascii(t)));
        assert(us.last() == upper_ascii(ts.last()));
        assert(upper_ascii(join_sep(ts.drop_last(), sep) + seq![sep] + ts.last()) =~= upper_ascii(
            join_sep(ts.drop_last(), sep),
        ) + seq![sep] + upper_ascii(ts.last()));
    } else {
        assert(upper_ascii(join_sep(ts, sep)) =~= join_sep(us, sep));
    }
}

/// The separator-joined words are ASCII when the words and the separator are.
proof fn lemma_join_ascii(ts: Seq<Seq<char>>, sep: char)
    requires
        is_ascii_char(sep),
        all_ascii_words(ts),
    ensures
        all_ascii(join_sep(ts, sep)),
    decreases ts.len(),
{
    if ts.len() == 1 {
        assert(all_ascii(ts[0]));
    } else if ts.len() > 1 {
        lemma_join_ascii(ts.drop_last(), sep);
        assert(all_ascii(ts[ts.len() - 1]));
        let j = join_sep(ts.drop_last(), sep) + seq![sep] + ts.last();
        assert forall|i: int| 0 <= i < j.len() implies is_ascii_char(#[trigger] j[i]) by {
            if i >= join_sep(ts.drop_last(), sep).len() + 1 {
                assert(j[i] == ts.last()[i - join_sep(ts.drop_last(), sep).len() - 1]);
            }
        }
    }
}

/// A lowercase ASCII string is its own ASCII lowercase.
proof fn lemma_lower_plain(t: Seq<char>)
    requires
        plain_lower(t),
    ensures
        lower_ascii(t) == t,
{
    assert forall|i: int| 0 <= i < t.len() implies #[trigger] lower_ascii(t)[i] == t[i] by {
        lemma_ascii_char(t[i]);
    }
    assert(lower_ascii(t) =~= t);
}

/// Whether `t` is a word that convention `v` carries through a join and a
/// split unchanged: non-empty, ASCII, without any of `A`..`Z` and without
/// `v`'s separator; where `v` marks words by capitalisation, a word that is
/// capitalised must start with one of `a`..`z`.
pub open spec fn fits_word(v: Case, t: Seq<char>, first: bool) -> bool {
    &&& t.len() > 0
    &&& plain_lower(t)
    &&& match separator(v) {
        Some(sep) => !t.contains(sep),
        None => (v == Case::Pascal || !first) ==> is_ascii_lower(t[0]),
    }
}

/// Whether convention `v` carries the words `ts` through a join and a split
/// unchanged; a separator-based convention needs at least one word.
pub open spec fn fits_words(v: Case, ts: Seq<Seq<char>>) -> bool {
    &&& (separator(v) is Some ==> ts.len() > 0)
    &&& forall|k: int| 0 <= k < ts.len() ==> fits_word(v, #[trigger] ts[k], k == 0)
}

/// Round trip for the separator-based conventions.
proof fn lemma_round_trip_sep(v: Case, ts: Seq<Seq<char>>)
    requires
        fits_words(v, ts),
        separator(v) is Some,
    ensures
        all_ascii(join_ascii(v, ts)),
        tokenize_ascii(v, join_ascii(v, ts)) == ts,
{
    let sep = separator(v)->0;
    assert forall|k: int| 0 <= k < ts.len() implies !(#[trigger] ts[k]).contains(sep) && plain_lower(
        ts[k],
    ) by {
        assert(fits_word(v, ts[k], k == 0));
    }
    assert(all_ascii_words(ts));
    lemma_join_ascii(ts, sep);
    let j = join_sep(ts, sep);
    assert(lower_all_ascii(ts) =~= ts) by {
        assert forall|k: int| 0 <= k < ts.len() implies #[trigger] lower_all_ascii(ts)[k] == ts[k] by {
            lemma_lower_plain(ts[k]);
        }
    }
    if v == Case::ScreamingSnake {
        let us = ts.map_values(|t: Seq<char>| upper_ascii(t));
        lemma_join_upper(ts, sep);
        assert forall|k: int| 0 <= k < us.len() implies !(#[trigger] us[k]).contains(sep)
            && lower_ascii(us[k]) == ts[k] by {
            let t = ts[k];
            assert(us[k] == upper_ascii(t));
            if us[k].contains(sep) {
                let i = choose|i: int| 0 <= i < us[k].len() && us[k][i] == sep;
                lemma_ascii_char(t[i]);
                assert(t.contains(sep));
            }
            assert forall|i: int| 0 <= i < t.len() implies #[trigger] lower_ascii(us[k])[i] == t[i] by {
                lemma_ascii_char(t[i]);
            }
            assert(lower_ascii(us[k]) =~= t);
        }
        lemma_split_join(us, sep);
        assert(all_ascii(upper_ascii(j))) by {
            assert forall|i: int| 0 <= i < j.len() implies is_ascii_char(#[trigger] upper_ascii(j)[i]) by {
                lemma_ascii_char(j[i]);
            }
        }
        assert(lower_all_ascii(us) =~= ts);
    } else {
        lemma_join_lower(ts, sep);
        lemma_split_join(ts, sep);
    }
}

/// Cut points: a non-empty stretch that starts at a cut, or at the very
/// beginning, and has no other cut becomes one more word.
proof fn lemma_bounds_append(x: Seq<char>, w: Seq<char>)
    requires
        w.len() > 0,
        is_ascii_upper(w[0]) || x.len() == 0,
        forall|i: int| 1 <= i < w.len() ==> !is_ascii_upper(#[trigger] w[i]),
    ensures
        bounds_ascii(x + w) == bounds_ascii(x).push(w),
    decreases w.len(),
{
    let up = |c: char| is_ascii_upper(c);
    if w.len() == 1 {
        assert((x + w).drop_last() =~= x);
        assert(seq![w[0]] =~= w);
        if x.len() == 0 {
            assert(bounds_by(x, up).len() == 0);
        }
    } else {
        let w2 = w.drop_last();
        lemma_bounds_append(x, w2);
        assert((x + w).drop_last() =~= x + w2);
        assert(!is_ascii_upper(w[w.len() - 1]));
        assert(w2.push(w.last()) =~= w);
        assert(bounds_ascii(x + w) =~= bounds_ascii(x).push(w));
    }
}

/// The capitalised and concatenated words, cut and lowercased, give the
/// words back.
proof fn lemma_round_trip_words(ts: Seq<Seq<char>>, lower_first: bool)
    requires
        forall|k: int|
            0 <= k < ts.len() ==> #[trigger] ts[k].len() > 0 && plain_lower(ts[k]) && (
            !lower_first || k > 0 ==> is_ascii_lower(ts[k][0])),
    ensures
        all_ascii(join_words_ascii(ts, lower_first)),
        lower_all_ascii(bounds_ascii(join_words_ascii(ts, lower_first))) == ts,
    decreases ts.len(),
{
    if ts.len() == 0 {
        assert(lower_all_ascii(bounds_ascii(join_words_ascii(ts, lower_first))) =~= ts);
    } else {
        let p = ts.drop_last();
        let t = ts.last();
        assert(t == ts[ts.len() - 1]);
        assert forall|k: int| 0 <= k < p.len() implies #[trigger] p[k].len() > 0 && plain_lower(p[k])
            && (!lower_first || k > 0 ==> is_ascii_lower(p[k][0])) by {
            assert(p[k] == ts[k]);
        }
        lemma_round_trip_words(p, lower_first);
        let x = join_words_ascii(p, lower_first);
        let w = if lower_first && ts.len() == 1 {
            lower_ascii(t)
        } else {
            capitalize_ascii(t)
        };
        lemma_lower_plain(t);
        lemma_lower_plain(t.drop_first());
        lemma_ascii_char(t[0]);
        if !(lower_first && ts.len() == 1) {
            assert(w[0] == ascii_upper(t[0]));
            assert forall|i: int| 1 <= i < w.len() implies !is_ascii_upper(#[trigger] w[i]) by {
                assert(w[i] == t[i]);
            }
        } else {
            assert(p.len() == 0);
            assert(w == t);
        }
        lemma_bounds_append(x, w);
        assert(join_words_ascii(ts, lower_first) == x + w);
        let l = lower_all_ascii(bounds_ascii(x).push(w));
        assert(l.drop_last() =~= lower_all_ascii(bounds_ascii(x)));
        assert(lower_ascii(w) =~= t) by {
            assert forall|i: int| 0 <= i < t.len() implies #[trigger] lower_ascii(w)[i] == t[i] by {
                lemma_ascii_char(t[i]);
            }
        }
        assert(l[l.len() - 1] == lower_ascii(w));
        assert(l.drop_last() == p);
        assert(l =~= p.push(t));
        assert(p.push(t) =~= ts);
        assert forall|i: int| 0 <= i < w.len() implies is_ascii_char(#[trigger] w[i]) by {
            lemma_ascii_char(t[i]);
        }
        let j = x + w;
        assert forall|i: int| 0 <= i < j.len() implies is_ascii_char(#[trigger] j[i]) by {
            if i >= x.len() {
                assert(j[i] == w[i - x.len()]);
            }
        }
    }
}

/// Round trip: words that convention `v` carries (`fits_words`) are
/// recovered by tokenizing what `join` writes of them, and that text is ASCII.
pub proof fn lemma_round_trip(v: Case, ts: Seq<Seq<char>>)
    requires
        fits_words(v, ts),
    ensures
        all_ascii(join_ascii(v, ts)),
        tokenize_ascii(v, join_ascii(v, ts)) == ts,
{
    if separator(v) is Some {
        lemma_round_trip_sep(v, ts);
    } else {
        let lower_first = v == Case::Camel;
        assert forall|k: int| 0 <= k < ts.len() implies #[trigger] ts[k].len() > 0 && plain_lower(
            ts[k],
        ) && (!lower_first || k > 0 ==> is_ascii_lower(ts[k][0])) by {
            assert(fits_word(v, ts[k], k == 0));
        }
        lemma_round_trip_words(ts, lower_first);
    }
}

/// Joining no words gives the empty string, in every convention.
pub proof fn lemma_join_empty(v: Case)
    ensures
        join_ascii(v, Seq::<Seq<char>>::empty()) == Seq::<char>::empty(),
{
    let e = Seq::<Seq<char>>::empty();
    assert(lower_ascii(join_sep(e, '_')) =~= Seq::<char>::empty());
    assert(upper_ascii(join_sep(e, '_')) =~= Seq::<char>::empty());
    assert(lower_ascii(join_sep(e, '-')) =~= Seq::<char>::empty());
    assert(lower_ascii(join_sep(e, '/')) =~= Seq::<char>::empty());
    assert(lower_ascii(join_sep(e, '.')) =~= Seq::<char>::empty());
}

/// Whether `s` is already in the form that convention `v` writes: ASCII,
/// and without any of `a`..`z` for screaming snake case, starting with one of
/// `A`..`Z` (or empty) for Pascal case, not starting with one of `A`..`Z` for
/// camel case, and without any of `A`..`Z` for the other conventions.
pub open spec fn canonical(v: Case, s: Seq<char>) -> bool {
    &&& all_ascii(s)
    &&& match v {
        Case::ScreamingSnake => forall|i: int| 0 <= i < s.len() ==> !is_ascii_lower(#[trigger] s[i]),
        Case::Camel => s.len() == 0 || !is_ascii_upper(s[0]),
        Case::Pascal => s.len() == 0 || is_ascii_upper(s[0]),
        _ => plain_lower(s),
    }
}

/// The pieces of an ASCII string are ASCII.
proof fn lemma_split_ascii(s: Seq<char>, sep: char)
    requires
        all_ascii(s),
    ensures
        all_ascii_words(split_spec(s, sep)),
    decreases s.len(),
{
    if s.len() > 0 {
        let p = s.drop_last();
        lemma_split_ascii(p, sep);
        lemma_split_len(p, sep);
        let prev = split_spec(p, sep);
        assert(is_ascii_char(s[s.len() - 1]));
        assert(all_ascii(prev[prev.len() - 1]));
        let q = split_spec(s, sep);
        assert forall|k: int| 0 <= k < q.len() implies all_ascii(#[trigger] q[k]) by {
            if k < prev.len() {
                assert(all_ascii(prev[k]));
            }
        }
    }
}

/// ASCII lowercasing keeps words ASCII.
proof fn lemma_lower_all_ascii_words(ts: Seq<Seq<char>>)
    requires
        all_ascii_words(ts),
    ensures
        all_ascii_words(lower_all_ascii(ts)),
{
    assert forall|k: int| 0 <= k < ts.len() implies all_ascii(#[trigger] lower_all_ascii(ts)[k]) by {
        assert(all_ascii(ts[k]));
        assert forall|i: int| 0 <= i < ts[k].len() implies is_ascii_char(
            #[trigger] lower_ascii(ts[k])[i],
        ) by {
            lemma_ascii_char(ts[k][i]);
        }
    }
}

/// Cutting gives no word exactly for the empty string, and no empty word.
proof fn lemma_bounds_shape(s: Seq<char>)
    ensures
        bounds_ascii(s).len() == 0 <==> s.len() == 0,
        forall|k: int| 0 <= k < bounds_ascii(s).len() ==> (#[trigger] bounds_ascii(s)[k]).len() > 0,
    decreases s.len(),
{
    if s.len() > 0 {
        lemma_bounds_shape(s.drop_last());
    }
}

/// Cutting a canonical camel or Pascal string, lowercasing the words and
/// joining them again gives the string back.
proof fn lemma_idempotent_words(s: Seq<char>, lower_first: bool)
    requires
        all_ascii(s),
        lower_first ==> s.len() == 0 || !is_ascii_upper(s[0]),
        !lower_first ==> s.len() == 0 || is_ascii_upper(s[0]),
    ensures
        all_ascii_words(lower_all_ascii(bounds_ascii(s))),
        join_words_ascii(lower_all_ascii(bounds_ascii(s)), lower_first) == s,
    decreases s.len(),
{
    let up = |c: char| is_ascii_upper(c);
    if s.len() == 0 {
        assert(lower_all_ascii(bounds_ascii(s)) =~= Seq::<Seq<char>>::empty());
    } else {
        let p = s.drop_last();
        let c = s.last();
        assert(is_ascii_char(c));
        lemma_ascii_char(c);
        if p.len() > 0 {
            assert(p[0] == s[0]);
        }
        lemma_idempotent_words(p, lower_first);
        lemma_bounds_shape(p);
        let b = bounds_ascii(p);
        let lb = lower_all_ascii(b);
        if is_ascii_upper(c) || b.len() == 0 {
            assert(bounds_ascii(s) == b.push(seq![c]));
            let w = lower_ascii(seq![c]);
            assert(w =~= seq![ascii_lower(c)]);
            let l = lower_all_ascii(b.push(seq![c]));
            assert(l =~= lb.push(w));
            assert(l.drop_last() =~= lb);
            if lower_first && l.len() == 1 {
                assert(c == s[0]);
                assert(lower_ascii(w) =~= seq![c]);
            } else {
                if p.len() == 0 {
                    assert(c == s[0]);
                }
                assert(capitalize_ascii(w) =~= seq![c]);
            }
            assert(s =~= p + seq![c]);
            assert forall|k: int| 0 <= k < l.len() implies all_ascii(#[trigger] l[k]) by {
                if k < lb.len() {
                    assert(l[k] == lb[k]);
                }
            }
        } else {
            let n = b.len();
            let t = b[n - 1];
            assert(t.len() > 0);
            assert(bounds_ascii(s) == b.update(n - 1, t.push(c)));
            let l = lower_all_ascii(b.update(n - 1, t.push(c)));
            let lt = lb[n - 1];
            assert(lt == lower_ascii(t));
            assert(lower_ascii(t.push(c)) =~= lt.push(c));
            assert(l =~= lb.update(n - 1, lt.push(c)));
            assert(l.drop_last() =~= lb.drop_last());
            assert(all_ascii(lt));
            if lower_first && n == 1 {
                assert(lower_ascii(lt.push(c)) =~= lower_ascii(lt).push(c));
            } else {
                assert(lt.push(c).drop_first() =~= lt.drop_first().push(c));
                assert(lower_ascii(lt.drop_first().push(c)) =~= lower_ascii(lt.drop_first()).push(c));
                assert(capitalize_ascii(lt.push(c)) =~= capitalize_ascii(lt).push(c));
            }
            assert(s =~= p.push(c));
            assert forall|k: int| 0 <= k < l.len() implies all_ascii(#[trigger] l[k]) by {
                if k < n - 1 {
                    assert(l[k] == lb[k]);
                }
            }
        }
    }
}

/// Idempotence: a string already in the form that `v` writes is written back
/// unchanged by joining its tokens in `v`; the tokens are ASCII.
pub proof fn lemma_idempotent(v: Case, s: Seq<char>)
    requires
        canonical(v, s),
    ensures
        all_ascii_words(tokenize_ascii(v, s)),
        join_ascii(v, tokenize_ascii(v, s)) == s,
{
    match separator(v) {
        Some(sep) => {
            let pieces = split_spec(s, sep);
            lemma_split_ascii(s, sep);
            lemma_lower_all_ascii_words(pieces);
            lemma_join_split(s, sep);
            lemma_join_lower(pieces, sep);
            if v == Case::ScreamingSnake {
                assert forall|i: int| 0 <= i < s.len() implies #[trigger] upper_ascii(
                    lower_ascii(s),
                )[i] == s[i] by {
                    lemma_ascii_char(s[i]);
                }
                assert(upper_ascii(lower_ascii(s)) =~= s);
            } else {
                assert forall|i: int| 0 <= i < s.len() implies #[trigger] lower_ascii(
                    lower_ascii(s),
                )[i] == s[i] by {
                    lemma_ascii_char(s[i]);
                }
                assert(lower_ascii(lower_ascii(s)) =~= s);
            }
        },
        None => {
            lemma_idempotent_words(s, v == Case::Camel);
        },
    }
}

} // verus!
