//! Ordered matching of typed tokens against the components of a path.

use vstd::prelude::*;
use crate::text::{chars_of, components, contains, is_substring, split_components, views};

verus! {

/// The index of the first component at or after `from` that holds `token`
/// as a substring, or the number of components if there is none.
pub open spec fn find_component(parts: Seq<Seq<char>>, token: Seq<char>, from: int) -> int
    decreases parts.len() - from,
{
    if from >= parts.len() {
        parts.len() as int
    } else if is_substring(parts[from], token) {
        from
    } else {
        find_component(parts, token, from + 1)
    }
}

/// Every token is found, each in the first component that holds it strictly
/// after the component in which the token before it was found; the first
/// token is sought from component `from` on.
pub open spec fn tokens_in_order(parts: Seq<Seq<char>>, tokens: Seq<Seq<char>>, from: int) -> bool
    decreases tokens.len(),
{
    if tokens.len() == 0 {
        true
    } else {
        let at = find_component(parts, tokens.first(), from);
        at < parts.len() && tokens_in_order(parts, tokens.drop_first(), at + 1)
    }
}

/// The outcome of matching `tokens` against the components `parts`, as a
/// pair.
///
/// The first part says whether the tokens are found in order and, where
/// there are both a last token and a last component, the last token stands in
/// the last component. The second part says whether there are both and they
/// are the same. So without tokens the outcome is true and false, and
/// without components any token fails the match.
pub open spec fn component_match(parts: Seq<Seq<char>>, tokens: Seq<Seq<char>>) -> (bool, bool) {
    if tokens.len() == 0 || parts.len() == 0 {
        (tokens_in_order(parts, tokens, 0), false)
    } else {
        (
            tokens_in_order(parts, tokens, 0) && is_substring(parts.last(), tokens.last()),
            parts.last() == tokens.last(),
        )
    }
}

/// The outcome of matching `tokens` against the components of `path`.
pub open spec fn match_status(path: Seq<char>, tokens: Seq<Seq<char>>) -> (bool, bool) {
    component_match(components(path), tokens)
}

/// Without tokens every path is matched, and not exactly.
pub proof fn lemma_match_without_tokens(path: Seq<char>)
    ensures
        match_status(path, Seq::<Seq<char>>::empty()) == (true, false),
{
}

/// The search stays within bounds, stops at a component that holds the token
/// and passes over none that does.
pub proof fn lemma_find_component_bounds(parts: Seq<Seq<char>>, token: Seq<char>, from: int)
    requires
        0 <= from,
    ensures
        from <= find_component(parts, token, from) || parts.len() < from,
        find_component(parts, token, from) <= parts.len(),
        find_component(parts, token, from) < parts.len() ==> is_substring(
            parts[find_component(parts, token, from)],
            token,
        ),
        forall|k: int|
            from <= k < find_component(parts, token, from) ==> !is_substring(
                #[trigger] parts[k],
                token,
            ),
    decreases parts.len() - from,
{
    if from < parts.len() && !is_substring(parts[from], token) {
        lemma_find_component_bounds(parts, token, from + 1);
    }
}

/// `places` gives every token a component that holds it, at or after
/// component `from`, the component of each token strictly after that of the
/// token before it.
pub open spec fn placed_in_order(
    parts: Seq<Seq<char>>,
    tokens: Seq<Seq<char>>,
    from: int,
    places: Seq<int>,
) -> bool {
    &&& places.len() == tokens.len()
    &&& forall|k: int|
        0 <= k < places.len() ==> from <= (#[trigger] places[k]) < parts.len() && is_substring(
            parts[places[k]],
            tokens[k],
        )
    &&& forall|j: int, k: int| 0 <= j < k < places.len() ==> places[j] < places[k]
}

/// The components in which the search finds the tokens.
proof fn lemma_found_places(parts: Seq<Seq<char>>, tokens: Seq<Seq<char>>, from: int) -> (places:
    Seq<int>)
    requires
        0 <= from,
        tokens_in_order(parts, tokens, from),
    ensures
        placed_in_order(parts, tokens, from, places),
    decreases tokens.len(),
{
    if tokens.len() == 0 {
        Seq::<int>::empty()
    } else {
        let at = find_component(parts, tokens.first(), from);
        lemma_find_component_bounds(parts, tokens.first(), from);
        let rest = lemma_found_places(parts, tokens.drop_first(), at + 1);
        let places = seq![at] + rest;
        assert forall|k: int| 0 <= k < places.len() implies from <= (#[trigger] places[k])
            < parts.len() && is_substring(parts[places[k]], tokens[k]) by {
            if k > 0 {
                assert(places[k] == rest[k - 1]);
                assert(tokens[k] == tokens.drop_first()[k - 1]);
            }
        }
        assert forall|j: int, k: int| 0 <= j < k < places.len() implies places[j] < places[k] by {
            assert(places[k] == rest[k - 1]);
            if j > 0 {
                assert(places[j] == rest[j - 1]);
            }
        }
        places
    }
}

/// Where the tokens can be placed in order at all, the search finds them.
proof fn lemma_places_suffice(
    parts: Seq<Seq<char>>,
    tokens: Seq<Seq<char>>,
    from: int,
    places: Seq<int>,
)
    requires
        0 <= from,
        placed_in_order(parts, tokens, from, places),
    ensures
        tokens_in_order(parts, tokens, from),
    decreases tokens.len(),
{
    if tokens.len() > 0 {
        let at = find_component(parts, tokens.first(), from);
        lemma_find_component_bounds(parts, tokens.first(), from);
        assert(is_substring(parts[places[0]], tokens[0]));
        assert(at <= places[0]);
        let rest = places.drop_first();
        assert forall|k: int| 0 <= k < rest.len() implies at + 1 <= (#[trigger] rest[k])
            < parts.len() && is_substring(parts[rest[k]], tokens.drop_first()[k]) by {
            assert(rest[k] == places[k + 1]);
            assert(places[0] < places[k + 1]);
        }
        assert forall|j: int, k: int| 0 <= j < k < rest.len() implies rest[j] < rest[k] by {
            assert(rest[j] == places[j + 1] && rest[k] == places[k + 1]);
        }
        lemma_places_suffice(parts, tokens.drop_first(), at + 1, rest);
    }
}

/// The tokens are found in order exactly when they can be placed in order:
/// taking for each token the first component that holds it loses no match.
pub proof fn lemma_tokens_in_order(parts: Seq<Seq<char>>, tokens: Seq<Seq<char>>, from: int)
    requires
        0 <= from,
    ensures
        tokens_in_order(parts, tokens, from) <==> exists|places: Seq<int>|
            placed_in_order(parts, tokens, from, places),
{
    if tokens_in_order(parts, tokens, from) {
        let places = lemma_found_places(parts, tokens, from);
        assert(placed_in_order(parts, tokens, from, places));
    }
    if exists|places: Seq<int>| placed_in_order(parts, tokens, from, places) {
        let places = choose|places: Seq<int>| placed_in_order(parts, tokens, from, places);
        lemma_places_suffice(parts, tokens, from, places);
    }
}

/// Seeks `token` in the components from index `from` on.
fn seek_component(parts: &Vec<Vec<char>>, token: &Vec<char>, from: usize) -> (at: usize)
    ensures
        at == find_component(views(parts@), token@, from as int),
{
    let mut at: usize = from;
    while at < parts.len()
        invariant
            from <= at,
            find_component(views(parts@), token@, from as int) == find_component(
                views(parts@),
                token@,
                at as int,
            ),
        decreases parts.len() - at,
    {
        if contains(&parts[at], token) {
            return at;
        }
        at += 1;
    }
    parts.len()
}

/// Whether two character vectors hold the same characters.
fn same_chars(a: &Vec<char>, b: &Vec<char>) -> (r: bool)
    ensures
        r == (a@ == b@),
{
    if a.len() != b.len() {
        return false;
    }
    let mut i: usize = 0;
    while i < a.len()
        invariant
            i <= a.len(),
            a.len() == b.len(),
            forall|k: int| 0 <= k < i ==> a[k] == b[k],
        decreases a.len() - i,
    {
        if a[i] != b[i] {
            return false;
        }
        i += 1;
    }
    assert(a@ =~= b@);
    true
}

/// Matches `tokens` against the components `parts` of a path.
///
/// A token that is found nowhere after the component of the token before it
/// fails the match; the tokens after it are still sought, from where the
/// search stood.
pub fn match_components(parts: &Vec<Vec<char>>, tokens: &Vec<Vec<char>>) -> (r: (bool, bool))
    ensures
        r == component_match(views(parts@), views(tokens@)),
        parts.len() == 0 ==> r == (tokens.len() == 0, false),
{
    let mut in_order = true;
    let mut next: usize = 0;
    let mut k: usize = 0;
    assert(views(tokens@).skip(0) =~= views(tokens@));
    while k < tokens.len()
        invariant
            k <= tokens.len(),
            next <= parts.len(),
            tokens_in_order(views(parts@), views(tokens@), 0) == (in_order && tokens_in_order(
                views(parts@),
                views(tokens@).skip(k as int),
                next as int,
            )),
        decreases tokens.len() - k,
    {
        let at = seek_component(parts, &tokens[k], next);
        proof {
            let rest = views(tokens@).skip(k as int);
            assert(rest.first() == tokens[k as int]@);
            assert(rest.drop_first() =~= views(tokens@).skip(k + 1));
            lemma_find_component_bounds(views(parts@), tokens[k as int]@, next as int);
        }
        if at < parts.len() {
            next = at + 1;
        } else {
            in_order = false;
        }
        k += 1;
    }
    if tokens.len() == 0 || parts.len() == 0 {
        proof {
            if tokens.len() > 0 {
                lemma_find_component_bounds(views(parts@), views(tokens@).first(), 0);
            }
        }
        return (in_order, false);
    }
    let last_part = &parts[parts.len() - 1];
    let last_token = &tokens[tokens.len() - 1];
    assert(views(parts@).last() == last_part@);
    assert(views(tokens@).last() == last_token@);
    if !contains(last_part, last_token) {
        in_order = false;
    }
    (in_order, same_chars(last_part, last_token))
}

/// Matches `tokens` against the components of `path`.
pub fn match_path(path: &str, tokens: &Vec<Vec<char>>) -> (r: (bool, bool))
    ensures
        r == match_status(path@, views(tokens@)),
{
    let chars = chars_of(path);
    let parts = split_components(&chars);
    match_components(&parts, tokens)
}

} // verus!
