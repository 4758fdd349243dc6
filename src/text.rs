use vstd::prelude::*;

verus! {

/// Whether `c` is white space, as `char::is_whitespace` decides it
/// (the Unicode `White_Space` property).
pub uninterp spec fn white_space(c: char) -> bool;

/// The characters that `str::to_lowercase` returns for the characters `s`.
pub uninterp spec fn lower_of(s: Seq<char>) -> Seq<char>;

/// The words that follow in `s` after a word `cur` has been begun:
/// `cur` is closed by the next white space or by the end of `s`.
pub open spec fn words_after(s: Seq<char>, cur: Seq<char>) -> Seq<Seq<char>>
    decreases s.len(),
{
    if s.len() == 0 {
        if cur.len() == 0 { seq![] } else { seq![cur] }
    } else if white_space(s[0]) {
        let done: Seq<Seq<char>> = if cur.len() == 0 { seq![] } else { seq![cur] };
        done + words_after(s.drop_first(), seq![])
    } else {
        words_after(s.drop_first(), cur.push(s[0]))
    }
}

/// The words of `s`: its maximal runs of characters that are not white space,
/// in order. Runs of white space, leading and trailing ones included, only
/// separate words.
pub open spec fn words_of(s: Seq<char>) -> Seq<Seq<char>> {
    words_after(s, seq![])
}

/// The terms of `s`: its words, each lowercased.
pub open spec fn terms_of(s: Seq<char>) -> Seq<Seq<char>> {
    words_of(s).map_values(|w: Seq<char>| lower_of(w))
}

proof fn lemma_words_after_len(s: Seq<char>, cur: Seq<char>)
    ensures
        words_after(s, cur).len() <= s.len() + (if cur.len() == 0 { 0int } else { 1int }),
    decreases s.len(),
{
    if s.len() > 0 {
        lemma_words_after_len(s.drop_first(), seq![]);
        lemma_words_after_len(s.drop_first(), cur.push(s[0]));
    }
}

/// A string has no more words than characters.
pub proof fn lemma_words_len(s: Seq<char>)
    ensures
        words_of(s).len() <= s.len(),
        terms_of(s).len() <= s.len(),
{
    lemma_words_after_len(s, seq![]);
}

/// Relies on `str::to_lowercase`: its result depends on the characters of `s`
/// alone.
#[verifier::external_body]
pub(crate) fn lowercase(s: &str) -> (r: String)
    ensures
        r@ == lower_of(s@),
{
    s.to_lowercase()
}

/// Relies on `str::split_whitespace`: the substrings of `s` split at every run
/// of characters for which `char::is_whitespace` holds, empty ones left out,
/// in order.
#[verifier::external_body]
pub(crate) fn split_words(s: &str) -> (r: Vec<String>)
    ensures
        r@.map_values(|w: String| w@) == words_of(s@),
        forall|i: int, j: int|
            0 <= i < r@.len() && 0 <= j < r@[i]@.len() ==> !white_space(#[trigger] r@[i]@[j]),
{
    s.split_whitespace().map(String::from).collect()
}

} // verus!
