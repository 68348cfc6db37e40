//! Cutting text: the symbols of the notation, and the fragment that lies
//! before what a parser of the host language left unread.

use vstd::prelude::*;

verus! {

/// `text` starts with `prefix`.
pub open spec fn begins_with(text: Seq<char>, prefix: Seq<char>) -> bool {
    prefix.len() <= text.len() && text.take(prefix.len() as int) == prefix
}

/// `text` without the spaces at its front.
pub open spec fn skip_spaces(text: Seq<char>) -> Seq<char>
    decreases text.len(),
{
    if text.len() > 0 && text[0] == ' ' {
        skip_spaces(text.skip(1))
    } else {
        text
    }
}

/// `text` without the spaces at its end.
pub open spec fn trim_end(text: Seq<char>) -> Seq<char>
    decreases text.len(),
{
    if text.len() > 0 && text.last() == ' ' {
        trim_end(text.drop_last())
    } else {
        text
    }
}

/// What follows `symbol` at the front of `text`, from the first character that
/// is no space; `None` where `text` does not start with `symbol`.
pub open spec fn after_symbol(text: Seq<char>, symbol: Seq<char>) -> Option<Seq<char>> {
    if begins_with(text, symbol) {
        Some(skip_spaces(text.skip(symbol.len() as int)))
    } else {
        None
    }
}

/// The fragment of `text` that lies before `rest`, without the spaces at its
/// end; `None` unless `rest` is the end of `text` and shorter than `text`.
pub open spec fn before_rest(text: Seq<char>, rest: Seq<char>) -> Option<Seq<char>> {
    if rest.len() < text.len() && text.skip(text.len() - rest.len()) == rest {
        Some(trim_end(text.take(text.len() - rest.len())))
    } else {
        None
    }
}

/// A letter of the basic alphabet, a digit or an underscore.
pub open spec fn word_char(c: char) -> bool {
    ||| 'a' <= c <= 'z'
    ||| 'A' <= c <= 'Z'
    ||| '0' <= c <= '9'
    ||| c == '_'
}

/// `text` is a plain identifier: word characters only, the first of them no
/// digit, and not the lone underscore, which binds nothing.
pub open spec fn identifier(text: Seq<char>) -> bool {
    &&& text.len() > 0
    &&& !('0' <= text[0] <= '9')
    &&& !(text.len() == 1 && text[0] == '_')
    &&& forall|i: int| 0 <= i < text.len() ==> word_char(#[trigger] text[i])
}

/// Skipping spaces makes a text no longer.
pub proof fn lemma_skip_spaces_len(text: Seq<char>)
    ensures
        skip_spaces(text).len() <= text.len(),
    decreases text.len(),
{
    if text.len() > 0 && text[0] == ' ' {
        lemma_skip_spaces_len(text.skip(1));
    }
}

/// What follows a symbol that is there is shorter than the text by the
/// symbol at least.
pub proof fn lemma_after_symbol_len(text: Seq<char>, symbol: Seq<char>)
    ensures
        after_symbol(text, symbol) matches Some(tail) ==> tail.len() + symbol.len() <= text.len(),
{
    if begins_with(text, symbol) {
        lemma_skip_spaces_len(text.skip(symbol.len() as int));
    }
}

proof fn lemma_trim_end(text: Seq<char>)
    ensures
        trim_end(text).len() <= text.len(),
        text.take(trim_end(text).len() as int) == trim_end(text),
        forall|i: int| trim_end(text).len() <= i < text.len() ==> text[i] == ' ',
        trim_end(text).len() > 0 ==> trim_end(text).last() != ' ',
    decreases text.len(),
{
    if text.len() > 0 && text.last() == ' ' {
        let init = text.drop_last();
        lemma_trim_end(init);
        assert(text.take(trim_end(text).len() as int) =~= init.take(trim_end(init).len() as int));
        assert forall|i: int| trim_end(text).len() <= i < text.len() implies text[i] == ' ' by {
            if i < init.len() {
                assert(init[i] == text[i]);
            }
        }
    } else {
        assert(text.take(text.len() as int) =~= text);
    }
}

/// A fragment is a slice of the text it was cut from: the text begins with
/// the fragment and ends with the rest, nothing but spaces lies between the
/// two, and the fragment does not end with a space.
pub proof fn law_fragment_is_a_slice(text: Seq<char>, rest: Seq<char>)
    requires
        before_rest(text, rest) is Some,
    ensures
        ({
            let fragment = before_rest(text, rest)->0;
            let cut = text.len() - rest.len();
            &&& fragment.len() <= cut
            &&& text.take(fragment.len() as int) == fragment
            &&& text.skip(cut) == rest
            &&& forall|i: int| fragment.len() <= i < cut ==> text[i] == ' '
            &&& fragment.len() > 0 ==> fragment.last() != ' '
        }),
{
    let cut = text.len() - rest.len();
    let front = text.take(cut);
    lemma_trim_end(front);
    let fragment = trim_end(front);
    assert(text.take(fragment.len() as int) =~= front.take(fragment.len() as int));
    assert forall|i: int| fragment.len() <= i < cut implies text[i] == ' ' by {
        assert(front[i] == text[i]);
    }
}

fn word(c: char) -> (b: bool)
    ensures
        b == word_char(c),
{
    ('a' <= c && c <= 'z') || ('A' <= c && c <= 'Z') || ('0' <= c && c <= '9') || c == '_'
}

/// Tells whether `text` is a plain identifier.
pub fn is_identifier(text: &str) -> (b: bool)
    ensures
        b == identifier(text@),
{
    let n = text.unicode_len();
    if n == 0 {
        return false;
    }
    let first = text.get_char(0);
    if ('0' <= first && first <= '9') || (n == 1 && first == '_') {
        return false;
    }
    let mut i: usize = 0;
    while i < n
        invariant
            i <= n,
            n == text@.len(),
            forall|j: int| 0 <= j < i ==> word_char(#[trigger] text@[j]),
        decreases n - i,
    {
        if !word(text.get_char(i)) {
            return false;
        }
        i += 1;
    }
    true
}

/// Takes `symbol` off the front of `text`, and the spaces behind it.
pub fn strip_symbol(text: &str, symbol: &str) -> (tail: Option<String>)
    ensures
        tail.deep_view() == after_symbol(text@, symbol@),
{
    let n = text.unicode_len();
    let m = symbol.unicode_len();
    if m > n {
        return None;
    }
    let front = text.substring_char(0, m).to_owned();
    let wanted = symbol.to_owned();
    assert(text@.subrange(0, m as int) =~= text@.take(m as int));
    if !(front == wanted) {
        return None;
    }
    let mut k: usize = m;
    while k < n && text.get_char(k) == ' '
        invariant
            m <= k <= n,
            n == text@.len(),
            skip_spaces(text@.skip(m as int)) == skip_spaces(text@.skip(k as int)),
        decreases n - k,
    {
        proof {
            assert(text@.skip(k as int)[0] == text@[k as int]);
            assert(text@.skip(k as int).skip(1) =~= text@.skip(k + 1));
        }
        k += 1;
    }
    proof {
        if k < n {
            assert(text@.skip(k as int)[0] == text@[k as int]);
        }
        assert(text@.subrange(k as int, n as int) =~= text@.skip(k as int));
    }
    Some(text.substring_char(k, n).to_owned())
}

/// Cuts off `text` the fragment that lies before `rest`: `rest` is what a
/// parser left of `text` after it read something off its front.
pub fn split_off_rest(text: &str, rest: &str) -> (fragment: Option<String>)
    ensures
        fragment.deep_view() == before_rest(text@, rest@),
{
    let n = text.unicode_len();
    let m = rest.unicode_len();
    if m >= n {
        return None;
    }
    let cut = n - m;
    let end_of_text = text.substring_char(cut, n).to_owned();
    let left = rest.to_owned();
    assert(text@.subrange(cut as int, n as int) =~= text@.skip(cut as int));
    if !(end_of_text == left) {
        return None;
    }
    let mut end: usize = cut;
    while end > 0 && text.get_char(end - 1) == ' '
        invariant
            end <= cut <= n,
            n == text@.len(),
            trim_end(text@.take(cut as int)) == trim_end(text@.take(end as int)),
        decreases end,
    {
        proof {
            assert(text@.take(end as int).last() == text@[end - 1]);
            assert(text@.take(end as int).drop_last() =~= text@.take(end - 1));
        }
        end -= 1;
    }
    proof {
        if end > 0 {
            assert(text@.take(end as int).last() == text@[end - 1]);
        }
        assert(text@.subrange(0, end as int) =~= text@.take(end as int));
    }
    Some(text.substring_char(0, end).to_owned())
}

} // verus!
