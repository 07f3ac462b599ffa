//! Tokens: splitting text on whitespace, and the two sequence markers.

use vstd::prelude::*;

verus! {

/// The token that marks the start of a sequence.
pub const SOS: &'static str = "__sos__";

/// The token that marks the end of a sequence.
pub const EOS: &'static str = "__eos__";

/// The characters that separate tokens: those with the Unicode property
/// `White_Space`.
pub open spec fn is_space(c: char) -> bool {
    let u = c as u32;
    ||| 0x09 <= u <= 0x0D
    ||| u == 0x20
    ||| u == 0x85
    ||| u == 0xA0
    ||| u == 0x1680
    ||| 0x2000 <= u <= 0x200A
    ||| u == 0x2028
    ||| u == 0x2029
    ||| u == 0x202F
    ||| u == 0x205F
    ||| u == 0x3000
}

/// The words of `s`: its maximal runs of characters that are not whitespace,
/// in order. Reading `s` from the left, a whitespace character adds nothing, a
/// character that follows a non-whitespace character extends the last word, and
/// any other character starts a new word.
pub open spec fn words(s: Seq<char>) -> Seq<Seq<char>>
    decreases s.len(),
{
    if s.len() == 0 {
        Seq::empty()
    } else {
        let before = words(s.drop_last());
        let c = s.last();
        if is_space(c) {
            before
        } else if s.len() >= 2 && !is_space(s[s.len() - 2]) {
            before.drop_last().push(before.last().push(c))
        } else {
            before.push(seq![c])
        }
    }
}

/// Whether `c` separates tokens.
pub fn is_whitespace(c: char) -> (b: bool)
    ensures
        b == is_space(c),
{
    let u: u32 = c as u32;
    (0x09 <= u && u <= 0x0D) || u == 0x20 || u == 0x85 || u == 0xA0 || u == 0x1680 || (0x2000 <= u
        && u <= 0x200A) || u == 0x2028 || u == 0x2029 || u == 0x202F || u == 0x205F || u == 0x3000
}

/// The characters of `s`, one element each.
pub(crate) fn chars_of(s: &str) -> (r: Vec<char>)
    ensures
        r@ == s@,
{
    let mut out: Vec<char> = Vec::new();
    for c in it: s.chars()
        invariant
            it.seq() == s@,
            out@ == s@.take(it.index()),
    {
        out.push(c);
    }
    out
}

/// No word is empty, and no word holds a whitespace character.
pub proof fn lemma_words_are_runs(s: Seq<char>)
    ensures
        forall|i: int|
            0 <= i < words(s).len() ==> (#[trigger] words(s)[i]).len() > 0 && forall|k: int|
                0 <= k < words(s)[i].len() ==> !is_space(#[trigger] words(s)[i][k]),
        s.len() > 0 && !is_space(s.last()) ==> words(s).len() > 0,
    decreases s.len(),
{
    if s.len() > 0 {
        let before = words(s.drop_last());
        let c = s.last();
        lemma_words_are_runs(s.drop_last());
        if is_space(c) {
        } else if s.len() >= 2 && !is_space(s[s.len() - 2]) {
            assert(s.drop_last().last() == s[s.len() - 2]);
            let last = before.last().push(c);
            assert forall|i: int| 0 <= i < words(s).len() implies (#[trigger] words(s)[i]).len() > 0
                && forall|k: int|
                0 <= k < words(s)[i].len() ==> !is_space(#[trigger] words(s)[i][k]) by {
                if i < before.len() - 1 {
                    assert(words(s)[i] == before[i]);
                } else {
                    assert(words(s)[i] == last);
                    assert forall|k: int| 0 <= k < last.len() implies !is_space(
                        #[trigger] last[k],
                    ) by {
                        if k < last.len() - 1 {
                            assert(last[k] == before.last()[k]);
                        }
                    }
                }
            }
        } else {
            assert forall|i: int| 0 <= i < words(s).len() implies (#[trigger] words(s)[i]).len() > 0
                && forall|k: int|
                0 <= k < words(s)[i].len() ==> !is_space(#[trigger] words(s)[i][k]) by {
                if i < before.len() {
                    assert(words(s)[i] == before[i]);
                } else {
                    assert(words(s)[i] == seq![c]);
                }
            }
        }
    }
}

/// Splits `text` on runs of whitespace. The tokens are the maximal runs of
/// other characters, in order and unchanged; none is empty.
pub fn tokenize(text: String) -> (r: Vec<String>)
    ensures
        r.deep_view() == words(text@),
        forall|i: int|
            0 <= i < r.len() ==> (#[trigger] r[i])@.len() > 0 && forall|k: int|
                0 <= k < r[i]@.len() ==> !is_space(#[trigger] r[i]@[k]),
{
    let source = text.as_str();
    let chars = chars_of(source);
    let mut out: Vec<String> = Vec::new();
    let mut start: usize = 0;
    let mut inside = false;
    let mut i: usize = 0;
    while i < chars.len()
        invariant
            chars@ == source@,
            i <= chars.len(),
            inside ==> start < i && !is_space(chars@[i - 1]),
            inside ==> words(chars@.take(i as int)) == out.deep_view().push(
                chars@.subrange(start as int, i as int),
            ),
            !inside ==> words(chars@.take(i as int)) == out.deep_view(),
            !inside && i > 0 ==> is_space(chars@[i - 1]),
        decreases chars.len() - i,
    {
        let ghost seen = chars@.take(i as int);
        let ghost next = chars@.take(i + 1);
        assert(next.drop_last() == seen);
        if is_whitespace(chars[i]) {
            if inside {
                out.push(source.substring_char(start, i).to_owned());
                inside = false;
            }
        } else if inside {
            assert(chars@.subrange(start as int, i as int).push(chars@[i as int])
                == chars@.subrange(start as int, i + 1));
        } else {
            assert(seq![chars@[i as int]] == chars@.subrange(i as int, i + 1));
            start = i;
            inside = true;
        }
        i += 1;
    }
    assert(chars@.take(i as int) == chars@);
    if inside {
        out.push(source.substring_char(start, i).to_owned());
    }
    proof {
        lemma_words_are_runs(text@);
        assert forall|i: int| 0 <= i < out.len() implies (#[trigger] out[i])@ == words(text@)[i] by {
            assert(out.deep_view()[i] == out[i]@);
        }
    }
    out
}

/// Puts the start marker in front of `tokens`.
pub fn sos(tokens: Vec<String>) -> (r: Vec<String>)
    ensures
        r.deep_view() == seq![SOS@] + tokens.deep_view(),
{
    let mut tokens = tokens;
    tokens.insert(0, SOS.to_owned());
    tokens
}

/// Puts the end marker behind `tokens`.
pub fn eos(tokens: Vec<String>) -> (r: Vec<String>)
    ensures
        r.deep_view() == tokens.deep_view().push(EOS@),
{
    let mut tokens = tokens;
    tokens.push(EOS.to_owned());
    tokens
}

} // verus!
