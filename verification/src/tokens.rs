//! Splitting a text into tokens at whitespace.

use vstd::prelude::*;
use vstd::string::*;

verus! {

/// Whether `c` is whitespace: a character with the Unicode property
/// `White_Space`. Space, tab and the line breaks are among them.
pub open spec fn is_whitespace_spec(c: char) -> bool {
    let code = c as u32;
    ||| 0x09 <= code <= 0x0D
    ||| code == 0x20
    ||| code == 0x85
    ||| code == 0xA0
    ||| code == 0x1680
    ||| 0x2000 <= code <= 0x200A
    ||| code == 0x2028
    ||| code == 0x2029
    ||| code == 0x202F
    ||| code == 0x205F
    ||| code == 0x3000
}

/// The length of the longest prefix of `text` that holds no whitespace.
pub open spec fn word_len(text: Seq<char>) -> nat
    decreases text.len(),
{
    if text.len() == 0 || is_whitespace_spec(text[0]) {
        0
    } else {
        1 + word_len(text.drop_first())
    }
}

/// A sequence of characters that is not empty and holds no whitespace.
pub open spec fn is_word(token: Seq<char>) -> bool {
    &&& token.len() > 0
    &&& forall|k: int| 0 <= k < token.len() ==> !is_whitespace_spec(#[trigger] token[k])
}

/// The tokens of `text`: its maximal runs of characters that are not
/// whitespace, from left to right.
///
/// Leading whitespace is dropped; then the longest prefix without whitespace
/// is a token, and the rest of the text gives the tokens that follow.
pub open spec fn tokenize_spec(text: Seq<char>) -> Seq<Seq<char>>
    decreases text.len(),
{
    if text.len() == 0 {
        Seq::empty()
    } else if is_whitespace_spec(text[0]) {
        tokenize_spec(text.drop_first())
    } else {
        proof {
            lemma_word_len_bound(text);
        }
        let len = word_len(text) as int;
        seq![text.take(len)] + tokenize_spec(text.skip(len))
    }
}

/// A word is no longer than the text that it begins.
pub proof fn lemma_word_len_bound(text: Seq<char>)
    ensures
        word_len(text) <= text.len(),
        text.len() > 0 && !is_whitespace_spec(text[0]) ==> word_len(text) >= 1,
    decreases text.len(),
{
    if text.len() > 0 && !is_whitespace_spec(text[0]) {
        lemma_word_len_bound(text.drop_first());
    }
}

/// A word holds no whitespace.
proof fn lemma_word_holds_no_whitespace(text: Seq<char>)
    ensures
        forall|k: int| 0 <= k < word_len(text) ==> !is_whitespace_spec(text[k]),
    decreases text.len(),
{
    if text.len() > 0 && !is_whitespace_spec(text[0]) {
        let rest = text.drop_first();
        lemma_word_holds_no_whitespace(rest);
        lemma_word_len_bound(text);
        assert forall|k: int| 0 <= k < word_len(text) implies !is_whitespace_spec(text[k]) by {
            if k > 0 {
                assert(text[k] == rest[k - 1]);
            }
        }
    }
}

/// No token is empty, and no token holds whitespace.
pub proof fn lemma_tokens_are_words(text: Seq<char>)
    ensures
        forall|i: int|
            0 <= i < tokenize_spec(text).len() ==> is_word(#[trigger] tokenize_spec(text)[i]),
    decreases text.len(),
{
    if text.len() == 0 {
        assert(tokenize_spec(text).len() == 0);
    } else if is_whitespace_spec(text[0]) {
        lemma_tokens_are_words(text.drop_first());
        assert(tokenize_spec(text) == tokenize_spec(text.drop_first()));
    } else {
        lemma_word_len_bound(text);
        lemma_word_holds_no_whitespace(text);
        let len = word_len(text) as int;
        lemma_tokens_are_words(text.skip(len));
        let rest = tokenize_spec(text.skip(len));
        assert forall|i: int| 0 <= i < tokenize_spec(text).len() implies is_word(
            #[trigger] tokenize_spec(text)[i],
        ) by {
            if i > 0 {
                assert(tokenize_spec(text)[i] == rest[i - 1]);
            } else {
                let word = text.take(len);
                assert(tokenize_spec(text)[0] == word);
                assert forall|k: int| 0 <= k < word.len() implies !is_whitespace_spec(
                    #[trigger] word[k],
                ) by {
                    assert(word[k] == text[k]);
                }
            }
        }
    }
}

/// Whether `c` is whitespace.
pub fn is_whitespace(c: char) -> (white: bool)
    ensures
        white == is_whitespace_spec(c),
{
    let code: u32 = c as u32;
    (0x09 <= code && code <= 0x0D) || code == 0x20 || code == 0x85 || code == 0xA0 || code
        == 0x1680 || (0x2000 <= code && code <= 0x200A) || code == 0x2028 || code == 0x2029
        || code == 0x202F || code == 0x205F || code == 0x3000
}

/// A run of characters without whitespace that ends at whitespace, or at the
/// end of the text, is the word that begins at its first character.
proof fn lemma_word_len_run(text: Seq<char>, start: int, end: int)
    requires
        0 <= start <= end <= text.len(),
        forall|k: int| start <= k < end ==> !is_whitespace_spec(text[k]),
        end == text.len() || is_whitespace_spec(text[end]),
    ensures
        word_len(text.skip(start)) == end - start,
    decreases end - start,
{
    if start < end {
        lemma_word_len_run(text, start + 1, end);
        assert(text.skip(start).drop_first() =~= text.skip(start + 1));
    }
}

/// Whitespace at `pos` adds nothing to the tokens that begin there.
proof fn lemma_tokens_after_whitespace(text: Seq<char>, pos: int)
    requires
        0 <= pos < text.len(),
        is_whitespace_spec(text[pos]),
    ensures
        tokenize_spec(text.skip(pos)) == tokenize_spec(text.skip(pos + 1)),
{
    assert(text.skip(pos).drop_first() =~= text.skip(pos + 1));
}

/// A word from `start` to `end` is the first of the tokens that begin at
/// `start`, and the others are the tokens that begin at `end`.
proof fn lemma_tokens_after_word(text: Seq<char>, start: int, end: int)
    requires
        0 <= start < end <= text.len(),
        forall|k: int| start <= k < end ==> !is_whitespace_spec(text[k]),
        end == text.len() || is_whitespace_spec(text[end]),
    ensures
        tokenize_spec(text.skip(start)) == seq![text.subrange(start, end)] + tokenize_spec(
            text.skip(end),
        ),
{
    lemma_word_len_run(text, start, end);
    assert(text.skip(start).take(end - start) =~= text.subrange(start, end));
    assert(text.skip(start).skip(end - start) =~= text.skip(end));
}

/// Splits `text` at whitespace into its tokens, in the order in which they
/// stand in the text. Each token is a slice of `text`.
///
/// The text is read once; each token is then cut out by counting characters
/// from the start of the text.
pub fn tokenize<'a>(text: &'a str) -> (tokens: Vec<&'a str>)
    ensures
        tokens.deep_view() == tokenize_spec(text@),
        forall|i: int| 0 <= i < tokens.len() ==> is_word(#[trigger] tokens[i]@),
{
    proof {
        lemma_tokens_are_words(text@);
    }
    // `len` bounds the positions below, so that they cannot overflow.
    let len = text.unicode_len();
    let mut tokens: Vec<&'a str> = Vec::new();
    let mut start: usize = 0;
    let mut inside = false;
    let mut pos: usize = 0;
    assert(text@.skip(0) =~= text@);
    assert(tokens.deep_view() + tokenize_spec(text@) =~= tokenize_spec(text@));
    for c in it: text.chars()
        invariant
            len == text@.len(),
            it.seq() == text@,
            pos == it.index(),
            pos <= len,
            !inside ==> tokenize_spec(text@) == tokens.deep_view() + tokenize_spec(
                text@.skip(pos as int),
            ),
            inside ==> start < pos,
            inside ==> tokenize_spec(text@) == tokens.deep_view() + tokenize_spec(
                text@.skip(start as int),
            ),
            inside ==> forall|k: int| start <= k < pos ==> !is_whitespace_spec(text@[k]),
    {
        assert(c == text@[pos as int]);
        if is_whitespace(c) {
            if inside {
                let token = text.substring_char(start, pos);
                proof {
                    lemma_tokens_after_word(text@, start as int, pos as int);
                }
                let ghost before = tokens.deep_view();
                tokens.push(token);
                assert(tokens.deep_view() =~= before.push(token@));
                inside = false;
            }
            proof {
                lemma_tokens_after_whitespace(text@, pos as int);
            }
        } else if !inside {
            start = pos;
            inside = true;
        }
        pos = pos + 1;
    }
    if inside {
        let token = text.substring_char(start, pos);
        proof {
            lemma_tokens_after_word(text@, start as int, pos as int);
        }
        let ghost before = tokens.deep_view();
        tokens.push(token);
        assert(tokens.deep_view() =~= before.push(token@));
    }
    assert(tokenize_spec(text@.skip(pos as int)) =~= Seq::<Seq<char>>::empty());
    assert forall|i: int| 0 <= i < tokens.len() implies is_word(#[trigger] tokens[i]@) by {
        assert(tokens@[i]@ == tokens.deep_view()[i]);
        assert(is_word(tokenize_spec(text@)[i]));
    }
    tokens
}

} // verus!
