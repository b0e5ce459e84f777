//! What holds of every scan: which symbol is found at a position, what
//! becomes of a character that no symbol matches, and how a sentence follows
//! the chunks of its line.

use crate::parsing::{first_match, lemma_first_match_some, sentence_of, word_of};
use crate::text::{delimiter_count, lemma_split_len, split_on, DELIMITER};
use crate::token::Token;
use vstd::prelude::*;

verus! {

/// The symbol that `first_match` finds is the earliest of the alphabet that
/// matches, however long or short the texts of the later ones are; it finds
/// none only where no symbol matches.
pub proof fn lemma_first_match_is_earliest(alphabet: Seq<Token>, rest: Seq<char>)
    ensures
        match first_match(alphabet, rest) {
            Some(token) => exists|k: int|
                0 <= k < alphabet.len() && #[trigger] alphabet[k] == token
                    && token.repr().is_prefix_of(rest) && forall|j: int|
                    0 <= j < k ==> !(#[trigger] alphabet[j]).repr().is_prefix_of(rest),
            None => forall|j: int|
                0 <= j < alphabet.len() ==> !(#[trigger] alphabet[j]).repr().is_prefix_of(rest),
        },
    decreases alphabet.len(),
{
    if alphabet.len() > 0 {
        if alphabet[0].repr().is_prefix_of(rest) {
            assert(alphabet[0] == alphabet[0]);
        } else {
            let later = alphabet.drop_first();
            lemma_first_match_is_earliest(later, rest);
            match first_match(later, rest) {
                Some(token) => {
                    let k = choose|k: int|
                        0 <= k < later.len() && #[trigger] later[k] == token
                            && token.repr().is_prefix_of(rest) && forall|j: int|
                            0 <= j < k ==> !(#[trigger] later[j]).repr().is_prefix_of(rest);
                    assert(alphabet[k + 1] == token);
                    assert forall|j: int| 0 <= j < k + 1 implies !(#[trigger] alphabet[j])
                        .repr().is_prefix_of(rest) by {
                        if j > 0 {
                            assert(later[j - 1] == alphabet[j]);
                        }
                    }
                },
                None => {
                    assert forall|j: int| 0 <= j < alphabet.len() implies !(#[trigger] alphabet[j])
                        .repr().is_prefix_of(rest) by {
                        if j > 0 {
                            assert(later[j - 1] == alphabet[j]);
                        }
                    }
                },
            }
        }
    }
}

/// Greedy priority: a symbol that matches, and before which no symbol of the
/// alphabet matches, is the one found.
pub proof fn lemma_earliest_match_is_found(alphabet: Seq<Token>, rest: Seq<char>, k: int)
    requires
        0 <= k < alphabet.len(),
        alphabet[k].repr().is_prefix_of(rest),
        forall|j: int| 0 <= j < k ==> !(#[trigger] alphabet[j]).repr().is_prefix_of(rest),
    ensures
        first_match(alphabet, rest) == Some(alphabet[k]),
    decreases alphabet.len(),
{
    if k > 0 {
        let later = alphabet.drop_first();
        assert(!alphabet[0].repr().is_prefix_of(rest));
        assert(later[k - 1] == alphabet[k]);
        assert forall|j: int| 0 <= j < k - 1 implies !(#[trigger] later[j]).repr().is_prefix_of(rest) by {
            assert(later[j] == alphabet[j + 1]);
        }
        lemma_earliest_match_is_found(later, rest, k - 1);
    }
}

/// Two texts at which the same symbols match have the same first match.
pub proof fn lemma_first_match_agrees(alphabet: Seq<Token>, left: Seq<char>, right: Seq<char>)
    requires
        forall|k: int|
            0 <= k < alphabet.len() ==> (#[trigger] alphabet[k]).repr().is_prefix_of(left)
                == alphabet[k].repr().is_prefix_of(right),
    ensures
        first_match(alphabet, left) == first_match(alphabet, right),
    decreases alphabet.len(),
{
    if alphabet.len() > 0 {
        let later = alphabet.drop_first();
        assert(alphabet[0].repr().is_prefix_of(left) == alphabet[0].repr().is_prefix_of(right));
        assert forall|k: int| 0 <= k < later.len() implies (#[trigger] later[k]).repr()
            .is_prefix_of(left) == later[k].repr().is_prefix_of(right) by {
            assert(later[k] == alphabet[k + 1]);
        }
        lemma_first_match_agrees(later, left, right);
    }
}

/// A character that stands in no symbol's text is passed over: it ends the
/// symbols before it, leaves no symbol behind, and the scan goes on after it
/// as if from the start of a chunk.
pub proof fn lemma_unmatched_character_is_skipped(
    alphabet: Seq<Token>,
    before: Seq<char>,
    unmatched: char,
    after: Seq<char>,
)
    requires
        forall|k: int|
            0 <= k < alphabet.len() ==> !(#[trigger] alphabet[k]).repr().contains(unmatched),
    ensures
        word_of(alphabet, before.push(unmatched) + after) == word_of(alphabet, before) + word_of(
            alphabet,
            after,
        ),
    decreases before.len(),
{
    let whole = before.push(unmatched) + after;
    assert(whole[before.len() as int] == unmatched);
    assert forall|k: int| 0 <= k < alphabet.len() implies (#[trigger] alphabet[k]).repr()
        .is_prefix_of(whole) == alphabet[k].repr().is_prefix_of(before) by {
        let text = alphabet[k].repr();
        if text.is_prefix_of(whole) {
            if text.len() > before.len() {
                assert(whole.subrange(0, text.len() as int)[before.len() as int] == unmatched);
                assert(text[before.len() as int] == unmatched);
                assert(text.contains(unmatched));
            }
            assert(text =~= before.subrange(0, text.len() as int));
        }
        if text.is_prefix_of(before) {
            assert(text =~= whole.subrange(0, text.len() as int));
        }
    }
    lemma_first_match_agrees(alphabet, whole, before);
    lemma_first_match_some(alphabet, before);
    if before.len() == 0 {
        assert(first_match(alphabet, before) is None);
        assert(whole.skip(1) =~= after);
        assert(word_of(alphabet, before) + word_of(alphabet, after) =~= word_of(alphabet, after));
    } else {
        let step: int = match first_match(alphabet, before) {
            Some(token) => token.repr().len() as int,
            None => 1,
        };
        assert(whole.skip(step) =~= before.skip(step).push(unmatched) + after);
        lemma_unmatched_character_is_skipped(alphabet, before.skip(step), unmatched, after);
        if first_match(alphabet, before) is Some {
            let token = first_match(alphabet, before)->0;
            assert(seq![token] + (word_of(alphabet, before.skip(step)) + word_of(alphabet, after))
                =~= (seq![token] + word_of(alphabet, before.skip(step))) + word_of(
                alphabet,
                after,
            ));
        }
    }
}

/// Every symbol of a word comes from the alphabet, and a word has no more
/// symbols than its chunk has characters.
pub proof fn lemma_word_bounds(alphabet: Seq<Token>, chunk: Seq<char>)
    ensures
        word_of(alphabet, chunk).len() <= chunk.len(),
        forall|k: int|
            0 <= k < word_of(alphabet, chunk).len() ==> alphabet.contains(
                #[trigger] word_of(alphabet, chunk)[k],
            ),
    decreases chunk.len(),
{
    if chunk.len() > 0 {
        lemma_first_match_some(alphabet, chunk);
        match first_match(alphabet, chunk) {
            Some(token) => {
                lemma_word_bounds(alphabet, chunk.skip(token.repr().len() as int));
            },
            None => {
                lemma_word_bounds(alphabet, chunk.skip(1));
            },
        }
    }
}

/// A sentence has one word for every chunk of its line, empty chunks
/// included: one more than the line has delimiters. Each word is read from
/// its own chunk alone.
pub proof fn lemma_sentence_words(alphabet: Seq<Token>, line: Seq<char>)
    ensures
        sentence_of(alphabet, line).len() == delimiter_count(line, DELIMITER) + 1,
        forall|k: int|
            0 <= k < sentence_of(alphabet, line).len() ==> #[trigger] sentence_of(alphabet, line)[k]
                == word_of(alphabet, split_on(line, DELIMITER)[k]),
{
    lemma_split_len(line, DELIMITER);
}

/// The text that the symbols of `word` stand for, one after the other.
pub open spec fn text_of(word: Seq<Token>) -> Seq<char>
    decreases word.len(),
{
    if word.len() == 0 {
        Seq::empty()
    } else {
        word[0].repr() + text_of(word.drop_first())
    }
}

/// A word may lose characters of its chunk, and never gains any: its text
/// is no longer than the chunk, and where it is as long, no character was
/// passed over and the text is the chunk itself.
pub proof fn lemma_word_text(alphabet: Seq<Token>, chunk: Seq<char>)
    ensures
        text_of(word_of(alphabet, chunk)).len() <= chunk.len(),
        text_of(word_of(alphabet, chunk)).len() == chunk.len() ==> text_of(
            word_of(alphabet, chunk),
        ) == chunk,
    decreases chunk.len(),
{
    if chunk.len() == 0 {
        assert(text_of(word_of(alphabet, chunk)) =~= chunk);
    } else {
        lemma_first_match_some(alphabet, chunk);
        match first_match(alphabet, chunk) {
            Some(token) => {
                let rest = chunk.skip(token.repr().len() as int);
                let word = word_of(alphabet, chunk);
                lemma_word_text(alphabet, rest);
                assert(word.drop_first() =~= word_of(alphabet, rest));
                assert(text_of(word) == token.repr() + text_of(word_of(alphabet, rest)));
                if text_of(word).len() == chunk.len() {
                    assert(token.repr() + rest =~= chunk);
                }
            },
            None => {
                lemma_word_text(alphabet, chunk.skip(1));
            },
        }
    }
}

} // verus!
