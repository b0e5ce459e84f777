//! The tokenizer: a greedy scanner that tries the symbols of an alphabet in
//! their declared order at every position of a chunk.

use crate::text::{
    chunk_views, fold_lowercase, lemma_encode_concat, lemma_encode_len,
    lemma_prefix_is_char_boundary, lowercase_of, slice_between, split, split_on, starts_with,
    utf8_len, DELIMITER,
};
use crate::token::{alphabet, alphabet_order, Token};
use vstd::prelude::*;
use vstd::std_specs::iter::IteratorSpec;
use vstd::string::StringSliceAdditionalSpecFns;
use vstd::utf8::{encode_utf8, is_char_boundary};

verus! {

/// The symbols of one chunk of the input, in order.
pub type StenoWord = Vec<Token>;

/// The words of one line of input, one for every chunk.
pub type StenoSentence = Vec<StenoWord>;

/// A symbol found at the start of some text, with the number of bytes that
/// its text takes up there: the position at which the rest of the text
/// begins.
#[derive(Clone, Copy, Debug, PartialEq, Eq, Structural)]
pub struct ProcessedToken {
    pub consumed_chars: usize,
    pub token: Token,
}

/// The first symbol of `alphabet`, in its order, whose text `rest` starts
/// with; `None` where `rest` starts with none of them.
pub open spec fn first_match(alphabet: Seq<Token>, rest: Seq<char>) -> Option<Token>
    decreases alphabet.len(),
{
    if alphabet.len() == 0 {
        None
    } else if alphabet[0].repr().is_prefix_of(rest) {
        Some(alphabet[0])
    } else {
        first_match(alphabet.drop_first(), rest)
    }
}

/// A symbol that `first_match` finds is one of the alphabet, and the text
/// starts with it.
pub proof fn lemma_first_match_some(alphabet: Seq<Token>, rest: Seq<char>)
    ensures
        first_match(alphabet, rest) matches Some(token) ==> alphabet.contains(token)
            && token.repr().is_prefix_of(rest) && 1 <= token.repr().len() <= rest.len(),
    decreases alphabet.len(),
{
    if alphabet.len() > 0 {
        if alphabet[0].repr().is_prefix_of(rest) {
            assert(alphabet.contains(alphabet[0]));
        } else {
            lemma_first_match_some(alphabet.drop_first(), rest);
            if first_match(alphabet, rest) is Some {
                let token = first_match(alphabet, rest)->0;
                let k = choose|k: int|
                    0 <= k < alphabet.drop_first().len() && alphabet.drop_first()[k] == token;
                assert(alphabet[k + 1] == token);
            }
        }
    }
}

/// The symbols that the scanner reads from `chunk`, from left to right: at
/// every position the first symbol of `alphabet` that matches there, after
/// which the scan goes on behind its text; a character at which no symbol
/// matches is passed over and leaves nothing behind.
pub open spec fn word_of(alphabet: Seq<Token>, chunk: Seq<char>) -> Seq<Token>
    decreases chunk.len(),
    via word_of_decreases
{
    if chunk.len() == 0 {
        Seq::empty()
    } else {
        match first_match(alphabet, chunk) {
            Some(token) => seq![token] + word_of(alphabet, chunk.skip(token.repr().len() as int)),
            None => word_of(alphabet, chunk.skip(1)),
        }
    }
}

#[via_fn]
proof fn word_of_decreases(alphabet: Seq<Token>, chunk: Seq<char>) {
    lemma_first_match_some(alphabet, chunk);
}

/// The words of a line: one for every chunk between delimiters.
pub open spec fn sentence_of(alphabet: Seq<Token>, line: Seq<char>) -> Seq<Seq<Token>> {
    split_on(line, DELIMITER).map_values(|chunk: Seq<char>| word_of(alphabet, chunk))
}

/// The views of the words in `sentence`.
pub open spec fn word_views(sentence: Seq<StenoWord>) -> Seq<Seq<Token>> {
    sentence.map_values(|word: StenoWord| word@)
}

/// Looks for the first symbol of `alphabet`, in its order, that `input`
/// starts with. `Err` carries the symbol found and the number of bytes that
/// its text takes up, which is a position between two characters of
/// `input`; `Ok` says that no symbol matches at the start of `input`.
pub fn tokenise(alphabet: &[Token], input: &str) -> (res: Result<(), ProcessedToken>)
    ensures
        match res {
            Ok(()) => first_match(alphabet@, input@) is None,
            Err(found) => first_match(alphabet@, input@) == Some(found.token)
                && found.consumed_chars == encode_utf8(found.token.repr()).len()
                && is_char_boundary(input.spec_bytes(), found.consumed_chars as int),
        },
{
    let mut j: usize = 0;
    assert(alphabet@.skip(0) =~= alphabet@);
    while j < alphabet.len()
        invariant
            j <= alphabet.len(),
            first_match(alphabet@, input@) == first_match(alphabet@.skip(j as int), input@),
        decreases alphabet.len() - j,
    {
        let token = alphabet[j];
        if starts_with(input, token.as_str()) {
            proof {
                let text = token.repr();
                let rest = input@.skip(text.len() as int);
                assert(text + rest =~= input@);
                lemma_prefix_is_char_boundary(text, rest);
            }
            return Err(ProcessedToken { consumed_chars: token.text_len(), token });
        }
        assert(alphabet@.skip(j as int).drop_first() =~= alphabet@.skip(j + 1));
        j += 1;
    }
    Ok(())
}

/// Reads the symbols of one chunk. The cursor counts bytes: it moves past a
/// symbol by the bytes of its text, and past a character that no symbol
/// matches by the bytes of that character.
pub fn parse_word(alphabet: &[Token], chunk: &str) -> (word: StenoWord)
    ensures
        word@ == word_of(alphabet@, chunk@),
{
    broadcast use vstd::string::group_string_axioms;

    let mut tokens: Vec<Token> = Vec::new();
    let mut char_index: usize = 0;
    let ghost mut read: int = 0;
    let end = chunk.as_bytes().len();
    assert(chunk@.skip(0) =~= chunk@);
    assert(chunk@.take(0) =~= Seq::<char>::empty());
    assert(chunk@.take(chunk@.len() as int) =~= chunk@);
    while char_index < end
        invariant
            0 <= read <= chunk@.len(),
            end == encode_utf8(chunk@).len(),
            end == encode_utf8(chunk@.take(chunk@.len() as int)).len(),
            char_index == encode_utf8(chunk@.take(read)).len(),
            tokens@ + word_of(alphabet@, chunk@.skip(read)) == word_of(alphabet@, chunk@),
        decreases chunk@.len() - read,
    {
        let ghost done = chunk@.take(read);
        let ghost left = chunk@.skip(read);
        proof {
            assert(done + left =~= chunk@);
            lemma_encode_concat(done, left);
            assert(left.len() > 0);
        }
        let rest = slice_between(chunk, char_index, end, Ghost(read), Ghost(chunk@.len() as int));
        assert(rest@ =~= left);
        proof {
            lemma_first_match_some(alphabet@, left);
        }
        let ghost step: int;
        let width: usize;
        match tokenise(alphabet, rest) {
            Err(found) => {
                proof {
                    step = found.token.repr().len() as int;
                    assert(left.take(step) =~= found.token.repr());
                    assert(tokens@.push(found.token) + word_of(alphabet@, left.skip(step))
                        =~= tokens@ + word_of(alphabet@, left));
                }
                tokens.push(found.token);
                width = found.consumed_chars;
            },
            Ok(()) => {
                let mut letters = rest.chars();
                let first = letters.next();
                proof {
                    step = 1;
                    assert(left.take(1) =~= seq![left[0]]);
                }
                // The rest is not empty here, so it has a first character.
                width = match first {
                    Some(c) => utf8_len(c),
                    None => 1,
                };
            },
        }
        proof {
            assert(chunk@.take(read + step) =~= done + left.take(step));
            assert(left.skip(step) =~= chunk@.skip(read + step));
            lemma_encode_concat(done, left.take(step));
            assert(chunk@.take(read + step) + chunk@.skip(read + step) =~= chunk@);
            lemma_encode_concat(chunk@.take(read + step), chunk@.skip(read + step));
        }
        char_index = char_index + width;
        proof {
            read = read + step;
        }
    }
    proof {
        let done = chunk@.take(read);
        let left = chunk@.skip(read);
        assert(done + left =~= chunk@);
        lemma_encode_concat(done, left);
        lemma_encode_len(left);
        assert(left =~= Seq::<char>::empty());
        assert(tokens@ + Seq::<Token>::empty() =~= tokens@);
    }
    tokens
}

/// Tokenizes a line that is already in lowercase: cuts it at every
/// delimiter and reads one word from every chunk.
pub fn parse_lowercase(alphabet: &[Token], line: &str) -> (sentence: StenoSentence)
    ensures
        word_views(sentence@) == sentence_of(alphabet@, line@),
{
    let chunks = split(line, DELIMITER);
    let mut sentence: Vec<StenoWord> = Vec::new();
    let mut n: usize = 0;
    while n < chunks.len()
        invariant
            n <= chunks.len(),
            chunk_views(chunks@) == split_on(line@, DELIMITER),
            sentence@.len() == n,
            forall|k: int| 0 <= k < n ==> (#[trigger] sentence@[k])@ == word_of(
                alphabet@,
                chunks@[k]@,
            ),
        decreases chunks.len() - n,
    {
        let word = parse_word(alphabet, chunks[n]);
        sentence.push(word);
        n += 1;
    }
    assert(word_views(sentence@) =~= sentence_of(alphabet@, line@)) by {
        assert forall|k: int| 0 <= k < sentence@.len() implies word_views(sentence@)[k]
            == sentence_of(alphabet@, line@)[k] by {
            assert(chunk_views(chunks@)[k] == chunks@[k]@);
        }
    }
    sentence
}

/// Tokenizes a line with the symbols tried in the order of `alphabet`: folds
/// the line to lowercase, then reads it as `parse_lowercase` does.
pub fn parse_with(alphabet: &[Token], input: &str) -> (sentence: StenoSentence)
    ensures
        word_views(sentence@) == sentence_of(alphabet@, lowercase_of(input@)),
{
    let folded = fold_lowercase(input);
    parse_lowercase(alphabet, folded.as_str())
}

/// Tokenizes a line with the alphabet in its declared order. Every line has
/// a sentence: the result is never `Err`.
pub fn parse(input: &str) -> (res: Result<StenoSentence, ()>)
    ensures
        res is Ok,
        word_views(res->Ok_0@) == sentence_of(alphabet_order(), lowercase_of(input@)),
{
    let symbols = alphabet();
    Ok(parse_with(symbols.as_slice(), input))
}

} // verus!
