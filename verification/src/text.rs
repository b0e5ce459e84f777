//! Text handling for the tokenizer: case folding, comparing the start of a
//! text, and splitting a line into chunks.
//!
//! What a text holds is stated over its characters. A position in a string,
//! and the length of a piece of it, count bytes of its UTF-8 encoding, the
//! unit by which strings are sliced; every position that the tokenizer uses
//! lies between two characters.

use vstd::prelude::*;
use vstd::std_specs::iter::IteratorSpec;
use vstd::string::StringSliceAdditionalSpecFns;
use vstd::utf8::{
    encode_utf8, encode_utf8_decode_utf8, encode_utf8_first_scalar, encode_utf8_valid_utf8,
    is_char_boundary, pop_first_scalar,
};

verus! {

/// The character that separates the chunks of a line.
pub const DELIMITER: char = ' ';

/// The lowercase form of a text, as `str::to_lowercase` of the standard
/// library returns it. Nothing is stated of what that form looks like.
pub uninterp spec fn lowercase_of(text: Seq<char>) -> Seq<char>;

/// Folds `text` to lowercase by a call of `str::to_lowercase` of the
/// standard library.
///
/// The body is not verified. The contract gives the result its name and
/// claims no more than that: the lowercase form depends on the characters of
/// the text alone.
#[verifier::external_body]
pub(crate) fn fold_lowercase(text: &str) -> (folded: String)
    ensures
        folded@ == lowercase_of(text@),
{
    text.to_lowercase()
}

/// The number of bytes that `c` takes up in UTF-8, by a call of
/// `char::len_utf8` of the standard library.
///
/// The body is not verified. The contract says what the documentation of
/// that method says: the result is the length of the character's encoding.
#[verifier::external_body]
pub(crate) fn utf8_len(c: char) -> (len: usize)
    ensures
        len == encode_utf8(seq![c]).len(),
{
    c.len_utf8()
}

/// Whether `input` begins with the characters of `text`.
pub fn starts_with(input: &str, text: &str) -> (found: bool)
    ensures
        found == text@.is_prefix_of(input@),
{
    broadcast use vstd::string::group_string_axioms;

    let mut others = input.chars();
    let letters = text.chars();
    let ghost mut matched: int = 0;
    for c in it: letters
        invariant
            it.seq() == text@,
            matched == it.index(),
            others.remaining() == input@.skip(matched),
            matched <= input@.len(),
            input@.take(matched) == text@.take(matched),
    {
        match others.next() {
            Some(d) => {
                if d != c {
                    assert(!text@.is_prefix_of(input@)) by {
                        if text@.is_prefix_of(input@) {
                            assert(input@.subrange(0, text@.len() as int)[matched] == text@[matched]);
                        }
                    }
                    return false;
                }
                assert(input@.skip(matched).drop_first() =~= input@.skip(matched + 1));
                assert(input@.take(matched + 1) =~= input@.take(matched).push(input@[matched]));
                assert(text@.take(matched + 1) =~= text@.take(matched).push(text@[matched]));
                proof {
                    matched = matched + 1;
                }
            },
            None => {
                return false;
            },
        }
    }
    assert(text@.take(matched) =~= text@);
    assert(input@.take(matched) =~= input@.subrange(0, text@.len() as int));
    true
}

/// The encoding of two texts, one after the other, is the encoding of the
/// first followed by that of the second.
pub proof fn lemma_encode_concat(first: Seq<char>, second: Seq<char>)
    ensures
        encode_utf8(first + second) == encode_utf8(first) + encode_utf8(second),
    decreases first.len(),
{
    if first.len() == 0 {
        assert(first + second =~= second);
        assert(encode_utf8(first) + encode_utf8(second) =~= encode_utf8(second));
    } else {
        lemma_encode_concat(first.drop_first(), second);
        assert((first + second).drop_first() =~= first.drop_first() + second);
        assert(encode_utf8(first + second) =~= encode_utf8(first) + encode_utf8(second));
    }
}

/// A text takes at least one byte for every character.
pub proof fn lemma_encode_len(text: Seq<char>)
    ensures
        encode_utf8(text).len() >= text.len(),
    decreases text.len(),
{
    if text.len() > 0 {
        lemma_encode_len(text.drop_first());
    }
}

/// The end of a text's beginning lies between two characters: the number
/// of bytes of the first part of a text is a character boundary of the whole.
pub proof fn lemma_prefix_is_char_boundary(first: Seq<char>, second: Seq<char>)
    ensures
        is_char_boundary(encode_utf8(first + second), encode_utf8(first).len() as int),
    decreases first.len(),
{
    let whole = first + second;
    let bytes = encode_utf8(whole);
    encode_utf8_valid_utf8(whole);
    if first.len() > 0 {
        lemma_encode_concat(first, second);
        encode_utf8_first_scalar(whole);
        assert(whole.drop_first() =~= first.drop_first() + second);
        assert(pop_first_scalar(bytes) =~= encode_utf8(whole.drop_first()));
        lemma_prefix_is_char_boundary(first.drop_first(), second);
    }
}

/// The piece of `text` between two positions that lie between characters:
/// `from` after the first `skipped` characters, `to` after the first `kept`.
pub(crate) fn slice_between<'a>(
    text: &'a str,
    from: usize,
    to: usize,
    Ghost(skipped): Ghost<int>,
    Ghost(kept): Ghost<int>,
) -> (piece: &'a str)
    requires
        0 <= skipped <= kept <= text@.len(),
        from == encode_utf8(text@.take(skipped)).len(),
        to == encode_utf8(text@.take(kept)).len(),
    ensures
        piece@ == text@.subrange(skipped, kept),
{
    let ghost front = text@.take(kept);
    let ghost back = text@.skip(kept);
    proof {
        assert(front + back =~= text@);
        lemma_prefix_is_char_boundary(front, back);
        lemma_encode_concat(front, back);
    }
    let (start, _) = text.split_at(to);
    proof {
        assert(start.spec_bytes() =~= encode_utf8(front));
        encode_utf8_decode_utf8(start@);
        encode_utf8_decode_utf8(front);
    }
    let ghost before = front.take(skipped);
    let ghost piece_chars = front.skip(skipped);
    proof {
        assert(before =~= text@.take(skipped));
        assert(before + piece_chars =~= front);
        lemma_prefix_is_char_boundary(before, piece_chars);
        lemma_encode_concat(before, piece_chars);
    }
    let (_, piece) = start.split_at(from);
    proof {
        assert(piece.spec_bytes() =~= encode_utf8(piece_chars));
        encode_utf8_decode_utf8(piece@);
        encode_utf8_decode_utf8(piece_chars);
        assert(piece_chars =~= text@.subrange(skipped, kept));
    }
    piece
}

/// The chunks that `text` falls into when it is cut at every occurrence of
/// `delimiter`: one more chunk than there are delimiters, none of them
/// trimmed, merged or left out.
pub open spec fn split_on(text: Seq<char>, delimiter: char) -> Seq<Seq<char>>
    decreases text.len(),
{
    if text.len() == 0 {
        seq![Seq::<char>::empty()]
    } else {
        let before = split_on(text.drop_last(), delimiter);
        if text.last() == delimiter {
            before.push(Seq::<char>::empty())
        } else {
            before.drop_last().push(before.last().push(text.last()))
        }
    }
}

/// The views of the chunks in `chunks`.
pub open spec fn chunk_views(chunks: Seq<&str>) -> Seq<Seq<char>> {
    chunks.map_values(|chunk: &str| chunk@)
}

/// Cuts `text` at every occurrence of `delimiter`.
pub fn split<'a>(text: &'a str, delimiter: char) -> (chunks: Vec<&'a str>)
    ensures
        chunk_views(chunks@) == split_on(text@, delimiter),
{
    broadcast use vstd::string::group_string_axioms;

    let total = text.as_bytes().len();
    let mut chunks: Vec<&'a str> = Vec::new();
    let mut start: usize = 0;
    let mut end: usize = 0;
    let ghost mut first: int = 0;
    let ghost mut seen: int = 0;
    assert(text@.take(0) =~= Seq::<char>::empty());
    assert(text@.subrange(0, 0) =~= Seq::<char>::empty());
    assert(chunk_views(chunks@).push(text@.subrange(0, 0)) =~= seq![Seq::<char>::empty()]);
    let letters = text.chars();
    for c in it: letters
        invariant
            it.seq() == text@,
            seen == it.index(),
            0 <= first <= seen <= text@.len(),
            total == encode_utf8(text@).len(),
            start == encode_utf8(text@.take(first)).len(),
            end == encode_utf8(text@.take(seen)).len(),
            chunk_views(chunks@).push(text@.subrange(first, seen)) == split_on(
                text@.take(seen),
                delimiter,
            ),
    {
        let ghost before = chunk_views(chunks@).push(text@.subrange(first, seen));
        let width = utf8_len(c);
        proof {
            let prefix = text@.take(seen + 1);
            assert(prefix.drop_last() =~= text@.take(seen));
            assert(prefix.last() == c);
            assert(prefix =~= text@.take(seen) + seq![c]);
            lemma_encode_concat(text@.take(seen), seq![c]);
            assert(prefix + text@.skip(seen + 1) =~= text@);
            lemma_encode_concat(prefix, text@.skip(seen + 1));
            assert(end + width == encode_utf8(prefix).len());
            assert(end + width <= total);
        }
        if c == delimiter {
            let chunk = slice_between(text, start, end, Ghost(first), Ghost(seen));
            chunks.push(chunk);
            start = end + width;
            proof {
                first = seen + 1;
                assert(chunk_views(chunks@) =~= before);
                assert(text@.subrange(first, seen + 1) =~= Seq::<char>::empty());
            }
        } else {
            assert(text@.subrange(first, seen + 1) =~= text@.subrange(first, seen).push(c));
            assert(before.drop_last() =~= chunk_views(chunks@));
        }
        end = end + width;
        proof {
            seen = seen + 1;
        }
    }
    assert(text@.take(seen) =~= text@);
    let chunk = slice_between(text, start, end, Ghost(first), Ghost(seen));
    let ghost done = chunk_views(chunks@);
    chunks.push(chunk);
    assert(chunk_views(chunks@) =~= done.push(chunk@));
    chunks
}

/// The number of places at which `delimiter` stands in `text`.
pub open spec fn delimiter_count(text: Seq<char>, delimiter: char) -> nat
    decreases text.len(),
{
    if text.len() == 0 {
        0
    } else if text.last() == delimiter {
        delimiter_count(text.drop_last(), delimiter) + 1
    } else {
        delimiter_count(text.drop_last(), delimiter)
    }
}

/// The text that reads `chunks` one after the other with one `delimiter`
/// between every two neighbours.
pub open spec fn join(chunks: Seq<Seq<char>>, delimiter: char) -> Seq<char>
    decreases chunks.len(),
{
    if chunks.len() == 0 {
        Seq::empty()
    } else if chunks.len() == 1 {
        chunks[0]
    } else {
        join(chunks.drop_last(), delimiter).push(delimiter) + chunks.last()
    }
}

/// A text falls into one more chunk than it holds delimiters: no chunk is
/// dropped, not even an empty one.
pub proof fn lemma_split_len(text: Seq<char>, delimiter: char)
    ensures
        split_on(text, delimiter).len() == delimiter_count(text, delimiter) + 1,
    decreases text.len(),
{
    if text.len() > 0 {
        lemma_split_len(text.drop_last(), delimiter);
    }
}

/// No chunk of a text holds the delimiter.
pub proof fn lemma_split_chunks_hold_no_delimiter(text: Seq<char>, delimiter: char)
    ensures
        forall|k: int|
            0 <= k < split_on(text, delimiter).len() ==> !(#[trigger] split_on(
                text,
                delimiter,
            )[k]).contains(delimiter),
    decreases text.len(),
{
    if text.len() > 0 {
        lemma_split_chunks_hold_no_delimiter(text.drop_last(), delimiter);
        lemma_split_len(text.drop_last(), delimiter);
        let before = split_on(text.drop_last(), delimiter);
        if text.last() != delimiter {
            let grown = before.last().push(text.last());
            assert(!before.last().contains(delimiter));
            assert(!grown.contains(delimiter)) by {
                if grown.contains(delimiter) {
                    let j = choose|j: int| 0 <= j < grown.len() && grown[j] == delimiter;
                    if j < before.last().len() {
                        assert(before.last()[j] == delimiter);
                    }
                }
            }
        }
    }
}

/// Joining the chunks of a text with the delimiter gives the text back:
/// splitting loses no character.
pub proof fn lemma_join_split(text: Seq<char>, delimiter: char)
    ensures
        join(split_on(text, delimiter), delimiter) == text,
    decreases text.len(),
{
    if text.len() > 0 {
        let shorter = text.drop_last();
        let before = split_on(shorter, delimiter);
        lemma_join_split(shorter, delimiter);
        lemma_split_len(shorter, delimiter);
        if text.last() == delimiter {
            let chunks = before.push(Seq::<char>::empty());
            assert(chunks.drop_last() =~= before);
            assert(join(chunks, delimiter) =~= shorter.push(delimiter));
            assert(shorter.push(delimiter) =~= text);
        } else {
            let chunks = before.drop_last().push(before.last().push(text.last()));
            if before.len() == 1 {
                assert(join(chunks, delimiter) =~= before[0].push(text.last()));
            } else {
                assert(chunks.drop_last() =~= before.drop_last());
                assert(join(chunks, delimiter) =~= join(before, delimiter).push(text.last()));
            }
            assert(shorter.push(text.last()) =~= text);
        }
    }
}

/// Splitting is the only way to cut a text into chunks free of the
/// delimiter: chunks that hold no delimiter are the chunks of their join.
pub proof fn lemma_split_join(chunks: Seq<Seq<char>>, delimiter: char)
    requires
        chunks.len() >= 1,
        forall|k: int| 0 <= k < chunks.len() ==> !(#[trigger] chunks[k]).contains(delimiter),
    ensures
        split_on(join(chunks, delimiter), delimiter) == chunks,
    decreases chunks.len(), chunks.last().len(),
{
    let text = join(chunks, delimiter);
    let tail = chunks.last();
    if tail.len() == 0 {
        if chunks.len() == 1 {
            assert(text =~= Seq::<char>::empty());
            assert(chunks =~= seq![Seq::<char>::empty()]);
        } else {
            lemma_split_join(chunks.drop_last(), delimiter);
            assert(text =~= join(chunks.drop_last(), delimiter).push(delimiter));
            assert(text.last() == delimiter);
            assert(text.drop_last() =~= join(chunks.drop_last(), delimiter));
            assert(tail =~= Seq::<char>::empty());
            assert(chunks.drop_last().push(tail) =~= chunks);
        }
    } else {
        let shorter = chunks.drop_last().push(tail.drop_last());
        assert(!tail.drop_last().contains(delimiter)) by {
            if tail.drop_last().contains(delimiter) {
                let j = choose|j: int| 0 <= j < tail.drop_last().len() && tail.drop_last()[j] == delimiter;
                assert(tail[j] == delimiter);
            }
        }
        assert(tail.last() != delimiter) by {
            assert(tail[tail.len() - 1] == tail.last());
        }
        assert(shorter.drop_last() =~= chunks.drop_last());
        lemma_split_join(shorter, delimiter);
        assert(join(shorter, delimiter) =~= text.drop_last());
        assert(text.last() == tail.last());
        assert(tail.drop_last().push(tail.last()) =~= tail);
        assert(split_on(text, delimiter) =~= chunks);
    }
}

} // verus!
