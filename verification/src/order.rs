//! Why the order of the alphabet matters: a symbol can only be read where no
//! symbol declared before it gets in its way.

use crate::laws::{lemma_earliest_match_is_found, lemma_first_match_is_earliest};
use crate::parsing::{first_match, lemma_first_match_some, word_of};
use crate::token::{
    alphabet_order, lemma_declared_order_holds_every_symbol_once, lemma_repr_nonempty, Token,
};
use vstd::prelude::*;

verus! {

/// An alphabet is in priority order when no symbol's text starts with the
/// text of a symbol declared before it: a longer symbol always stands before
/// the shorter ones that its text begins with.
pub open spec fn priority_ordered(alphabet: Seq<Token>) -> bool {
    forall|i: int, j: int|
        0 <= i < j < alphabet.len() ==> !(#[trigger] alphabet[i]).repr().is_prefix_of(
            (#[trigger] alphabet[j]).repr(),
        )
}

/// The declared order of the alphabet is a priority order.
pub proof fn lemma_declared_order_is_priority_ordered()
    ensures
        priority_ordered(alphabet_order()),
{
    let order = alphabet_order();
    assert forall|i: int, j: int| 0 <= i < j < order.len() implies !(#[trigger] order[i]).repr()
        .is_prefix_of((#[trigger] order[j]).repr()) by {
        let short = order[i].repr();
        let long = order[j].repr();
        if short.is_prefix_of(long) {
            assert(long.subrange(0, short.len() as int)[0] == long[0]);
            assert(short[0] == long[0]);
        }
    }
}

/// In a priority order every symbol can be read: the scanner reads a
/// symbol's own text as that one symbol, whatever shorter symbols its text
/// could be cut into.
pub proof fn lemma_priority_order_reads_every_symbol(alphabet: Seq<Token>, k: int)
    requires
        priority_ordered(alphabet),
        0 <= k < alphabet.len(),
    ensures
        first_match(alphabet, alphabet[k].repr()) == Some(alphabet[k]),
        word_of(alphabet, alphabet[k].repr()) == seq![alphabet[k]],
{
    let text = alphabet[k].repr();
    assert(text.is_prefix_of(text)) by {
        assert(text =~= text.subrange(0, text.len() as int));
    }
    lemma_earliest_match_is_found(alphabet, text, k);
    lemma_repr_nonempty(alphabet[k]);
    assert(text.skip(text.len() as int) =~= Seq::<char>::empty());
    assert(word_of(alphabet, text.skip(text.len() as int)) =~= Seq::<Token>::empty());
    assert(seq![alphabet[k]] + Seq::<Token>::empty() =~= seq![alphabet[k]]);
}

/// With the alphabet in its declared order the scanner reads the text of
/// every symbol as that one symbol: the symbols of several characters are
/// not cut into their letters.
pub proof fn lemma_declared_order_reads_every_symbol(token: Token)
    ensures
        word_of(alphabet_order(), token.repr()) == seq![token],
{
    lemma_declared_order_is_priority_ordered();
    lemma_declared_order_holds_every_symbol_once(token);
    let order = alphabet_order();
    let k = choose|k: int| 0 <= k < order.len() && order[k] == token;
    lemma_priority_order_reads_every_symbol(order, k);
}

/// A symbol that is declared only after one that its text starts with is
/// shadowed: the scanner never finds it, at any text, and no word holds it.
pub proof fn lemma_shadowed_symbol_is_never_read(
    alphabet: Seq<Token>,
    i: int,
    j: int,
    chunk: Seq<char>,
)
    requires
        0 <= i < j < alphabet.len(),
        alphabet[i].repr().is_prefix_of(alphabet[j].repr()),
        forall|m: int| 0 <= m < j ==> #[trigger] alphabet[m] != alphabet[j],
    ensures
        first_match(alphabet, chunk) != Some(alphabet[j]),
        !word_of(alphabet, chunk).contains(alphabet[j]),
    decreases chunk.len(),
{
    let shadowed = alphabet[j];
    lemma_first_match_is_earliest(alphabet, chunk);
    if first_match(alphabet, chunk) == Some(shadowed) {
        let k = choose|k: int|
            0 <= k < alphabet.len() && #[trigger] alphabet[k] == shadowed
                && shadowed.repr().is_prefix_of(chunk) && forall|m: int|
                0 <= m < k ==> !(#[trigger] alphabet[m]).repr().is_prefix_of(chunk);
        assert(k >= j) by {
            if k < j {
                assert(alphabet[k] != alphabet[j]);
            }
        }
        let short = alphabet[i].repr();
        assert(short.is_prefix_of(chunk)) by {
            assert(short =~= shadowed.repr().subrange(0, short.len() as int));
            assert(shadowed.repr() =~= chunk.subrange(0, shadowed.repr().len() as int));
            assert(short =~= chunk.subrange(0, short.len() as int));
        }
        assert(false);
    }
    if chunk.len() > 0 {
        lemma_first_match_some(alphabet, chunk);
        let step: int = match first_match(alphabet, chunk) {
            Some(token) => token.repr().len() as int,
            None => 1,
        };
        lemma_shadowed_symbol_is_never_read(alphabet, i, j, chunk.skip(step));
        let word = word_of(alphabet, chunk);
        if word.contains(shadowed) {
            let n = choose|n: int| 0 <= n < word.len() && word[n] == shadowed;
            if first_match(alphabet, chunk) is Some {
                if n > 0 {
                    assert(word_of(alphabet, chunk.skip(step))[n - 1] == shadowed);
                }
            }
            assert(false);
        }
    }
}

} // verus!
