//! The symbols of the shorthand alphabet, their text and their declared order.

use vstd::prelude::*;
use vstd::string::StringSliceAdditionalSpecFns;
use vstd::utf8::encode_utf8;

verus! {

/// One indivisible shorthand unit.
///
/// The variants are listed in the order in which the tokenizer tries them;
/// [`alphabet_order`] states that order as data.
#[allow(clippy::upper_case_acronyms)]
#[derive(Copy, Clone, Debug, Hash, PartialEq, Eq, Structural)]
pub enum Token {
    // Special symbols: they span several characters and come first.
    BR,
    STENOGRAFI,
    // Vowels.
    A,
    E,
    I,
    O,
    U,
    Y,
    /// The vowel `å`.
    AO,
    /// The vowel `ä`.
    AE,
    /// The vowel `ö`.
    OO,
    // Consonants.
    B,
    C,
    D,
    F,
    G,
    H,
    J,
    K,
    L,
    M,
    N,
    P,
    Q,
    R,
    S,
    T,
    V,
    W,
    X,
    Z,
}

impl Token {
    /// The canonical lowercase text that the symbol matches in its input.
    pub open spec fn repr(self) -> Seq<char> {
        match self {
            Token::BR => seq!['b', 'r'],
            Token::STENOGRAFI => seq!['s', 't', 'e', 'n', 'o', 'g', 'r', 'a', 'f', 'i'],
            Token::A => seq!['a'],
            Token::E => seq!['e'],
            Token::I => seq!['i'],
            Token::O => seq!['o'],
            Token::U => seq!['u'],
            Token::Y => seq!['y'],
            Token::AO => seq!['å'],
            Token::AE => seq!['ä'],
            Token::OO => seq!['ö'],
            Token::B => seq!['b'],
            Token::C => seq!['c'],
            Token::D => seq!['d'],
            Token::F => seq!['f'],
            Token::G => seq!['g'],
            Token::H => seq!['h'],
            Token::J => seq!['j'],
            Token::K => seq!['k'],
            Token::L => seq!['l'],
            Token::M => seq!['m'],
            Token::N => seq!['n'],
            Token::P => seq!['p'],
            Token::Q => seq!['q'],
            Token::R => seq!['r'],
            Token::S => seq!['s'],
            Token::T => seq!['t'],
            Token::V => seq!['v'],
            Token::W => seq!['w'],
            Token::X => seq!['x'],
            Token::Z => seq!['z'],
        }
    }

    /// The symbol's canonical text as a string slice.
    pub fn as_str(&self) -> (text: &'static str)
        ensures
            text@ == self.repr(),
    {
        proof {
            reveal_strlit("br");
            reveal_strlit("stenografi");
            reveal_strlit("a");
            reveal_strlit("e");
            reveal_strlit("i");
            reveal_strlit("o");
            reveal_strlit("u");
            reveal_strlit("y");
            reveal_strlit("å");
            reveal_strlit("ä");
            reveal_strlit("ö");
            reveal_strlit("b");
            reveal_strlit("c");
            reveal_strlit("d");
            reveal_strlit("f");
            reveal_strlit("g");
            reveal_strlit("h");
            reveal_strlit("j");
            reveal_strlit("k");
            reveal_strlit("l");
            reveal_strlit("m");
            reveal_strlit("n");
            reveal_strlit("p");
            reveal_strlit("q");
            reveal_strlit("r");
            reveal_strlit("s");
            reveal_strlit("t");
            reveal_strlit("v");
            reveal_strlit("w");
            reveal_strlit("x");
            reveal_strlit("z");
        }
        let text = match self {
            Token::BR => "br",
            Token::STENOGRAFI => "stenografi",
            Token::A => "a",
            Token::E => "e",
            Token::I => "i",
            Token::O => "o",
            Token::U => "u",
            Token::Y => "y",
            Token::AO => "å",
            Token::AE => "ä",
            Token::OO => "ö",
            Token::B => "b",
            Token::C => "c",
            Token::D => "d",
            Token::F => "f",
            Token::G => "g",
            Token::H => "h",
            Token::J => "j",
            Token::K => "k",
            Token::L => "l",
            Token::M => "m",
            Token::N => "n",
            Token::P => "p",
            Token::Q => "q",
            Token::R => "r",
            Token::S => "s",
            Token::T => "t",
            Token::V => "v",
            Token::W => "w",
            Token::X => "x",
            Token::Z => "z",
        };
        assert(text@ =~= self.repr());
        text
    }

    /// The number of bytes that the symbol's canonical text takes up in
    /// UTF-8: two for each of the accented vowels.
    pub fn text_len(&self) -> (len: usize)
        ensures
            len == encode_utf8(self.repr()).len(),
    {
        self.as_str().as_bytes().len()
    }
}

/// The alphabet in its declared order of priority: the special symbols that
/// span several characters, then the vowels, then the consonants.
pub open spec fn alphabet_order() -> Seq<Token> {
    seq![
        Token::BR,
        Token::STENOGRAFI,
        Token::A,
        Token::E,
        Token::I,
        Token::O,
        Token::U,
        Token::Y,
        Token::AO,
        Token::AE,
        Token::OO,
        Token::B,
        Token::C,
        Token::D,
        Token::F,
        Token::G,
        Token::H,
        Token::J,
        Token::K,
        Token::L,
        Token::M,
        Token::N,
        Token::P,
        Token::Q,
        Token::R,
        Token::S,
        Token::T,
        Token::V,
        Token::W,
        Token::X,
        Token::Z,
    ]
}

/// The alphabet as data, in its declared order of priority.
pub fn alphabet() -> (symbols: Vec<Token>)
    ensures
        symbols@ == alphabet_order(),
{
    let symbols = vec![
        Token::BR,
        Token::STENOGRAFI,
        Token::A,
        Token::E,
        Token::I,
        Token::O,
        Token::U,
        Token::Y,
        Token::AO,
        Token::AE,
        Token::OO,
        Token::B,
        Token::C,
        Token::D,
        Token::F,
        Token::G,
        Token::H,
        Token::J,
        Token::K,
        Token::L,
        Token::M,
        Token::N,
        Token::P,
        Token::Q,
        Token::R,
        Token::S,
        Token::T,
        Token::V,
        Token::W,
        Token::X,
        Token::Z,
    ];
    assert(symbols@ =~= alphabet_order());
    symbols
}

/// Every symbol stands in the declared order, and none stands there twice.
pub proof fn lemma_declared_order_holds_every_symbol_once(token: Token)
    ensures
        alphabet_order().contains(token),
        alphabet_order().no_duplicates(),
{
    let order = alphabet_order();
    let place: int = match token {
        Token::BR => 0,
        Token::STENOGRAFI => 1,
        Token::A => 2,
        Token::E => 3,
        Token::I => 4,
        Token::O => 5,
        Token::U => 6,
        Token::Y => 7,
        Token::AO => 8,
        Token::AE => 9,
        Token::OO => 10,
        Token::B => 11,
        Token::C => 12,
        Token::D => 13,
        Token::F => 14,
        Token::G => 15,
        Token::H => 16,
        Token::J => 17,
        Token::K => 18,
        Token::L => 19,
        Token::M => 20,
        Token::N => 21,
        Token::P => 22,
        Token::Q => 23,
        Token::R => 24,
        Token::S => 25,
        Token::T => 26,
        Token::V => 27,
        Token::W => 28,
        Token::X => 29,
        Token::Z => 30,
    };
    assert(order[place] == token);
}

/// The bytes that every symbol's text takes up in UTF-8: one for each of
/// its letters, but two for each of the accented vowels.
pub proof fn lemma_text_byte_len(token: Token)
    ensures
        encode_utf8(token.repr()).len() == match token {
            Token::BR => 2nat,
            Token::STENOGRAFI => 10nat,
            Token::AO | Token::AE | Token::OO => 2nat,
            _ => 1nat,
        },
{
    reveal_with_fuel(encode_utf8, 11);
}

/// Every symbol's text holds at least one character.
pub proof fn lemma_repr_nonempty(token: Token)
    ensures
        token.repr().len() >= 1,
{
}

} // verus!
