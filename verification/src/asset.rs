//! Where the image of a symbol is kept.

use crate::token::Token;
use vstd::prelude::*;
use vstd::string::StringExecFns;

verus! {

/// The path of the image that shows `token`: the directory of the images,
/// the symbol's canonical text, and the ending of a PNG file.
pub open spec fn texture_path_of(token: Token) -> Seq<char> {
    seq!['r', 'e', 's', '/'] + token.repr() + seq!['.', 'p', 'n', 'g']
}

/// The path of the image that shows `token`.
pub fn texture_path(token: Token) -> (path: String)
    ensures
        path@ == texture_path_of(token),
{
    proof {
        reveal_strlit("res/");
        reveal_strlit(".png");
    }
    assert("res/"@ =~= seq!['r', 'e', 's', '/']);
    assert(".png"@ =~= seq!['.', 'p', 'n', 'g']);
    let mut path = String::from_str("res/");
    path.append(token.as_str());
    path.append(".png");
    path
}

} // verus!
