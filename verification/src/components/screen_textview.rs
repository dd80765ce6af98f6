//! The text of the screen.

use crate::logic::parsing::tokens_of;
use vstd::prelude::*;
use vstd::string::*;

verus! {

/// The tokens in a row, with one space between each two.
pub open spec fn joined(tokens: Seq<Seq<char>>) -> Seq<char>
    decreases tokens.len(),
{
    if tokens.len() == 0 {
        Seq::empty()
    } else if tokens.len() == 1 {
        tokens[0]
    } else {
        joined(tokens.drop_last()) + seq![' '] + tokens.last()
    }
}

/// The text that the screen shows for the tokens in the buffer.
pub fn screen_text(output: &Vec<String>) -> (text: String)
    ensures
        text@ == joined(tokens_of(output@)),
{
    let ghost tokens: Seq<Seq<char>> = tokens_of(output@);
    let mut text: String = String::new();
    let mut index: usize = 0;
    assert(tokens.take(0) =~= Seq::empty());
    while index < output.len()
        invariant
            index <= output.len(),
            tokens == tokens_of(output@),
            text@ == joined(tokens.take(index as int)),
        decreases output.len() - index,
    {
        proof {
            reveal_strlit(" ");
            assert(tokens.take(index + 1).drop_last() =~= tokens.take(index as int));
            assert(tokens.take(index + 1).last() == output[index as int]@);
            assert(" "@ =~= seq![' ']);
        }
        if index > 0 {
            text.append(" ");
        }
        text.append(output[index].as_str());
        assert(text@ =~= joined(tokens.take(index + 1)));
        index += 1;
    }
    assert(tokens.take(index as int) =~= tokens);
    text
}

} // verus!
