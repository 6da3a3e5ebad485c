//! Reading a command line: the command word and its arguments.
use vstd::prelude::*;
use crate::words::{split_whitespace, slice_texts, words};

verus! {

/// Splits a command line into its first word and the remaining words.
pub fn parse<'a>(command: &'a str) -> (res: (&'a str, Vec<&'a str>))
    requires
        words(command@).len() > 0,
    ensures
        res.0@ == words(command@)[0],
        slice_texts(res.1@) == words(command@).drop_first(),
{
    let tokens = split_whitespace(command);
    let first = tokens[0];
    assert(slice_texts(tokens@)[0] == tokens@[0]@);
    let mut arguments: Vec<&'a str> = Vec::new();
    for i in 1..tokens.len()
        invariant
            slice_texts(tokens@) == words(command@),
            tokens@.len() >= 1,
            slice_texts(arguments@) == words(command@).subrange(1, i as int),
    {
        assert(slice_texts(tokens@)[i as int] == tokens@[i as int]@);
        arguments.push(tokens[i]);
        assert(slice_texts(arguments@) =~= words(command@).subrange(1, i as int).push(tokens@[i as int]@));
        assert(words(command@).subrange(1, i + 1) =~= words(command@).subrange(1, i as int).push(words(command@)[i as int]));
    }
    assert(words(command@).subrange(1, tokens@.len() as int) =~= words(command@).drop_first());
    (first, arguments)
}

} // verus!
