use vstd::prelude::*;
use vstd::std_specs::iter::IteratorSpec;

verus! {

/// `String::push` appends one character to the end of the string.
pub assume_specification[ String::push ](s: &mut String, c: char)
    ensures
        final(s)@ == old(s)@.push(c),
;

/// The characters of a text, in order.
pub fn characters(text: &str) -> (chars: Vec<char>)
    ensures
        chars@ == text@,
{
    let mut chars: Vec<char> = Vec::new();
    let mut rest = text.chars();
    loop
        invariant
            rest.remaining() == text@.skip(chars@.len() as int),
            chars@ == text@.take(chars@.len() as int),
            chars@.len() <= text@.len(),
        ensures
            chars@ == text@,
        decreases text@.len() - chars@.len(),
    {
        match rest.next() {
            Some(c) => {
                chars.push(c);
                assert(chars@ =~= text@.take(chars@.len() as int));
                assert(rest.remaining() =~= text@.skip(chars@.len() as int));
            },
            None => {
                assert(chars@ =~= text@);
                break ;
            },
        }
    }
    chars
}

} // verus!
