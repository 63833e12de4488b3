//! The names that a file is added under.
use vstd::prelude::*;

verus! {

/// Splits `text` at its first `delimiter` with `str::split_once`. Trusted to
/// give what comes before the first delimiter and what comes after it, and
/// `None` where there is no delimiter.
#[verifier::external_body]
fn split_once(text: &str, delimiter: char) -> (parts: Option<(&str, &str)>)
    ensures
        match parts {
            Some((before, after)) => {
                &&& text@ == before@ + seq![delimiter] + after@
                &&& !before@.contains(delimiter)
            },
            None => !text@.contains(delimiter),
        },
{
    text.split_once(delimiter)
}

/// The path to read a file from and the name to store it under: `in:out`, or
/// one name for both.
pub fn split_names(arg: &str) -> (names: (&str, &str))
    ensures
        if arg@.contains(':') {
            &&& arg@ == names.0@ + seq![':'] + names.1@
            &&& !names.0@.contains(':')
        } else {
            names.0@ == arg@ && names.1@ == arg@
        },
{
    match split_once(arg, ':') {
        None => (arg, arg),
        Some((in_name, out_name)) => {
            assert(arg@[in_name@.len() as int] == ':');
            (in_name, out_name)
        },
    }
}

} // verus!
