//! Characters and strings: the few std string operations the library
//! builds on, and reading a string's characters.
use vstd::prelude::*;
use vstd::std_specs::iter::IteratorSpec;

verus! {

broadcast use vstd::string::group_string_axioms;

/// Appends a character to a string.
///
/// Calls `String::push` from std, whose documentation says it appends the
/// given char to the end of the string; the contract states exactly that.
#[verifier::external_body]
pub(crate) fn push_char(s: &mut String, c: char)
    ensures
        final(s)@ == old(s)@.push(c),
{
    s.push(c);
}

/// The character with a code point, if it is one.
///
/// Calls `char::from_u32` from std, documented to give the char whose value
/// is `code` when `code` is a Unicode scalar value (below 0xD800, or from
/// 0xE000 to 0x10FFFF) and `None` otherwise.
#[verifier::external_body]
pub(crate) fn char_from_code(code: u32) -> (r: Option<char>)
    ensures
        r == (if code < 0xD800 || (0xE000 <= code && code <= 0x10FFFF) {
            Some(code as char)
        } else {
            None
        }),
{
    char::from_u32(code)
}

/// The characters of a string, in order.
pub fn chars_of(s: &str) -> (r: Vec<char>)
    ensures
        r@ == s@,
{
    let mut out: Vec<char> = Vec::new();
    let mut it = s.chars();
    let ghost all = s@;
    proof {
        assert(it.remaining() == all);
    }
    loop
        invariant
            all == s@,
            out@.len() <= all.len(),
            out@ == all.take(out@.len() as int),
            it.remaining() == all.skip(out@.len() as int),
            it.obeys_prophetic_iter_laws(),
        ensures
            out@ == all,
        decreases all.len() - out@.len(),
    {
        let ghost before = it;
        match it.next() {
            Some(c) => {
                proof {
                    assert(before.remaining().len() > 0);
                    assert(c == all[out@.len() as int]);
                }
                out.push(c);
                proof {
                    assert(out@ =~= all.take(out@.len() as int));
                    assert(it.remaining() =~= all.skip(out@.len() as int));
                }
            },
            None => {
                proof {
                    assert(before.remaining().len() == 0);
                    assert(out@ =~= all);
                }
                break;
            },
        }
    }
    out
}

} // verus!
