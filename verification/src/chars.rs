//! Character classification and string-building primitives the parser needs.
//!
//! The grammar is defined over Unicode characters, so the few places where
//! the standard library's Unicode tables are consulted are isolated here.

use vstd::prelude::*;

verus! {

use vstd::std_specs::iter::IteratorSpec;

/// True of the characters the grammar treats as whitespace: the Unicode
/// `White_Space` set, which is exactly what `char::is_whitespace` tests.
pub open spec fn is_ws(c: char) -> bool {
    ||| c == ' '
    ||| c == '\t'
    ||| c == '\n'
    ||| c == '\u{b}'
    ||| c == '\u{c}'
    ||| c == '\r'
    ||| c == '\u{85}'
    ||| c == '\u{a0}'
    ||| c == '\u{1680}'
    ||| ('\u{2000}' <= c && c <= '\u{200a}')
    ||| c == '\u{2028}'
    ||| c == '\u{2029}'
    ||| c == '\u{202f}'
    ||| c == '\u{205f}'
    ||| c == '\u{3000}'
}

/// Relies on `char::is_whitespace`: true exactly of the Unicode
/// `White_Space` characters, the set `is_ws` lists.
#[verifier::external_body]
pub fn is_whitespace_char(c: char) -> (r: bool)
    ensures
        r == is_ws(c),
{
    c.is_whitespace()
}

/// Whether a character beyond ASCII has the Unicode `Alphabetic` property.
/// That character set takes tables to state, so it is left abstract; the
/// grammar only needs that it is a fixed predicate on the character alone.
pub uninterp spec fn is_alpha_beyond_ascii(c: char) -> bool;

/// Whether a character has the Unicode `Alphabetic` property: within ASCII
/// these are exactly the letters `a`-`z` and `A`-`Z`; beyond ASCII the set
/// is left abstract.
pub open spec fn is_alpha(c: char) -> bool {
    if c <= '\u{7f}' {
        ('a' <= c && c <= 'z') || ('A' <= c && c <= 'Z')
    } else {
        is_alpha_beyond_ascii(c)
    }
}

/// Relies on `char::is_alphabetic`: true exactly of the characters with the
/// Unicode `Alphabetic` property — of an ASCII character exactly when it is
/// a letter `a`-`z` or `A`-`Z`; the result depends on the character alone.
#[verifier::external_body]
pub fn is_alphabetic_char(c: char) -> (r: bool)
    ensures
        r == is_alpha(c),
        c > '\u{7f}' ==> r == is_alpha_beyond_ascii(c),
{
    c.is_alphabetic()
}

/// Relies on `String::push`: appends the given character to the end of the
/// string.
#[verifier::external_body]
pub fn push_char(s: &mut String, c: char)
    ensures
        final(s)@ == old(s)@.push(c),
{
    s.push(c)
}

/// Collects the characters of a string slice into a vector, so that the
/// parser can address them by position.
pub fn chars_of(s: &str) -> (v: Vec<char>)
    ensures
        v@ == s@,
{
    broadcast use vstd::string::axiom_spec_iter;
    broadcast use vstd::string::next_postcondition;

    let mut it = s.chars();
    let mut v: Vec<char> = Vec::new();
    loop
        invariant
            it.obeys_prophetic_iter_laws(),
            it.decrease() is Some,
            v@ + it.remaining() == s@,
        ensures
            v@ == s@,
        decreases it.decrease()->0,
    {
        match it.next() {
            Some(c) => {
                v.push(c);
            },
            None => {
                proof {
                    assert(it.remaining().len() == 0);
                    assert(v@ =~= v@ + it.remaining());
                }
                break;
            },
        }
    }
    v
}

/// Copies the characters of `s` in positions `from..to` into a fresh string.
pub fn string_of_range(s: &Vec<char>, from: usize, to: usize) -> (r: String)
    requires
        from <= to <= s@.len(),
    ensures
        r@ == s@.subrange(from as int, to as int),
{
    let mut r = String::new();
    let mut i: usize = from;
    while i < to
        invariant
            from <= i <= to <= s@.len(),
            r@ == s@.subrange(from as int, i as int),
        decreases to - i,
    {
        push_char(&mut r, s[i]);
        i = i + 1;
        proof {
            assert(s@.subrange(from as int, i as int) =~= s@.subrange(
                from as int,
                i - 1,
            ).push(s@[i - 1]));
        }
    }
    r
}

} // verus!
