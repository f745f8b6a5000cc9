//! Filters for the text typed into the numeric fields of the options form.
use vstd::prelude::*;

verus! {

pub open spec fn is_digit(c: char) -> bool {
    '0' <= c && c <= '9'
}

/// Whether `c` has no place in a decimal number field.
pub fn invalid_float(c: char) -> (r: bool)
    ensures
        r == !(is_digit(c) || c == '.'),
{
    !(('0' <= c && c <= '9') || c == '.')
}

/// Whether `c` has no place in a whole number field.
pub fn invalid_int(c: char) -> (r: bool)
    ensures
        r == !is_digit(c),
{
    !('0' <= c && c <= '9')
}

/// Typed text made fit for a decimal field: a comma becomes a point, then
/// every character but digits and points is dropped.
pub open spec fn float_text(s: Seq<char>) -> Seq<char>
    decreases s.len(),
{
    if s.len() == 0 {
        Seq::empty()
    } else {
        let rest = float_text(s.drop_last());
        let c = if s.last() == ',' {
            '.'
        } else {
            s.last()
        };
        if is_digit(c) || c == '.' {
            rest.push(c)
        } else {
            rest
        }
    }
}

/// Typed text made fit for a whole number field: only digits are kept.
pub open spec fn int_text(s: Seq<char>) -> Seq<char>
    decreases s.len(),
{
    if s.len() == 0 {
        Seq::empty()
    } else {
        let rest = int_text(s.drop_last());
        if is_digit(s.last()) {
            rest.push(s.last())
        } else {
            rest
        }
    }
}

pub fn allow_float(text: &Vec<char>) -> (r: Vec<char>)
    ensures
        r@ == float_text(text@),
{
    let mut r: Vec<char> = Vec::new();
    let mut i: usize = 0;
    while i < text.len()
        invariant
            i <= text@.len(),
            r@ == float_text(text@.take(i as int)),
        decreases text@.len() - i,
    {
        let mut c = text[i];
        if c == ',' {
            c = '.';
        }
        if !invalid_float(c) {
            r.push(c);
        }
        proof {
            assert(text@.take(i + 1).drop_last() == text@.take(i as int));
        }
        i += 1;
    }
    proof {
        assert(text@.take(text@.len() as int) == text@);
    }
    r
}

pub fn allow_int(text: &Vec<char>) -> (r: Vec<char>)
    ensures
        r@ == int_text(text@),
{
    let mut r: Vec<char> = Vec::new();
    let mut i: usize = 0;
    while i < text.len()
        invariant
            i <= text@.len(),
            r@ == int_text(text@.take(i as int)),
        decreases text@.len() - i,
    {
        let c = text[i];
        if !invalid_int(c) {
            r.push(c);
        }
        proof {
            assert(text@.take(i + 1).drop_last() == text@.take(i as int));
        }
        i += 1;
    }
    proof {
        assert(text@.take(text@.len() as int) == text@);
    }
    r
}

} // verus!
