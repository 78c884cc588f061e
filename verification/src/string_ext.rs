//! Padding helpers on strings, used when rendering reports in columns.

use vstd::prelude::*;
use vstd::string::StringExecFns;
use vstd::string::StrSliceExecFns;

verus! {

/// Relies on String::push: appends the given character to the end of the
/// string.
pub assume_specification[ String::push ](s: &mut String, ch: char)
    ensures
        final(s)@ == old(s)@.push(ch),
;

/// `n` copies of the character `c`.
pub open spec fn repeat_char(c: char, n: nat) -> Seq<char> {
    Seq::new(n, |i: int| c)
}

/// The padding character: the given one, or a space.
pub open spec fn pad_char_or_space(c: Option<char>) -> char {
    match c {
        Option::Some(ch) => ch,
        Option::None => ' ',
    }
}

fn repeat_exec(c: char, n: usize) -> (r: String)
    ensures
        r@ == repeat_char(c, n as nat),
{
    let mut out = String::new();
    proof {
        assert(out@ =~= repeat_char(c, 0));
    }
    let mut i: usize = 0;
    while i < n
        invariant
            i <= n,
            out@ == repeat_char(c, i as nat),
        decreases n - i,
    {
        out.push(c);
        proof {
            assert(out@ =~= repeat_char(c, i as nat + 1));
        }
        i += 1;
    }
    out
}

/// Padding of strings on either side, by count or to a target length.
/// Lengths count characters.
pub trait StringExt: View<V = Seq<char>> {
    /// The string with `pad_count` padding characters in front.
    fn pad_start(&self, pad_count: usize, pad_char: Option<char>) -> (r: String)
        ensures
            r@ == repeat_char(pad_char_or_space(pad_char), pad_count as nat) + self@,
    ;

    /// The string with `pad_count` padding characters appended.
    fn pad_end(&self, pad_count: usize, pad_char: Option<char>) -> (r: String)
        ensures
            r@ == self@ + repeat_char(pad_char_or_space(pad_char), pad_count as nat),
    ;

    /// The string padded in front until it is `length` characters long; a
    /// string already that long comes back unchanged.
    fn pad_start_to_length(&self, length: usize, pad_char: Option<char>) -> (r: String)
        ensures
            self@.len() >= length ==> r@ == self@,
            self@.len() < length ==> r@ == repeat_char(
                pad_char_or_space(pad_char),
                (length - self@.len()) as nat,
            ) + self@,
    ;

    /// The string padded at the end until it is `length` characters long; a
    /// string already that long comes back unchanged.
    fn pad_end_to_length(&self, length: usize, pad_char: Option<char>) -> (r: String)
        ensures
            self@.len() >= length ==> r@ == self@,
            self@.len() < length ==> r@ == self@ + repeat_char(
                pad_char_or_space(pad_char),
                (length - self@.len()) as nat,
            ),
    ;
}

impl StringExt for String {
    fn pad_start(&self, pad_count: usize, pad_char: Option<char>) -> (r: String) {
        let c = match pad_char {
            Option::Some(ch) => ch,
            Option::None => ' ',
        };
        let mut out = repeat_exec(c, pad_count);
        out.append(self.as_str());
        out
    }

    fn pad_end(&self, pad_count: usize, pad_char: Option<char>) -> (r: String) {
        let c = match pad_char {
            Option::Some(ch) => ch,
            Option::None => ' ',
        };
        let pad = repeat_exec(c, pad_count);
        let mut out = self.clone();
        out.append(pad.as_str());
        out
    }

    fn pad_start_to_length(&self, length: usize, pad_char: Option<char>) -> (r: String) {
        let n = self.as_str().unicode_len();
        if length <= n {
            self.clone()
        } else {
            let c = match pad_char {
                Option::Some(ch) => ch,
                Option::None => ' ',
            };
            let mut out = repeat_exec(c, length - n);
            out.append(self.as_str());
            out
        }
    }

    fn pad_end_to_length(&self, length: usize, pad_char: Option<char>) -> (r: String) {
        let n = self.as_str().unicode_len();
        if length <= n {
            self.clone()
        } else {
            let c = match pad_char {
                Option::Some(ch) => ch,
                Option::None => ' ',
            };
            let pad = repeat_exec(c, length - n);
            let mut out = self.clone();
            out.append(pad.as_str());
            out
        }
    }
}

} // verus!
