//! String normalization for case- and diacritic-insensitive comparison.

use vstd::prelude::*;
use crate::text::chars_of;
use crate::unicode::combining_mark;
use crate::unicode::is_combining_mark_char;
use crate::unicode::lower_of;
use crate::unicode::nfd_of;
use crate::unicode::nfd_string;
use crate::unicode::push_char;
use crate::unicode::to_lowercase_string;

verus! {

/// The comparison form of `s`: canonical decomposition, with every
/// combining mark discarded, case-folded to lowercase.
pub open spec fn normalized_of(s: Seq<char>) -> Seq<char> {
    lower_of(nfd_of(s).filter(|c: char| !combining_mark(c)))
}

/// Normalizes `s` for comparison: decomposes it canonically, drops all
/// combining marks, and lowercases the rest. Empty input yields empty
/// output; there are no error conditions.
pub fn normalize_string(s: &str) -> (r: String)
    ensures
        r@ == normalized_of(s@),
        s@.len() == 0 ==> r@.len() == 0,
{
    let decomposed = nfd_string(s);
    let chars = chars_of(decomposed.as_str());
    let ghost pred = |c: char| !combining_mark(c);
    let mut kept = String::new();
    let n = chars.len();
    let mut i: usize = 0;
    proof {
        reveal(Seq::filter);
        assert(chars@.take(0).filter(pred) =~= Seq::<char>::empty());
    }
    while i < n
        invariant
            n == chars@.len(),
            i <= n,
            chars@ == nfd_of(s@),
            pred == (|c: char| !combining_mark(c)),
            kept@ == chars@.take(i as int).filter(pred),
        decreases n - i,
    {
        let c = chars[i];
        proof {
            reveal(Seq::filter);
            assert(chars@.take(i + 1).drop_last() =~= chars@.take(i as int));
            assert(chars@.take(i + 1).last() == chars@[i as int]);
        }
        if !is_combining_mark_char(c) {
            push_char(&mut kept, c);
        }
        i = i + 1;
    }
    proof {
        assert(chars@.take(n as int) =~= chars@);
        if s@.len() == 0 {
            reveal(Seq::filter);
            assert(chars@.len() == 0);
            assert(kept@.len() == 0);
        }
    }
    to_lowercase_string(kept.as_str())
}

} // verus!
