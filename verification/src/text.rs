//! Small verified helpers over strings and character vectors.

use vstd::prelude::*;
use vstd::string::StrSliceExecFns;

verus! {

/// The sequence of Unicode scalar values of `s`, as a vector.
pub fn chars_of(s: &str) -> (r: Vec<char>)
    ensures
        r@ == s@,
{
    let n = s.unicode_len();
    let mut r: Vec<char> = Vec::new();
    let mut i: usize = 0;
    while i < n
        invariant
            n == s@.len(),
            i <= n,
            r@ == s@.take(i as int),
        decreases n - i,
    {
        let c = s.get_char(i);
        proof {
            assert(s@.take(i + 1) =~= s@.take(i as int).push(s@[i as int]));
        }
        r.push(c);
        i = i + 1;
    }
    proof {
        assert(s@.take(n as int) =~= s@);
    }
    r
}

/// `p` is an initial segment of `w`.
pub open spec fn is_prefix_of(p: Seq<char>, w: Seq<char>) -> bool {
    p.len() <= w.len() && w.take(p.len() as int) == p
}

/// `p` is a final segment of `w`.
pub open spec fn is_suffix_of(p: Seq<char>, w: Seq<char>) -> bool {
    p.len() <= w.len() && w.skip(w.len() - p.len()) == p
}

/// Whether `p` is an initial segment of `w`.
pub fn starts_with_chars(p: &Vec<char>, w: &Vec<char>) -> (r: bool)
    ensures
        r == is_prefix_of(p@, w@),
{
    if p.len() > w.len() {
        return false;
    }
    let n = p.len();
    let mut j: usize = 0;
    while j < n
        invariant
            n == p@.len(),
            n <= w@.len(),
            j <= n,
            forall|k: int| 0 <= k < j ==> p@[k] == w@[k],
        decreases n - j,
    {
        if p[j] != w[j] {
            proof {
                assert(w@.take(n as int)[j as int] != p@[j as int]);
            }
            return false;
        }
        j = j + 1;
    }
    proof {
        assert(w@.take(n as int) =~= p@);
    }
    true
}

/// Whether `p` is a final segment of `w`.
pub fn ends_with_chars(p: &Vec<char>, w: &Vec<char>) -> (r: bool)
    ensures
        r == is_suffix_of(p@, w@),
{
    if p.len() > w.len() {
        return false;
    }
    let n = p.len();
    let off = w.len() - n;
    let mut j: usize = 0;
    while j < n
        invariant
            n == p@.len(),
            off == w@.len() - n,
            off + n <= usize::MAX,
            j <= n,
            forall|k: int| 0 <= k < j ==> p@[k] == w@[off + k],
        decreases n - j,
    {
        if p[j] != w[off + j] {
            proof {
                assert(w@.skip(off as int)[j as int] != p@[j as int]);
            }
            return false;
        }
        j = j + 1;
    }
    proof {
        assert(w@.skip(off as int) =~= p@);
    }
    true
}

/// Whether `c` occurs in `set`.
pub fn contains_char(set: &Vec<char>, c: char) -> (r: bool)
    ensures
        r == set@.contains(c),
{
    let mut i: usize = 0;
    while i < set.len()
        invariant
            i <= set@.len(),
            forall|k: int| 0 <= k < i ==> set@[k] != c,
        decreases set@.len() - i,
    {
        if set[i] == c {
            return true;
        }
        i = i + 1;
    }
    false
}

} // verus!
