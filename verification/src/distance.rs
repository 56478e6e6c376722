//! Levenshtein edit distance over Unicode scalar values.

use vstd::prelude::*;
use crate::text::chars_of;

verus! {

/// Minimum of three natural numbers.
pub open spec fn min3(a: nat, b: nat, c: nat) -> nat {
    if a <= b && a <= c {
        a
    } else if b <= c {
        b
    } else {
        c
    }
}

/// The Levenshtein (edit) distance between two character sequences:
/// the least number of single-character insertions, deletions and
/// substitutions turning `a` into `b`, by the classic recurrence.
pub open spec fn edit_distance(a: Seq<char>, b: Seq<char>) -> nat
    decreases a.len() + b.len(),
{
    if a.len() == 0 {
        b.len()
    } else if b.len() == 0 {
        a.len()
    } else {
        let del = edit_distance(a.drop_last(), b) + 1;
        let ins = edit_distance(a, b.drop_last()) + 1;
        let sub = edit_distance(a.drop_last(), b.drop_last()) + (
        if a.last() == b.last() {
            0nat
        } else {
            1nat
        });
        min3(del, ins, sub)
    }
}

/// The distance never exceeds the longer input's length.
pub proof fn lemma_edit_distance_le(a: Seq<char>, b: Seq<char>)
    ensures
        edit_distance(a, b) <= if a.len() >= b.len() {
            a.len()
        } else {
            b.len()
        },
    decreases a.len() + b.len(),
{
    if a.len() == 0 || b.len() == 0 {
    } else {
        lemma_edit_distance_le(a.drop_last(), b.drop_last());
    }
}

/// Law: the edit distance is symmetric in its arguments.
pub proof fn lemma_edit_distance_symmetric(a: Seq<char>, b: Seq<char>)
    ensures
        edit_distance(a, b) == edit_distance(b, a),
    decreases a.len() + b.len(),
{
    if a.len() == 0 || b.len() == 0 {
    } else {
        lemma_edit_distance_symmetric(a.drop_last(), b);
        lemma_edit_distance_symmetric(a, b.drop_last());
        lemma_edit_distance_symmetric(a.drop_last(), b.drop_last());
    }
}

/// Law: the edit distance of a sequence to itself is zero.
pub proof fn lemma_edit_distance_self(a: Seq<char>)
    ensures
        edit_distance(a, a) == 0,
    decreases a.len(),
{
    if a.len() > 0 {
        lemma_edit_distance_self(a.drop_last());
    }
}

/// Law: the distance to or from the empty sequence is the other
/// sequence's length.
pub proof fn lemma_edit_distance_empty(s: Seq<char>)
    ensures
        edit_distance(Seq::<char>::empty(), s) == s.len(),
        edit_distance(s, Seq::<char>::empty()) == s.len(),
{
}

/// Levenshtein distance between `s1` and `s2`, counting Unicode scalar
/// values (not bytes) on both sides.
pub fn levenshtein_distance(s1: &str, s2: &str) -> (d: usize)
    ensures
        d as nat == edit_distance(s1@, s2@),
{
    let a = chars_of(s1);
    let b = chars_of(s2);
    let ghost av = a@;
    let ghost bv = b@;
    let n = a.len();
    let m = b.len();

    let mut prev: Vec<usize> = Vec::new();
    prev.push(0);
    let mut j: usize = 0;
    while j < m
        invariant
            j <= m,
            m == bv.len(),
            prev@.len() == j + 1,
            forall|k: int| 0 <= k <= j ==> prev@[k] == edit_distance(Seq::<char>::empty(), bv.take(k)),
        decreases m - j,
    {
        proof {
            assert(bv.take(j + 1).len() == j + 1);
        }
        prev.push(j + 1);
        j = j + 1;
    }

    let mut i: usize = 0;
    while i < n
        invariant
            i <= n,
            n == av.len(),
            m == bv.len(),
            a@ == av,
            b@ == bv,
            prev@.len() == m + 1,
            forall|k: int| 0 <= k <= m ==> prev@[k] == edit_distance(av.take(i as int), bv.take(k)),
        decreases n - i,
    {
        let mut curr: Vec<usize> = Vec::new();
        proof {
            assert(av.take(i + 1).len() == i + 1);
            assert(bv.take(0).len() == 0);
        }
        curr.push(i + 1);
        let mut j2: usize = 0;
        while j2 < m
            invariant
                j2 <= m,
                i < n,
                n == av.len(),
                m == bv.len(),
                a@ == av,
                b@ == bv,
                prev@.len() == m + 1,
                forall|k: int| 0 <= k <= m ==> prev@[k] == edit_distance(av.take(i as int), bv.take(k)),
                curr@.len() == j2 + 1,
                forall|k: int| 0 <= k <= j2 ==> curr@[k] == edit_distance(av.take(i + 1), bv.take(k)),
            decreases m - j2,
        {
            let cost: usize = if a[i] == b[j2] {
                0
            } else {
                1
            };
            let sub = prev[j2];
            let del = prev[j2 + 1];
            let ins = curr[j2];
            proof {
                lemma_edit_distance_le(av.take(i as int), bv.take(j2 as int));
            }
            let mut best: usize = sub + cost;
            if del < best {
                best = del + 1;
            }
            if ins < best {
                best = ins + 1;
            }
            proof {
                let big_a = av.take(i + 1);
                let big_b = bv.take(j2 + 1);
                assert(big_a.drop_last() =~= av.take(i as int));
                assert(big_b.drop_last() =~= bv.take(j2 as int));
                assert(big_a.last() == av[i as int]);
                assert(big_b.last() == bv[j2 as int]);
                assert(edit_distance(big_a, big_b) == min3(
                    edit_distance(av.take(i as int), big_b) + 1,
                    edit_distance(big_a, bv.take(j2 as int)) + 1,
                    edit_distance(av.take(i as int), bv.take(j2 as int)) + (
                    if av[i as int] == bv[j2 as int] {
                        0nat
                    } else {
                        1nat
                    }),
                ));
            }
            curr.push(best);
            j2 = j2 + 1;
        }
        prev = curr;
        i = i + 1;
    }
    proof {
        assert(av.take(n as int) =~= av);
        assert(bv.take(m as int) =~= bv);
    }
    prev[m]
}

} // verus!
