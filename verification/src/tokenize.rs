//! Tokenization on a dynamic delimiter character set.

use vstd::prelude::*;
use crate::text::chars_of;
use crate::text::contains_char;
use crate::unicode::push_char;

verus! {

/// The tokens of `text` with the pending token `cur` carried along:
/// a delimiter character (or the end) emits `cur` when it is non-empty,
/// and every other character extends it.
pub open spec fn tokens_from(text: Seq<char>, delims: Seq<char>, cur: Seq<char>) -> Seq<Seq<char>>
    decreases text.len(),
{
    if text.len() == 0 {
        if cur.len() > 0 {
            seq![cur]
        } else {
            Seq::empty()
        }
    } else if delims.contains(text[0]) {
        (if cur.len() > 0 {
            seq![cur]
        } else {
            Seq::empty()
        }) + tokens_from(text.skip(1), delims, Seq::empty())
    } else {
        tokens_from(text.skip(1), delims, cur.push(text[0]))
    }
}

/// The non-empty tokens of `text`, split at every maximal run of
/// delimiter characters, in text order.
pub open spec fn tokens_of(text: Seq<char>, delims: Seq<char>) -> Seq<Seq<char>> {
    tokens_from(text, delims, Seq::empty())
}

/// Law: every token is non-empty — leading, trailing and doubled
/// delimiters never produce empty tokens.
pub proof fn lemma_tokens_nonempty(text: Seq<char>, delims: Seq<char>, cur: Seq<char>)
    ensures
        forall|i: int|
            0 <= i < tokens_from(text, delims, cur).len() ==> (#[trigger] tokens_from(
                text,
                delims,
                cur,
            )[i]).len() > 0,
    decreases text.len(),
{
    let toks = tokens_from(text, delims, cur);
    if text.len() == 0 {
        assert forall|i: int| 0 <= i < toks.len() implies (#[trigger] toks[i]).len() > 0 by {
            assert(toks[i] == cur);
        }
    } else if delims.contains(text[0]) {
        lemma_tokens_nonempty(text.skip(1), delims, Seq::empty());
        let head: Seq<Seq<char>> = if cur.len() > 0 {
            seq![cur]
        } else {
            Seq::empty()
        };
        let rest = tokens_from(text.skip(1), delims, Seq::<char>::empty());
        assert forall|i: int| 0 <= i < toks.len() implies (#[trigger] toks[i]).len() > 0 by {
            if i < head.len() {
                assert(toks[i] == cur);
            } else {
                assert(toks[i] == rest[i - head.len()]);
            }
        }
    } else {
        lemma_tokens_nonempty(text.skip(1), delims, cur.push(text[0]));
        let rest = tokens_from(text.skip(1), delims, cur.push(text[0]));
        assert forall|i: int| 0 <= i < toks.len() implies (#[trigger] toks[i]).len() > 0 by {
            assert(toks[i] == rest[i]);
        }
    }
}

/// Splits `text` at every maximal run of one-or-more delimiter
/// characters, discarding empty segments and preserving text order.
/// Empty input yields an empty vector; there are no error conditions.
pub fn tokenize(text: &str, delimiters: &str) -> (r: Vec<String>)
    ensures
        r.deep_view() == tokens_of(text@, delimiters@),
{
    let chars = chars_of(text);
    let delims = chars_of(delimiters);
    let mut out: Vec<String> = Vec::new();
    let mut cur = String::new();
    let n = chars.len();
    let mut i: usize = 0;
    proof {
        assert(chars@.skip(0) =~= chars@);
        assert(out.deep_view() =~= Seq::<Seq<char>>::empty());
    }
    while i < n
        invariant
            n == chars@.len(),
            i <= n,
            chars@ == text@,
            delims@ == delimiters@,
            tokens_of(text@, delimiters@) == out.deep_view() + tokens_from(
                chars@.skip(i as int),
                delims@,
                cur@,
            ),
        decreases n - i,
    {
        let ghost rest = chars@.skip(i as int);
        proof {
            assert(rest.len() > 0);
            assert(rest[0] == chars@[i as int]);
            assert(rest.skip(1) =~= chars@.skip(i + 1));
        }
        let c = chars[i];
        if contains_char(&delims, c) {
            proof {
                assert(delims@.contains(rest[0]));
            }
            if !cur.as_str().is_empty() {
                let ghost prev = out.deep_view();
                let ghost cv = cur@;
                out.push(cur);
                cur = String::new();
                proof {
                    assert(out.deep_view() =~= prev.push(cv));
                    assert(tokens_from(rest, delims@, cv) == seq![cv] + tokens_from(
                        chars@.skip(i + 1),
                        delims@,
                        Seq::<char>::empty(),
                    ));
                    assert(prev + (seq![cv] + tokens_from(
                        chars@.skip(i + 1),
                        delims@,
                        Seq::<char>::empty(),
                    )) =~= prev.push(cv) + tokens_from(
                        chars@.skip(i + 1),
                        delims@,
                        Seq::<char>::empty(),
                    ));
                }
            } else {
                proof {
                    assert(cur@ =~= Seq::<char>::empty());
                    assert(tokens_from(rest, delims@, cur@) == Seq::<Seq<char>>::empty()
                        + tokens_from(chars@.skip(i + 1), delims@, Seq::<char>::empty()));
                    assert(Seq::<Seq<char>>::empty() + tokens_from(
                        chars@.skip(i + 1),
                        delims@,
                        Seq::<char>::empty(),
                    ) =~= tokens_from(chars@.skip(i + 1), delims@, Seq::<char>::empty()));
                }
            }
        } else {
            proof {
                assert(!delims@.contains(rest[0]));
                assert(tokens_from(rest, delims@, cur@) == tokens_from(
                    chars@.skip(i + 1),
                    delims@,
                    cur@.push(rest[0]),
                ));
            }
            push_char(&mut cur, c);
        }
        i = i + 1;
    }
    proof {
        assert(chars@.skip(n as int) =~= Seq::<char>::empty());
    }
    if !cur.as_str().is_empty() {
        let ghost prev = out.deep_view();
        let ghost cv = cur@;
        out.push(cur);
        proof {
            assert(out.deep_view() =~= prev.push(cv));
            assert(prev + seq![cv] =~= prev.push(cv));
        }
    } else {
        proof {
            assert(out.deep_view() + Seq::<Seq<char>>::empty() =~= out.deep_view());
        }
    }
    out
}

} // verus!
