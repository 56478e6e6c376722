//! Multi-pattern search: all occurrences of a set of literal patterns
//! in one scan of the text, grouped by pattern, with offsets in
//! character units.

use vstd::prelude::*;
use crate::assoc::has_key;
use crate::assoc::key_index;
use crate::assoc::lemma_assoc_push;
use crate::assoc::lemma_assoc_update;
use crate::assoc::lemma_key_index;
use crate::assoc::unique_keys;
use crate::assoc::value_of;
use crate::errors::LexicaError;

verus! {

/// Every pattern has at least one character.
pub open spec fn all_patterns_nonempty(patterns: Seq<Seq<char>>) -> bool {
    forall|i: int| 0 <= i < patterns.len() ==> (#[trigger] patterns[i]).len() > 0
}

/// The offsets grow strictly from one entry to the next.
pub open spec fn strictly_ascending(offsets: Seq<usize>) -> bool {
    forall|a: int, b: int| 0 <= a < b < offsets.len() ==> offsets[a] < offsets[b]
}

/// The match list that the Aho-Corasick automaton of `patterns` yields
/// on `text`: pairs of pattern index and character start offset, in
/// scan order. A function of the patterns and the text alone.
pub uninterp spec fn ac_matches(patterns: Seq<Seq<char>>, text: Seq<char>) -> Seq<(usize, usize)>;

/// Whether the Aho-Corasick automaton of `patterns` can be built: its
/// builder fails only on limits that depend on the pattern set alone.
pub uninterp spec fn ac_builds(patterns: Seq<Seq<char>>) -> bool;

/// Relies on aho_corasick::AhoCorasick, built ASCII-case-insensitive
/// (`None` exactly when that construction fails), and on find_iter:
/// non-overlapping matches of the pattern set, reported left to right,
/// each starting at or after the end of the one before. Each reported
/// pair is an in-range pattern index together with the character
/// offset of the matched span. Patterns are non-empty by precondition,
/// so every match starts on a character boundary and byte offsets
/// convert one-to-one.
#[verifier::external_body]
fn ac_find(patterns: &Vec<String>, text: &str) -> (r: Option<Vec<(usize, usize)>>)
    requires
        all_patterns_nonempty(patterns.deep_view()),
    ensures
        r is Some <==> ac_builds(patterns.deep_view()),
        r matches Some(v) ==> v@ == ac_matches(patterns.deep_view(), text@),
        r matches Some(v) ==> forall|k: int|
            0 <= k < v@.len() ==> (#[trigger] v@[k]).0 < patterns@.len() && v@[k].1
                + patterns@[v@[k].0 as int]@.len() <= text@.len(),
        r matches Some(v) ==> forall|k1: int, k2: int|
            0 <= k1 < k2 < v@.len() ==> (#[trigger] v@[k1]).1 + patterns@[v@[k1].0 as int]@.len()
                <= (#[trigger] v@[k2]).1,
{
    let pats: Vec<&str> = patterns.iter().map(|s| s.as_str()).collect();
    let ac = match aho_corasick::AhoCorasick::builder().ascii_case_insensitive(true).build(&pats) {
        Ok(a) => a,
        Err(_) => return None,
    };
    let mut out: Vec<(usize, usize)> = Vec::new();
    for m in ac.find_iter(text) {
        let cstart = text[..m.start()].chars().count();
        out.push((m.pattern().as_usize(), cstart));
    }
    Some(out)
}

/// Map from pattern to the ordered offsets of its occurrences: an
/// association list with unique keys.
#[derive(Debug, Clone)]
pub struct PatternMatches {
    pub entries: Vec<(String, Vec<usize>)>,
}

impl PatternMatches {
    /// The entries with strings and vectors viewed as sequences.
    pub open spec fn entries_model(self) -> Seq<(Seq<char>, Seq<usize>)> {
        self.entries@.map_values(|e: (String, Vec<usize>)| (e.0@, e.1@))
    }

    /// An empty map.
    pub fn new() -> (r: PatternMatches)
        ensures
            r.entries_model() =~= Seq::<(Seq<char>, Seq<usize>)>::empty(),
    {
        PatternMatches { entries: Vec::new() }
    }

    /// Appends `off` to the offset list of `key`, opening a new entry
    /// when `key` is absent.
    fn append_offset(&mut self, key: &String, off: usize)
        requires
            unique_keys(old(self).entries_model()),
        ensures
            unique_keys(final(self).entries_model()),
            final(self).entries_model() == if has_key(old(self).entries_model(), key@) {
                old(self).entries_model().update(
                    key_index(old(self).entries_model(), key@),
                    (key@, value_of(old(self).entries_model(), key@).push(off)),
                )
            } else {
                old(self).entries_model().push((key@, seq![off]))
            },
    {
        let ghost orig = self.entries_model();
        let n = self.entries.len();
        let mut i: usize = 0;
        while i < n
            invariant
                n == self.entries@.len(),
                i <= n,
                self.entries_model() == orig,
                old(self).entries_model() == orig,
                unique_keys(orig),
                forall|j: int| 0 <= j < i ==> (#[trigger] orig[j]).0 != key@,
            decreases n - i,
        {
            if self.entries[i].0 == *key {
                proof {
                    assert(orig[i as int].0 == key@);
                    assert(has_key(orig, key@));
                    lemma_key_index(orig, key@);
                    assert(key_index(orig, key@) == i as int);
                }
                let ghost oldlist = self.entries@[i as int].1@;
                let k = self.entries[i].0.clone();
                let mut list = self.entries[i].1.clone();
                list.push(off);
                proof {
                    assert(list@ == oldlist.push(off));
                    assert(value_of(orig, key@) == oldlist);
                }
                self.entries[i] = (k, list);
                proof {
                    assert(self.entries_model() =~= orig.update(
                        i as int,
                        (key@, oldlist.push(off)),
                    ));
                    lemma_assoc_update(orig, i as int, oldlist.push(off));
                }
                return ;
            }
            i = i + 1;
        }
        proof {
            assert(!has_key(orig, key@));
            lemma_assoc_push(orig, key@, seq![off]);
        }
        let mut fresh: Vec<usize> = Vec::new();
        fresh.push(off);
        proof {
            assert(fresh@ =~= seq![off]);
        }
        self.entries.push((key.clone(), fresh));
        proof {
            assert(self.entries_model() =~= orig.push((key@, seq![off])));
        }
    }

    /// The offsets recorded for `pattern`, if it occurred.
    pub fn get(&self, pattern: &String) -> (r: Option<&Vec<usize>>)
        requires
            unique_keys(self.entries_model()),
        ensures
            r matches Some(v) ==> has_key(self.entries_model(), pattern@) && v@ == value_of(
                self.entries_model(),
                pattern@,
            ),
            r is None ==> !has_key(self.entries_model(), pattern@),
    {
        let n = self.entries.len();
        let mut i: usize = 0;
        while i < n
            invariant
                n == self.entries@.len(),
                i <= n,
                unique_keys(self.entries_model()),
                forall|j: int| 0 <= j < i ==> (#[trigger] self.entries_model()[j]).0 != pattern@,
            decreases n - i,
        {
            if self.entries[i].0 == *pattern {
                proof {
                    assert(self.entries_model()[i as int].0 == pattern@);
                    assert(has_key(self.entries_model(), pattern@));
                    lemma_key_index(self.entries_model(), pattern@);
                }
                return Some(&self.entries[i].1);
            }
            i = i + 1;
        }
        None
    }

    /// Number of patterns that occurred at least once.
    pub fn len(&self) -> (r: usize)
        ensures
            r == self.entries_model().len(),
    {
        self.entries.len()
    }
}

/// The grouped match map after processing `ms` in order: each match
/// appends its start offset to the offset list of its pattern's text,
/// so duplicate patterns share one key whose offsets are unioned.
pub open spec fn grouped_matches(pats: Seq<Seq<char>>, ms: Seq<(usize, usize)>) -> Seq<
    (Seq<char>, Seq<usize>),
>
    decreases ms.len(),
{
    if ms.len() == 0 {
        Seq::empty()
    } else {
        let prev = grouped_matches(pats, ms.drop_last());
        let m = ms.last();
        let key = pats[m.0 as int];
        if has_key(prev, key) {
            prev.update(key_index(prev, key), (key, value_of(prev, key).push(m.1)))
        } else {
            prev.push((key, seq![m.1]))
        }
    }
}

/// The start offsets of the matches in `ms` whose pattern index names
/// the pattern text `p`, in match order.
pub open spec fn offsets_for(pats: Seq<Seq<char>>, ms: Seq<(usize, usize)>, p: Seq<char>) -> Seq<
    usize,
>
    decreases ms.len(),
{
    if ms.len() == 0 {
        Seq::empty()
    } else {
        let rest = offsets_for(pats, ms.drop_last(), p);
        if pats[ms.last().0 as int] == p {
            rest.push(ms.last().1)
        } else {
            rest
        }
    }
}

/// Law: the grouped match map holds a key exactly for the pattern
/// texts that matched at least once, and binds each such pattern to
/// the offsets of its own matches, in match order.
pub proof fn lemma_grouped_characterization(pats: Seq<Seq<char>>, ms: Seq<(usize, usize)>)
    ensures
        unique_keys(grouped_matches(pats, ms)),
        forall|p: Seq<char>|
            #[trigger] has_key(grouped_matches(pats, ms), p) <==> offsets_for(pats, ms, p).len()
                > 0,
        forall|p: Seq<char>|
            has_key(grouped_matches(pats, ms), p) ==> value_of(grouped_matches(pats, ms), p)
                == offsets_for(pats, ms, p),
    decreases ms.len(),
{
    if ms.len() == 0 {
    } else {
        lemma_grouped_characterization(pats, ms.drop_last());
        let prev = grouped_matches(pats, ms.drop_last());
        let m = ms.last();
        let key = pats[m.0 as int];
        let g = grouped_matches(pats, ms);
        if has_key(prev, key) {
            lemma_key_index(prev, key);
            let i = key_index(prev, key);
            lemma_assoc_update(prev, i, (value_of(prev, key).push(m.1)));
            assert(g == prev.update(i, (key, value_of(prev, key).push(m.1))));
            assert forall|p: Seq<char>|
                #[trigger] has_key(g, p) <==> offsets_for(pats, ms, p).len() > 0 by {
                if p == key {
                    assert(has_key(g, key));
                } else {
                    assert(has_key(g, p) == has_key(prev, p));
                }
            }
            assert forall|p: Seq<char>| has_key(g, p) implies value_of(g, p) == offsets_for(
                pats,
                ms,
                p,
            ) by {
                if p == key {
                    assert(value_of(g, key) == value_of(prev, key).push(m.1));
                } else {
                    assert(has_key(prev, p));
                }
            }
        } else {
            lemma_assoc_push(prev, key, seq![m.1]);
            assert(offsets_for(pats, ms.drop_last(), key) =~= Seq::<usize>::empty());
            assert(Seq::<usize>::empty().push(m.1) =~= seq![m.1]);
            assert forall|p: Seq<char>|
                #[trigger] has_key(g, p) <==> offsets_for(pats, ms, p).len() > 0 by {
                if p != key {
                    assert(has_key(g, p) == has_key(prev, p));
                }
            }
            assert forall|p: Seq<char>| has_key(g, p) implies value_of(g, p) == offsets_for(
                pats,
                ms,
                p,
            ) by {
                if p == key {
                    assert(value_of(g, key) == seq![m.1]);
                } else {
                    assert(has_key(prev, p));
                }
            }
        }
    }
}

/// Law: every key of the grouped map is one of the pattern texts.
pub proof fn lemma_grouped_keys_among_patterns(pats: Seq<Seq<char>>, ms: Seq<(usize, usize)>)
    requires
        forall|k: int| 0 <= k < ms.len() ==> (#[trigger] ms[k]).0 < pats.len(),
    ensures
        forall|p: Seq<char>| #[trigger] has_key(grouped_matches(pats, ms), p) ==> pats.contains(p),
    decreases ms.len(),
{
    if ms.len() > 0 {
        assert forall|k: int|
            0 <= k < ms.drop_last().len() implies (#[trigger] ms.drop_last()[k]).0
            < pats.len() by {
            assert(ms.drop_last()[k] == ms[k]);
        }
        lemma_grouped_keys_among_patterns(pats, ms.drop_last());
        lemma_grouped_characterization(pats, ms.drop_last());
        let prev = grouped_matches(pats, ms.drop_last());
        let m = ms.last();
        let key = pats[m.0 as int];
        let g = grouped_matches(pats, ms);
        assert(pats.contains(key)) by {
            assert(pats[m.0 as int] == key);
        }
        if has_key(prev, key) {
            lemma_key_index(prev, key);
            lemma_assoc_update(prev, key_index(prev, key), (value_of(prev, key).push(m.1)));
            assert forall|p: Seq<char>| #[trigger] has_key(g, p) implies pats.contains(p) by {
                assert(has_key(g, p) == has_key(prev, p));
            }
        } else {
            lemma_assoc_push(prev, key, seq![m.1]);
            assert forall|p: Seq<char>| #[trigger] has_key(g, p) implies pats.contains(p) by {
                assert(has_key(g, p) == (has_key(prev, p) || p == key));
            }
        }
    }
}

/// Law: with match start offsets strictly ascending, each pattern's
/// grouped offsets are strictly ascending as well.
pub proof fn lemma_offsets_ascending(pats: Seq<Seq<char>>, ms: Seq<(usize, usize)>, p: Seq<char>)
    requires
        forall|k1: int, k2: int|
            0 <= k1 < k2 < ms.len() ==> (#[trigger] ms[k1]).1 < (#[trigger] ms[k2]).1,
    ensures
        strictly_ascending(offsets_for(pats, ms, p)),
        offsets_for(pats, ms, p).len() > 0 && ms.len() > 0 ==> offsets_for(pats, ms, p).last()
            <= ms.last().1,
    decreases ms.len(),
{
    if ms.len() > 0 {
        assert forall|k1: int, k2: int|
            0 <= k1 < k2 < ms.drop_last().len() implies (#[trigger] ms.drop_last()[k1]).1 < (
        #[trigger] ms.drop_last()[k2]).1 by {
            assert(ms.drop_last()[k1] == ms[k1]);
            assert(ms.drop_last()[k2] == ms[k2]);
        }
        lemma_offsets_ascending(pats, ms.drop_last(), p);
        let before = offsets_for(pats, ms.drop_last(), p);
        let m = ms.last();
        let off = offsets_for(pats, ms, p);
        if pats[m.0 as int] == p {
            assert(off == before.push(m.1));
            if before.len() > 0 {
                assert(ms.drop_last().len() > 0);
                assert(ms.drop_last().last() == ms[ms.len() - 2]);
                assert(ms[ms.len() - 2].1 < m.1);
                assert(before.last() < m.1);
            }
            assert forall|a: int, b: int| 0 <= a < b < off.len() implies off[a] < off[b] by {
                if b == off.len() - 1 {
                    assert(off[b] == m.1);
                    assert(off[a] == before[a]);
                    if a < before.len() - 1 {
                        assert(before[a] < before.last());
                    }
                } else {
                    assert(off[a] == before[a] && off[b] == before[b]);
                }
            }
        } else {
            assert(off == before);
            if off.len() > 0 && ms.drop_last().len() > 0 {
                assert(ms.drop_last().last() == ms[ms.len() - 2]);
                assert(ms[ms.len() - 2].1 < m.1);
            }
        }
    }
}

/// Groups a match list by pattern, in match order.
pub fn group_matches(patterns: &Vec<String>, found: &Vec<(usize, usize)>) -> (r: PatternMatches)
    requires
        forall|k: int| 0 <= k < found@.len() ==> (#[trigger] found@[k]).0 < patterns@.len(),
    ensures
        unique_keys(r.entries_model()),
        r.entries_model() == grouped_matches(patterns.deep_view(), found@),
{
    let ghost pv = patterns.deep_view();
    let mut out = PatternMatches::new();
    let n = found.len();
    let mut i: usize = 0;
    proof {
        assert(found@.take(0) =~= Seq::<(usize, usize)>::empty());
    }
    while i < n
        invariant
            n == found@.len(),
            pv == patterns.deep_view(),
            pv.len() == patterns@.len(),
            i <= n,
            forall|k: int| 0 <= k < found@.len() ==> (#[trigger] found@[k]).0 < patterns@.len(),
            unique_keys(out.entries_model()),
            out.entries_model() == grouped_matches(pv, found@.take(i as int)),
        decreases n - i,
    {
        let m = found[i];
        proof {
            assert(found@.take(i + 1).drop_last() =~= found@.take(i as int));
            assert(found@.take(i + 1).last() == found@[i as int]);
            assert(pv[m.0 as int] == patterns@[m.0 as int]@);
        }
        out.append_offset(&patterns[m.0], m.1);
        i = i + 1;
    }
    proof {
        assert(found@.take(n as int) =~= found@);
    }
    out
}

/// Finds every occurrence of every pattern in one scan of `text`,
/// matching literally up to ASCII case. Offsets are character indices,
/// strictly ascending per pattern in scan order; patterns that do not
/// occur are absent from the result; every key of the result is one of
/// the given patterns, and duplicate pattern strings share one key
/// whose offsets are unioned. An empty pattern set is legal and yields
/// an empty map. Fails with `ProcessingError` exactly when the pattern
/// set is malformed (a pattern is the empty string) or automaton
/// construction fails.
pub fn find_patterns(text: &str, patterns: Vec<String>) -> (r: Result<PatternMatches, LexicaError>)
    ensures
        r is Ok <==> all_patterns_nonempty(patterns.deep_view()) && (patterns@.len() == 0
            || ac_builds(patterns.deep_view())),
        r matches Ok(m) ==> unique_keys(m.entries_model()),
        r matches Ok(m) ==> forall|p: Seq<char>|
            #[trigger] has_key(m.entries_model(), p) ==> patterns.deep_view().contains(p),
        r matches Ok(m) ==> forall|p: Seq<char>|
            #[trigger] has_key(m.entries_model(), p) ==> strictly_ascending(
                value_of(m.entries_model(), p),
            ),
        r matches Ok(m) ==> (patterns@.len() > 0 ==> m.entries_model() == grouped_matches(
            patterns.deep_view(),
            ac_matches(patterns.deep_view(), text@),
        )),
        r matches Ok(m) ==> (patterns@.len() == 0 ==> m.entries_model() == Seq::<
            (Seq<char>, Seq<usize>),
        >::empty()),
        r matches Err(e) ==> e == LexicaError::ProcessingError,
{
    let ghost pv = patterns.deep_view();
    if patterns.len() == 0 {
        return Ok(PatternMatches::new());
    }
    let n = patterns.len();
    let mut i: usize = 0;
    while i < n
        invariant
            n == patterns@.len(),
            pv == patterns.deep_view(),
            pv.len() == n,
            i <= n,
            forall|j: int| 0 <= j < i ==> (#[trigger] pv[j]).len() > 0,
        decreases n - i,
    {
        proof {
            assert(pv[i as int] == patterns@[i as int]@);
        }
        if patterns[i].as_str().is_empty() {
            proof {
                assert(pv[i as int].len() == 0);
            }
            return Err(LexicaError::ProcessingError);
        }
        i = i + 1;
    }
    match ac_find(&patterns, text) {
        Some(found) => {
            let m = group_matches(&patterns, &found);
            proof {
                lemma_grouped_keys_among_patterns(pv, found@);
                lemma_grouped_characterization(pv, found@);
                assert forall|k1: int, k2: int|
                    0 <= k1 < k2 < found@.len() implies (#[trigger] found@[k1]).1 < (
                #[trigger] found@[k2]).1 by {
                    assert(pv[found@[k1].0 as int] == patterns@[found@[k1].0 as int]@);
                    assert(pv[found@[k1].0 as int].len() > 0);
                }
                assert forall|p: Seq<char>|
                    #[trigger] has_key(m.entries_model(), p) implies strictly_ascending(
                    value_of(m.entries_model(), p),
                ) by {
                    lemma_offsets_ascending(pv, found@, p);
                }
            }
            Ok(m)
        },
        None => Err(LexicaError::ProcessingError),
    }
}

} // verus!
