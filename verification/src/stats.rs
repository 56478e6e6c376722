//! Character- and word-level statistics over one or many texts.
//!
//! Frequency tables are association lists with unique keys; their
//! contracts say exactly which keys appear and with which counts, so
//! the result is the key-wise sum of the tables of any partition of the
//! input (see `lemma_frequency_table_merge`).

use vstd::prelude::*;
use vstd::utf8::decode_utf8;
use vstd::utf8::valid_utf8;
use crate::assoc::count_occ;
use crate::assoc::get_count;
use crate::assoc::has_key;
use crate::assoc::is_frequency_table;
use crate::assoc::lemma_assoc_push;
use crate::assoc::lemma_assoc_update;
use crate::assoc::lemma_count_occ_concat;
use crate::assoc::lemma_count_occ_contains;
use crate::assoc::lemma_count_occ_le_len;
use crate::assoc::lemma_count_occ_push;
use crate::assoc::lemma_key_index;
use crate::assoc::lemma_sum_push;
use crate::assoc::lemma_sum_update;
use crate::assoc::sum_counts;
use crate::assoc::unique_keys;
use crate::assoc::value_of;
use crate::errors::LexicaError;
use crate::text::chars_of;
use crate::unicode::unicode_words_of;
use crate::unicode::unicode_words_vec;
use crate::unicode::utf8_to_string;

verus! {

/// Frequency table over characters: one entry per distinct character.
#[derive(Debug, Clone)]
pub struct CharFrequencies {
    pub entries: Vec<(char, usize)>,
}

impl CharFrequencies {
    /// The table's entries as a sequence of key-count pairs.
    pub open spec fn counts(self) -> Seq<(char, usize)> {
        self.entries@
    }

    /// An empty table.
    pub fn new() -> (r: CharFrequencies)
        ensures
            r.counts() =~= Seq::<(char, usize)>::empty(),
    {
        CharFrequencies { entries: Vec::new() }
    }

    /// Raises the count recorded for `c` by one, adding an entry when
    /// `c` is new. Keys stay unique; other counts stay unchanged.
    pub fn increment(&mut self, c: char)
        requires
            unique_keys(old(self).counts()),
            get_count(old(self).counts(), c) < usize::MAX,
        ensures
            unique_keys(final(self).counts()),
            get_count(final(self).counts(), c) == get_count(old(self).counts(), c) + 1,
            forall|k: char|
                k != c ==> get_count(final(self).counts(), k) == get_count(old(self).counts(), k),
            forall|k: char|
                has_key(final(self).counts(), k) == (has_key(old(self).counts(), k) || k == c),
            sum_counts(final(self).counts()) == sum_counts(old(self).counts()) + 1,
    {
        let ghost orig = self.entries@;
        let n = self.entries.len();
        let mut i: usize = 0;
        while i < n
            invariant
                n == self.entries@.len(),
                i <= n,
                self.entries@ == orig,
                old(self).entries@ == orig,
                unique_keys(orig),
                get_count(orig, c) < usize::MAX,
                forall|j: int| 0 <= j < i ==> (#[trigger] orig[j]).0 != c,
            decreases n - i,
        {
            if self.entries[i].0 == c {
                proof {
                    assert(has_key(orig, c)) by {
                        assert(orig[i as int].0 == c);
                    }
                    lemma_key_index(orig, c);
                    assert(value_of(orig, c) == orig[i as int].1);
                    lemma_assoc_update(orig, i as int, (orig[i as int].1 + 1) as usize);
                    lemma_sum_update(orig, i as int, (orig[i as int].1 + 1) as usize);
                }
                let v = self.entries[i].1;
                self.entries[i] = (c, v + 1);
                proof {
                    assert(self.entries@ =~= orig.update(i as int, (c, (v + 1) as usize)));
                    assert forall|k: char|
                        has_key(self.entries@, k) == (has_key(orig, k) || k == c) by {
                        if k == c {
                            assert(has_key(orig, c));
                        }
                    }
                }
                return ;
            }
            i = i + 1;
        }
        proof {
            assert(!has_key(orig, c));
            lemma_assoc_push(orig, c, 1usize);
            lemma_sum_push(orig, (c, 1usize));
        }
        self.entries.push((c, 1));
    }

    /// The count recorded for `c`, if any.
    pub fn get(&self, c: char) -> (r: Option<usize>)
        requires
            unique_keys(self.counts()),
        ensures
            r matches Some(v) ==> has_key(self.counts(), c) && v as nat == get_count(
                self.counts(),
                c,
            ),
            r is None ==> !has_key(self.counts(), c),
    {
        let n = self.entries.len();
        let mut i: usize = 0;
        while i < n
            invariant
                n == self.entries@.len(),
                i <= n,
                unique_keys(self.counts()),
                forall|j: int| 0 <= j < i ==> (#[trigger] self.entries@[j]).0 != c,
            decreases n - i,
        {
            if self.entries[i].0 == c {
                proof {
                    assert(has_key(self.entries@, c)) by {
                        assert(self.entries@[i as int].0 == c);
                    }
                    lemma_key_index(self.entries@, c);
                }
                return Some(self.entries[i].1);
            }
            i = i + 1;
        }
        None
    }

    /// Number of distinct characters recorded.
    pub fn len(&self) -> (r: usize)
        ensures
            r == self.counts().len(),
    {
        self.entries.len()
    }
}

/// Frequency table over words: one entry per distinct word.
#[derive(Debug, Clone)]
pub struct WordFrequencies {
    pub entries: Vec<(String, usize)>,
}

impl WordFrequencies {
    /// The table's entries with words viewed as character sequences.
    pub open spec fn counts(self) -> Seq<(Seq<char>, usize)> {
        self.entries@.map_values(|e: (String, usize)| (e.0@, e.1))
    }

    /// An empty table.
    pub fn new() -> (r: WordFrequencies)
        ensures
            r.counts() =~= Seq::<(Seq<char>, usize)>::empty(),
    {
        WordFrequencies { entries: Vec::new() }
    }

    /// Raises the count recorded for `w` by one, adding an entry when
    /// `w` is new. Keys stay unique; other counts stay unchanged.
    pub fn increment(&mut self, w: &String)
        requires
            unique_keys(old(self).counts()),
            get_count(old(self).counts(), w@) < usize::MAX,
        ensures
            unique_keys(final(self).counts()),
            get_count(final(self).counts(), w@) == get_count(old(self).counts(), w@) + 1,
            forall|k: Seq<char>|
                k != w@ ==> get_count(final(self).counts(), k) == get_count(old(self).counts(), k),
            forall|k: Seq<char>|
                has_key(final(self).counts(), k) == (has_key(old(self).counts(), k) || k == w@),
            sum_counts(final(self).counts()) == sum_counts(old(self).counts()) + 1,
    {
        let ghost orig = self.counts();
        let n = self.entries.len();
        let mut i: usize = 0;
        while i < n
            invariant
                n == self.entries@.len(),
                i <= n,
                self.counts() == orig,
                old(self).counts() == orig,
                orig.len() == n,
                unique_keys(orig),
                get_count(orig, w@) < usize::MAX,
                forall|j: int| 0 <= j < i ==> (#[trigger] orig[j]).0 != w@,
            decreases n - i,
        {
            if self.entries[i].0 == *w {
                proof {
                    assert(orig[i as int].0 == w@);
                    assert(has_key(orig, w@));
                    lemma_key_index(orig, w@);
                    assert(value_of(orig, w@) == orig[i as int].1);
                    lemma_assoc_update(orig, i as int, (self.entries@[i as int].1 + 1) as usize);
                    lemma_sum_update(orig, i as int, (self.entries@[i as int].1 + 1) as usize);
                }
                let v = self.entries[i].1;
                let key = self.entries[i].0.clone();
                self.entries[i] = (key, v + 1);
                proof {
                    assert(self.counts() =~= orig.update(i as int, (w@, (v + 1) as usize)));
                    assert forall|k: Seq<char>|
                        has_key(self.counts(), k) == (has_key(orig, k) || k == w@) by {
                        if k == w@ {
                            assert(has_key(orig, w@));
                        }
                    }
                }
                return ;
            }
            i = i + 1;
        }
        proof {
            assert(!has_key(orig, w@));
            lemma_assoc_push(orig, w@, 1usize);
            lemma_sum_push(orig, (w@, 1usize));
        }
        self.entries.push((w.clone(), 1));
        proof {
            assert(self.counts() =~= orig.push((w@, 1usize)));
        }
    }

    /// The count recorded for `w`, if any.
    pub fn get(&self, w: &String) -> (r: Option<usize>)
        requires
            unique_keys(self.counts()),
        ensures
            r matches Some(v) ==> has_key(self.counts(), w@) && v as nat == get_count(
                self.counts(),
                w@,
            ),
            r is None ==> !has_key(self.counts(), w@),
    {
        let n = self.entries.len();
        let mut i: usize = 0;
        while i < n
            invariant
                n == self.entries@.len(),
                i <= n,
                unique_keys(self.counts()),
                self.counts().len() == n,
                forall|j: int| 0 <= j < i ==> (#[trigger] self.counts()[j]).0 != w@,
            decreases n - i,
        {
            if self.entries[i].0 == *w {
                proof {
                    assert(self.counts()[i as int].0 == w@);
                    assert(has_key(self.counts(), w@));
                    lemma_key_index(self.counts(), w@);
                }
                return Some(self.entries[i].1);
            }
            i = i + 1;
        }
        None
    }

    /// Number of distinct words recorded.
    pub fn len(&self) -> (r: usize)
        ensures
            r == self.counts().len(),
    {
        self.entries.len()
    }
}

/// Aggregate statistics of one text.
#[derive(Debug, Clone)]
pub struct StringStats {
    pub char_count: usize,
    pub word_count: usize,
    pub unique_chars: usize,
    pub unique_words: usize,
    pub char_frequencies: CharFrequencies,
    pub word_frequencies: WordFrequencies,
}

/// Exact description of the statistics of a text: counts are the
/// numbers of characters and of Unicode words, the tables are the
/// frequency tables of those sequences, the unique counts are the
/// tables' sizes, and each table's counts sum to the total it counts.
pub open spec fn stats_of(r: StringStats, text: Seq<char>) -> bool {
    &&& r.char_count as nat == text.len()
    &&& r.word_count as nat == unicode_words_of(text).len()
    &&& is_frequency_table(r.char_frequencies.counts(), text)
    &&& is_frequency_table(r.word_frequencies.counts(), unicode_words_of(text))
    &&& r.unique_chars == r.char_frequencies.counts().len()
    &&& r.unique_words == r.word_frequencies.counts().len()
    &&& sum_counts(r.char_frequencies.counts()) == text.len()
    &&& sum_counts(r.word_frequencies.counts()) == unicode_words_of(text).len()
}

/// Builds the frequency table of a character vector.
pub fn char_frequency_table(chars: &Vec<char>) -> (r: CharFrequencies)
    ensures
        unique_keys(r.counts()),
        is_frequency_table(r.counts(), chars@),
        sum_counts(r.counts()) == chars@.len(),
{
    let mut table = CharFrequencies::new();
    let n = chars.len();
    let mut i: usize = 0;
    proof {
        assert(chars@.take(0) =~= Seq::<char>::empty());
    }
    while i < n
        invariant
            n == chars@.len(),
            i <= n,
            unique_keys(table.counts()),
            is_frequency_table(table.counts(), chars@.take(i as int)),
            sum_counts(table.counts()) == i,
        decreases n - i,
    {
        let ghost before = table.counts();
        let ghost prefix = chars@.take(i as int);
        let c = chars[i];
        proof {
            lemma_count_occ_le_len(prefix, c);
            assert(prefix.len() == i);
        }
        table.increment(c);
        proof {
            assert(chars@.take(i + 1) =~= prefix.push(chars@[i as int]));
            assert forall|k: char|
                #[trigger] get_count(table.counts(), k) == count_occ(chars@.take(i + 1), k) by {
                lemma_count_occ_push(prefix, c, k);
            }
            assert forall|k: char| #[trigger]
                has_key(table.counts(), k) implies chars@.take(i + 1).contains(k) by {
                lemma_count_occ_push(prefix, c, k);
                if k == c {
                    lemma_count_occ_contains(chars@.take(i + 1), k);
                } else {
                    lemma_count_occ_contains(prefix, k);
                    lemma_count_occ_contains(chars@.take(i + 1), k);
                }
            }
        }
        i = i + 1;
    }
    proof {
        assert(chars@.take(n as int) =~= chars@);
    }
    table
}

/// Builds the frequency table of a word vector.
pub fn word_frequency_table(words: &Vec<String>) -> (r: WordFrequencies)
    ensures
        unique_keys(r.counts()),
        is_frequency_table(r.counts(), words.deep_view()),
        sum_counts(r.counts()) == words.deep_view().len(),
{
    let mut table = WordFrequencies::new();
    let ghost ws = words.deep_view();
    let n = words.len();
    let mut i: usize = 0;
    proof {
        assert(ws.len() == n);
        assert(ws.take(0) =~= Seq::<Seq<char>>::empty());
    }
    while i < n
        invariant
            n == words@.len(),
            ws == words.deep_view(),
            ws.len() == n,
            i <= n,
            unique_keys(table.counts()),
            is_frequency_table(table.counts(), ws.take(i as int)),
            sum_counts(table.counts()) == i,
        decreases n - i,
    {
        let ghost before = table.counts();
        let ghost prefix = ws.take(i as int);
        proof {
            assert(ws[i as int] == words@[i as int]@);
            lemma_count_occ_le_len(prefix, words@[i as int]@);
            assert(prefix.len() == i);
        }
        table.increment(&words[i]);
        proof {
            assert(ws.take(i + 1) =~= prefix.push(ws[i as int]));
            assert forall|k: Seq<char>|
                #[trigger] get_count(table.counts(), k) == count_occ(ws.take(i + 1), k) by {
                lemma_count_occ_push(prefix, ws[i as int], k);
            }
            assert forall|k: Seq<char>| #[trigger]
                has_key(table.counts(), k) implies ws.take(i + 1).contains(k) by {
                lemma_count_occ_push(prefix, ws[i as int], k);
                if k == ws[i as int] {
                    lemma_count_occ_contains(ws.take(i + 1), k);
                } else {
                    lemma_count_occ_contains(prefix, k);
                    lemma_count_occ_contains(ws.take(i + 1), k);
                }
            }
        }
        i = i + 1;
    }
    proof {
        assert(ws.take(n as int) =~= ws);
    }
    table
}

/// Statistics of `text`: character and Unicode-word counts and their
/// frequency tables. A `&str` is always well-formed, so this never
/// fails; the byte entry point reports malformed input.
pub fn calculate_string_stats(text: &str) -> (r: Result<StringStats, LexicaError>)
    ensures
        r is Ok,
        r matches Ok(s) ==> stats_of(s, text@),
{
    let chars = chars_of(text);
    let words = unicode_words_vec(text);
    let char_frequencies = char_frequency_table(&chars);
    let word_frequencies = word_frequency_table(&words);
    let unique_chars = char_frequencies.len();
    let unique_words = word_frequencies.len();
    proof {
        assert(words.deep_view().len() == words@.len());
    }
    Ok(
        StringStats {
            char_count: chars.len(),
            word_count: words.len(),
            unique_chars,
            unique_words,
            char_frequencies,
            word_frequencies,
        },
    )
}

/// Statistics of a byte string: fails with `InvalidUtf8` exactly when
/// the bytes are not well-formed UTF-8, and otherwise reports the
/// statistics of their decoding.
pub fn calculate_string_stats_bytes(bytes: &[u8]) -> (r: Result<StringStats, LexicaError>)
    ensures
        r is Ok <==> valid_utf8(bytes@),
        r matches Ok(s) ==> stats_of(s, decode_utf8(bytes@)),
        r matches Err(e) ==> e == LexicaError::InvalidUtf8,
{
    match utf8_to_string(bytes) {
        Some(text) => {
            match calculate_string_stats(text.as_str()) {
                Ok(s) => Ok(s),
                Err(_) => {
                    proof {
                        assert(false);
                    }
                    Err(LexicaError::InvalidUtf8)
                },
            }
        },
        None => Err(LexicaError::InvalidUtf8),
    }
}

/// Statistics of each text in turn: one result per input, in input
/// order. Inputs are strings, so every item succeeds.
pub fn process_text_batch(texts: Vec<String>) -> (r: Vec<StringStats>)
    ensures
        r@.len() == texts@.len(),
        forall|i: int| 0 <= i < r@.len() ==> stats_of(#[trigger] r@[i], texts@[i]@),
{
    let mut out: Vec<StringStats> = Vec::new();
    let n = texts.len();
    let mut i: usize = 0;
    while i < n
        invariant
            n == texts@.len(),
            i <= n,
            out@.len() == i,
            forall|j: int| 0 <= j < i ==> stats_of(#[trigger] out@[j], texts@[j]@),
        decreases n - i,
    {
        match calculate_string_stats(texts[i].as_str()) {
            Ok(s) => {
                out.push(s);
            },
            Err(_) => {
                proof {
                    assert(false);
                }
            },
        }
        i = i + 1;
    }
    out
}

/// The decodings of the well-formed entries of `texts`, in input order;
/// malformed entries are dropped.
pub open spec fn decoded_valid_texts(texts: Seq<Seq<u8>>) -> Seq<Seq<char>>
    decreases texts.len(),
{
    if texts.len() == 0 {
        Seq::empty()
    } else {
        let rest = decoded_valid_texts(texts.drop_last());
        if valid_utf8(texts.last()) {
            rest.push(decode_utf8(texts.last()))
        } else {
            rest
        }
    }
}

/// Statistics of each well-formed byte string, in input order;
/// malformed entries are silently dropped, so the output may be
/// shorter than the input.
pub fn process_byte_batch(texts: Vec<Vec<u8>>) -> (r: Vec<StringStats>)
    ensures
        r@.len() == decoded_valid_texts(texts.deep_view()).len(),
        forall|i: int|
            0 <= i < r@.len() ==> stats_of(
                #[trigger] r@[i],
                decoded_valid_texts(texts.deep_view())[i],
            ),
{
    let mut out: Vec<StringStats> = Vec::new();
    let ghost tv = texts.deep_view();
    let n = texts.len();
    let mut i: usize = 0;
    proof {
        assert(tv.take(0) =~= Seq::<Seq<u8>>::empty());
    }
    while i < n
        invariant
            n == texts@.len(),
            tv == texts.deep_view(),
            tv.len() == n,
            i <= n,
            out@.len() == decoded_valid_texts(tv.take(i as int)).len(),
            forall|j: int|
                0 <= j < out@.len() ==> stats_of(
                    #[trigger] out@[j],
                    decoded_valid_texts(tv.take(i as int))[j],
                ),
        decreases n - i,
    {
        proof {
            assert(tv[i as int] == texts@[i as int]@);
            assert(tv.take(i + 1).drop_last() =~= tv.take(i as int));
            assert(tv.take(i + 1).last() == tv[i as int]);
        }
        match calculate_string_stats_bytes(texts[i].as_slice()) {
            Ok(s) => {
                out.push(s);
            },
            Err(_) => {},
        }
        i = i + 1;
    }
    proof {
        assert(tv.take(n as int) =~= tv);
    }
    out
}

/// Law: frequency tables merge by key-wise addition. A table of `a`, a
/// table of `b`, and any unique-keyed table whose counts are their
/// key-wise sums make exactly the table of `a + b` — so tables of
/// chunks combine to the table of the whole, independently of how the
/// input was partitioned.
pub proof fn lemma_frequency_table_merge<K>(
    e1: Seq<(K, usize)>,
    e2: Seq<(K, usize)>,
    e: Seq<(K, usize)>,
    a: Seq<K>,
    b: Seq<K>,
)
    requires
        is_frequency_table(e1, a),
        is_frequency_table(e2, b),
        unique_keys(e),
        forall|k: K| #[trigger] get_count(e, k) == get_count(e1, k) + get_count(e2, k),
        forall|k: K| #[trigger] has_key(e, k) ==> has_key(e1, k) || has_key(e2, k),
    ensures
        is_frequency_table(e, a + b),
{
    assert forall|k: K| #[trigger] get_count(e, k) == count_occ(a + b, k) by {
        lemma_count_occ_concat(a, b, k);
    }
    assert forall|k: K| #[trigger] has_key(e, k) implies (a + b).contains(k) by {
        lemma_count_occ_concat(a, b, k);
        lemma_count_occ_contains(a, k);
        lemma_count_occ_contains(b, k);
        lemma_count_occ_contains(a + b, k);
        if has_key(e1, k) {
            assert(get_count(e1, k) == count_occ(a, k));
            assert(count_occ(a, k) > 0);
        } else {
            assert(get_count(e2, k) == count_occ(b, k));
            assert(count_occ(b, k) > 0);
        }
    }
}

/// Law: the merge order of two chunks does not matter — a table of
/// `a + b` is also a table of `b + a`.
pub proof fn lemma_frequency_table_commutes<K>(e: Seq<(K, usize)>, a: Seq<K>, b: Seq<K>)
    requires
        is_frequency_table(e, a + b),
    ensures
        is_frequency_table(e, b + a),
{
    assert forall|k: K| #[trigger] get_count(e, k) == count_occ(b + a, k) by {
        lemma_count_occ_concat(a, b, k);
        lemma_count_occ_concat(b, a, k);
    }
    assert forall|k: K| #[trigger] has_key(e, k) implies (b + a).contains(k) by {
        lemma_count_occ_concat(a, b, k);
        lemma_count_occ_concat(b, a, k);
        lemma_count_occ_contains(a + b, k);
        lemma_count_occ_contains(b + a, k);
    }
}

} // verus!
