//! Morphological segmentation: decomposes a word into prefix, root and
//! suffix morphemes against configurable pattern tables, with an exact
//! integer confidence score.
//!
//! Affix scanning honours table order, so the tie-break among several
//! matching patterns is explicit and deterministic: the first entry in
//! insertion order wins.

use vstd::prelude::*;
use vstd::string::StrSliceExecFns;
use vstd::string::StringExecFns;
use crate::text::chars_of;
use crate::text::ends_with_chars;
use crate::text::is_prefix_of;
use crate::text::is_suffix_of;
use crate::text::starts_with_chars;
use crate::unicode::lower_of;
use crate::unicode::to_lowercase_string;

verus! {

/// Kind of a morpheme within a word.
#[derive(Debug, Clone, Copy, PartialEq, Eq, Structural)]
pub enum MorphemeKind {
    Prefix,
    Root,
    Suffix,
}

/// One segment of a word: its text, its kind, its character offset
/// into the normalized word, and its length in characters.
#[derive(Debug, Clone)]
pub struct Morpheme {
    pub text: String,
    pub kind: MorphemeKind,
    pub position: usize,
    pub length: usize,
}

/// Mathematical model of a morpheme.
#[verifier::ext_equal]
pub struct MorphemeModel {
    pub text: Seq<char>,
    pub kind: MorphemeKind,
    pub position: int,
    pub length: int,
}

impl View for Morpheme {
    type V = MorphemeModel;

    open spec fn view(&self) -> MorphemeModel {
        MorphemeModel {
            text: self.text@,
            kind: self.kind,
            position: self.position as int,
            length: self.length as int,
        }
    }
}

impl DeepView for Morpheme {
    type V = MorphemeModel;

    open spec fn deep_view(&self) -> MorphemeModel {
        self@
    }
}

/// A segmented word. The confidence score is held in hundredths so the
/// library stays within exact integer arithmetic: 100 stands for 1.0,
/// and each affix match scales it by 0.9 (100, 90 or 81).
#[derive(Debug, Clone)]
pub struct ParsedWord {
    pub original: String,
    pub normalized: String,
    pub morphemes: Vec<Morpheme>,
    pub confidence_hundredths: usize,
}

/// Mathematical model of a segmented word.
#[verifier::ext_equal]
pub struct ParsedWordModel {
    pub original: Seq<char>,
    pub normalized: Seq<char>,
    pub morphemes: Seq<MorphemeModel>,
    pub confidence_hundredths: int,
}

impl View for ParsedWord {
    type V = ParsedWordModel;

    open spec fn view(&self) -> ParsedWordModel {
        ParsedWordModel {
            original: self.original@,
            normalized: self.normalized@,
            morphemes: self.morphemes.deep_view(),
            confidence_hundredths: self.confidence_hundredths as int,
        }
    }
}

/// The patterns of a table, as character sequences, in table order.
pub open spec fn table_keys(table: Seq<(String, String)>) -> Seq<Seq<char>> {
    table.map_values(|e: (String, String)| e.0@)
}

/// Index of the first pattern that is a prefix of `w`, or -1 when none
/// is.
pub open spec fn first_prefix_index(pats: Seq<Seq<char>>, w: Seq<char>) -> int
    decreases pats.len(),
{
    if pats.len() == 0 {
        -1
    } else if is_prefix_of(pats[0], w) {
        0
    } else {
        let rest = first_prefix_index(pats.skip(1), w);
        if rest < 0 {
            -1
        } else {
            1 + rest
        }
    }
}

/// Index of the first pattern that is a suffix of `w`, or -1 when none
/// is.
pub open spec fn first_suffix_index(pats: Seq<Seq<char>>, w: Seq<char>) -> int
    decreases pats.len(),
{
    if pats.len() == 0 {
        -1
    } else if is_suffix_of(pats[0], w) {
        0
    } else {
        let rest = first_suffix_index(pats.skip(1), w);
        if rest < 0 {
            -1
        } else {
            1 + rest
        }
    }
}

/// A hit at `i` with no earlier hit pins `first_prefix_index` to `i`.
proof fn lemma_first_prefix_found(pats: Seq<Seq<char>>, w: Seq<char>, i: int)
    requires
        0 <= i < pats.len(),
        is_prefix_of(pats[i], w),
        forall|j: int| 0 <= j < i ==> !is_prefix_of(#[trigger] pats[j], w),
    ensures
        first_prefix_index(pats, w) == i,
    decreases i,
{
    if i == 0 {
    } else {
        assert(!is_prefix_of(pats[0], w));
        assert(pats.skip(1)[i - 1] == pats[i]);
        assert forall|j: int| 0 <= j < i - 1 implies !is_prefix_of(#[trigger] pats.skip(1)[j], w) by {
            assert(pats.skip(1)[j] == pats[j + 1]);
        }
        lemma_first_prefix_found(pats.skip(1), w, i - 1);
    }
}

/// No hit anywhere pins `first_prefix_index` to -1.
proof fn lemma_first_prefix_none(pats: Seq<Seq<char>>, w: Seq<char>)
    requires
        forall|j: int| 0 <= j < pats.len() ==> !is_prefix_of(#[trigger] pats[j], w),
    ensures
        first_prefix_index(pats, w) == -1,
    decreases pats.len(),
{
    if pats.len() > 0 {
        assert forall|j: int|
            0 <= j < pats.skip(1).len() implies !is_prefix_of(#[trigger] pats.skip(1)[j], w) by {
            assert(pats.skip(1)[j] == pats[j + 1]);
        }
        lemma_first_prefix_none(pats.skip(1), w);
    }
}

/// A hit at `i` with no earlier hit pins `first_suffix_index` to `i`.
proof fn lemma_first_suffix_found(pats: Seq<Seq<char>>, w: Seq<char>, i: int)
    requires
        0 <= i < pats.len(),
        is_suffix_of(pats[i], w),
        forall|j: int| 0 <= j < i ==> !is_suffix_of(#[trigger] pats[j], w),
    ensures
        first_suffix_index(pats, w) == i,
    decreases i,
{
    if i == 0 {
    } else {
        assert(!is_suffix_of(pats[0], w));
        assert(pats.skip(1)[i - 1] == pats[i]);
        assert forall|j: int| 0 <= j < i - 1 implies !is_suffix_of(#[trigger] pats.skip(1)[j], w) by {
            assert(pats.skip(1)[j] == pats[j + 1]);
        }
        lemma_first_suffix_found(pats.skip(1), w, i - 1);
    }
}

/// No hit anywhere pins `first_suffix_index` to -1.
proof fn lemma_first_suffix_none(pats: Seq<Seq<char>>, w: Seq<char>)
    requires
        forall|j: int| 0 <= j < pats.len() ==> !is_suffix_of(#[trigger] pats[j], w),
    ensures
        first_suffix_index(pats, w) == -1,
    decreases pats.len(),
{
    if pats.len() > 0 {
        assert forall|j: int|
            0 <= j < pats.skip(1).len() implies !is_suffix_of(#[trigger] pats.skip(1)[j], w) by {
            assert(pats.skip(1)[j] == pats[j + 1]);
        }
        lemma_first_suffix_none(pats.skip(1), w);
    }
}

/// The morphemes of the normalized word `norm` under the given tables,
/// in positional order: the first matching prefix, the root between
/// the affixes when that span is non-empty, and the first matching
/// suffix.
pub open spec fn spec_morphemes(
    prefixes: Seq<Seq<char>>,
    suffixes: Seq<Seq<char>>,
    norm: Seq<char>,
) -> Seq<MorphemeModel> {
    let pi = first_prefix_index(prefixes, norm);
    let si = first_suffix_index(suffixes, norm);
    let plen: int = if pi >= 0 {
        prefixes[pi].len() as int
    } else {
        0
    };
    let send: int = if si >= 0 {
        norm.len() - suffixes[si].len()
    } else {
        norm.len() as int
    };
    let pre: Seq<MorphemeModel> = if pi >= 0 {
        seq![
            MorphemeModel {
                text: prefixes[pi],
                kind: MorphemeKind::Prefix,
                position: 0,
                length: plen,
            },
        ]
    } else {
        Seq::empty()
    };
    let root: Seq<MorphemeModel> = if plen < send {
        seq![
            MorphemeModel {
                text: norm.subrange(plen, send),
                kind: MorphemeKind::Root,
                position: plen,
                length: send - plen,
            },
        ]
    } else {
        Seq::empty()
    };
    let suf: Seq<MorphemeModel> = if si >= 0 {
        seq![
            MorphemeModel {
                text: suffixes[si],
                kind: MorphemeKind::Suffix,
                position: send,
                length: norm.len() - send,
            },
        ]
    } else {
        Seq::empty()
    };
    pre + root + suf
}

/// The confidence score in hundredths: 100, scaled by 0.9 for each
/// affix found, so 100, 90 or 81.
pub open spec fn spec_confidence(
    prefixes: Seq<Seq<char>>,
    suffixes: Seq<Seq<char>>,
    norm: Seq<char>,
) -> int {
    let pi = first_prefix_index(prefixes, norm);
    let si = first_suffix_index(suffixes, norm);
    if pi >= 0 && si >= 0 {
        81
    } else if pi >= 0 || si >= 0 {
        90
    } else {
        100
    }
}

/// Exact model of segmenting one word: the normalized form is the
/// lowercase of the word, and morphemes and confidence follow the
/// first-match policy over the tables.
pub open spec fn spec_process(
    word: Seq<char>,
    prefixes: Seq<Seq<char>>,
    suffixes: Seq<Seq<char>>,
) -> ParsedWordModel {
    let norm = lower_of(word);
    ParsedWordModel {
        original: word,
        normalized: norm,
        morphemes: spec_morphemes(prefixes, suffixes, norm),
        confidence_hundredths: spec_confidence(prefixes, suffixes, norm),
    }
}

/// Law: an empty normalized word, against tables in which no pattern
/// is the empty string, yields no morphemes and full confidence.
pub proof fn lemma_empty_word_segmentation(
    prefixes: Seq<Seq<char>>,
    suffixes: Seq<Seq<char>>,
    norm: Seq<char>,
)
    requires
        norm.len() == 0,
        forall|i: int| 0 <= i < prefixes.len() ==> (#[trigger] prefixes[i]).len() > 0,
        forall|i: int| 0 <= i < suffixes.len() ==> (#[trigger] suffixes[i]).len() > 0,
    ensures
        spec_morphemes(prefixes, suffixes, norm) == Seq::<MorphemeModel>::empty(),
        spec_confidence(prefixes, suffixes, norm) == 100,
{
    assert forall|j: int| 0 <= j < prefixes.len() implies !is_prefix_of(
        #[trigger] prefixes[j],
        norm,
    ) by {
        assert(prefixes[j].len() > 0);
    }
    assert forall|j: int| 0 <= j < suffixes.len() implies !is_suffix_of(
        #[trigger] suffixes[j],
        norm,
    ) by {
        assert(suffixes[j].len() > 0);
    }
    lemma_first_prefix_none(prefixes, norm);
    lemma_first_suffix_none(suffixes, norm);
    assert(spec_morphemes(prefixes, suffixes, norm) =~= Seq::<MorphemeModel>::empty());
}

/// Finds the first table entry whose pattern is a prefix of `w`.
pub fn find_first_prefix(table: &Vec<(String, String)>, w: &Vec<char>) -> (r: Option<usize>)
    ensures
        r matches Some(i) ==> i < table@.len() && is_prefix_of(table_keys(table@)[i as int], w@)
            && first_prefix_index(table_keys(table@), w@) == i as int,
        r is None ==> first_prefix_index(table_keys(table@), w@) == -1,
{
    let ghost keys = table_keys(table@);
    let n = table.len();
    let mut i: usize = 0;
    while i < n
        invariant
            n == table@.len(),
            keys == table_keys(table@),
            keys.len() == n,
            i <= n,
            forall|j: int| 0 <= j < i ==> !is_prefix_of(#[trigger] keys[j], w@),
        decreases n - i,
    {
        let pchars = chars_of(table[i].0.as_str());
        proof {
            assert(keys[i as int] == table@[i as int].0@);
        }
        if starts_with_chars(&pchars, w) {
            proof {
                lemma_first_prefix_found(keys, w@, i as int);
            }
            return Some(i);
        }
        i = i + 1;
    }
    proof {
        lemma_first_prefix_none(keys, w@);
    }
    None
}

/// Finds the first table entry whose pattern is a suffix of `w`.
pub fn find_first_suffix(table: &Vec<(String, String)>, w: &Vec<char>) -> (r: Option<usize>)
    ensures
        r matches Some(i) ==> i < table@.len() && is_suffix_of(table_keys(table@)[i as int], w@)
            && first_suffix_index(table_keys(table@), w@) == i as int,
        r is None ==> first_suffix_index(table_keys(table@), w@) == -1,
{
    let ghost keys = table_keys(table@);
    let n = table.len();
    let mut i: usize = 0;
    while i < n
        invariant
            n == table@.len(),
            keys == table_keys(table@),
            keys.len() == n,
            i <= n,
            forall|j: int| 0 <= j < i ==> !is_suffix_of(#[trigger] keys[j], w@),
        decreases n - i,
    {
        let pchars = chars_of(table[i].0.as_str());
        proof {
            assert(keys[i as int] == table@[i as int].0@);
        }
        if ends_with_chars(&pchars, w) {
            proof {
                lemma_first_suffix_found(keys, w@, i as int);
            }
            return Some(i);
        }
        i = i + 1;
    }
    proof {
        lemma_first_suffix_none(keys, w@);
    }
    None
}

/// The morphological segmenter: holds the active pattern tables. Each
/// table maps an affix pattern to its meaning; scanning honours table
/// order.
pub struct RustParser {
    pub prefix_patterns: Vec<(String, String)>,
    pub suffix_patterns: Vec<(String, String)>,
}

impl RustParser {
    /// The prefix patterns, as character sequences, in table order.
    pub open spec fn prefix_keys(self) -> Seq<Seq<char>> {
        table_keys(self.prefix_patterns@)
    }

    /// The suffix patterns, as character sequences, in table order.
    pub open spec fn suffix_keys(self) -> Seq<Seq<char>> {
        table_keys(self.suffix_patterns@)
    }

    /// A parser with empty tables: no word gets affix morphemes.
    pub fn new() -> (r: RustParser)
        ensures
            r.prefix_patterns@.len() == 0,
            r.suffix_patterns@.len() == 0,
    {
        RustParser { prefix_patterns: Vec::new(), suffix_patterns: Vec::new() }
    }

    /// Replaces both pattern tables wholesale; nothing of the previous
    /// configuration survives.
    pub fn initialize_patterns(
        &mut self,
        prefixes: Vec<(String, String)>,
        suffixes: Vec<(String, String)>,
    )
        ensures
            final(self).prefix_patterns@ == prefixes@,
            final(self).suffix_patterns@ == suffixes@,
    {
        self.prefix_patterns = prefixes;
        self.suffix_patterns = suffixes;
    }

    /// Segments one word: lowercases it, finds the first matching
    /// prefix and suffix in table order, and emits prefix, root and
    /// suffix morphemes with the confidence the matches earn. Every
    /// word, including the empty one, yields a result.
    pub fn process_single_word(&self, word: &str) -> (r: ParsedWord)
        ensures
            r@ == spec_process(word@, self.prefix_keys(), self.suffix_keys()),
            word@.len() == 0 ==> r@.normalized.len() == 0,
    {
        let normalized = to_lowercase_string(word);
        let nchars = chars_of(normalized.as_str());
        let ghost norm = normalized@;
        let ghost pkeys = self.prefix_keys();
        let ghost skeys = self.suffix_keys();
        let nlen = nchars.len();

        let prefix_hit = find_first_prefix(&self.prefix_patterns, &nchars);
        let suffix_hit = find_first_suffix(&self.suffix_patterns, &nchars);

        let mut morphemes: Vec<Morpheme> = Vec::new();
        let mut confidence: usize = 100;

        let root_start: usize = match prefix_hit {
            Some(i) => {
                let pchars = chars_of(self.prefix_patterns[i].0.as_str());
                let plen = pchars.len();
                morphemes.push(
                    Morpheme {
                        text: self.prefix_patterns[i].0.clone(),
                        kind: MorphemeKind::Prefix,
                        position: 0,
                        length: plen,
                    },
                );
                confidence = 90;
                plen
            },
            None => 0,
        };
        let root_end: usize = match suffix_hit {
            Some(i) => {
                let schars = chars_of(self.suffix_patterns[i].0.as_str());
                nlen - schars.len()
            },
            None => nlen,
        };
        if root_start < root_end {
            let root_str = normalized.as_str().substring_char(root_start, root_end);
            morphemes.push(
                Morpheme {
                    text: String::from_str(root_str),
                    kind: MorphemeKind::Root,
                    position: root_start,
                    length: root_end - root_start,
                },
            );
        }
        if let Some(i) = suffix_hit {
            let schars = chars_of(self.suffix_patterns[i].0.as_str());
            morphemes.push(
                Morpheme {
                    text: self.suffix_patterns[i].0.clone(),
                    kind: MorphemeKind::Suffix,
                    position: root_end,
                    length: schars.len(),
                },
            );
            confidence = if prefix_hit.is_some() {
                81
            } else {
                90
            };
        }
        let r = ParsedWord {
            original: String::from_str(word),
            normalized,
            morphemes,
            confidence_hundredths: confidence,
        };
        proof {
            assert(r@.morphemes =~~= spec_morphemes(pkeys, skeys, norm));
            assert(r@ =~~= spec_process(word@, pkeys, skeys));
        }
        r
    }

    /// Segments each word independently: one result per input word, in
    /// input order.
    pub fn batch_process(&self, words: &Vec<String>) -> (r: Vec<ParsedWord>)
        ensures
            r@.len() == words@.len(),
            forall|i: int|
                0 <= i < r@.len() ==> (#[trigger] r@[i])@ == spec_process(
                    words@[i]@,
                    self.prefix_keys(),
                    self.suffix_keys(),
                ),
    {
        let mut out: Vec<ParsedWord> = Vec::new();
        let n = words.len();
        let mut i: usize = 0;
        while i < n
            invariant
                n == words@.len(),
                i <= n,
                out@.len() == i,
                forall|j: int|
                    0 <= j < i ==> (#[trigger] out@[j])@ == spec_process(
                        words@[j]@,
                        self.prefix_keys(),
                        self.suffix_keys(),
                    ),
            decreases n - i,
        {
            let parsed = self.process_single_word(words[i].as_str());
            out.push(parsed);
            i = i + 1;
        }
        out
    }
}

} // verus!
