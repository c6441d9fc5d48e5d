//! Keyword matching: query normalization, per-section match measurements
//! (occurrences, whole-word matches, heading and ancestry hits, exact phrase,
//! title prefix, coverage) and the top-k selection.
//!
//! Scores themselves are floating-point and are computed by the caller from
//! a [`MatchTable`]; the caller hands back one order key per scored section
//! and [`select_top`] picks the winners (score descending, then document
//! order).

use vstd::prelude::*;

use crate::parse::{strings_view, Section};
use crate::text::{
    all_ws, byte_slice, chars_of, is_ws, is_whitespace, slice_str, string_of, valid_byte_range,
};
use crate::SearchError;

verus! {

// ---------------------------------------------------------------------------
// Case and accent normalization
// ---------------------------------------------------------------------------

/// The lowercase form of a string (`str::to_lowercase`, Unicode full case
/// mapping, which takes whole tables to write down).
pub uninterp spec fn lowercase(s: Seq<char>) -> Seq<char>;

/// `str::to_lowercase`. Claimed: the result is `lowercase` of the input, a
/// function of the input alone, and no shorter than the input (each
/// character lowercases to one or more characters); nothing more is said of
/// the mapping.
#[verifier::external_body]
fn to_lowercase(s: &str) -> (r: String)
    ensures
        r@ == lowercase(s@),
        r@.len() >= s@.len(),
{
    s.to_lowercase()
}

/// Common Latin accents folded to their ASCII base letter; ligatures collapse
/// to their first letter.
pub open spec fn fold_char(c: char) -> char {
    if c == 'à' || c == 'á' || c == 'â' || c == 'ä' || c == 'ã' || c == 'å' || c == 'æ' {
        'a'
    } else if c == 'è' || c == 'é' || c == 'ê' || c == 'ë' {
        'e'
    } else if c == 'ì' || c == 'í' || c == 'î' || c == 'ï' {
        'i'
    } else if c == 'ò' || c == 'ó' || c == 'ô' || c == 'ö' || c == 'õ' || c == 'œ' {
        'o'
    } else if c == 'ù' || c == 'ú' || c == 'û' || c == 'ü' {
        'u'
    } else if c == 'ý' || c == 'ÿ' {
        'y'
    } else if c == 'ñ' {
        'n'
    } else if c == 'ç' {
        'c'
    } else if c == 'ß' {
        's'
    } else {
        c
    }
}

pub open spec fn fold_seq(s: Seq<char>) -> Seq<char> {
    s.map_values(|c: char| fold_char(c))
}

fn fold_one(c: char) -> (r: char)
    ensures
        r == fold_char(c),
{
    if c == 'à' || c == 'á' || c == 'â' || c == 'ä' || c == 'ã' || c == 'å' || c == 'æ' {
        'a'
    } else if c == 'è' || c == 'é' || c == 'ê' || c == 'ë' {
        'e'
    } else if c == 'ì' || c == 'í' || c == 'î' || c == 'ï' {
        'i'
    } else if c == 'ò' || c == 'ó' || c == 'ô' || c == 'ö' || c == 'õ' || c == 'œ' {
        'o'
    } else if c == 'ù' || c == 'ú' || c == 'û' || c == 'ü' {
        'u'
    } else if c == 'ý' || c == 'ÿ' {
        'y'
    } else if c == 'ñ' {
        'n'
    } else if c == 'ç' {
        'c'
    } else if c == 'ß' {
        's'
    } else {
        c
    }
}

/// The fold table, letter by letter: `à á â ä ã å æ` fold to `a`,
/// `è é ê ë` to `e`, `ì í î ï` to `i`, `ò ó ô ö õ œ` to `o`, `ù ú û ü` to
/// `u`, `ý ÿ` to `y`, `ñ` to `n`, `ç` to `c`, `ß` to `s`; every other
/// character is left unchanged, and folding a text folds each of its
/// characters in place.
pub proof fn lemma_fold_table()
    ensures
        fold_char('à') == 'a',
        fold_char('á') == 'a',
        fold_char('â') == 'a',
        fold_char('ä') == 'a',
        fold_char('ã') == 'a',
        fold_char('å') == 'a',
        fold_char('æ') == 'a',
        fold_char('è') == 'e',
        fold_char('é') == 'e',
        fold_char('ê') == 'e',
        fold_char('ë') == 'e',
        fold_char('ì') == 'i',
        fold_char('í') == 'i',
        fold_char('î') == 'i',
        fold_char('ï') == 'i',
        fold_char('ò') == 'o',
        fold_char('ó') == 'o',
        fold_char('ô') == 'o',
        fold_char('ö') == 'o',
        fold_char('õ') == 'o',
        fold_char('œ') == 'o',
        fold_char('ù') == 'u',
        fold_char('ú') == 'u',
        fold_char('û') == 'u',
        fold_char('ü') == 'u',
        fold_char('ý') == 'y',
        fold_char('ÿ') == 'y',
        fold_char('ñ') == 'n',
        fold_char('ç') == 'c',
        fold_char('ß') == 's',
        forall|c: char|
            c != 'à' && c != 'á' && c != 'â' && c != 'ä' && c != 'ã' && c != 'å' && c != 'æ' &&
                c != 'è' && c != 'é' && c != 'ê' && c != 'ë' && c != 'ì' && c != 'í' &&
                c != 'î' && c != 'ï' && c != 'ò' && c != 'ó' && c != 'ô' && c != 'ö' &&
                c != 'õ' && c != 'œ' && c != 'ù' && c != 'ú' && c != 'û' && c != 'ü' &&
                c != 'ý' && c != 'ÿ' && c != 'ñ' && c != 'ç' && c != 'ß' ==> #[trigger] fold_char(c) == c,
        forall|s: Seq<char>, i: int|
            0 <= i < s.len() ==> fold_seq(s).len() == s.len() && #[trigger] fold_seq(s)[i]
                == fold_char(s[i]),
{
}

/// Fold common Latin accents to their ASCII base letter. Input is expected
/// lowercase; ligatures collapse to their first letter.
pub fn fold(s: &str) -> (r: String)
    ensures
        r@ == fold_seq(s@),
{
    let cs = chars_of(s);
    let mut r = String::new();
    let mut i: usize = 0;
    while i < cs.len()
        invariant
            i <= cs@.len(),
            cs@ == s@,
            r@ == fold_seq(s@.take(i as int)),
        decreases cs@.len() - i,
    {
        r.push(fold_one(cs[i]));
        proof {
            assert(fold_seq(s@.take(i + 1)) =~= fold_seq(s@.take(i as int)).push(
                fold_char(s@[i as int]),
            ));
        }
        i = i + 1;
    }
    proof {
        assert(s@.take(i as int) =~= s@);
    }
    r
}

/// Lowercase, then fold accents when asked: the form in which keywords and
/// section text are compared.
pub open spec fn normalize(s: Seq<char>, fold_diacritics: bool) -> Seq<char> {
    if fold_diacritics {
        fold_seq(lowercase(s))
    } else {
        lowercase(s)
    }
}

fn normalize_str(s: &str, fold_diacritics: bool) -> (r: String)
    ensures
        r@ == normalize(s@, fold_diacritics),
        r@.len() >= s@.len(),
{
    let lower = to_lowercase(s);
    if fold_diacritics {
        fold(lower.as_str())
    } else {
        lower
    }
}

// ---------------------------------------------------------------------------
// Query keywords
// ---------------------------------------------------------------------------

/// The whitespace-separated words of `s` (`str::split_whitespace`).
pub open spec fn split_ws(s: Seq<char>) -> Seq<Seq<char>>
    decreases s.len(),
{
    if s.len() == 0 {
        Seq::empty()
    } else {
        let prev = split_ws(s.drop_last());
        let c = s.last();
        if is_ws(c) {
            prev
        } else if s.len() > 1 && !is_ws(s[s.len() - 2]) {
            prev.update(prev.len() - 1, prev.last().push(c))
        } else {
            prev.push(seq![c])
        }
    }
}

/// The words, empty ones dropped, each kept at its first occurrence (order
/// is preserved: it defines the exact phrase).
pub open spec fn distinct_nonempty(words: Seq<Seq<char>>) -> Seq<Seq<char>>
    decreases words.len(),
{
    if words.len() == 0 {
        Seq::empty()
    } else {
        let prev = distinct_nonempty(words.drop_last());
        let w = words.last();
        if w.len() == 0 || prev.contains(w) {
            prev
        } else {
            prev.push(w)
        }
    }
}

/// Each word normalized.
pub open spec fn normalize_words(words: Seq<Seq<char>>, fold_diacritics: bool) -> Seq<Seq<char>> {
    words.map_values(|w: Seq<char>| normalize(w, fold_diacritics))
}

/// The keywords of a query: its normalized words, empty ones dropped, each
/// kept at its first occurrence.
pub open spec fn spec_keywords(query: Seq<char>, fold_diacritics: bool) -> Seq<Seq<char>> {
    distinct_nonempty(normalize_words(split_ws(query), fold_diacritics))
}

proof fn lemma_split_ws_nonempty(s: Seq<char>)
    requires
        s.len() > 0,
        !is_ws(s.last()),
    ensures
        split_ws(s).len() > 0,
    decreases s.len(),
{
    if s.len() > 1 && !is_ws(s[s.len() - 2]) {
        assert(s.drop_last().last() == s[s.len() - 2]);
        lemma_split_ws_nonempty(s.drop_last());
    }
}

proof fn lemma_split_ws_concat(a: Seq<char>, b: Seq<char>)
    requires
        a.len() == 0 || is_ws(a.last()),
    ensures
        split_ws(a + b) == split_ws(a) + split_ws(b),
    decreases b.len(),
{
    if b.len() == 0 {
        assert(a + b =~= a);
        assert(split_ws(a) + split_ws(b) =~= split_ws(a));
    } else {
        let ab = a + b;
        assert(ab.drop_last() =~= a + b.drop_last());
        lemma_split_ws_concat(a, b.drop_last());
        let c = b.last();
        assert(ab.last() == c);
        let pa = split_ws(a);
        let pb = split_ws(b.drop_last());
        if !is_ws(c) {
            if b.len() > 1 {
                assert(ab[ab.len() - 2] == b[b.len() - 2]);
                if !is_ws(b[b.len() - 2]) {
                    assert(b.drop_last().last() == b[b.len() - 2]);
                    lemma_split_ws_nonempty(b.drop_last());
                    assert((pa + pb).update((pa + pb).len() - 1, (pa + pb).last().push(c)) =~= pa
                        + pb.update(pb.len() - 1, pb.last().push(c)));
                } else {
                    assert((pa + pb).push(seq![c]) =~= pa + pb.push(seq![c]));
                }
            } else {
                assert(b.drop_last().len() == 0);
                assert(pb.len() == 0);
                if a.len() > 0 {
                    assert(ab[ab.len() - 2] == a.last());
                }
                assert((pa + pb).push(seq![c]) =~= pa + pb.push(seq![c]));
            }
        }
    }
}

/// Repeated spaces in a query do not matter: doubling any whitespace
/// character leaves the keywords unchanged.
pub proof fn lemma_repeated_whitespace(query: Seq<char>, i: int, fold_diacritics: bool)
    requires
        0 <= i < query.len(),
        is_ws(query[i]),
    ensures
        spec_keywords(query.insert(i, query[i]), fold_diacritics) == spec_keywords(
            query,
            fold_diacritics,
        ),
{
    let a = query.take(i + 1);
    let b = query.skip(i + 1);
    let w = query[i];
    assert(query =~= a + b);
    assert(query.insert(i, w) =~= a.push(w) + b);
    assert(a.last() == w);
    lemma_split_ws_concat(a, b);
    assert(a.push(w).last() == w);
    lemma_split_ws_concat(a.push(w), b);
    assert(a.push(w).drop_last() =~= a);
}

proof fn lemma_split_ws_words(s: Seq<char>)
    ensures
        forall|i: int| 0 <= i < split_ws(s).len() ==> (#[trigger] split_ws(s)[i]).len() > 0,
        split_ws(s).len() == 0 <==> all_ws(s),
    decreases s.len(),
{
    if s.len() > 0 {
        let d = s.drop_last();
        lemma_split_ws_words(d);
        let prev = split_ws(d);
        let c = s.last();
        if is_ws(c) {
            if all_ws(d) {
                assert forall|i: int| 0 <= i < s.len() implies is_ws(#[trigger] s[i]) by {
                    if i < d.len() {
                        assert(s[i] == d[i]);
                    }
                }
            }
            if all_ws(s) {
                assert forall|i: int| 0 <= i < d.len() implies is_ws(#[trigger] d[i]) by {
                    assert(d[i] == s[i]);
                }
            }
        } else {
            assert(!is_ws(s[s.len() - 1]));
            if s.len() > 1 && !is_ws(s[s.len() - 2]) {
                assert(d.last() == s[s.len() - 2]);
                lemma_split_ws_nonempty(d);
                let r = split_ws(s);
                assert forall|i: int| 0 <= i < r.len() implies (#[trigger] r[i]).len() > 0 by {
                    if i < prev.len() - 1 {
                        assert(r[i] == prev[i]);
                    }
                }
            } else {
                let r = split_ws(s);
                assert forall|i: int| 0 <= i < r.len() implies (#[trigger] r[i]).len() > 0 by {
                    if i < prev.len() {
                        assert(r[i] == prev[i]);
                    }
                }
            }
        }
    }
}

proof fn lemma_distinct_nonempty_empty(words: Seq<Seq<char>>)
    ensures
        distinct_nonempty(words).len() == 0 <==> forall|i: int|
            0 <= i < words.len() ==> (#[trigger] words[i]).len() == 0,
    decreases words.len(),
{
    if words.len() > 0 {
        let d = words.drop_last();
        lemma_distinct_nonempty_empty(d);
        let prev = distinct_nonempty(d);
        let w = words.last();
        if distinct_nonempty(words).len() == 0 {
            assert(prev.len() == 0);
            assert(!prev.contains(w));
            assert forall|i: int| 0 <= i < words.len() implies (#[trigger] words[i]).len() == 0 by {
                if i < d.len() {
                    assert(words[i] == d[i]);
                }
            }
        } else {
            if forall|i: int| 0 <= i < words.len() ==> (#[trigger] words[i]).len() == 0 {
                assert(w.len() == 0);
                assert forall|i: int| 0 <= i < d.len() implies (#[trigger] d[i]).len() == 0 by {
                    assert(d[i] == words[i]);
                }
            }
        }
    }
}

/// The whitespace-separated words of `s`.
fn split_whitespace(s: &str) -> (words: Vec<String>)
    ensures
        words@.map_values(|w: String| w@) == split_ws(s@),
{
    let cs = chars_of(s);
    let mut words: Vec<String> = Vec::new();
    let mut cur = String::new();
    let mut in_word = false;
    let mut i: usize = 0;
    while i < cs.len()
        invariant
            i <= cs@.len(),
            cs@ == s@,
            in_word ==> i > 0 && !is_ws(s@[i - 1]),
            !in_word ==> i == 0 || is_ws(s@[i - 1]),
            !in_word ==> cur@.len() == 0,
            split_ws(s@.take(i as int)) == if in_word {
                words@.map_values(|w: String| w@).push(cur@)
            } else {
                words@.map_values(|w: String| w@)
            },
        decreases cs@.len() - i,
    {
        let c = cs[i];
        let ghost t = s@.take(i + 1);
        let ghost before = words@.map_values(|w: String| w@);
        let ghost cur_before = cur@;
        proof {
            assert(t.drop_last() =~= s@.take(i as int));
            assert(t.last() == c);
            if i > 0 {
                assert(t[t.len() - 2] == s@[i - 1]);
            }
        }
        if is_whitespace(c) {
            if in_word {
                words.push(cur);
                cur = String::new();
                in_word = false;
                proof {
                    assert(words@.map_values(|w: String| w@) =~= before.push(cur_before));
                }
            }
        } else {
            cur.push(c);
            proof {
                if in_word {
                    let prev = before.push(cur_before);
                    assert(prev.update(prev.len() - 1, prev.last().push(c)) =~= before.push(
                        cur@,
                    ));
                } else {
                    assert(cur@ =~= seq![c]);
                }
            }
            in_word = true;
        }
        i = i + 1;
    }
    if in_word {
        let ghost before = words@.map_values(|w: String| w@);
        let ghost cur_before = cur@;
        words.push(cur);
        proof {
            assert(words@.map_values(|w: String| w@) =~= before.push(cur_before));
        }
    }
    proof {
        assert(s@.take(i as int) =~= s@);
    }
    words
}

proof fn lemma_distinct_nonempty(words: Seq<Seq<char>>)
    ensures
        forall|i: int|
            0 <= i < distinct_nonempty(words).len() ==> #[trigger] distinct_nonempty(words)[i].len()
                > 0,
        forall|i: int, j: int|
            0 <= i < j < distinct_nonempty(words).len() ==> #[trigger] distinct_nonempty(words)[i]
                != #[trigger] distinct_nonempty(words)[j],
    decreases words.len(),
{
    if words.len() > 0 {
        lemma_distinct_nonempty(words.drop_last());
        let prev = distinct_nonempty(words.drop_last());
        let w = words.last();
        let kws = distinct_nonempty(words);
        if !(w.len() == 0 || prev.contains(w)) {
            assert forall|i: int, j: int| 0 <= i < j < kws.len() implies #[trigger] kws[i]
                != #[trigger] kws[j] by {
                if j == prev.len() {
                    assert(kws[i] == prev[i]);
                }
            }
        }
    }
}

/// The non-empty words, each kept at its first occurrence, in order. The
/// results are non-empty and pairwise distinct.
pub fn distinct_keywords(words: &[String]) -> (kws: Vec<String>)
    ensures
        strings_view(kws@) == distinct_nonempty(strings_view(words@)),
        forall|i: int| 0 <= i < kws@.len() ==> (#[trigger] kws@[i])@.len() > 0,
        forall|i: int, j: int|
            0 <= i < j < kws@.len() ==> (#[trigger] kws@[i])@ != (#[trigger] kws@[j])@,
{
    let ghost wv = strings_view(words@);
    let mut kws: Vec<String> = Vec::new();
    let mut i: usize = 0;
    while i < words.len()
        invariant
            i <= words@.len(),
            wv == strings_view(words@),
            strings_view(kws@) == distinct_nonempty(wv.take(i as int)),
        decreases words@.len() - i,
    {
        proof {
            assert(wv.take(i + 1).drop_last() =~= wv.take(i as int));
            assert(wv.take(i + 1).last() == words@[i as int]@);
        }
        let w = &words[i];
        if !w.as_str().is_empty() {
            let mut found = false;
            let mut j: usize = 0;
            while j < kws.len()
                invariant
                    j <= kws@.len(),
                    found ==> strings_view(kws@).contains(w@),
                    !found ==> forall|m: int| 0 <= m < j ==> kws@[m]@ != w@,
                decreases kws@.len() - j,
            {
                if kws[j] == *w {
                    found = true;
                    assert(strings_view(kws@)[j as int] == w@);
                }
                j = j + 1;
            }
            if !found {
                let ghost before = strings_view(kws@);
                kws.push(w.clone());
                proof {
                    assert(!before.contains(w@)) by {
                        if before.contains(w@) {
                            let m = choose|m: int| 0 <= m < before.len() && before[m] == w@;
                            assert(kws@[m]@ == before[m]);
                        }
                    }
                    assert(strings_view(kws@) =~= before.push(w@));
                }
            }
        }
        i = i + 1;
    }
    proof {
        assert(wv.take(i as int) =~= wv);
        lemma_distinct_nonempty(wv);
        assert forall|i: int| 0 <= i < kws@.len() implies (#[trigger] kws@[i])@.len() > 0 by {
            assert(kws@[i]@ == strings_view(kws@)[i]);
        }
        assert forall|i: int, j: int| 0 <= i < j < kws@.len() implies (#[trigger] kws@[i])@
            != (#[trigger] kws@[j])@ by {
            assert(kws@[i]@ == strings_view(kws@)[i]);
            assert(kws@[j]@ == strings_view(kws@)[j]);
        }
    }
    kws
}

/// The keywords of `query`: its whitespace-separated words, lowercased (and
/// accent-folded when asked), empty ones dropped, duplicates removed with
/// query order preserved. Keywords are non-empty and pairwise distinct.
pub fn query_keywords(query: &str, fold_diacritics: bool) -> (kws: Vec<String>)
    ensures
        strings_view(kws@) == spec_keywords(query@, fold_diacritics),
        forall|i: int| 0 <= i < kws@.len() ==> (#[trigger] kws@[i])@.len() > 0,
        forall|i: int, j: int|
            0 <= i < j < kws@.len() ==> (#[trigger] kws@[i])@ != (#[trigger] kws@[j])@,
        kws@.len() == 0 <==> all_ws(query@),
{
    let words = split_whitespace(query);
    let ghost wv = words@.map_values(|w: String| w@);
    let mut normalized: Vec<String> = Vec::new();
    let mut i: usize = 0;
    while i < words.len()
        invariant
            i <= words@.len(),
            wv == words@.map_values(|w: String| w@),
            wv == split_ws(query@),
            strings_view(normalized@) == normalize_words(wv.take(i as int), fold_diacritics),
            normalized@.len() == i,
            forall|j: int| 0 <= j < i ==> (#[trigger] normalized@[j])@.len() >= wv[j].len(),
        decreases words@.len() - i,
    {
        let w = normalize_str(words[i].as_str(), fold_diacritics);
        let ghost before = strings_view(normalized@);
        normalized.push(w);
        proof {
            assert(wv[i as int] == words@[i as int]@);
            assert(strings_view(normalized@) =~= before.push(w@));
            assert(normalize_words(wv.take(i + 1), fold_diacritics) =~= normalize_words(
                wv.take(i as int),
                fold_diacritics,
            ).push(normalize(wv[i as int], fold_diacritics)));
        }
        i = i + 1;
    }
    proof {
        assert(wv.take(i as int) =~= wv);
        lemma_split_ws_words(query@);
        let nv = strings_view(normalized@);
        lemma_distinct_nonempty_empty(nv);
        if !all_ws(query@) {
            assert(wv[0].len() > 0);
            assert(nv[0] == normalized@[0]@);
            assert(nv[0].len() > 0);
        } else {
            assert(nv.len() == 0);
        }
    }
    distinct_keywords(normalized.as_slice())
}

/// Validate the query parameters and extract the keywords: `top_k` must be
/// at least 1 and the query must hold at least one keyword.
pub fn prepare_query(query: &str, top_k: usize, fold_diacritics: bool) -> (r: Result<
    Vec<String>,
    SearchError,
>)
    ensures
        top_k == 0 ==> (r matches Err(SearchError::InvalidParam(p)) && p@ == "top_k"@),
        top_k > 0 && spec_keywords(query@, fold_diacritics).len() == 0 ==> r matches Err(
            SearchError::EmptyQuery,
        ),
        top_k > 0 && spec_keywords(query@, fold_diacritics).len() > 0 ==> (r matches Ok(kws)
            && strings_view(kws@) == spec_keywords(query@, fold_diacritics)),
        top_k > 0 ==> (r matches Err(SearchError::EmptyQuery) <==> all_ws(query@)),
        r is Ok <==> top_k > 0 && !all_ws(query@),
{
    if top_k == 0 {
        return Err(SearchError::InvalidParam("top_k"));
    }
    let kws = query_keywords(query, fold_diacritics);
    if kws.len() == 0 {
        return Err(SearchError::EmptyQuery);
    }
    Ok(kws)
}

// ---------------------------------------------------------------------------
// Substring matching
// ---------------------------------------------------------------------------

/// ASCII letters and digits: the characters that continue a word.
pub open spec fn is_word_char(c: char) -> bool {
    ('0' <= c && c <= '9') || ('a' <= c && c <= 'z') || ('A' <= c && c <= 'Z')
}

/// `needle` occurs in `hay` at index `i`.
pub open spec fn match_at(hay: Seq<char>, needle: Seq<char>, i: int) -> bool {
    0 <= i && i + needle.len() <= hay.len() && hay.subrange(i, i + needle.len()) == needle
}

/// The occurrence at `i` is delimited by text edges or non-word characters.
pub open spec fn whole_at(hay: Seq<char>, needle: Seq<char>, i: int) -> bool {
    &&& (i == 0 || !is_word_char(hay[i - 1]))
    &&& (i + needle.len() == hay.len() || !is_word_char(hay[i + needle.len()]))
}

/// (occurrences, whole-word occurrences) of `needle` in `hay` from index `i`
/// on, scanning left to right and resuming after each occurrence
/// (non-overlapping, like `str::match_indices`).
pub open spec fn count_from(hay: Seq<char>, needle: Seq<char>, i: int) -> (nat, nat)
    decreases hay.len() - i,
{
    if needle.len() == 0 || i < 0 || i + needle.len() > hay.len() {
        (0, 0)
    } else if match_at(hay, needle, i) {
        let r = count_from(hay, needle, i + needle.len());
        (
            r.0 + 1,
            r.1 + if whole_at(hay, needle, i) {
                1nat
            } else {
                0nat
            },
        )
    } else {
        count_from(hay, needle, i + 1)
    }
}

/// `hay` contains `needle` (`str::contains`).
pub open spec fn contains_seq(hay: Seq<char>, needle: Seq<char>) -> bool {
    exists|i: int| match_at(hay, needle, i)
}

/// `hay` starts with `needle` (`str::starts_with`).
pub open spec fn starts_with(hay: Seq<char>, needle: Seq<char>) -> bool {
    match_at(hay, needle, 0)
}

fn is_word_char_exec(c: char) -> (b: bool)
    ensures
        b == is_word_char(c),
{
    ('0' <= c && c <= '9') || ('a' <= c && c <= 'z') || ('A' <= c && c <= 'Z')
}

fn matches_at(hay: &[char], needle: &[char], i: usize) -> (b: bool)
    requires
        i + needle@.len() <= hay@.len(),
    ensures
        b == match_at(hay@, needle@, i as int),
{
    let hl = hay.len();
    let mut j: usize = 0;
    while j < needle.len()
        invariant
            hl == hay@.len(),
            j <= needle@.len(),
            i + needle@.len() <= hay@.len(),
            forall|m: int| 0 <= m < j ==> hay@[i + m] == needle@[m],
        decreases needle@.len() - j,
    {
        if hay[i + j] != needle[j] {
            assert(hay@.subrange(i as int, i + needle@.len())[j as int] != needle@[j as int]);
            return false;
        }
        j = j + 1;
    }
    assert(hay@.subrange(i as int, i + needle@.len()) =~= needle@);
    true
}

/// (substring occurrences, whole-word occurrences) of `needle` in `hay`.
///
/// A whole word is delimited by a text edge or a character that is not an
/// ASCII letter or digit (so `action` matches inside
/// `is_action_just_pressed`); any non-ASCII character counts as a boundary.
pub(crate) fn count_matches(hay: &[char], needle: &[char]) -> (r: (usize, usize))
    requires
        needle@.len() > 0,
    ensures
        r.0 == count_from(hay@, needle@, 0).0,
        r.1 == count_from(hay@, needle@, 0).1,
{
    let n = hay.len();
    let m = needle.len();
    let mut occ: usize = 0;
    let mut whole: usize = 0;
    let mut i: usize = 0;
    while i <= n && m <= n - i
        invariant
            n == hay@.len(),
            m == needle@.len(),
            m > 0,
            i <= n + m,
            occ <= i,
            whole <= occ,
            count_from(hay@, needle@, 0).0 == occ + count_from(hay@, needle@, i as int).0,
            count_from(hay@, needle@, 0).1 == whole + count_from(hay@, needle@, i as int).1,
        decreases n + m - i,
    {
        if matches_at(hay, needle, i) {
            let before = i == 0 || !is_word_char_exec(hay[i - 1]);
            let after = i + m == n || !is_word_char_exec(hay[i + m]);
            occ = occ + 1;
            if before && after {
                whole = whole + 1;
            }
            i = i + m;
        } else {
            i = i + 1;
        }
    }
    (occ, whole)
}

/// `hay` contains `needle`.
pub(crate) fn contains(hay: &[char], needle: &[char]) -> (b: bool)
    ensures
        b == contains_seq(hay@, needle@),
{
    let n = hay.len();
    let m = needle.len();
    if m > n {
        return false;
    }
    let mut i: usize = 0;
    loop
        invariant
            n == hay@.len(),
            m == needle@.len(),
            m <= n,
            i <= n - m,
            forall|j: int| 0 <= j < i ==> !match_at(hay@, needle@, j),
        decreases n - m - i,
    {
        if matches_at(hay, needle, i) {
            return true;
        }
        if i == n - m {
            return false;
        }
        i = i + 1;
    }
}

/// `hay` starts with `needle`.
pub(crate) fn starts_with_exec(hay: &[char], needle: &[char]) -> (b: bool)
    ensures
        b == starts_with(hay@, needle@),
{
    if needle.len() > hay.len() {
        return false;
    }
    matches_at(hay, needle, 0)
}

// ---------------------------------------------------------------------------
// Joining
// ---------------------------------------------------------------------------

/// The words joined with `sep` between consecutive words (`join`).
pub open spec fn join(ws: Seq<Seq<char>>, sep: Seq<char>) -> Seq<char>
    decreases ws.len(),
{
    if ws.len() == 0 {
        Seq::empty()
    } else if ws.len() == 1 {
        ws[0]
    } else {
        join(ws.drop_last(), sep) + sep + ws.last()
    }
}

/// `ws` joined with `sep`, as characters.
pub(crate) fn join_chars(ws: &[String], sep: &str) -> (r: Vec<char>)
    ensures
        r@ == join(strings_view(ws@), sep@),
{
    let sep_c = chars_of(sep);
    let mut r: Vec<char> = Vec::new();
    let mut i: usize = 0;
    while i < ws.len()
        invariant
            i <= ws@.len(),
            sep_c@ == sep@,
            r@ == join(strings_view(ws@).take(i as int), sep@),
        decreases ws@.len() - i,
    {
        let ghost before = r@;
        if i > 0 {
            let mut j: usize = 0;
            while j < sep_c.len()
                invariant
                    j <= sep_c@.len(),
                    r@ == before + sep_c@.take(j as int),
                decreases sep_c@.len() - j,
            {
                r.push(sep_c[j]);
                proof {
                    assert(before + sep_c@.take(j + 1) =~= (before + sep_c@.take(j as int)).push(
                        sep_c@[j as int],
                    ));
                }
                j = j + 1;
            }
            proof {
                assert(sep_c@.take(j as int) =~= sep_c@);
            }
        }
        let ghost mid = r@;
        let w = chars_of(ws[i].as_str());
        let mut j: usize = 0;
        while j < w.len()
            invariant
                j <= w@.len(),
                r@ == mid + w@.take(j as int),
            decreases w@.len() - j,
        {
            r.push(w[j]);
            proof {
                assert(mid + w@.take(j + 1) =~= (mid + w@.take(j as int)).push(w@[j as int]));
            }
            j = j + 1;
        }
        proof {
            let sv = strings_view(ws@);
            assert(w@.take(j as int) =~= w@);
            assert(sv.take(i + 1).drop_last() =~= sv.take(i as int));
            assert(sv.take(i + 1).last() == w@);
            if i == 0 {
                assert(sv.take(1) =~= seq![w@]);
                assert(r@ =~= w@);
            }
        }
        i = i + 1;
    }
    proof {
        assert(strings_view(ws@).take(i as int) =~= strings_view(ws@));
    }
    r
}

// ---------------------------------------------------------------------------
// How sections match the keywords
// ---------------------------------------------------------------------------

/// How one section matches the keywords (one entry per keyword, in keyword
/// order).
pub struct SectionMatch {
    /// Occurrences of each keyword in the normalized body, capped.
    pub occ: Vec<usize>,
    /// Whole-word occurrences of each keyword in the normalized body, capped.
    pub whole: Vec<usize>,
    /// Each keyword occurs in the section's own heading.
    pub in_heading: Vec<bool>,
    /// Each keyword occurs in the ancestor headings (joined with spaces).
    pub in_crumb: Vec<bool>,
    /// Number of keywords found in the body, the heading or the ancestry.
    pub matched: usize,
    /// Every keyword occurs in the heading or in the ancestry.
    pub all_in_headings: bool,
    /// Several keywords, and the exact phrase (keywords joined with single
    /// spaces) occurs in the heading or the body.
    pub phrase: bool,
    /// A level 1-2 heading that starts with the first keyword and contains
    /// every keyword.
    pub title_prefix: bool,
}

/// The match measurements of every section, plus the document frequency of
/// every keyword (number of sections whose capped body count is non-zero).
pub struct MatchTable {
    pub sections: Vec<SectionMatch>,
    pub dfs: Vec<usize>,
}

/// The normalized body text of a section.
pub open spec fn body_text(c: Seq<char>, sec: Section, fold_diacritics: bool) -> Seq<char> {
    normalize(byte_slice(c, sec.range.start as int, sec.range.end as int), fold_diacritics)
}

/// The normalized heading of a section.
pub open spec fn heading_text(sec: Section, fold_diacritics: bool) -> Seq<char> {
    normalize(sec.heading@, fold_diacritics)
}

/// The normalized ancestor headings of a section, joined with spaces.
pub open spec fn crumb_text(sec: Section, fold_diacritics: bool) -> Seq<char> {
    normalize(join(strings_view(sec.breadcrumb@), seq![' ']), fold_diacritics)
}

/// The exact phrase of the keywords.
pub open spec fn phrase_of(kws: Seq<Seq<char>>) -> Seq<char> {
    join(kws, seq![' '])
}

pub open spec fn cap(n: nat, occ_cap: usize) -> nat {
    if n <= occ_cap {
        n
    } else {
        occ_cap as nat
    }
}

/// Number of keywords among the first `n` that the section matches somewhere.
pub open spec fn matched_count(m: SectionMatch, n: int) -> nat
    decreases n,
{
    if n <= 0 {
        0
    } else {
        matched_count(m, n - 1) + if m.occ@[n - 1] > 0 || m.in_heading@[n - 1] || m.in_crumb@[
            n - 1
        ] {
            1nat
        } else {
            0nat
        }
    }
}

/// Number of the first `n` sections whose capped count of keyword `ki` is
/// non-zero.
pub open spec fn df_count(ms: Seq<SectionMatch>, ki: int, n: int) -> nat
    decreases n,
{
    if n <= 0 {
        0
    } else {
        df_count(ms, ki, n - 1) + if ms[n - 1].occ@[ki] > 0 {
            1nat
        } else {
            0nat
        }
    }
}

/// `m` measures how a section matches `kws`, from its normalized body
/// `body`, its normalized heading `head`, its normalized ancestor headings
/// `crumb` and its heading level.
pub open spec fn texts_match_spec(
    body: Seq<char>,
    head: Seq<char>,
    crumb: Seq<char>,
    level: u8,
    kws: Seq<Seq<char>>,
    occ_cap: usize,
    m: SectionMatch,
) -> bool {
    let k = kws.len();
    &&& m.occ@.len() == k
    &&& m.whole@.len() == k
    &&& m.in_heading@.len() == k
    &&& m.in_crumb@.len() == k
    &&& forall|ki: int|
        0 <= ki < k ==> {
            &&& #[trigger] m.occ@[ki] == cap(count_from(body, kws[ki], 0).0, occ_cap)
            &&& m.whole@[ki] == cap(count_from(body, kws[ki], 0).1, occ_cap)
            &&& m.in_heading@[ki] == contains_seq(head, kws[ki])
            &&& m.in_crumb@[ki] == contains_seq(crumb, kws[ki])
        }
    &&& m.matched == matched_count(m, k as int)
    &&& m.all_in_headings == forall|ki: int|
        0 <= ki < k ==> contains_seq(head, #[trigger] kws[ki]) || contains_seq(crumb, kws[ki])
    &&& m.phrase == (k > 1 && (contains_seq(head, phrase_of(kws)) || contains_seq(
        body,
        phrase_of(kws),
    )))
    &&& m.title_prefix == (level <= 2 && k > 0 && starts_with(head, kws[0]) && forall|ki: int|
        0 <= ki < k ==> contains_seq(head, #[trigger] kws[ki]))
}

/// `m` measures how `sec` (a section of the text `c`) matches `kws`.
pub open spec fn section_match_spec(
    c: Seq<char>,
    sec: Section,
    kws: Seq<Seq<char>>,
    occ_cap: usize,
    fold_diacritics: bool,
    m: SectionMatch,
) -> bool {
    texts_match_spec(
        body_text(c, sec, fold_diacritics),
        heading_text(sec, fold_diacritics),
        crumb_text(sec, fold_diacritics),
        sec.level,
        kws,
        occ_cap,
        m,
    )
}

pub open spec fn chars_view(v: Seq<Vec<char>>) -> Seq<Seq<char>> {
    v.map_values(|w: Vec<char>| w@)
}

/// The keywords as character vectors.
fn keyword_chars(keywords: &[String]) -> (kws: Vec<Vec<char>>)
    ensures
        chars_view(kws@) == strings_view(keywords@),
{
    let mut kws: Vec<Vec<char>> = Vec::new();
    let mut ki: usize = 0;
    while ki < keywords.len()
        invariant
            ki <= keywords@.len(),
            chars_view(kws@) == strings_view(keywords@).take(ki as int),
        decreases keywords@.len() - ki,
    {
        let w = chars_of(keywords[ki].as_str());
        let ghost before = chars_view(kws@);
        kws.push(w);
        proof {
            assert(chars_view(kws@) =~= before.push(w@));
            assert(strings_view(keywords@).take(ki + 1) =~= strings_view(keywords@).take(
                ki as int,
            ).push(keywords@[ki as int]@));
        }
        ki = ki + 1;
    }
    proof {
        assert(strings_view(keywords@).take(ki as int) =~= strings_view(keywords@));
    }
    kws
}

/// Measure how one section matches the keywords, given its body, heading
/// and ancestor headings (joined with spaces) already normalized.
pub fn match_texts(
    body: &str,
    heading: &str,
    crumb: &str,
    level: u8,
    keywords: &[String],
    occ_cap: usize,
) -> (m: SectionMatch)
    requires
        keywords@.len() > 0,
        forall|ki: int| 0 <= ki < keywords@.len() ==> (#[trigger] keywords@[ki])@.len() > 0,
    ensures
        texts_match_spec(body@, heading@, crumb@, level, strings_view(keywords@), occ_cap, m),
{
    let kws = keyword_chars(keywords);
    let ghost kv = chars_view(kws@);
    let phrase = join_chars(keywords, " ");
    proof {
        reveal_strlit(" ");
        assert(" "@ =~= seq![' ']);
        assert forall|j: int| 0 <= j < kws@.len() implies (#[trigger] kws@[j])@.len() > 0 by {
            assert(kws@[j]@ == kv[j]);
            assert(kv[j] == keywords@[j]@);
        }
    }
    let body_c = chars_of(body);
    let head_c = chars_of(heading);
    let crumb_c = chars_of(crumb);
    let k = kws.len();
    let mut occ: Vec<usize> = Vec::new();
    let mut whole: Vec<usize> = Vec::new();
    let mut in_heading: Vec<bool> = Vec::new();
    let mut in_crumb: Vec<bool> = Vec::new();
    let mut matched: usize = 0;
    let mut all_in_headings = true;
    let mut all_in_head = true;
    let mut ki: usize = 0;
    while ki < k
        invariant
            k == kws@.len(),
            kv == chars_view(kws@),
            ki <= k,
            body_c@ == body@,
            head_c@ == heading@,
            crumb_c@ == crumb@,
            forall|j: int| 0 <= j < k ==> (#[trigger] kws@[j])@.len() > 0,
            occ@.len() == ki,
            whole@.len() == ki,
            in_heading@.len() == ki,
            in_crumb@.len() == ki,
            forall|j: int|
                0 <= j < ki ==> {
                    &&& #[trigger] occ@[j] == cap(count_from(body@, kv[j], 0).0, occ_cap)
                    &&& whole@[j] == cap(count_from(body@, kv[j], 0).1, occ_cap)
                    &&& in_heading@[j] == contains_seq(heading@, kv[j])
                    &&& in_crumb@[j] == contains_seq(crumb@, kv[j])
                },
            matched <= ki,
            matched == matched_count(
                SectionMatch {
                    occ,
                    whole,
                    in_heading,
                    in_crumb,
                    matched: 0,
                    all_in_headings: false,
                    phrase: false,
                    title_prefix: false,
                },
                ki as int,
            ),
            all_in_headings == forall|j: int|
                0 <= j < ki ==> contains_seq(heading@, #[trigger] kv[j]) || contains_seq(
                    crumb@,
                    kv[j],
                ),
            all_in_head == forall|j: int| 0 <= j < ki ==> contains_seq(heading@, #[trigger] kv[j]),
        decreases k - ki,
    {
        let kw = &kws[ki];
        assert(kw@ == kv[ki as int]);
        let (o, w) = count_matches(body_c.as_slice(), kw.as_slice());
        let h = contains(head_c.as_slice(), kw.as_slice());
        let cr = contains(crumb_c.as_slice(), kw.as_slice());
        let o = if o <= occ_cap {
            o
        } else {
            occ_cap
        };
        let w = if w <= occ_cap {
            w
        } else {
            occ_cap
        };
        let ghost m0 = SectionMatch {
            occ,
            whole,
            in_heading,
            in_crumb,
            matched: 0,
            all_in_headings: false,
            phrase: false,
            title_prefix: false,
        };
        occ.push(o);
        whole.push(w);
        in_heading.push(h);
        in_crumb.push(cr);
        if o > 0 || h || cr {
            matched = matched + 1;
        }
        if !(h || cr) {
            all_in_headings = false;
        }
        if !h {
            all_in_head = false;
        }
        proof {
            let m1 = SectionMatch {
                occ,
                whole,
                in_heading,
                in_crumb,
                matched: 0,
                all_in_headings: false,
                phrase: false,
                title_prefix: false,
            };
            assert forall|j: int| 0 <= j < ki implies m1.occ@[j] == m0.occ@[j] && m1.in_heading@[j]
                == m0.in_heading@[j] && m1.in_crumb@[j] == m0.in_crumb@[j] by {}
            lemma_matched_count_prefix(m0, m1, ki as int);
        }
        ki = ki + 1;
    }
    let phrase_hit = k > 1 && (contains(head_c.as_slice(), phrase.as_slice()) || contains(
        body_c.as_slice(),
        phrase.as_slice(),
    ));
    let title_prefix = level <= 2 && starts_with_exec(head_c.as_slice(), kws[0].as_slice())
        && all_in_head;
    let m = SectionMatch {
        occ,
        whole,
        in_heading,
        in_crumb,
        matched,
        all_in_headings,
        phrase: phrase_hit,
        title_prefix,
    };
    proof {
        assert(kws@[0]@ == kv[0]);
        let m0 = SectionMatch {
            occ: m.occ,
            whole: m.whole,
            in_heading: m.in_heading,
            in_crumb: m.in_crumb,
            matched: 0,
            all_in_headings: false,
            phrase: false,
            title_prefix: false,
        };
        lemma_matched_count_prefix(m0, m, k as int);
        assert(m.matched == matched_count(m, k as int));
        assert(m.occ@.len() == kv.len());
        assert forall|ki: int| 0 <= ki < kv.len() implies {
            &&& #[trigger] m.occ@[ki] == cap(count_from(body@, kv[ki], 0).0, occ_cap)
            &&& m.whole@[ki] == cap(count_from(body@, kv[ki], 0).1, occ_cap)
            &&& m.in_heading@[ki] == contains_seq(heading@, kv[ki])
            &&& m.in_crumb@[ki] == contains_seq(crumb@, kv[ki])
        } by {}
        assert(m.all_in_headings == forall|ki: int|
            0 <= ki < k ==> contains_seq(heading@, #[trigger] kv[ki]) || contains_seq(crumb@, kv[ki]));
        assert(m.phrase == (k > 1 && (contains_seq(heading@, phrase_of(kv)) || contains_seq(
            body@,
            phrase_of(kv),
        ))));
        assert(m.title_prefix == (level <= 2 && k > 0 && starts_with(heading@, kv[0]) && forall|
            ki: int,
        |
            0 <= ki < k ==> contains_seq(heading@, #[trigger] kv[ki])));
    }
    m
}

/// Measure how section `sec` of `corpus` matches the keywords: its body,
/// heading and ancestry are normalized, then measured.
fn match_section(
    corpus: &str,
    sec: &Section,
    keywords: &[String],
    occ_cap: usize,
    fold_diacritics: bool,
) -> (m: SectionMatch)
    requires
        keywords@.len() > 0,
        forall|ki: int| 0 <= ki < keywords@.len() ==> (#[trigger] keywords@[ki])@.len() > 0,
        valid_byte_range(corpus@, sec.range.start as int, sec.range.end as int),
    ensures
        section_match_spec(corpus@, *sec, strings_view(keywords@), occ_cap, fold_diacritics, m),
{
    let body_str = slice_str(corpus, sec.range.start, sec.range.end);
    let body = normalize_str(body_str, fold_diacritics);
    let head = normalize_str(sec.heading.as_str(), fold_diacritics);
    let crumb_raw = join_chars(sec.breadcrumb.as_slice(), " ");
    proof {
        reveal_strlit(" ");
        assert(" "@ =~= seq![' ']);
    }
    let crumb_str = string_of(&crumb_raw, 0, crumb_raw.len());
    proof {
        assert(crumb_raw@.subrange(0, crumb_raw@.len() as int) =~= crumb_raw@);
    }
    let crumb = normalize_str(crumb_str.as_str(), fold_diacritics);
    match_texts(body.as_str(), head.as_str(), crumb.as_str(), sec.level, keywords, occ_cap)
}

proof fn lemma_matched_count_prefix(m0: SectionMatch, m1: SectionMatch, n: int)
    requires
        0 <= n <= m0.occ@.len(),
        n <= m1.occ@.len(),
        n <= m0.in_heading@.len(),
        n <= m1.in_heading@.len(),
        n <= m0.in_crumb@.len(),
        n <= m1.in_crumb@.len(),
        forall|j: int|
            0 <= j < n ==> m1.occ@[j] == m0.occ@[j] && m1.in_heading@[j] == m0.in_heading@[j]
                && m1.in_crumb@[j] == m0.in_crumb@[j],
    ensures
        matched_count(m0, n) == matched_count(m1, n),
    decreases n,
{
    if n > 0 {
        lemma_matched_count_prefix(m0, m1, n - 1);
    }
}

proof fn lemma_whole_le_occ(hay: Seq<char>, needle: Seq<char>, i: int)
    ensures
        count_from(hay, needle, i).1 <= count_from(hay, needle, i).0,
    decreases hay.len() - i,
{
    if !(needle.len() == 0 || i < 0 || i + needle.len() > hay.len()) {
        if match_at(hay, needle, i) {
            lemma_whole_le_occ(hay, needle, i + needle.len());
        } else {
            lemma_whole_le_occ(hay, needle, i + 1);
        }
    }
}

proof fn lemma_matched_count_bounds(m: SectionMatch, n: int)
    requires
        0 <= n <= m.occ@.len(),
        n <= m.in_heading@.len(),
        n <= m.in_crumb@.len(),
    ensures
        matched_count(m, n) <= n,
        (forall|j: int| 0 <= j < n ==> #[trigger] m.in_heading@[j] || m.in_crumb@[j])
            ==> matched_count(m, n) == n,
    decreases n,
{
    if n > 0 {
        lemma_matched_count_bounds(m, n - 1);
    }
}

/// What every measurement obeys: whole-word occurrences never exceed
/// occurrences, which never exceed the cap; at most every keyword is
/// matched, and every keyword is when all of them sit in the heading chain;
/// a title-prefix heading holds the whole query; the exact phrase needs
/// several keywords.
pub proof fn lemma_match_bounds(
    body: Seq<char>,
    head: Seq<char>,
    crumb: Seq<char>,
    level: u8,
    kws: Seq<Seq<char>>,
    occ_cap: usize,
    m: SectionMatch,
)
    requires
        texts_match_spec(body, head, crumb, level, kws, occ_cap, m),
    ensures
        forall|ki: int|
            0 <= ki < kws.len() ==> #[trigger] m.whole@[ki] <= m.occ@[ki] && m.occ@[ki] <= occ_cap,
        m.matched <= kws.len(),
        m.all_in_headings ==> m.matched == kws.len(),
        m.title_prefix ==> m.all_in_headings && level <= 2,
        m.phrase ==> kws.len() > 1,
{
    assert forall|ki: int| 0 <= ki < kws.len() implies #[trigger] m.whole@[ki] <= m.occ@[ki]
        && m.occ@[ki] <= occ_cap by {
        lemma_whole_le_occ(body, kws[ki], 0);
        assert(m.occ@[ki] == cap(count_from(body, kws[ki], 0).0, occ_cap));
    }
    lemma_matched_count_bounds(m, kws.len() as int);
    if m.all_in_headings {
        assert forall|j: int| 0 <= j < kws.len() implies #[trigger] m.in_heading@[j]
            || m.in_crumb@[j] by {
            assert(contains_seq(head, kws[j]) || contains_seq(crumb, kws[j]));
            assert(m.occ@[j] == cap(count_from(body, kws[j], 0).0, occ_cap));
        }
    }
    if m.title_prefix {
        assert forall|ki: int| 0 <= ki < kws.len() implies contains_seq(head, #[trigger] kws[ki])
            || contains_seq(crumb, kws[ki]) by {
            assert(contains_seq(head, kws[ki]));
        }
    }
}

/// `s` begins with `t`.
pub open spec fn begins_with(s: Seq<char>, t: Seq<char>) -> bool {
    t.len() <= s.len() && s.take(t.len() as int) == t
}

/// `t` occurs somewhere in `s`.
pub open spec fn occurs_in(s: Seq<char>, t: Seq<char>) -> bool {
    exists|i: int| 0 <= i && i + t.len() <= s.len() && #[trigger] s.subrange(i, i + t.len()) == t
}

proof fn lemma_occurs_in(s: Seq<char>, t: Seq<char>)
    ensures
        contains_seq(s, t) <==> occurs_in(s, t),
        starts_with(s, t) <==> begins_with(s, t),
{
    if contains_seq(s, t) {
        let i = choose|i: int| match_at(s, t, i);
        assert(s.subrange(i, i + t.len()) == t);
    }
    if occurs_in(s, t) {
        let i = choose|i: int|
            0 <= i && i + t.len() <= s.len() && #[trigger] s.subrange(i, i + t.len()) == t;
        assert(match_at(s, t, i));
    }
    if t.len() <= s.len() {
        assert(s.take(t.len() as int) =~= s.subrange(0, t.len() as int));
    }
}

/// The title-prefix flag: a heading of level 1 or 2 whose normalized text
/// begins with the first keyword and contains every keyword somewhere.
pub proof fn lemma_title_prefix(
    body: Seq<char>,
    head: Seq<char>,
    crumb: Seq<char>,
    level: u8,
    kws: Seq<Seq<char>>,
    occ_cap: usize,
    m: SectionMatch,
)
    requires
        texts_match_spec(body, head, crumb, level, kws, occ_cap, m),
    ensures
        m.title_prefix <==> (level <= 2 && kws.len() > 0 && begins_with(head, kws[0]) && forall|
            ki: int,
        | 0 <= ki < kws.len() ==> occurs_in(head, #[trigger] kws[ki])),
{
    if kws.len() > 0 {
        lemma_occurs_in(head, kws[0]);
    }
    assert forall|ki: int| 0 <= ki < kws.len() implies (contains_seq(head, #[trigger] kws[ki])
        <==> occurs_in(head, kws[ki])) by {
        lemma_occurs_in(head, kws[ki]);
    }
}

/// Measure how every section matches the keywords.
pub fn match_sections(
    corpus: &str,
    sections: &[Section],
    keywords: &[String],
    occ_cap: usize,
    fold_diacritics: bool,
) -> (t: MatchTable)
    requires
        keywords@.len() > 0,
        forall|ki: int| 0 <= ki < keywords@.len() ==> (#[trigger] keywords@[ki])@.len() > 0,
        forall|si: int|
            0 <= si < sections@.len() ==> valid_byte_range(
                corpus@,
                (#[trigger] sections@[si]).range.start as int,
                sections@[si].range.end as int,
            ),
    ensures
        t.sections@.len() == sections@.len(),
        forall|si: int|
            0 <= si < sections@.len() ==> section_match_spec(
                corpus@,
                #[trigger] sections@[si],
                strings_view(keywords@),
                occ_cap,
                fold_diacritics,
                t.sections@[si],
            ),
        t.dfs@.len() == keywords@.len(),
        forall|ki: int|
            0 <= ki < keywords@.len() ==> #[trigger] t.dfs@[ki] == df_count(
                t.sections@,
                ki,
                sections@.len() as int,
            ) && t.dfs@[ki] <= sections@.len(),
{
    let ghost kv = strings_view(keywords@);
    let mut ms: Vec<SectionMatch> = Vec::new();
    let mut si: usize = 0;
    while si < sections.len()
        invariant
            si <= sections@.len(),
            kv == strings_view(keywords@),
            keywords@.len() > 0,
            forall|j: int| 0 <= j < keywords@.len() ==> (#[trigger] keywords@[j])@.len() > 0,
            forall|j: int|
                0 <= j < sections@.len() ==> valid_byte_range(
                    corpus@,
                    (#[trigger] sections@[j]).range.start as int,
                    sections@[j].range.end as int,
                ),
            ms@.len() == si,
            forall|j: int|
                0 <= j < si ==> section_match_spec(
                    corpus@,
                    #[trigger] sections@[j],
                    kv,
                    occ_cap,
                    fold_diacritics,
                    ms@[j],
                ),
        decreases sections@.len() - si,
    {
        let m = match_section(corpus, &sections[si], keywords, occ_cap, fold_diacritics);
        ms.push(m);
        si = si + 1;
    }
    // Document frequency of each keyword, from the capped counts.
    let n = sections.len();
    let k = keywords.len();
    proof {
        assert forall|j: int| 0 <= j < n implies (#[trigger] ms@[j]).occ@.len() == k by {
            assert(section_match_spec(corpus@, sections@[j], kv, occ_cap, fold_diacritics, ms@[j]));
        }
    }
    let mut dfs: Vec<usize> = Vec::new();
    let mut ki: usize = 0;
    while ki < k
        invariant
            ki <= k,
            k == keywords@.len(),
            n == sections@.len(),
            ms@.len() == n,
            forall|j: int| 0 <= j < n ==> (#[trigger] ms@[j]).occ@.len() == k,
            dfs@.len() == ki,
            forall|j: int| 0 <= j < ki ==> #[trigger] dfs@[j] == df_count(ms@, j, n as int) && dfs@[j] <= n,
        decreases k - ki,
    {
        let mut df: usize = 0;
        let mut sj: usize = 0;
        while sj < n
            invariant
                sj <= n,
                ki < k,
                n == ms@.len(),
                forall|j: int| 0 <= j < n ==> (#[trigger] ms@[j]).occ@.len() == k,
                df <= sj,
                df == df_count(ms@, ki as int, sj as int),
            decreases n - sj,
        {
            if ms[sj].occ[ki] > 0 {
                df = df + 1;
            }
            sj = sj + 1;
        }
        dfs.push(df);
        ki = ki + 1;
    }
    MatchTable { sections: ms, dfs }
}

// ---------------------------------------------------------------------------
// Top-k selection
// ---------------------------------------------------------------------------

/// Section `i` ranks before section `j`: both are scored, and `i` has the
/// higher order key, or the same key and comes first in the document.
pub open spec fn ranks_before(keys: Seq<Option<i64>>, i: int, j: int) -> bool {
    match (keys[i], keys[j]) {
        (Some(a), Some(b)) => a > b || (a == b && i < j),
        _ => false,
    }
}

/// `r` lists the (at most) `k` best scored sections, best first: every
/// scored section that is left out ranks after all of `r`, and is only left
/// out when `r` already holds `k` sections.
pub open spec fn is_top(keys: Seq<Option<i64>>, k: int, r: Seq<usize>) -> bool {
    &&& r.len() <= k
    &&& forall|t: int| 0 <= t < r.len() ==> (#[trigger] r[t]) < keys.len() && keys[r[t] as int] is Some
    &&& forall|t: int, u: int|
        0 <= t < u < r.len() ==> ranks_before(keys, #[trigger] r[t] as int, #[trigger] r[u] as int)
    &&& forall|j: int|
        0 <= j < keys.len() && #[trigger] keys[j] is Some && !r.contains(j as usize) ==> r.len() == k
            && (r.len() == 0 || ranks_before(keys, r.last() as int, j))
}

pub proof fn lemma_ranks_before_order(keys: Seq<Option<i64>>, i: int, j: int, m: int)
    requires
        0 <= i < keys.len(),
        0 <= j < keys.len(),
        0 <= m < keys.len(),
    ensures
        !ranks_before(keys, i, i),
        ranks_before(keys, i, j) && ranks_before(keys, j, m) ==> ranks_before(keys, i, m),
        keys[i] is Some && keys[j] is Some && i != j ==> ranks_before(keys, i, j) || ranks_before(
            keys,
            j,
            i,
        ),
        ranks_before(keys, i, j) ==> !ranks_before(keys, j, i),
{
}

proof fn lemma_top_prefix(keys: Seq<Option<i64>>, k: int, r1: Seq<usize>, r2: Seq<usize>, t: int)
    requires
        is_top(keys, k, r1),
        is_top(keys, k, r2),
        0 <= t <= r1.len(),
        t <= r2.len(),
    ensures
        forall|u: int| 0 <= u < t ==> r1[u] == r2[u],
    decreases t,
{
    if t > 0 {
        lemma_top_prefix(keys, k, r1, r2, t - 1);
        let x = r1[t - 1] as int;
        let y = r2[t - 1] as int;
        if x != y {
            lemma_ranks_before_order(keys, x, y, x);
            // The one that ranks first cannot be missing from the other list.
            if ranks_before(keys, x, y) {
                lemma_top_not_first(keys, k, r1, r2, t - 1);
            } else {
                lemma_top_not_first(keys, k, r2, r1, t - 1);
            }
        }
    }
}

/// With equal prefixes up to `t`, `r1[t]` cannot rank strictly before `r2[t]`.
proof fn lemma_top_not_first(keys: Seq<Option<i64>>, k: int, r1: Seq<usize>, r2: Seq<usize>, t: int)
    requires
        is_top(keys, k, r1),
        is_top(keys, k, r2),
        0 <= t < r1.len(),
        t < r2.len(),
        forall|u: int| 0 <= u < t ==> r1[u] == r2[u],
    ensures
        !ranks_before(keys, r1[t] as int, r2[t] as int),
{
    let x = r1[t] as int;
    let y = r2[t] as int;
    if ranks_before(keys, x, y) {
        assert(0 <= x < keys.len() && keys[x] is Some);
        if r2.contains(x as usize) {
            let u = choose|u: int| 0 <= u < r2.len() && r2[u] == x as usize;
            if u < t {
                assert(r1[u] == r2[u]);
                assert(ranks_before(keys, r1[u] as int, r1[t] as int));
                lemma_ranks_before_order(keys, x, x, x);
            } else if u == t {
                lemma_ranks_before_order(keys, x, x, x);
            } else {
                assert(ranks_before(keys, r2[t] as int, r2[u] as int));
                lemma_ranks_before_order(keys, x, y, x);
            }
        } else {
            let m = r2.len() - 1;
            if t < m {
                assert(ranks_before(keys, r2[t] as int, r2[m] as int));
                assert(ranks_before(keys, r2[m] as int, x));
                lemma_ranks_before_order(keys, y, r2[m] as int, x);
            } else {
                assert(ranks_before(keys, r2[m] as int, x));
            }
            lemma_ranks_before_order(keys, x, y, x);
        }
    }
}

/// The top-k selection is deterministic: exactly one list meets its
/// contract.
pub proof fn lemma_top_unique(keys: Seq<Option<i64>>, k: int, r1: Seq<usize>, r2: Seq<usize>)
    requires
        is_top(keys, k, r1),
        is_top(keys, k, r2),
    ensures
        r1 == r2,
{
    if r1.len() <= r2.len() {
        lemma_top_prefix(keys, k, r1, r2, r1.len() as int);
        if r1.len() < r2.len() {
            lemma_top_extra(keys, k, r1, r2);
        }
    } else {
        lemma_top_prefix(keys, k, r2, r1, r2.len() as int);
        lemma_top_extra(keys, k, r2, r1);
    }
    assert(r1 =~= r2);
}

/// A list meeting the contract cannot be a strict prefix of another one.
proof fn lemma_top_extra(keys: Seq<Option<i64>>, k: int, r1: Seq<usize>, r2: Seq<usize>)
    requires
        is_top(keys, k, r1),
        is_top(keys, k, r2),
        r1.len() <= r2.len(),
        forall|u: int| 0 <= u < r1.len() ==> r1[u] == r2[u],
    ensures
        r1.len() == r2.len(),
{
    if r1.len() < r2.len() {
        let y = r2[r1.len() as int];
        assert(0 <= y < keys.len() && keys[y as int] is Some);
        if r1.contains(y) {
            let u = choose|u: int| 0 <= u < r1.len() && r1[u] == y;
            assert(r2[u] == y);
            assert(ranks_before(keys, r2[u] as int, r2[r1.len() as int] as int));
            lemma_ranks_before_order(keys, y as int, y as int, y as int);
        }
        assert(r1.len() == k);
    }
}

/// The sections that hold a score.
pub open spec fn scored(keys: Seq<Option<i64>>) -> Set<int> {
    Set::new(|j: int| 0 <= j < keys.len() && keys[j] is Some)
}

/// The top-k list holds `k` sections, or every scored section when fewer
/// than `k` are scored.
pub proof fn lemma_top_len(keys: Seq<Option<i64>>, k: int, r: Seq<usize>)
    requires
        is_top(keys, k, r),
        k >= 0,
        keys.len() <= usize::MAX,
    ensures
        scored(keys).finite(),
        r.len() == if k < scored(keys).len() {
            k
        } else {
            scored(keys).len() as int
        },
{
    let ri = r.map_values(|x: usize| x as int);
    assert forall|t: int, u: int| 0 <= t < ri.len() && 0 <= u < ri.len() && t != u implies ri[t]
        != ri[u] by {
        if t < u {
            assert(ranks_before(keys, r[t] as int, r[u] as int));
        } else {
            assert(ranks_before(keys, r[u] as int, r[t] as int));
        }
    }
    assert(ri.no_duplicates());
    ri.unique_seq_to_set();
    let big = ri.to_set();
    let sc = scored(keys);
    let range = vstd::set_lib::set_int_range(0, keys.len() as int);
    vstd::set_lib::lemma_int_range(0, keys.len() as int);
    assert(sc.subset_of(range));
    vstd::set_lib::lemma_len_subset(sc, range);
    assert forall|x: int| big.contains(x) implies sc.contains(x) by {
        let t = choose|t: int| 0 <= t < ri.len() && ri[t] == x;
        assert(r[t] < keys.len() && keys[r[t] as int] is Some);
    }
    vstd::set_lib::lemma_len_subset(big, sc);
    if r.len() < k {
        assert forall|x: int| sc.contains(x) implies big.contains(x) by {
            assert((x as usize) as int == x);
            if !r.contains(x as usize) {
                assert(keys[x] is Some);
            } else {
                let t = choose|t: int| 0 <= t < r.len() && r[t] == x as usize;
                assert(ri[t] == x);
            }
        }
        vstd::set_lib::lemma_len_subset(sc, big);
    }
}

fn ranks_before_exec(keys: &[Option<i64>], i: usize, j: usize) -> (b: bool)
    requires
        i < keys@.len(),
        j < keys@.len(),
    ensures
        b == ranks_before(keys@, i as int, j as int),
{
    match (keys[i], keys[j]) {
        (Some(a), Some(b)) => a > b || (a == b && i < j),
        _ => false,
    }
}

/// The `top_k` best scored sections, best first (deterministic: order key
/// descending, then document order). `keys[i]` is the order key of section
/// `i`, or `None` when that section is not scored.
pub fn select_top(keys: &[Option<i64>], top_k: usize) -> (r: Vec<usize>)
    ensures
        is_top(keys@, top_k as int, r@),
        r@.len() == if top_k < scored(keys@).len() {
            top_k as int
        } else {
            scored(keys@).len() as int
        },
{
    let r = select_top_keys(keys, top_k);
    let n = keys.len();
    proof {
        lemma_top_len(keys@, top_k as int, r@);
    }
    r
}

fn select_top_keys(keys: &[Option<i64>], top_k: usize) -> (r: Vec<usize>)
    ensures
        is_top(keys@, top_k as int, r@),
{
    let n = keys.len();
    let mut r: Vec<usize> = Vec::new();
    while r.len() < top_k
        invariant
            n == keys@.len(),
            r@.len() <= top_k,
            forall|t: int| 0 <= t < r@.len() ==> (#[trigger] r@[t]) < n && keys@[r@[t] as int] is Some,
            forall|t: int, u: int|
                0 <= t < u < r@.len() ==> ranks_before(
                    keys@,
                    #[trigger] r@[t] as int,
                    #[trigger] r@[u] as int,
                ),
            forall|j: int|
                0 <= j < n && #[trigger] keys@[j] is Some && !r@.contains(j as usize) ==> (r@.len()
                    == 0 || ranks_before(keys@, r@.last() as int, j)),
        ensures
            is_top(keys@, top_k as int, r@),
        decreases top_k - r@.len(),
    {
        // The best scored section that ranks after the last one picked.
        let mut best: Option<usize> = None;
        let mut j: usize = 0;
        while j < n
            invariant
                n == keys@.len(),
                j <= n,
                r@.len() < top_k,
                forall|t: int| 0 <= t < r@.len() ==> (#[trigger] r@[t]) < n,
                best matches Some(b) ==> b < j && keys@[b as int] is Some && (r@.len() == 0
                    || ranks_before(keys@, r@.last() as int, b as int)),
                forall|m: int|
                    0 <= m < j && #[trigger] keys@[m] is Some && (r@.len() == 0 || ranks_before(
                        keys@,
                        r@.last() as int,
                        m,
                    )) ==> (best matches Some(b) && (b == m || ranks_before(keys@, b as int, m))),
            decreases n - j,
        {
            if keys[j].is_some() {
                let after_last = r.len() == 0 || ranks_before_exec(keys, r[r.len() - 1], j);
                if after_last {
                    match best {
                        None => {
                            best = Some(j);
                        },
                        Some(b) => {
                            if ranks_before_exec(keys, j, b) {
                                best = Some(j);
                                proof {
                                    assert forall|m: int|
                                        0 <= m < j && #[trigger] keys@[m] is Some && (r@.len() == 0
                                            || ranks_before(keys@, r@.last() as int, m)) implies (
                                    best matches Some(bb) && (bb == m || ranks_before(
                                        keys@,
                                        bb as int,
                                        m,
                                    ))) by {
                                        lemma_ranks_before_order(keys@, j as int, b as int, m);
                                    }
                                }
                            } else {
                                proof {
                                    lemma_ranks_before_order(keys@, b as int, j as int, b as int);
                                }
                            }
                        },
                    }
                }
            }
            j = j + 1;
        }
        match best {
            None => {
                proof {
                    assert forall|m: int|
                        0 <= m < n && #[trigger] keys@[m] is Some && !r@.contains(
                            m as usize,
                        ) implies r@.len() == top_k && (r@.len() == 0 || ranks_before(
                        keys@,
                        r@.last() as int,
                        m,
                    )) by {}
                }
                break;
            },
            Some(b) => {
                let ghost before = r@;
                proof {
                    assert(!before.contains(b)) by {
                        if before.contains(b) {
                            let t = choose|t: int| 0 <= t < before.len() && before[t] == b;
                            if t < before.len() - 1 {
                                assert(ranks_before(keys@, before[t] as int, before.last() as int));
                                lemma_ranks_before_order(
                                    keys@,
                                    b as int,
                                    before.last() as int,
                                    b as int,
                                );
                            } else {
                                lemma_ranks_before_order(keys@, b as int, b as int, b as int);
                            }
                        }
                    }
                }
                r.push(b);
                proof {
                    assert forall|t: int, u: int|
                        0 <= t < u < r@.len() implies ranks_before(
                        keys@,
                        #[trigger] r@[t] as int,
                        #[trigger] r@[u] as int,
                    ) by {
                        if u == r@.len() - 1 && t < before.len() - 1 {
                            assert(ranks_before(keys@, before[t] as int, before.last() as int));
                            lemma_ranks_before_order(
                                keys@,
                                before[t] as int,
                                before.last() as int,
                                b as int,
                            );
                        } else if u < before.len() {
                            assert(r@[t] == before[t] && r@[u] == before[u]);
                        }
                    }
                    assert forall|m: int|
                        0 <= m < n && #[trigger] keys@[m] is Some && !r@.contains(
                            m as usize,
                        ) implies (r@.len() == 0 || ranks_before(keys@, r@.last() as int, m)) by {
                        if before.contains(m as usize) {
                            let t = choose|t: int| 0 <= t < before.len() && before[t] == m as usize;
                            assert(r@[t] == m as usize);
                        }
                        assert(r@[before.len() as int] == b);
                        assert(m != b);
                        lemma_ranks_before_order(keys@, b as int, m, b as int);
                    }
                }
            },
        }
    }
    r
}

} // verus!
