//! Splitting text into search terms.
use vstd::prelude::*;
use crate::text::{
    chars_of, is_alphanumeric, lowercase, spec_is_alphanumeric, spec_lowercase, string_of,
};

verus! {

/// Something that splits text into terms.
pub trait Tokenizer {
    fn tokenize(&self, text: &str) -> Vec<String>;
}

/// Splits text at every character that is not alphanumeric, `_` or `-`, optionally
/// lowercases the pieces, and keeps those of at least a minimum number of characters.
#[derive(Debug, PartialEq, Eq)]
pub struct SimpleTokenizer {
    case_sensitive: bool,
    min_len: usize,
}

/// A character that belongs to a word.
pub open spec fn is_word_char(c: char) -> bool {
    spec_is_alphanumeric(c) || c == '_' || c == '-'
}

/// Words found so far in `s`, and the word still open at its end.
pub open spec fn scan_words(s: Seq<char>) -> (Seq<Seq<char>>, Seq<char>)
    decreases s.len(),
{
    if s.len() == 0 {
        (seq![], seq![])
    } else {
        let (done, cur) = scan_words(s.drop_last());
        let c = s.last();
        if is_word_char(c) {
            (done, cur.push(c))
        } else if cur.len() > 0 {
            (done.push(cur), seq![])
        } else {
            (done, cur)
        }
    }
}

/// The maximal runs of word characters of `s`, in order.
pub open spec fn words(s: Seq<char>) -> Seq<Seq<char>> {
    let (done, cur) = scan_words(s);
    if cur.len() > 0 {
        done.push(cur)
    } else {
        done
    }
}

/// A word as a term: lowercased unless case-sensitive.
pub open spec fn normalize_word(case_sensitive: bool, w: Seq<char>) -> Seq<char> {
    if case_sensitive {
        w
    } else {
        spec_lowercase(w)
    }
}

/// The terms of a text: its words, normalized, of at least `min_len` characters.
pub open spec fn tokenize_spec(case_sensitive: bool, min_len: usize, s: Seq<char>) -> Seq<Seq<char>> {
    words(s).map_values(|w: Seq<char>| normalize_word(case_sensitive, w)).filter(
        |t: Seq<char>| t.len() >= min_len,
    )
}

/// The terms kept from a sequence of words.
pub open spec fn terms_of(case_sensitive: bool, min_len: usize, ws: Seq<Seq<char>>) -> Seq<Seq<char>> {
    ws.map_values(|w: Seq<char>| normalize_word(case_sensitive, w)).filter(
        |t: Seq<char>| t.len() >= min_len,
    )
}

proof fn lemma_terms_of_push(case_sensitive: bool, min_len: usize, ws: Seq<Seq<char>>, w: Seq<char>)
    ensures
        terms_of(case_sensitive, min_len, ws.push(w)) == if normalize_word(case_sensitive, w).len()
            >= min_len {
            terms_of(case_sensitive, min_len, ws).push(normalize_word(case_sensitive, w))
        } else {
            terms_of(case_sensitive, min_len, ws)
        },
{
    let f = |w: Seq<char>| normalize_word(case_sensitive, w);
    let p = |t: Seq<char>| t.len() >= min_len;
    assert(ws.push(w).map_values(f) =~= ws.map_values(f).push(f(w)));
    ws.map_values(f).lemma_filter_push(f(w), p);
}

impl SimpleTokenizer {
    pub closed spec fn is_case_sensitive(&self) -> bool {
        self.case_sensitive
    }

    pub closed spec fn min_chars(&self) -> usize {
        self.min_len
    }

    /// Terms are kept from one character on: the least length is never 0.
    #[verifier::type_invariant]
    spec fn keeps_min_positive(self) -> bool {
        self.min_len >= 1
    }

    pub fn new(case_sensitive: bool) -> (r: Self)
        ensures
            r.is_case_sensitive() == case_sensitive,
            r.min_chars() == 1,
    {
        SimpleTokenizer { case_sensitive, min_len: 1 }
    }

    /// The same tokenizer keeping only terms of at least `min_len` characters (at least 1).
    pub fn with_min_len(self, min_len: usize) -> (r: Self)
        ensures
            r.is_case_sensitive() == self.is_case_sensitive(),
            r.min_chars() == if min_len < 1 { 1 } else { min_len },
    {
        let m = if min_len < 1 { 1 } else { min_len };
        SimpleTokenizer { case_sensitive: self.case_sensitive, min_len: m }
    }

    fn normalize(&self, value: &str) -> (r: String)
        ensures
            r@ == normalize_word(self.is_case_sensitive(), value@),
    {
        if self.case_sensitive {
            string_of(&chars_of(value))
        } else {
            lowercase(value)
        }
    }

    fn emit(&self, tokens: &mut Vec<String>, current: &Vec<char>)
        requires
            current@.len() > 0,
        ensures
            final(tokens)@.map_values(|t: String| t@) == if normalize_word(
                self.is_case_sensitive(),
                current@,
            ).len() >= self.min_chars() {
                old(tokens)@.map_values(|t: String| t@).push(
                    normalize_word(self.is_case_sensitive(), current@),
                )
            } else {
                old(tokens)@.map_values(|t: String| t@)
            },
    {
        let word = string_of(current.as_slice());
        let token = self.normalize(word.as_str());
        let n = chars_of(token.as_str()).len();
        if n >= self.min_len {
            let ghost before = tokens@;
            tokens.push(token);
            assert(tokens@.map_values(|t: String| t@) =~= before.map_values(|t: String| t@).push(
                token@,
            ));
        }
    }

    /// The terms of a text (see `tokenize_spec`).
    pub fn tokenize_text(&self, text: &str) -> (r: Vec<String>)
        ensures
            r@.map_values(|t: String| t@) == tokenize_spec(
                self.is_case_sensitive(),
                self.min_chars(),
                text@,
            ),
            self.min_chars() >= 1,
            forall|k: int| 0 <= k < r.len() ==> (#[trigger] r@[k])@.len() >= 1,
    {
        proof {
            use_type_invariant(self);
        }
        let cs = chars_of(text);
        let mut tokens: Vec<String> = Vec::new();
        let mut current: Vec<char> = Vec::new();
        let mut i: usize = 0;
        assert(cs@.take(0) =~= Seq::<char>::empty());
        while i < cs.len()
            invariant
                i <= cs.len(),
                cs@ == text@,
                scan_words(cs@.take(i as int)).1 == current@,
                tokens@.map_values(|t: String| t@) == terms_of(
                    self.is_case_sensitive(),
                    self.min_chars(),
                    scan_words(cs@.take(i as int)).0,
                ),
            decreases cs.len() - i,
        {
            let c = cs[i];
            proof {
                assert(cs@.take(i + 1).drop_last() =~= cs@.take(i as int));
                assert(cs@.take(i + 1).last() == c);
            }
            if is_alphanumeric(c) || c == '_' || c == '-' {
                current.push(c);
            } else if current.len() > 0 {
                proof {
                    lemma_terms_of_push(
                        self.is_case_sensitive(),
                        self.min_chars(),
                        scan_words(cs@.take(i as int)).0,
                        current@,
                    );
                }
                self.emit(&mut tokens, &current);
                current = Vec::new();
            }
            i += 1;
        }
        assert(cs@.take(cs.len() as int) =~= cs@);
        if current.len() > 0 {
            proof {
                lemma_terms_of_push(
                    self.is_case_sensitive(),
                    self.min_chars(),
                    scan_words(cs@).0,
                    current@,
                );
            }
            self.emit(&mut tokens, &current);
        }
        proof {
            lemma_terms_shape(self.is_case_sensitive(), self.min_chars(), text@);
            assert forall|k: int| 0 <= k < tokens.len() implies (#[trigger] tokens@[k])@.len() >= 1 by {
                assert(tokens@.map_values(|t: String| t@)[k] == tokens@[k]@);
            }
        }
        tokens
    }
}

impl Clone for SimpleTokenizer {
    fn clone(&self) -> (r: Self)
        ensures
            r == *self,
    {
        proof {
            use_type_invariant(self);
        }
        SimpleTokenizer { case_sensitive: self.case_sensitive, min_len: self.min_len }
    }
}

impl Default for SimpleTokenizer {
    fn default() -> (r: Self)
        ensures
            !r.is_case_sensitive(),
            r.min_chars() == 1,
    {
        Self::new(false)
    }
}

impl Tokenizer for SimpleTokenizer {
    fn tokenize(&self, text: &str) -> (r: Vec<String>)
        ensures
            r@.map_values(|t: String| t@) == tokenize_spec(
                self.is_case_sensitive(),
                self.min_chars(),
                text@,
            ),
    {
        self.tokenize_text(text)
    }
}


/// Whether every character of `w` belongs to a word.
pub open spec fn all_word_chars(w: Seq<char>) -> bool {
    forall|k: int| 0 <= k < w.len() ==> is_word_char(#[trigger] w[k])
}

proof fn lemma_scan_words_chars(s: Seq<char>)
    ensures
        forall|i: int| 0 <= i < scan_words(s).0.len() ==> all_word_chars(#[trigger] scan_words(s).0[i]),
        all_word_chars(scan_words(s).1),
    decreases s.len(),
{
    if s.len() > 0 {
        lemma_scan_words_chars(s.drop_last());
        let (done, cur) = scan_words(s.drop_last());
        let c = s.last();
        if is_word_char(c) {
            assert forall|k: int| 0 <= k < cur.push(c).len() implies is_word_char(#[trigger] cur.push(c)[k]) by {
                if k < cur.len() {
                    assert(cur.push(c)[k] == cur[k]);
                }
            }
        } else if cur.len() > 0 {
            assert forall|i: int| 0 <= i < done.push(cur).len() implies all_word_chars(#[trigger] done.push(cur)[i]) by {
                if i < done.len() {
                    assert(done.push(cur)[i] == done[i]);
                }
            }
        }
    }
}

/// Every term has at least `min_len` characters; with case kept, every term is a run of word
/// characters of the text.
pub proof fn lemma_terms_shape(case_sensitive: bool, min_len: usize, s: Seq<char>)
    ensures
        forall|i: int|
            0 <= i < tokenize_spec(case_sensitive, min_len, s).len() ==> (#[trigger] tokenize_spec(
                case_sensitive,
                min_len,
                s,
            )[i]).len() >= min_len,
        case_sensitive ==> forall|i: int|
            0 <= i < tokenize_spec(case_sensitive, min_len, s).len() ==> all_word_chars(
                #[trigger] tokenize_spec(case_sensitive, min_len, s)[i],
            ),
{
    let f = |w: Seq<char>| normalize_word(case_sensitive, w);
    let p = |t: Seq<char>| t.len() >= min_len;
    let ws = words(s);
    let ms = ws.map_values(f);
    let ts = tokenize_spec(case_sensitive, min_len, s);
    assert(ts == ms.filter(p));
    lemma_scan_words_chars(s);
    assert forall|i: int| 0 <= i < ws.len() implies all_word_chars(#[trigger] ws[i]) by {
        let (done, cur) = scan_words(s);
        if cur.len() > 0 && i == done.len() {
            assert(ws[i] == cur);
        } else {
            assert(ws[i] == done[i]);
        }
    }
    assert forall|i: int| 0 <= i < ts.len() implies (#[trigger] ts[i]).len() >= min_len && (case_sensitive
        ==> all_word_chars(ts[i])) by {
        ms.lemma_filter_pred(p, i);
        assert(ms.filter(p).contains(ts[i]));
        ms.lemma_filter_contains_rev(p, ts[i]);
        let j = choose|j: int| 0 <= j < ms.len() && ms[j] == ts[i];
        assert(ms[j] == f(ws[j]));
        if case_sensitive {
            assert(ms[j] == ws[j]);
        }
    }
}


/// `seps[0] + ws[0] + seps[1] + ... + ws[n-1] + seps[n]`.
pub open spec fn interleave(seps: Seq<Seq<char>>, ws: Seq<Seq<char>>) -> Seq<char>
    decreases ws.len(),
{
    if ws.len() == 0 || seps.len() == 0 {
        if seps.len() > 0 {
            seps[0]
        } else {
            seq![]
        }
    } else {
        interleave(seps.drop_last(), ws.drop_last()) + ws.last() + seps.last()
    }
}

/// `s` is the words `ws` with separators `seps` around them: every word a non-empty run of word
/// characters, every separator free of them, and the separators between two words non-empty,
/// so each word is a maximal run.
pub open spec fn split_into_runs(s: Seq<char>, seps: Seq<Seq<char>>, ws: Seq<Seq<char>>) -> bool {
    &&& seps.len() == ws.len() + 1
    &&& s == interleave(seps, ws)
    &&& forall|i: int| 0 <= i < ws.len() ==> (#[trigger] ws[i]).len() > 0 && all_word_chars(ws[i])
    &&& forall|i: int, k: int| 0 <= i < seps.len() && 0 <= k < seps[i].len() ==> !is_word_char(#[trigger] seps[i][k])
    &&& forall|i: int| 0 < i < ws.len() ==> (#[trigger] seps[i]).len() > 0
}

proof fn lemma_scan_runs(s: Seq<char>) -> (seps: Seq<Seq<char>>)
    ensures
        seps.len() == scan_words(s).0.len() + 1,
        s == interleave(seps, scan_words(s).0) + scan_words(s).1,
        forall|i: int|
            0 <= i < scan_words(s).0.len() ==> (#[trigger] scan_words(s).0[i]).len() > 0 && all_word_chars(
                scan_words(s).0[i],
            ),
        all_word_chars(scan_words(s).1),
        forall|i: int, k: int| 0 <= i < seps.len() && 0 <= k < seps[i].len() ==> !is_word_char(#[trigger] seps[i][k]),
        forall|i: int| 0 < i < seps.len() ==> (#[trigger] seps[i]).len() > 0,
    decreases s.len(),
{
    lemma_scan_words_chars(s);
    if s.len() == 0 {
        let seps = seq![Seq::<char>::empty()];
        assert(s =~= interleave(seps, scan_words(s).0) + scan_words(s).1);
        seps
    } else {
        let t = s.drop_last();
        let c = s.last();
        let seps0 = lemma_scan_runs(t);
        let (done, cur) = scan_words(t);
        let d = done.len();
        assert(s =~= t + seq![c]);
        if is_word_char(c) {
            assert(s =~= interleave(seps0, done) + cur.push(c));
            seps0
        } else if cur.len() > 0 {
            let seps = seps0.push(seq![c]);
            let nd = done.push(cur);
            assert(nd.drop_last() =~= done);
            assert(seps.drop_last() =~= seps0);
            assert(interleave(seps, nd) == interleave(seps0, done) + cur + seq![c]);
            assert(s =~= interleave(seps, nd) + Seq::<char>::empty());
            assert forall|i: int| 0 <= i < nd.len() implies (#[trigger] nd[i]).len() > 0 && all_word_chars(nd[i]) by {
                if i < d {
                    assert(nd[i] == done[i]);
                }
            }
            assert forall|i: int, k: int| 0 <= i < seps.len() && 0 <= k < seps[i].len() implies !is_word_char(
                #[trigger] seps[i][k],
            ) by {
                if i < seps0.len() {
                    assert(seps[i] == seps0[i]);
                }
            }
            assert forall|i: int| 0 < i < seps.len() implies (#[trigger] seps[i]).len() > 0 by {
                if i < seps0.len() {
                    assert(seps[i] == seps0[i]);
                }
            }
            seps
        } else {
            let seps = seps0.update(d as int, seps0[d as int].push(c));
            assert(seps.drop_last() =~= seps0.drop_last());
            assert(cur =~= Seq::<char>::empty());
            if d == 0 {
                assert(interleave(seps, done) == seps[0]);
                assert(s =~= interleave(seps, done) + cur);
            } else {
                assert(interleave(seps, done) =~= interleave(seps0, done) + seq![c]);
                assert(s =~= interleave(seps, done) + cur);
            }
            assert forall|i: int, k: int| 0 <= i < seps.len() && 0 <= k < seps[i].len() implies !is_word_char(
                #[trigger] seps[i][k],
            ) by {
                if i != d {
                    assert(seps[i] == seps0[i]);
                } else if k < seps0[i].len() {
                    assert(seps[i][k] == seps0[i][k]);
                }
            }
            assert forall|i: int| 0 < i < seps.len() implies (#[trigger] seps[i]).len() > 0 by {
                if i != d {
                    assert(seps[i] == seps0[i]);
                }
            }
            seps
        }
    }
}

/// Tokens: the terms of a text are its maximal runs of alphanumeric, `_` and `-` characters,
/// in order, each lowercased unless case-sensitive, keeping those of at least `min_len`
/// characters.
pub proof fn lemma_tokens_are_runs(case_sensitive: bool, min_len: usize, s: Seq<char>)
    ensures
        exists|seps: Seq<Seq<char>>| split_into_runs(s, seps, words(s)),
        tokenize_spec(case_sensitive, min_len, s) == words(s).map_values(
            |w: Seq<char>| normalize_word(case_sensitive, w),
        ).filter(|t: Seq<char>| t.len() >= min_len),
{
    let seps0 = lemma_scan_runs(s);
    let (done, cur) = scan_words(s);
    let ws = words(s);
    if cur.len() > 0 {
        let seps = seps0.push(Seq::<char>::empty());
        assert(ws.drop_last() =~= done);
        assert(seps.drop_last() =~= seps0);
        assert(interleave(seps, ws) =~= interleave(seps0, done) + cur + Seq::<char>::empty());
        assert forall|i: int| 0 <= i < ws.len() implies (#[trigger] ws[i]).len() > 0 && all_word_chars(ws[i]) by {
            if i < done.len() {
                assert(ws[i] == done[i]);
            }
        }
        assert forall|i: int, k: int| 0 <= i < seps.len() && 0 <= k < seps[i].len() implies !is_word_char(
            #[trigger] seps[i][k],
        ) by {
            if i < seps0.len() {
                assert(seps[i] == seps0[i]);
            }
        }
        assert forall|i: int| 0 < i < ws.len() implies (#[trigger] seps[i]).len() > 0 by {
            assert(seps[i] == seps0[i]);
        }
        assert(split_into_runs(s, seps, ws));
    } else {
        assert(s =~= interleave(seps0, done));
        assert(split_into_runs(s, seps0, ws));
    }
}

} // verus!
