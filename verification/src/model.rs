//! The trained frequency model and its classifier.

use vstd::prelude::*;

use crate::{RATING_SCALE, MIN_RATING, NO_TOKEN_RATING, MAX_RATING, MAX_SENTENCE_LENGTH};
use crate::fixed::{HALF_SCALE, spec_combine, combine};
use crate::rating::{spec_token_rating, token_rating, spec_adjust, adjust_probabilities};
use crate::segment::{tokens_of, chunks_of, segment_text, split_text};

verus! {

/// Language tag of a training corpus, for callers that track it; the
/// segmenter itself detects scripts on its own.
#[derive(Debug, Clone, Copy, PartialEq, Eq, Structural)]
pub enum Language {
    SimplifiedChinese,
    English,
}

/// The mathematical content of a trained model: author names, token
/// vocabulary, one occurrence-count row per token (indexed by author),
/// per-author totals, and the grand total.
pub ghost struct ModelView {
    pub authors: Seq<Seq<char>>,
    pub tokens: Seq<Seq<char>>,
    pub rows: Seq<Seq<u32>>,
    pub totals: Seq<u32>,
    pub grand: u32,
}

/// No two entries of the sequence are equal.
pub open spec fn unique_seq<T>(s: Seq<T>) -> bool {
    forall|i: int, j: int| 0 <= i < j < s.len() ==> s[i] != s[j]
}

/// Sum of a row of counts.
pub open spec fn sum_row(s: Seq<u32>) -> int
    decreases s.len(),
{
    if s.len() == 0 {
        0
    } else {
        sum_row(s.drop_last()) + s.last()
    }
}

/// Sum of one author's column across all token rows.
pub open spec fn sum_col(rows: Seq<Seq<u32>>, a: int) -> int
    decreases rows.len(),
{
    if rows.len() == 0 {
        0
    } else {
        sum_col(rows.drop_last(), a) + rows.last()[a]
    }
}

impl ModelView {
    /// The invariant of a trained model: names and tokens are unique,
    /// every row spans all authors and records at least one occurrence,
    /// each author's total is the sum of the author's column, and the
    /// grand total is the sum of the totals.
    pub open spec fn wf(self) -> bool {
        &&& unique_seq(self.authors)
        &&& unique_seq(self.tokens)
        &&& self.rows.len() == self.tokens.len()
        &&& self.totals.len() == self.authors.len()
        &&& forall|i: int| 0 <= i < self.rows.len() ==> (#[trigger] self.rows[i]).len() == self.authors.len()
        &&& forall|i: int| 0 <= i < self.rows.len() ==> sum_row(#[trigger] self.rows[i]) >= 1
        &&& forall|a: int| 0 <= a < self.totals.len() ==> (#[trigger] self.totals[a]) as int == sum_col(self.rows, a)
        &&& self.grand as int == sum_row(self.totals)
    }

    /// Some row is attached to the token.
    pub open spec fn has_token(self, t: Seq<char>) -> bool {
        exists|i: int| 0 <= i < self.tokens.len() && self.tokens[i] == t
    }

    /// The index of the token's row.
    pub open spec fn token_idx(self, t: Seq<char>) -> int {
        choose|i: int| 0 <= i < self.tokens.len() && self.tokens[i] == t
    }
}

/// A smoothed naive-Bayes model over per-author token frequencies.
/// Immutable once trained; classification never changes it.
#[derive(Debug)]
pub struct BayesianModel {
    /// The authors, in discovery order; every per-author vector of the
    /// model is indexed by position in this list.
    authors: Vec<String>,
    /// The token vocabulary, in discovery order.
    tokens: Vec<String>,
    /// One count row per token: entry `a` is how often the token
    /// occurred in author `a`'s training texts.
    token_counts: Vec<Vec<u32>>,
    /// Each author's total token count.
    author_token_count: Vec<u32>,
    /// Total token count used to train the model.
    total_token_count: u32,
}

impl View for BayesianModel {
    type V = ModelView;

    closed spec fn view(&self) -> ModelView {
        ModelView {
            authors: self.authors.deep_view(),
            tokens: self.tokens.deep_view(),
            rows: self.token_counts.deep_view(),
            totals: self.author_token_count@,
            grand: self.total_token_count,
        }
    }
}

proof fn lemma_sum_row_nonneg(s: Seq<u32>)
    ensures
        sum_row(s) >= 0,
    decreases s.len(),
{
    if s.len() > 0 {
        lemma_sum_row_nonneg(s.drop_last());
    }
}

proof fn lemma_sum_row_step(s: Seq<u32>, i: int)
    requires
        0 <= i < s.len(),
    ensures
        sum_row(s.take(i + 1)) == sum_row(s.take(i)) + s[i],
{
    assert(s.take(i + 1).drop_last() =~= s.take(i));
    assert(s.take(i + 1).last() == s[i]);
}

proof fn lemma_sum_row_prefix_le(s: Seq<u32>, i: int)
    requires
        0 <= i <= s.len(),
    ensures
        sum_row(s.take(i)) <= sum_row(s),
    decreases s.len() - i,
{
    if i == s.len() {
        assert(s.take(i) =~= s);
    } else {
        lemma_sum_row_step(s, i);
        lemma_sum_row_prefix_le(s, i + 1);
    }
}

proof fn lemma_sum_row_ge_elem(s: Seq<u32>, a: int)
    requires
        0 <= a < s.len(),
    ensures
        s[a] <= sum_row(s),
    decreases s.len(),
{
    if a == s.len() - 1 {
        lemma_sum_row_nonneg(s.drop_last());
    } else {
        lemma_sum_row_ge_elem(s.drop_last(), a);
        assert(s.drop_last()[a] == s[a]);
    }
}

proof fn lemma_sum_col_ge_elem(rows: Seq<Seq<u32>>, i: int, a: int)
    requires
        0 <= i < rows.len(),
    ensures
        rows[i][a] <= sum_col(rows, a),
    decreases rows.len(),
{
    if rows.len() > 0 {
        lemma_sum_col_nonneg(rows.drop_last(), a);
        if i == rows.len() - 1 {
        } else {
            lemma_sum_col_ge_elem(rows.drop_last(), i, a);
            assert(rows.drop_last()[i] == rows[i]);
        }
    }
}

proof fn lemma_sum_col_nonneg(rows: Seq<Seq<u32>>, a: int)
    ensures
        sum_col(rows, a) >= 0,
    decreases rows.len(),
{
    if rows.len() > 0 {
        lemma_sum_col_nonneg(rows.drop_last(), a);
    }
}

proof fn lemma_sum_row_pointwise_le(x: Seq<u32>, y: Seq<u32>)
    requires
        x.len() == y.len(),
        forall|k: int| 0 <= k < x.len() ==> (#[trigger] x[k]) as int <= y[k] as int,
    ensures
        sum_row(x) <= sum_row(y),
    decreases x.len(),
{
    if x.len() > 0 {
        lemma_sum_row_pointwise_le(x.drop_last(), y.drop_last());
        assert(forall|k: int| 0 <= k < x.len() - 1 ==> (#[trigger] x.drop_last()[k]) as int <= y.drop_last()[k] as int);
    }
}

/// Under the model invariant, a token's overall count never exceeds the
/// grand total, and no author's total does either.
pub proof fn lemma_row_sum_le_grand(v: ModelView, i: int)
    requires
        v.wf(),
        0 <= i < v.rows.len(),
    ensures
        sum_row(v.rows[i]) <= v.grand as int,
{
    let w = Seq::new(v.rows[i].len(), |a: int| v.totals[a]);
    assert forall|a: int| 0 <= a < v.rows[i].len() implies (#[trigger] v.rows[i][a]) as int <= w[a] as int by {
        lemma_sum_col_ge_elem(v.rows, i, a);
    }
    lemma_sum_row_pointwise_le(v.rows[i], w);
    assert(w =~= v.totals);
}

/// Under the model invariant, each author's total is at most the grand total.
pub proof fn lemma_total_le_grand(v: ModelView, a: int)
    requires
        v.wf(),
        0 <= a < v.totals.len(),
    ensures
        v.totals[a] as int <= v.grand as int,
{
    lemma_sum_row_ge_elem(v.totals, a);
}

/// First index holding the given string, scanning forward.
fn find_string(v: &Vec<String>, s: &String) -> (r: Option<usize>)
    ensures
        match r {
            Some(i) => 0 <= i < v@.len() && v@[i as int]@ == s@ && (forall|j: int|
                0 <= j < i ==> v@[j]@ != s@),
            None => forall|j: int| 0 <= j < v@.len() ==> v@[j]@ != s@,
        },
{
    let mut k: usize = 0;
    while k < v.len()
        invariant
            0 <= k <= v@.len(),
            forall|j: int| 0 <= j < k ==> v@[j]@ != s@,
        decreases v@.len() - k,
    {
        if v[k] == *s {
            return Some(k);
        }
        k = k + 1;
    }
    None
}

/// Sum of a count row, executable.
fn row_sum(row: &Vec<u32>) -> (r: u64)
    requires
        sum_row(row@) <= u32::MAX,
    ensures
        r as int == sum_row(row@),
{
    let mut acc: u64 = 0;
    let mut i: usize = 0;
    proof {
        assert(row@.take(0) =~= Seq::<u32>::empty());
    }
    while i < row.len()
        invariant
            0 <= i <= row@.len(),
            acc as int == sum_row(row@.take(i as int)),
            sum_row(row@) <= u32::MAX,
        decreases row@.len() - i,
    {
        proof {
            lemma_sum_row_step(row@, i as int);
            lemma_sum_row_prefix_le(row@, i + 1);
        }
        acc = acc + (row[i] as u64);
        i = i + 1;
    }
    proof {
        assert(row@.take(row@.len() as int) =~= row@);
    }
    acc
}

/// The ratings one token contributes to one author's list: an unknown
/// token contributes the fixed `MIN_RATING`; a known token its computed
/// rating, preceded by the fixed `NO_TOKEN_RATING` when the author has
/// never used it.
pub open spec fn spec_token_ratings_for_author(v: ModelView, t: Seq<char>, a: int) -> Seq<u64> {
    if !v.has_token(t) {
        seq![MIN_RATING]
    } else {
        let row = v.rows[v.token_idx(t)];
        let c = row[a];
        let rating = spec_token_rating(c as int, v.totals[a] as int, sum_row(row), v.grand as int) as u64;
        if c == 0 {
            seq![NO_TOKEN_RATING, rating]
        } else {
            seq![rating]
        }
    }
}

/// The full rating list of one author over a sentence's tokens.
pub open spec fn spec_sentence_ratings(v: ModelView, toks: Seq<Seq<char>>, a: int) -> Seq<u64>
    decreases toks.len(),
{
    if toks.len() == 0 {
        Seq::empty()
    } else {
        spec_sentence_ratings(v, toks.drop_last(), a) + spec_token_ratings_for_author(v, toks.last(), a)
    }
}

/// One author's score for one sentence: the trimmed rating list put
/// through the combination formula; a sentence that contributed no
/// ratings scores the neutral `1/2`.
pub open spec fn spec_sentence_score(v: ModelView, toks: Seq<Seq<char>>, a: int) -> int {
    let rs = spec_adjust(spec_sentence_ratings(v, toks, a));
    if rs.len() == 0 {
        HALF_SCALE as int
    } else {
        spec_combine(rs)
    }
}

impl BayesianModel {
    /// Score every author over one sentence's token list.
    fn predicate(&self, tokens: &Vec<String>) -> (r: Vec<u64>)
        requires
            self@.wf(),
        ensures
            r@.len() == self@.authors.len(),
            forall|a: int|
                0 <= a < r@.len() ==> (#[trigger] r@[a]) as int == spec_sentence_score(
                    self@,
                    tokens.deep_view(),
                    a,
                ),
            forall|a: int| 0 <= a < r@.len() ==> #[trigger] r@[a] <= RATING_SCALE,
    {
        let ghost tv = tokens.deep_view();
        let a_count = self.authors.len();
        let mut scores: Vec<u64> = Vec::new();
        let mut a: usize = 0;
        while a < a_count
            invariant
                self@.wf(),
                tv == tokens.deep_view(),
                a_count == self@.authors.len(),
                0 <= a <= a_count,
                scores@.len() == a,
                forall|x: int|
                    0 <= x < a ==> (#[trigger] scores@[x]) as int == spec_sentence_score(self@, tv, x),
                forall|x: int| 0 <= x < a ==> #[trigger] scores@[x] <= RATING_SCALE,
            decreases a_count - a,
        {
            let mut rs: Vec<u64> = Vec::new();
            let mut j: usize = 0;
            proof {
                assert(tv.take(0) =~= Seq::<Seq<char>>::empty());
            }
            while j < tokens.len()
                invariant
                    self@.wf(),
                    tv == tokens.deep_view(),
                    a < self@.authors.len(),
                    0 <= j <= tokens@.len(),
                    tv.len() == tokens@.len(),
                    rs@ == spec_sentence_ratings(self@, tv.take(j as int), a as int),
                    forall|k: int| 0 <= k < rs@.len() ==> MIN_RATING <= #[trigger] rs@[k] <= MAX_RATING,
                decreases tokens@.len() - j,
            {
                let ghost old_rs = rs@;
                let t = &tokens[j];
                proof {
                    assert(tv[j as int] == tokens@[j as int]@);
                }
                match find_string(&self.tokens, t) {
                    Some(i) => {
                        proof {
                            assert(self@.tokens[i as int] == self.tokens@[i as int]@);
                            assert(self@.has_token(t@));
                            let i2 = self@.token_idx(t@);
                            assert(self@.tokens[i2] == t@);
                            assert(i2 == i as int);
                            assert(self@.rows[i as int] == self.token_counts@[i as int]@);
                            lemma_row_sum_le_grand(self@, i as int);
                        }
                        let row = &self.token_counts[i];
                        let cnt = row_sum(row);
                        let c = row[a];
                        proof {
                            lemma_sum_row_ge_elem(row@, a as int);
                            lemma_total_le_grand(self@, a as int);
                            assert(self@.totals[a as int] == self.author_token_count@[a as int]);
                        }
                        let rating = token_rating(c, self.author_token_count[a], cnt, self.total_token_count);
                        if c == 0 {
                            rs.push(NO_TOKEN_RATING);
                        }
                        rs.push(rating);
                        proof {
                            if c == 0 {
                                assert(rs@ =~= old_rs + seq![NO_TOKEN_RATING, rating]);
                            } else {
                                assert(rs@ =~= old_rs + seq![rating]);
                            }
                        }
                    },
                    None => {
                        proof {
                            assert forall|i2: int| 0 <= i2 < self@.tokens.len() implies self@.tokens[i2] != t@ by {
                                assert(self@.tokens[i2] == self.tokens@[i2]@);
                            }
                            assert(!self@.has_token(t@));
                        }
                        rs.push(MIN_RATING);
                        proof {
                            assert(rs@ =~= old_rs + seq![MIN_RATING]);
                        }
                    },
                }
                proof {
                    assert(tv.take(j + 1).drop_last() =~= tv.take(j as int));
                    assert(tv.take(j + 1).last() == tv[j as int]);
                }
                j = j + 1;
            }
            proof {
                assert(tv.take(tv.len() as int) =~= tv);
            }
            let adjusted = adjust_probabilities(rs);
            let score: u64 = if adjusted.len() == 0 {
                HALF_SCALE
            } else {
                combine(&adjusted)
            };
            scores.push(score);
            a = a + 1;
        }
        scores
    }
}

/// Per-author scores of a document, before author names are attached:
/// one score vector per sentence (with the sentence's byte offset), and
/// the per-author mean over all sentences.
#[derive(Debug)]
pub struct Predication {
    pub sentences_predicate: Vec<(usize, Vec<u64>)>,
    pub total_predicate: Vec<u64>,
}

/// The final classification: per-sentence and aggregate scores, each
/// author name paired with its fixed-point score in `[0, RATING_SCALE]`.
#[derive(Debug)]
pub struct Classification {
    pub sentences_classification: Vec<(usize, Vec<(String, u64)>)>,
    pub total_classification: Vec<(String, u64)>,
}

/// The sentences of a document: each chunk's byte offset with the token
/// list of the chunk.
pub open spec fn spec_preprocess(text: Seq<char>) -> Seq<(int, Seq<Seq<char>>)> {
    chunks_of(text, MAX_SENTENCE_LENGTH as int).map_values(|c: (int, Seq<char>)| (c.0, tokens_of(c.1)))
}

/// Sum of one author's scores over a run of sentences.
pub open spec fn sum_sentence_scores(v: ModelView, sents: Seq<(int, Seq<Seq<char>>)>, a: int) -> int
    decreases sents.len(),
{
    if sents.len() == 0 {
        0
    } else {
        sum_sentence_scores(v, sents.drop_last(), a) + spec_sentence_score(v, sents.last().1, a)
    }
}

/// One author's aggregate score over a document: the mean of the
/// author's per-sentence scores, or the neutral `1/2` for a document
/// with no sentences.
pub open spec fn spec_total_score(v: ModelView, text: Seq<char>, a: int) -> int {
    let sents = spec_preprocess(text);
    if sents.len() == 0 {
        HALF_SCALE as int
    } else {
        sum_sentence_scores(v, sents, a) / (sents.len() as int)
    }
}

impl BayesianModel {
    /// Split a text into word segments, language-aware.
    pub fn tokenize(text: &str) -> (r: Vec<String>)
        ensures
            r.deep_view() == tokens_of(text@),
    {
        let r = segment_text(text);
        proof {
            assert(r.deep_view() =~= r@.map_values(|t: String| t@));
        }
        r
    }

    /// Split a text into bounded sentences and tokenize each.  The
    /// sentence offsets never decrease across the document.
    pub fn preprocess(text: &str) -> (r: Vec<(usize, Vec<String>)>)
        ensures
            r@.len() == spec_preprocess(text@).len(),
            forall|i: int|
                0 <= i < r@.len() ==> (#[trigger] r@[i]).0 as int == spec_preprocess(text@)[i].0
                    && r@[i].1.deep_view() == spec_preprocess(text@)[i].1,
            forall|i: int, j: int|
                0 <= i <= j < r@.len() ==> (#[trigger] r@[i]).0 <= (#[trigger] r@[j]).0,
    {
        let ghost sents = spec_preprocess(text@);
        let chunks = split_text(text, MAX_SENTENCE_LENGTH);
        proof {
            assert(chunks@.map_values(|c: (usize, String)| (c.0 as int, c.1@)).len() == chunks@.len());
        }
        let mut out: Vec<(usize, Vec<String>)> = Vec::new();
        let mut i: usize = 0;
        while i < chunks.len()
            invariant
                0 <= i <= chunks@.len(),
                sents == spec_preprocess(text@),
                chunks@.map_values(|c: (usize, String)| (c.0 as int, c.1@)) == chunks_of(
                    text@,
                    MAX_SENTENCE_LENGTH as int,
                ),
                sents.len() == chunks@.len(),
                out@.len() == i,
                forall|k: int|
                    0 <= k < i ==> (#[trigger] out@[k]).0 as int == sents[k].0
                        && out@[k].1.deep_view() == sents[k].1,
            decreases chunks@.len() - i,
        {
            let c = &chunks[i];
            let toks = Self::tokenize(c.1.as_str());
            proof {
                let mapped = chunks@.map_values(|c: (usize, String)| (c.0 as int, c.1@));
                assert(mapped[i as int] == (chunks@[i as int].0 as int, chunks@[i as int].1@));
            }
            out.push((c.0, toks));
            i = i + 1;
        }
        proof {
            let mapped = chunks@.map_values(|c: (usize, String)| (c.0 as int, c.1@));
            assert forall|x: int, y: int| 0 <= x <= y < out@.len() implies (#[trigger] out@[x]).0
                <= (#[trigger] out@[y]).0 by {
                assert(mapped[x] == (chunks@[x].0 as int, chunks@[x].1@));
                assert(mapped[y] == (chunks@[y].0 as int, chunks@[y].1@));
                assert(chunks@[x].0 <= chunks@[y].0);
            }
        }
        out
    }

    /// Score every author over every sentence of a document and
    /// aggregate, without attaching author names.
    fn predicate_text(&self, text: &str) -> (r: Predication)
        requires
            self@.wf(),
        ensures
            r.sentences_predicate@.len() == spec_preprocess(text@).len(),
            forall|s: int|
                0 <= s < r.sentences_predicate@.len() ==> (#[trigger] r.sentences_predicate@[s]).0
                    as int == spec_preprocess(text@)[s].0,
            forall|s: int|
                0 <= s < r.sentences_predicate@.len() ==> (#[trigger] r.sentences_predicate@[s]).1@.len()
                    == self@.authors.len(),
            forall|s: int, a: int|
                0 <= s < r.sentences_predicate@.len() && 0 <= a < self@.authors.len()
                    ==> (#[trigger] r.sentences_predicate@[s].1@[a]) as int == spec_sentence_score(
                    self@,
                    spec_preprocess(text@)[s].1,
                    a,
                ) && r.sentences_predicate@[s].1@[a] <= RATING_SCALE,
            r.total_predicate@.len() == self@.authors.len(),
            forall|a: int|
                0 <= a < self@.authors.len() ==> (#[trigger] r.total_predicate@[a]) as int
                    == spec_total_score(self@, text@, a) && r.total_predicate@[a] <= RATING_SCALE,
            forall|s: int, t: int|
                0 <= s <= t < r.sentences_predicate@.len() ==> (#[trigger] r.sentences_predicate@[s]).0
                    <= (#[trigger] r.sentences_predicate@[t]).0,
    {
        let ghost sents = spec_preprocess(text@);
        let sentences = Self::preprocess(text);
        let n = sentences.len();
        let mut sp: Vec<(usize, Vec<u64>)> = Vec::new();
        let mut s: usize = 0;
        while s < n
            invariant
                self@.wf(),
                sents == spec_preprocess(text@),
                n == sentences@.len(),
                sents.len() == n,
                forall|k: int|
                    0 <= k < n ==> (#[trigger] sentences@[k]).0 as int == sents[k].0
                        && sentences@[k].1.deep_view() == sents[k].1,
                0 <= s <= n,
                sp@.len() == s,
                forall|k: int|
                    0 <= k < s ==> (#[trigger] sp@[k]).0 as int == sents[k].0,
                forall|k: int|
                    0 <= k < s ==> (#[trigger] sp@[k]).1@.len() == self@.authors.len(),
                forall|k: int, a: int|
                    0 <= k < s && 0 <= a < self@.authors.len() ==> (#[trigger] sp@[k].1@[a]) as int
                        == spec_sentence_score(self@, sents[k].1, a) && sp@[k].1@[a] <= RATING_SCALE,
            decreases n - s,
        {
            let sent = &sentences[s];
            let scores = self.predicate(&sent.1);
            sp.push((sent.0, scores));
            s = s + 1;
        }
        proof {
            assert forall|x: int, y: int| 0 <= x <= y < sp@.len() implies (#[trigger] sp@[x]).0
                <= (#[trigger] sp@[y]).0 by {
                assert(sp@[x].0 as int == sents[x].0);
                assert(sentences@[x].0 as int == sents[x].0);
                assert(sp@[y].0 as int == sents[y].0);
                assert(sentences@[y].0 as int == sents[y].0);
                assert(sentences@[x].0 <= sentences@[y].0);
            }
        }
        let a_count = self.authors.len();
        let mut totals: Vec<u64> = Vec::new();
        let mut a: usize = 0;
        while a < a_count
            invariant
                self@.wf(),
                sents == spec_preprocess(text@),
                a_count == self@.authors.len(),
                sp@.len() == n,
                sents.len() == n,
                forall|k: int|
                    0 <= k < n ==> (#[trigger] sp@[k]).1@.len() == self@.authors.len(),
                forall|k: int, x: int|
                    0 <= k < n && 0 <= x < self@.authors.len() ==> (#[trigger] sp@[k].1@[x]) as int
                        == spec_sentence_score(self@, sents[k].1, x) && sp@[k].1@[x] <= RATING_SCALE,
                0 <= a <= a_count,
                totals@.len() == a,
                forall|x: int|
                    0 <= x < a ==> (#[trigger] totals@[x]) as int == spec_total_score(self@, text@, x)
                        && totals@[x] <= RATING_SCALE,
            decreases a_count - a,
        {
            let total: u64 = if n == 0 {
                HALF_SCALE
            } else {
                let mut acc: u128 = 0;
                let mut s2: usize = 0;
                proof {
                    assert(sents.take(0) =~= Seq::<(int, Seq<Seq<char>>)>::empty());
                }
                while s2 < n
                    invariant
                        self@.wf(),
                        sents == spec_preprocess(text@),
                        sp@.len() == n,
                        sents.len() == n,
                        a < self@.authors.len(),
                        forall|k: int|
                            0 <= k < n ==> (#[trigger] sp@[k]).1@.len() == self@.authors.len(),
                        forall|k: int, x: int|
                            0 <= k < n && 0 <= x < self@.authors.len() ==> (#[trigger] sp@[k].1@[x])
                                as int == spec_sentence_score(self@, sents[k].1, x) && sp@[k].1@[x]
                                <= RATING_SCALE,
                        0 <= s2 <= n,
                        acc as int == sum_sentence_scores(self@, sents.take(s2 as int), a as int),
                        acc <= (s2 as u128) * (RATING_SCALE as u128),
                    decreases n - s2,
                {
                    let row = &sp[s2].1;
                    let x = row[a];
                    proof {
                        assert(sents.take(s2 + 1).drop_last() =~= sents.take(s2 as int));
                        assert(sents.take(s2 + 1).last() == sents[s2 as int]);
                        assert((s2 as int + 1) * (RATING_SCALE as int) == (s2 as int) * (
                        RATING_SCALE as int) + RATING_SCALE) by (nonlinear_arith);
                    }
                    acc = acc + (x as u128);
                    s2 = s2 + 1;
                }
                proof {
                    assert(sents.take(n as int) =~= sents);
                    assert(acc / (n as u128) <= RATING_SCALE) by (nonlinear_arith)
                        requires
                            acc <= (n as u128) * (RATING_SCALE as u128),
                            n >= 1;
                }
                (acc / (n as u128)) as u64
            };
            totals.push(total);
            a = a + 1;
        }
        Predication { sentences_predicate: sp, total_predicate: totals }
    }

    /// Classify a document: score every author over every sentence and
    /// in aggregate, and attach the author names in the model's fixed
    /// order.  A pure function of the model and the text.
    pub fn classify_text(&self, text: &str) -> (r: Classification)
        requires
            self@.wf(),
        ensures
            r.sentences_classification@.len() == spec_preprocess(text@).len(),
            forall|s: int|
                0 <= s < r.sentences_classification@.len()
                    ==> (#[trigger] r.sentences_classification@[s]).0 as int == spec_preprocess(
                    text@,
                )[s].0,
            forall|s: int|
                0 <= s < r.sentences_classification@.len()
                    ==> (#[trigger] r.sentences_classification@[s]).1@.len() == self@.authors.len(),
            forall|s: int, a: int|
                0 <= s < r.sentences_classification@.len() && 0 <= a < self@.authors.len()
                    ==> (#[trigger] r.sentences_classification@[s].1@[a]).0@ == self@.authors[a]
                    && r.sentences_classification@[s].1@[a].1 as int == spec_sentence_score(
                    self@,
                    spec_preprocess(text@)[s].1,
                    a,
                ) && r.sentences_classification@[s].1@[a].1 <= RATING_SCALE,
            r.total_classification@.len() == self@.authors.len(),
            forall|a: int|
                0 <= a < self@.authors.len() ==> (#[trigger] r.total_classification@[a]).0@
                    == self@.authors[a] && r.total_classification@[a].1 as int == spec_total_score(
                    self@,
                    text@,
                    a,
                ) && r.total_classification@[a].1 <= RATING_SCALE,
            forall|s: int, t: int|
                0 <= s <= t < r.sentences_classification@.len()
                    ==> (#[trigger] r.sentences_classification@[s]).0
                    <= (#[trigger] r.sentences_classification@[t]).0,
    {
        let p = self.predicate_text(text);
        let Predication { sentences_predicate, total_predicate } = p;
        let mut sc: Vec<(usize, Vec<(String, u64)>)> = Vec::new();
        let ghost sents = spec_preprocess(text@);
        let mut s: usize = 0;
        let n = sentences_predicate.len();
        while s < n
            invariant
                self@.wf(),
                sents == spec_preprocess(text@),
                n == sentences_predicate@.len(),
                sents.len() == n,
                forall|k: int|
                    0 <= k < n ==> (#[trigger] sentences_predicate@[k]).0 as int == sents[k].0,
                forall|k: int|
                    0 <= k < n ==> (#[trigger] sentences_predicate@[k]).1@.len()
                        == self@.authors.len(),
                forall|k: int, x: int|
                    0 <= k < n && 0 <= x < self@.authors.len()
                        ==> (#[trigger] sentences_predicate@[k].1@[x]) as int == spec_sentence_score(
                        self@,
                        sents[k].1,
                        x,
                    ) && sentences_predicate@[k].1@[x] <= RATING_SCALE,
                0 <= s <= n,
                sc@.len() == s,
                forall|k: int| 0 <= k < s ==> (#[trigger] sc@[k]).0 as int == sents[k].0,
                forall|k: int|
                    0 <= k < s ==> (#[trigger] sc@[k]).1@.len() == self@.authors.len(),
                forall|k: int, x: int|
                    0 <= k < s && 0 <= x < self@.authors.len() ==> (#[trigger] sc@[k].1@[x]).0@
                        == self@.authors[x] && sc@[k].1@[x].1 as int == spec_sentence_score(
                        self@,
                        sents[k].1,
                        x,
                    ) && sc@[k].1@[x].1 <= RATING_SCALE,
            decreases n - s,
        {
            let sent = &sentences_predicate[s];
            let labeled = self.attach_authors(&sent.1);
            sc.push((sent.0, labeled));
            s = s + 1;
        }
        proof {
            assert forall|x: int, y: int| 0 <= x <= y < sc@.len() implies (#[trigger] sc@[x]).0
                <= (#[trigger] sc@[y]).0 by {
                assert(sc@[x].0 as int == sents[x].0);
                assert(sentences_predicate@[x].0 as int == sents[x].0);
                assert(sc@[y].0 as int == sents[y].0);
                assert(sentences_predicate@[y].0 as int == sents[y].0);
                assert(sentences_predicate@[x].0 <= sentences_predicate@[y].0);
            }
        }
        let total = self.attach_authors(&total_predicate);
        Classification { sentences_classification: sc, total_classification: total }
    }

    /// Pair each entry of a score vector with the author name at its
    /// index.
    fn attach_authors(&self, scores: &Vec<u64>) -> (r: Vec<(String, u64)>)
        requires
            scores@.len() == self@.authors.len(),
        ensures
            r@.len() == scores@.len(),
            forall|a: int|
                0 <= a < r@.len() ==> (#[trigger] r@[a]).0@ == self@.authors[a] && r@[a].1
                    == scores@[a],
    {
        let mut out: Vec<(String, u64)> = Vec::new();
        let mut a: usize = 0;
        while a < scores.len()
            invariant
                scores@.len() == self@.authors.len(),
                0 <= a <= scores@.len(),
                out@.len() == a,
                forall|x: int|
                    0 <= x < a ==> (#[trigger] out@[x]).0@ == self@.authors[x] && out@[x].1
                        == scores@[x],
            decreases scores@.len() - a,
        {
            let name = self.authors[a].clone();
            proof {
                assert(self@.authors[a as int] == self.authors@[a as int]@);
            }
            let x = scores[a];
            out.push((name, x));
            a = a + 1;
        }
        out
    }
}

/// The author components of a sequence of pairs.
pub open spec fn firsts(s: Seq<(Seq<char>, Seq<char>)>) -> Seq<Seq<char>> {
    s.map_values(|p: (Seq<char>, Seq<char>)| p.0)
}

/// The token components of a sequence of pairs.
pub open spec fn seconds(s: Seq<(Seq<char>, Seq<char>)>) -> Seq<Seq<char>> {
    s.map_values(|p: (Seq<char>, Seq<char>)| p.1)
}

/// The training stream of a dataset of `(author, text)` pairs: every
/// token occurrence of every text, paired with the text's author, in
/// dataset order.
pub open spec fn spec_stream(ds: Seq<(Seq<char>, Seq<char>)>) -> Seq<(Seq<char>, Seq<char>)>
    decreases ds.len(),
{
    if ds.len() == 0 {
        Seq::empty()
    } else {
        spec_stream(ds.drop_last()) + tokens_of(ds.last().1).map_values(
            |t: Seq<char>| (ds.last().0, t),
        )
    }
}

/// First-occurrence de-duplication of a sequence of strings.
pub open spec fn spec_dedup(s: Seq<Seq<char>>) -> Seq<Seq<char>>
    decreases s.len(),
{
    if s.len() == 0 {
        Seq::empty()
    } else {
        let d = spec_dedup(s.drop_last());
        if d.contains(s.last()) {
            d
        } else {
            d.push(s.last())
        }
    }
}

/// How often the stream pairs author `a` with token `t`.
pub open spec fn spec_count(st: Seq<(Seq<char>, Seq<char>)>, a: Seq<char>, t: Seq<char>) -> int
    decreases st.len(),
{
    if st.len() == 0 {
        0
    } else {
        spec_count(st.drop_last(), a, t) + if st.last().0 == a && st.last().1 == t {
            1int
        } else {
            0int
        }
    }
}

/// How many stream occurrences belong to author `a`.
pub open spec fn spec_count_author(st: Seq<(Seq<char>, Seq<char>)>, a: Seq<char>) -> int
    decreases st.len(),
{
    if st.len() == 0 {
        0
    } else {
        spec_count_author(st.drop_last(), a) + if st.last().0 == a {
            1int
        } else {
            0int
        }
    }
}

/// How many stream occurrences are of token `t`.
pub open spec fn spec_count_token(st: Seq<(Seq<char>, Seq<char>)>, t: Seq<char>) -> int
    decreases st.len(),
{
    if st.len() == 0 {
        0
    } else {
        spec_count_token(st.drop_last(), t) + if st.last().1 == t {
            1int
        } else {
            0int
        }
    }
}

/// Sum of `spec_count` over a token list, for one author.
pub open spec fn sum_counts(
    st: Seq<(Seq<char>, Seq<char>)>,
    a: Seq<char>,
    toks: Seq<Seq<char>>,
) -> int
    decreases toks.len(),
{
    if toks.len() == 0 {
        0
    } else {
        sum_counts(st, a, toks.drop_last()) + spec_count(st, a, toks.last())
    }
}

/// Sum of `spec_count` over an author list, for one token.
pub open spec fn sum_counts_token(
    st: Seq<(Seq<char>, Seq<char>)>,
    auths: Seq<Seq<char>>,
    t: Seq<char>,
) -> int
    decreases auths.len(),
{
    if auths.len() == 0 {
        0
    } else {
        sum_counts_token(st, auths.drop_last(), t) + spec_count(st, auths.last(), t)
    }
}

/// Sum of `spec_count_author` over an author list.
pub open spec fn sum_author_counts(st: Seq<(Seq<char>, Seq<char>)>, auths: Seq<Seq<char>>) -> int
    decreases auths.len(),
{
    if auths.len() == 0 {
        0
    } else {
        sum_author_counts(st, auths.drop_last()) + spec_count_author(st, auths.last())
    }
}

/// De-duplication keeps exactly the distinct entries, each once.
proof fn lemma_dedup_props(s: Seq<Seq<char>>)
    ensures
        unique_seq(spec_dedup(s)),
        forall|x: Seq<char>| #[trigger] spec_dedup(s).contains(x) <==> s.contains(x),
    decreases s.len(),
{
    if s.len() > 0 {
        lemma_dedup_props(s.drop_last());
        let d = spec_dedup(s.drop_last());
        assert forall|x: Seq<char>| #[trigger] spec_dedup(s).contains(x) implies s.contains(x) by {
            if d.contains(x) {
                let i = choose|i: int| 0 <= i < s.drop_last().len() && s.drop_last()[i] == x;
                assert(s[i] == x);
            } else {
                assert(x == s.last());
            }
        }
        assert forall|x: Seq<char>| s.contains(x) implies #[trigger] spec_dedup(s).contains(x) by {
            let i = choose|i: int| 0 <= i < s.len() && s[i] == x;
            if i < s.len() - 1 {
                assert(s.drop_last()[i] == x);
                assert(d.contains(x));
                if !d.contains(s.last()) {
                    let j = choose|j: int| 0 <= j < d.len() && d[j] == x;
                    assert(spec_dedup(s)[j] == x);
                }
            } else {
                assert(x == s.last());
                if d.contains(x) {
                } else {
                    assert(spec_dedup(s).last() == x);
                }
            }
        }
    }
}

proof fn lemma_count_le_len(st: Seq<(Seq<char>, Seq<char>)>, a: Seq<char>, t: Seq<char>)
    ensures
        0 <= spec_count(st, a, t) <= st.len(),
        0 <= spec_count_author(st, a) <= st.len(),
        0 <= spec_count_token(st, t) <= st.len(),
        spec_count(st, a, t) <= spec_count_author(st, a),
        spec_count(st, a, t) <= spec_count_token(st, t),
    decreases st.len(),
{
    if st.len() > 0 {
        lemma_count_le_len(st.drop_last(), a, t);
    }
}

/// A token absent from the stream has zero counts everywhere.
proof fn lemma_count_zero(st: Seq<(Seq<char>, Seq<char>)>, a: Seq<char>, t: Seq<char>)
    requires
        !seconds(st).contains(t),
    ensures
        spec_count(st, a, t) == 0,
        spec_count_token(st, t) == 0,
    decreases st.len(),
{
    if st.len() > 0 {
        assert(seconds(st)[st.len() - 1] == st.last().1);
        assert(st.last().1 != t);
        assert forall|j: int| 0 <= j < st.len() - 1 implies seconds(st.drop_last())[j] != t by {
            assert(seconds(st.drop_last())[j] == st[j].1);
            assert(seconds(st)[j] == st[j].1);
        }
        assert(!seconds(st.drop_last()).contains(t));
        lemma_count_zero(st.drop_last(), a, t);
    }
}

/// A token present in the stream is counted at least once.
proof fn lemma_count_token_pos(st: Seq<(Seq<char>, Seq<char>)>, t: Seq<char>)
    requires
        seconds(st).contains(t),
    ensures
        spec_count_token(st, t) >= 1,
    decreases st.len(),
{
    assert(st.len() > 0);
    lemma_count_le_len(st.drop_last(), t, t);
    if st.last().1 == t {
    } else {
        let i = choose|i: int| 0 <= i < st.len() && seconds(st)[i] == t;
        assert(st[i].1 == t);
        assert(i < st.len() - 1);
        assert(seconds(st.drop_last())[i] == t);
        lemma_count_token_pos(st.drop_last(), t);
    }
}

proof fn lemma_sum_counts_push(
    st: Seq<(Seq<char>, Seq<char>)>,
    x: (Seq<char>, Seq<char>),
    a: Seq<char>,
    toks: Seq<Seq<char>>,
)
    requires
        unique_seq(toks),
    ensures
        sum_counts(st.push(x), a, toks) == sum_counts(st, a, toks) + if x.0 == a
            && toks.contains(x.1) {
            1int
        } else {
            0int
        },
    decreases toks.len(),
{
    if toks.len() > 0 {
        let d = toks.drop_last();
        assert(forall|i: int, j: int| 0 <= i < j < d.len() ==> d[i] != d[j]) by {
            assert(forall|i: int| 0 <= i < d.len() ==> d[i] == toks[i]);
        }
        lemma_sum_counts_push(st, x, a, d);
        assert(st.push(x).drop_last() =~= st);
        assert(st.push(x).last() == x);
        if toks.contains(x.1) {
            let i = choose|i: int| 0 <= i < toks.len() && toks[i] == x.1;
            if i == toks.len() - 1 {
                assert(!d.contains(x.1)) by {
                    if d.contains(x.1) {
                        let j = choose|j: int| 0 <= j < d.len() && d[j] == x.1;
                        assert(toks[j] == toks[i]);
                    }
                }
            } else {
                assert(d[i] == x.1);
                assert(d.contains(x.1));
                assert(toks.last() != x.1) by {
                    if toks.last() == x.1 {
                        assert(toks[i] == toks[toks.len() - 1]);
                    }
                }
            }
        } else {
            assert(!d.contains(x.1)) by {
                if d.contains(x.1) {
                    let j = choose|j: int| 0 <= j < d.len() && d[j] == x.1;
                    assert(toks[j] == x.1);
                }
            }
            assert(toks.last() != x.1);
        }
    }
}

proof fn lemma_sum_counts_token_push(
    st: Seq<(Seq<char>, Seq<char>)>,
    x: (Seq<char>, Seq<char>),
    auths: Seq<Seq<char>>,
    t: Seq<char>,
)
    requires
        unique_seq(auths),
    ensures
        sum_counts_token(st.push(x), auths, t) == sum_counts_token(st, auths, t) + if x.1 == t
            && auths.contains(x.0) {
            1int
        } else {
            0int
        },
    decreases auths.len(),
{
    if auths.len() > 0 {
        let d = auths.drop_last();
        assert(forall|i: int, j: int| 0 <= i < j < d.len() ==> d[i] != d[j]) by {
            assert(forall|i: int| 0 <= i < d.len() ==> d[i] == auths[i]);
        }
        lemma_sum_counts_token_push(st, x, d, t);
        assert(st.push(x).drop_last() =~= st);
        assert(st.push(x).last() == x);
        if auths.contains(x.0) {
            let i = choose|i: int| 0 <= i < auths.len() && auths[i] == x.0;
            if i == auths.len() - 1 {
                assert(!d.contains(x.0)) by {
                    if d.contains(x.0) {
                        let j = choose|j: int| 0 <= j < d.len() && d[j] == x.0;
                        assert(auths[j] == auths[i]);
                    }
                }
            } else {
                assert(d[i] == x.0);
                assert(d.contains(x.0));
                assert(auths.last() != x.0) by {
                    if auths.last() == x.0 {
                        assert(auths[i] == auths[auths.len() - 1]);
                    }
                }
            }
        } else {
            assert(!d.contains(x.0)) by {
                if d.contains(x.0) {
                    let j = choose|j: int| 0 <= j < d.len() && d[j] == x.0;
                    assert(auths[j] == x.0);
                }
            }
            assert(auths.last() != x.0);
        }
    }
}

proof fn lemma_sum_author_counts_push(
    st: Seq<(Seq<char>, Seq<char>)>,
    x: (Seq<char>, Seq<char>),
    auths: Seq<Seq<char>>,
)
    requires
        unique_seq(auths),
    ensures
        sum_author_counts(st.push(x), auths) == sum_author_counts(st, auths) + if auths.contains(
            x.0,
        ) {
            1int
        } else {
            0int
        },
    decreases auths.len(),
{
    if auths.len() > 0 {
        let d = auths.drop_last();
        assert(forall|i: int, j: int| 0 <= i < j < d.len() ==> d[i] != d[j]) by {
            assert(forall|i: int| 0 <= i < d.len() ==> d[i] == auths[i]);
        }
        lemma_sum_author_counts_push(st, x, d);
        assert(st.push(x).drop_last() =~= st);
        assert(st.push(x).last() == x);
        if auths.contains(x.0) {
            let i = choose|i: int| 0 <= i < auths.len() && auths[i] == x.0;
            if i == auths.len() - 1 {
                assert(!d.contains(x.0)) by {
                    if d.contains(x.0) {
                        let j = choose|j: int| 0 <= j < d.len() && d[j] == x.0;
                        assert(auths[j] == auths[i]);
                    }
                }
            } else {
                assert(d[i] == x.0);
                assert(d.contains(x.0));
                assert(auths.last() != x.0) by {
                    if auths.last() == x.0 {
                        assert(auths[i] == auths[auths.len() - 1]);
                    }
                }
            }
        } else {
            assert(!d.contains(x.0)) by {
                if d.contains(x.0) {
                    let j = choose|j: int| 0 <= j < d.len() && d[j] == x.0;
                    assert(auths[j] == x.0);
                }
            }
            assert(auths.last() != x.0);
        }
    }
}

/// Summing a token's counts over all tokens of the stream gives the
/// author's total.
proof fn lemma_sum_counts_is_author_total(st: Seq<(Seq<char>, Seq<char>)>, a: Seq<char>)
    ensures
        sum_counts(st, a, spec_dedup(seconds(st))) == spec_count_author(st, a),
    decreases st.len(),
{
    if st.len() > 0 {
        let st0 = st.drop_last();
        let x = st.last();
        lemma_sum_counts_is_author_total(st0, a);
        lemma_dedup_props(seconds(st0));
        let d0 = spec_dedup(seconds(st0));
        assert(seconds(st).drop_last() =~= seconds(st0));
        assert(seconds(st).last() == x.1);
        assert(st0.push(x) =~= st);
        if d0.contains(x.1) {
            assert(spec_dedup(seconds(st)) == d0);
            lemma_sum_counts_push(st0, x, a, d0);
        } else {
            let d = d0.push(x.1);
            assert(spec_dedup(seconds(st)) == d);
            assert(d.drop_last() =~= d0);
            assert(d.last() == x.1);
            assert(sum_counts(st, a, d) == sum_counts(st, a, d0) + spec_count(st, a, x.1));
            lemma_sum_counts_push(st0, x, a, d0);
            assert(sum_counts(st, a, d0) == sum_counts(st0, a, d0));
            assert(!seconds(st0).contains(x.1));
            lemma_count_zero(st0, a, x.1);
            assert(spec_count(st, a, x.1) == if x.0 == a {
                1int
            } else {
                0int
            });
        }
    }
}

proof fn lemma_sum_counts_token_empty(auths: Seq<Seq<char>>, t: Seq<char>)
    ensures
        sum_counts_token(Seq::empty(), auths, t) == 0,
    decreases auths.len(),
{
    if auths.len() > 0 {
        lemma_sum_counts_token_empty(auths.drop_last(), t);
    }
}

proof fn lemma_sum_author_counts_empty(auths: Seq<Seq<char>>)
    ensures
        sum_author_counts(Seq::empty(), auths) == 0,
    decreases auths.len(),
{
    if auths.len() > 0 {
        lemma_sum_author_counts_empty(auths.drop_last());
    }
}

/// Summing one token's counts over a complete unique author list gives
/// the token's overall count.
proof fn lemma_sum_counts_token_is_token_total(
    st: Seq<(Seq<char>, Seq<char>)>,
    auths: Seq<Seq<char>>,
    t: Seq<char>,
)
    requires
        unique_seq(auths),
        forall|j: int| 0 <= j < st.len() ==> auths.contains((#[trigger] st[j]).0),
    ensures
        sum_counts_token(st, auths, t) == spec_count_token(st, t),
    decreases st.len(),
{
    if st.len() > 0 {
        let st0 = st.drop_last();
        let x = st.last();
        assert forall|j: int| 0 <= j < st0.len() implies auths.contains((#[trigger] st0[j]).0) by {
            assert(st0[j] == st[j]);
        }
        lemma_sum_counts_token_is_token_total(st0, auths, t);
        assert(st0.push(x) =~= st);
        lemma_sum_counts_token_push(st0, x, auths, t);
        assert(auths.contains(x.0));
        assert(sum_counts_token(st, auths, t) == sum_counts_token(st0, auths, t) + if x.1 == t {
            1int
        } else {
            0int
        });
    } else {
        assert(st =~= Seq::<(Seq<char>, Seq<char>)>::empty());
        lemma_sum_counts_token_empty(auths, t);
    }
}

/// Summing the author totals over a complete unique author list gives
/// the stream's length.
proof fn lemma_sum_author_counts_is_len(st: Seq<(Seq<char>, Seq<char>)>, auths: Seq<Seq<char>>)
    requires
        unique_seq(auths),
        forall|j: int| 0 <= j < st.len() ==> auths.contains((#[trigger] st[j]).0),
    ensures
        sum_author_counts(st, auths) == st.len(),
    decreases st.len(),
{
    if st.len() > 0 {
        let st0 = st.drop_last();
        let x = st.last();
        assert forall|j: int| 0 <= j < st0.len() implies auths.contains((#[trigger] st0[j]).0) by {
            assert(st0[j] == st[j]);
        }
        lemma_sum_author_counts_is_len(st0, auths);
        assert(st0.push(x) =~= st);
        lemma_sum_author_counts_push(st0, x, auths);
        assert(auths.contains(x.0));
        assert(sum_author_counts(st, auths) == sum_author_counts(st0, auths) + 1);
    } else {
        assert(st =~= Seq::<(Seq<char>, Seq<char>)>::empty());
        lemma_sum_author_counts_empty(auths);
    }
}

/// Every stream element's author is an author of the dataset.
proof fn lemma_stream_authors(ds: Seq<(Seq<char>, Seq<char>)>)
    ensures
        forall|j: int|
            0 <= j < spec_stream(ds).len() ==> firsts(ds).contains(
                (#[trigger] spec_stream(ds)[j]).0,
            ),
    decreases ds.len(),
{
    if ds.len() > 0 {
        let ds0 = ds.drop_last();
        lemma_stream_authors(ds0);
        let st0 = spec_stream(ds0);
        let block = tokens_of(ds.last().1).map_values(|t: Seq<char>| (ds.last().0, t));
        assert forall|j: int| 0 <= j < spec_stream(ds).len() implies firsts(ds).contains(
            (#[trigger] spec_stream(ds)[j]).0,
        ) by {
            if j < st0.len() {
                assert(spec_stream(ds)[j] == st0[j]);
                assert(firsts(ds0).contains(st0[j].0));
                let i = choose|i: int| 0 <= i < firsts(ds0).len() && firsts(ds0)[i] == st0[j].0;
                assert(firsts(ds)[i] == ds[i].0);
                assert(firsts(ds0)[i] == ds0[i].0);
            } else {
                assert(spec_stream(ds)[j] == block[j - st0.len()]);
                assert(block[j - st0.len()].0 == ds.last().0);
                assert(firsts(ds)[ds.len() - 1] == ds.last().0);
            }
        }
    }
}

/// The stream of a longer dataset prefix extends the shorter one.
proof fn lemma_stream_take_step(ds: Seq<(Seq<char>, Seq<char>)>, k: int)
    requires
        0 <= k < ds.len(),
    ensures
        spec_stream(ds.take(k + 1)) == spec_stream(ds.take(k)) + tokens_of(ds[k].1).map_values(
            |t: Seq<char>| (ds[k].0, t),
        ),
{
    assert(ds.take(k + 1).drop_last() =~= ds.take(k));
    assert(ds.take(k + 1).last() == ds[k]);
}

proof fn lemma_stream_take_le(ds: Seq<(Seq<char>, Seq<char>)>, k: int)
    requires
        0 <= k <= ds.len(),
    ensures
        spec_stream(ds).len() >= spec_stream(ds.take(k)).len(),
    decreases ds.len() - k,
{
    if k == ds.len() {
        assert(ds.take(k) =~= ds);
    } else {
        lemma_stream_take_step(ds, k);
        lemma_stream_take_le(ds, k + 1);
    }
}

proof fn lemma_sum_col_eq_counts(
    rows: Seq<Seq<u32>>,
    aidx: int,
    st: Seq<(Seq<char>, Seq<char>)>,
    aname: Seq<char>,
    toks: Seq<Seq<char>>,
)
    requires
        rows.len() == toks.len(),
        forall|i: int|
            0 <= i < rows.len() ==> (#[trigger] rows[i])[aidx] as int == spec_count(
                st,
                aname,
                toks[i],
            ),
    ensures
        sum_col(rows, aidx) == sum_counts(st, aname, toks),
    decreases rows.len(),
{
    if rows.len() > 0 {
        assert(forall|i: int| 0 <= i < rows.len() - 1 ==> #[trigger] rows.drop_last()[i] == rows[i]);
        assert(forall|i: int| 0 <= i < toks.len() - 1 ==> #[trigger] toks.drop_last()[i] == toks[i]);
        lemma_sum_col_eq_counts(rows.drop_last(), aidx, st, aname, toks.drop_last());
    }
}

proof fn lemma_sum_row_eq_counts_token(
    row: Seq<u32>,
    st: Seq<(Seq<char>, Seq<char>)>,
    auths: Seq<Seq<char>>,
    t: Seq<char>,
)
    requires
        row.len() == auths.len(),
        forall|a: int|
            0 <= a < row.len() ==> (#[trigger] row[a]) as int == spec_count(st, auths[a], t),
    ensures
        sum_row(row) == sum_counts_token(st, auths, t),
    decreases row.len(),
{
    if row.len() > 0 {
        assert(forall|a: int| 0 <= a < row.len() - 1 ==> #[trigger] row.drop_last()[a] == row[a]);
        assert(forall|a: int| 0 <= a < auths.len() - 1 ==> #[trigger] auths.drop_last()[a] == auths[a]);
        lemma_sum_row_eq_counts_token(row.drop_last(), st, auths.drop_last(), t);
    }
}

proof fn lemma_sum_row_eq_author_counts(
    totals: Seq<u32>,
    st: Seq<(Seq<char>, Seq<char>)>,
    auths: Seq<Seq<char>>,
)
    requires
        totals.len() == auths.len(),
        forall|a: int|
            0 <= a < totals.len() ==> (#[trigger] totals[a]) as int == spec_count_author(
                st,
                auths[a],
            ),
    ensures
        sum_row(totals) == sum_author_counts(st, auths),
    decreases totals.len(),
{
    if totals.len() > 0 {
        assert(forall|a: int|
            0 <= a < totals.len() - 1 ==> #[trigger] totals.drop_last()[a] == totals[a]);
        assert(forall|a: int| 0 <= a < auths.len() - 1 ==> #[trigger] auths.drop_last()[a] == auths[a]);
        lemma_sum_row_eq_author_counts(totals.drop_last(), st, auths.drop_last());
    }
}

proof fn lemma_sum_col_step(rows: Seq<Seq<u32>>, a: int, i: int)
    requires
        0 <= i < rows.len(),
    ensures
        sum_col(rows.take(i + 1), a) == sum_col(rows.take(i), a) + rows[i][a],
{
    assert(rows.take(i + 1).drop_last() =~= rows.take(i));
    assert(rows.take(i + 1).last() == rows[i]);
}

proof fn lemma_sum_col_prefix_le(rows: Seq<Seq<u32>>, a: int, i: int)
    requires
        0 <= i <= rows.len(),
    ensures
        sum_col(rows.take(i), a) <= sum_col(rows, a),
    decreases rows.len() - i,
{
    if i == rows.len() {
        assert(rows.take(i) =~= rows);
    } else {
        lemma_sum_col_step(rows, a, i);
        lemma_sum_col_prefix_le(rows, a, i + 1);
    }
}

/// The stream consumed after `j` tokens of dataset entry `k`.
pub open spec fn stream_upto(ds: Seq<(Seq<char>, Seq<char>)>, k: int, j: int) -> Seq<
    (Seq<char>, Seq<char>),
> {
    spec_stream(ds.take(k)) + tokens_of(ds[k].1).take(j).map_values(|t: Seq<char>| (ds[k].0, t))
}

/// A count row holding a single occurrence for one author.
fn unit_row(n: usize, ai: usize) -> (r: Vec<u32>)
    requires
        ai < n,
    ensures
        r@.len() == n,
        forall|x: int| 0 <= x < n ==> (#[trigger] r@[x]) == if x == ai {
            1u32
        } else {
            0u32
        },
{
    let mut r: Vec<u32> = Vec::new();
    let mut x: usize = 0;
    while x < n
        invariant
            0 <= x <= n,
            ai < n,
            r@.len() == x,
            forall|y: int| 0 <= y < x ==> (#[trigger] r@[y]) == if y == ai {
                1u32
            } else {
                0u32
            },
        decreases n - x,
    {
        if x == ai {
            r.push(1);
        } else {
            r.push(0);
        }
        x = x + 1;
    }
    r
}

/// Why training failed.
#[derive(Debug, Clone, Copy, PartialEq, Eq, Structural)]
pub enum TrainError {
    /// The corpus holds more token occurrences than the model's
    /// `u32` counters can carry.
    CapacityExceeded,
}

impl BayesianModel {
    /// Train a model from `(author, text)` pairs: fix the authors in
    /// first-discovery order, count every token occurrence of every
    /// text for its author, and derive the totals.  Fails exactly when
    /// the corpus holds more than `u32::MAX` token occurrences.
    pub fn train(dataset: Vec<(String, String)>) -> (r: Result<BayesianModel, TrainError>)
        ensures
            ({
                let dsv = dataset.deep_view();
                let st = spec_stream(dsv);
                match r {
                    Ok(m) => {
                        &&& m@.wf()
                        &&& m@.authors == spec_dedup(firsts(dsv))
                        &&& m@.tokens == spec_dedup(seconds(st))
                        &&& m@.rows.len() == m@.tokens.len()
                        &&& forall|i: int, a: int|
                            0 <= i < m@.tokens.len() && 0 <= a < m@.authors.len()
                                ==> (#[trigger] m@.rows[i][a]) as int == spec_count(
                                st,
                                m@.authors[a],
                                m@.tokens[i],
                            )
                        &&& forall|a: int|
                            0 <= a < m@.authors.len() ==> (#[trigger] m@.totals[a]) as int
                                == spec_count_author(st, m@.authors[a])
                        &&& m@.grand as int == st.len()
                        &&& st.len() <= u32::MAX
                    },
                    Err(e) => e == TrainError::CapacityExceeded && st.len() > u32::MAX,
                }
            }),
    {
        let ghost dsv = dataset.deep_view();
        let ghost aspec = spec_dedup(firsts(dsv));
        proof {
            lemma_dedup_props(firsts(dsv));
        }

        // Fix the author list, in first-discovery order.
        let mut authors: Vec<String> = Vec::new();
        let mut k: usize = 0;
        proof {
            assert(firsts(dsv.take(0)) =~= Seq::<Seq<char>>::empty());
        }
        while k < dataset.len()
            invariant
                dsv == dataset.deep_view(),
                dsv.len() == dataset@.len(),
                0 <= k <= dataset@.len(),
                authors.deep_view() == spec_dedup(firsts(dsv.take(k as int))),
            decreases dataset@.len() - k,
        {
            let p = &dataset[k];
            let ghost av = authors.deep_view();
            proof {
                assert(dsv[k as int] == dataset@[k as int].deep_view());
                assert(dsv[k as int].0 == dataset@[k as int].0@);
                assert(firsts(dsv.take(k + 1)).drop_last() =~= firsts(dsv.take(k as int)));
                assert(firsts(dsv.take(k + 1)).last() == dsv[k as int].0);
            }
            match find_string(&authors, &p.0) {
                Some(i) => {
                    proof {
                        assert(av[i as int] == authors@[i as int]@);
                        assert(av.contains(dsv[k as int].0));
                    }
                },
                None => {
                    proof {
                        assert forall|i: int| 0 <= i < av.len() implies av[i] != dsv[k as int].0 by {
                            assert(av[i] == authors@[i]@);
                        }
                        assert(!av.contains(dsv[k as int].0));
                    }
                    authors.push(p.0.clone());
                    proof {
                        assert(authors.deep_view() =~= av.push(dsv[k as int].0));
                    }
                },
            }
            k = k + 1;
        }
        proof {
            assert(dsv.take(dsv.len() as int) =~= dsv);
        }
        let a_count = authors.len();

        // Count every token occurrence for its author.
        let mut tokens: Vec<String> = Vec::new();
        let mut rows: Vec<Vec<u32>> = Vec::new();
        let mut grand: u32 = 0;
        k = 0;
        proof {
            assert(spec_stream(dsv.take(0)) =~= Seq::<(Seq<char>, Seq<char>)>::empty());
            assert(seconds(spec_stream(dsv.take(0))) =~= Seq::<Seq<char>>::empty());
        }
        while k < dataset.len()
            invariant
                dsv == dataset.deep_view(),
                dsv.len() == dataset@.len(),
                0 <= k <= dataset@.len(),
                authors.deep_view() == aspec,
                aspec == spec_dedup(firsts(dsv)),
                a_count == authors@.len(),
                unique_seq(aspec),
                tokens.deep_view() == spec_dedup(seconds(spec_stream(dsv.take(k as int)))),
                rows@.len() == tokens@.len(),
                forall|i: int| 0 <= i < rows@.len() ==> (#[trigger] rows@[i])@.len() == a_count,
                forall|i: int, a: int|
                    0 <= i < rows@.len() && 0 <= a < a_count ==> (#[trigger] rows@[i]@[a]) as int
                        == spec_count(
                        spec_stream(dsv.take(k as int)),
                        aspec[a],
                        tokens.deep_view()[i],
                    ),
                grand as int == spec_stream(dsv.take(k as int)).len(),
            decreases dataset@.len() - k,
        {
            let p = &dataset[k];
            proof {
                assert(dsv[k as int] == dataset@[k as int].deep_view());
                assert(dsv[k as int].0 == dataset@[k as int].0@);
                assert(dsv[k as int].1 == dataset@[k as int].1@);
                assert(firsts(dsv)[k as int] == dsv[k as int].0);
                assert(firsts(dsv).contains(dsv[k as int].0));
            }
            let ai = match find_string(&authors, &p.0) {
                Some(i) => i,
                None => {
                    proof {
                        lemma_dedup_props(firsts(dsv));
                        assert(aspec.contains(dsv[k as int].0));
                        let w = choose|w: int| 0 <= w < aspec.len() && aspec[w] == dsv[k as int].0;
                        assert(authors@[w]@ == aspec[w]);
                        assert(false);
                    }
                    0
                },
            };
            proof {
                assert(aspec[ai as int] == authors@[ai as int]@);
            }
            let toks = Self::tokenize(p.1.as_str());
            let ghost tv = tokens_of(dsv[k as int].1);
            let mut j: usize = 0;
            proof {
                assert(tv.take(0).map_values(|t: Seq<char>| (dsv[k as int].0, t)) =~= Seq::<
                    (Seq<char>, Seq<char>),
                >::empty());
                assert(stream_upto(dsv, k as int, 0) =~= spec_stream(dsv.take(k as int)));
            }
            while j < toks.len()
                invariant
                    dsv == dataset.deep_view(),
                    dsv.len() == dataset@.len(),
                    0 <= k < dataset@.len(),
                    0 <= j <= toks@.len(),
                    authors.deep_view() == aspec,
                    aspec == spec_dedup(firsts(dsv)),
                    a_count == authors@.len(),
                    unique_seq(aspec),
                    ai < a_count,
                    aspec[ai as int] == dsv[k as int].0,
                    toks.deep_view() == tv,
                    tv == tokens_of(dsv[k as int].1),
                    tokens.deep_view() == spec_dedup(seconds(stream_upto(dsv, k as int, j as int))),
                    rows@.len() == tokens@.len(),
                    forall|i: int| 0 <= i < rows@.len() ==> (#[trigger] rows@[i])@.len() == a_count,
                    forall|i: int, a: int|
                        0 <= i < rows@.len() && 0 <= a < a_count ==> (#[trigger] rows@[i]@[a]) as int
                            == spec_count(
                            stream_upto(dsv, k as int, j as int),
                            aspec[a],
                            tokens.deep_view()[i],
                        ),
                    grand as int == stream_upto(dsv, k as int, j as int).len(),
                decreases toks@.len() - j,
            {
                let ghost scur = stream_upto(dsv, k as int, j as int);
                let ghost x = (dsv[k as int].0, tv[j as int]);
                let ghost snext = stream_upto(dsv, k as int, j + 1);
                proof {
                    assert(tv.take(j + 1) =~= tv.take(j as int).push(tv[j as int]));
                    assert(snext =~= scur.push(x));
                    assert(snext.drop_last() =~= scur);
                    assert(seconds(snext).drop_last() =~= seconds(scur));
                    assert(seconds(snext).last() == x.1);
                }
                if grand == u32::MAX {
                    proof {
                        lemma_stream_take_step(dsv, k as int);
                        assert(tv.take(tv.len() as int) =~= tv);
                        assert(spec_stream(dsv.take(k + 1)).len() == spec_stream(
                            dsv.take(k as int),
                        ).len() + tv.len());
                        lemma_stream_take_le(dsv, k + 1);
                        assert(spec_stream(dsv).len() >= scur.len() + 1);
                    }
                    return Err(TrainError::CapacityExceeded);
                }
                grand = grand + 1;
                let t = &toks[j];
                proof {
                    assert(toks.deep_view()[j as int] == toks@[j as int]@);
                    assert(tv[j as int] == toks@[j as int]@);
                }
                let ghost tdv = tokens.deep_view();
                match find_string(&tokens, t) {
                    Some(ti) => {
                        proof {
                            assert(tdv[ti as int] == tokens@[ti as int]@);
                            assert(tdv.contains(x.1));
                            assert(spec_dedup(seconds(snext)) == tdv);
                            lemma_dedup_props(seconds(scur));
                            lemma_count_le_len(scur, aspec[ai as int], tdv[ti as int]);
                        }
                        let row = &mut rows[ti];
                        let cur = row[ai];
                        row[ai] = cur + 1;
                        proof {
                            let rold = rows@[ti as int]@;  // unchanged entries come from here
                            assert forall|i: int, a: int|
                                0 <= i < rows@.len() && 0 <= a < a_count implies (
                            #[trigger] rows@[i]@[a]) as int == spec_count(snext, aspec[a], tdv[i]) by {
                                if i == ti as int && a == ai as int {
                                } else {
                                    if i != ti as int {
                                        assert(tdv[i] != tdv[ti as int]);
                                    } else {
                                        assert(aspec[a] != aspec[ai as int]);
                                    }
                                }
                            }
                        }
                    },
                    None => {
                        proof {
                            assert forall|i: int| 0 <= i < tdv.len() implies tdv[i] != x.1 by {
                                assert(tdv[i] == tokens@[i]@);
                            }
                            assert(!tdv.contains(x.1));
                            assert(spec_dedup(seconds(snext)) == tdv.push(x.1));
                            lemma_dedup_props(seconds(scur));
                            assert(!seconds(scur).contains(x.1));
                        }
                        tokens.push(t.clone());
                        let nrow = unit_row(a_count, ai);
                        rows.push(nrow);
                        proof {
                            assert(tokens.deep_view() =~= tdv.push(x.1));
                            assert forall|i: int, a: int|
                                0 <= i < rows@.len() && 0 <= a < a_count implies (
                            #[trigger] rows@[i]@[a]) as int == spec_count(
                                snext,
                                aspec[a],
                                tokens.deep_view()[i],
                            ) by {
                                if i < rows@.len() - 1 {
                                    assert(tokens.deep_view()[i] == tdv[i]);
                                    assert(tdv[i] != x.1);
                                } else {
                                    assert(tokens.deep_view()[i] == x.1);
                                    lemma_count_zero(scur, aspec[a], x.1);
                                    if a != ai as int {
                                        assert(aspec[a] != aspec[ai as int]);
                                    }
                                }
                            }
                        }
                    },
                }
                j = j + 1;
            }
            proof {
                lemma_stream_take_step(dsv, k as int);
                assert(tv.take(tv.len() as int) =~= tv);
                assert(stream_upto(dsv, k as int, tv.len() as int) =~= spec_stream(
                    dsv.take(k + 1),
                ));
            }
            k = k + 1;
        }
        proof {
            assert(dsv.take(dsv.len() as int) =~= dsv);
        }
        let ghost st = spec_stream(dsv);
        let ghost tspec = tokens.deep_view();

        // Derive the totals; the grand counter already holds the
        // stream's length, which bounds every column sum.
        proof {
            lemma_stream_authors(dsv);
            assert forall|jj: int| 0 <= jj < st.len() implies aspec.contains((#[trigger] st[jj]).0) by {
                assert(firsts(dsv).contains(st[jj].0));
            }
        }
        let mut totals: Vec<u32> = Vec::new();
        let mut a: usize = 0;
        while a < a_count
            invariant
                0 <= a <= a_count,
                a_count == authors@.len(),
                authors.deep_view() == aspec,
                unique_seq(aspec),
                tokens.deep_view() == tspec,
                tspec == spec_dedup(seconds(st)),
                st == spec_stream(dsv),
                rows@.len() == tokens@.len(),
                forall|i: int| 0 <= i < rows@.len() ==> (#[trigger] rows@[i])@.len() == a_count,
                forall|i: int, x: int|
                    0 <= i < rows@.len() && 0 <= x < a_count ==> (#[trigger] rows@[i]@[x]) as int
                        == spec_count(st, aspec[x], tspec[i]),
                grand as int == st.len(),
                forall|jj: int| 0 <= jj < st.len() ==> aspec.contains((#[trigger] st[jj]).0),
                totals@.len() == a,
                forall|x: int|
                    0 <= x < a ==> (#[trigger] totals@[x]) as int == spec_count_author(
                        st,
                        aspec[x],
                    ) && totals@[x] as int == sum_col(rows.deep_view(), x),
            decreases a_count - a,
        {
            let ghost rdv = rows.deep_view();
            proof {
                assert forall|i: int| 0 <= i < rdv.len() implies (#[trigger] rdv[i])[a as int] as int
                    == spec_count(st, aspec[a as int], tspec[i]) by {
                    assert(rdv[i] == rows@[i]@);
                }
                lemma_sum_col_eq_counts(rdv, a as int, st, aspec[a as int], tspec);
                lemma_sum_counts_is_author_total(st, aspec[a as int]);
                lemma_count_le_len(st, aspec[a as int], aspec[a as int]);
                assert(sum_col(rdv, a as int) <= st.len());
            }
            let mut acc: u32 = 0;
            let mut i: usize = 0;
            proof {
                assert(rdv.take(0) =~= Seq::<Seq<u32>>::empty());
            }
            while i < rows.len()
                invariant
                    0 <= i <= rows@.len(),
                    rdv == rows.deep_view(),
                    rdv.len() == rows@.len(),
                    a < a_count,
                    forall|ii: int| 0 <= ii < rows@.len() ==> (#[trigger] rows@[ii])@.len() == a_count,
                    sum_col(rdv, a as int) <= u32::MAX,
                    acc as int == sum_col(rdv.take(i as int), a as int),
                decreases rows@.len() - i,
            {
                proof {
                    lemma_sum_col_step(rdv, a as int, i as int);
                    lemma_sum_col_prefix_le(rdv, a as int, i + 1);
                    assert(rdv[i as int] == rows@[i as int]@);
                }
                let row = &rows[i];
                acc = acc + row[a];
                i = i + 1;
            }
            proof {
                assert(rdv.take(rdv.len() as int) =~= rdv);
            }
            totals.push(acc);
            a = a + 1;
        }

        // The grand counter equals the sum of the totals.
        proof {
            assert forall|x: int| 0 <= x < a_count implies (#[trigger] totals@[x]) as int
                == spec_count_author(st, aspec[x]) by {}
            lemma_sum_row_eq_author_counts(totals@, st, aspec);
            lemma_sum_author_counts_is_len(st, aspec);
        }

        let model = BayesianModel {
            authors,
            tokens,
            token_counts: rows,
            author_token_count: totals,
            total_token_count: grand,
        };
        proof {
            let v = model@;
            assert(v.authors == aspec);
            assert(v.tokens == tspec);
            assert(v.rows.len() == rows@.len());
            assert forall|i: int| 0 <= i < v.rows.len() implies (#[trigger] v.rows[i]).len()
                == v.authors.len() by {
                assert(v.rows[i] == rows@[i]@);
            }
            assert forall|i: int, x: int|
                0 <= i < v.rows.len() && 0 <= x < a_count implies (#[trigger] v.rows[i][x]) as int
                == spec_count(st, aspec[x], tspec[i]) by {
                assert(v.rows[i] == rows@[i]@);
            }
            lemma_dedup_props(seconds(st));
            assert forall|i: int| 0 <= i < v.rows.len() implies sum_row(#[trigger] v.rows[i]) >= 1 by {
                assert(v.rows[i] == rows@[i]@);
                assert forall|x: int| 0 <= x < v.rows[i].len() implies (#[trigger] v.rows[i][x])
                    as int == spec_count(st, aspec[x], tspec[i]) by {
                    assert(v.rows[i] == rows@[i]@);
                }
                lemma_sum_row_eq_counts_token(v.rows[i], st, aspec, tspec[i]);
                lemma_sum_counts_token_is_token_total(st, aspec, tspec[i]);
                assert(tspec.contains(tspec[i]));
                assert(seconds(st).contains(tspec[i]));
                lemma_count_token_pos(st, tspec[i]);
            }
            assert forall|x: int| 0 <= x < v.totals.len() implies (#[trigger] v.totals[x]) as int
                == sum_col(v.rows, x) by {
                assert(v.rows =~= rows.deep_view());
            }
            assert(v.grand as int == sum_row(v.totals));
            assert(v.wf());
        }
        Ok(model)
    }
}

/// Why loading a stored model failed.
#[derive(Debug, Clone, Copy, PartialEq, Eq, Structural)]
pub enum BayesianLoadError {
    /// The bytes are not the encoding of a well-formed model.
    Deserialization,
}

impl BayesianModel {
    /// Freeze the model to its compact binary form.
    #[verifier::rlimit(50)]
    pub fn save(&self) -> (r: Vec<u8>)
        requires
            self@.wf(),
        ensures
            r@ == crate::codec::spec_encode(self@),
            crate::codec::encodable(self@),
    {
        crate::codec::encode_parts(
            &self.authors,
            &self.tokens,
            &self.token_counts,
            &self.author_token_count,
            self.total_token_count,
        )
    }

    /// Rebuild a model from its binary form; fails exactly when the
    /// bytes do not encode a well-formed model.
    pub fn load(bytes: &Vec<u8>) -> (r: Result<BayesianModel, BayesianLoadError>)
        ensures
            match r {
                Ok(m) => crate::codec::spec_decode(bytes@) == Some(m@) && m@.wf(),
                Err(e) => crate::codec::spec_decode(bytes@) is None && e
                    == BayesianLoadError::Deserialization,
            },
    {
        match crate::codec::decode_parts(bytes) {
            Some((authors, tokens, rows, totals, grand)) => {
                let m = BayesianModel {
                    authors,
                    tokens,
                    token_counts: rows,
                    author_token_count: totals,
                    total_token_count: grand,
                };
                Ok(m)
            },
            None => Err(BayesianLoadError::Deserialization),
        }
    }
}

/// For any well-formed model, the author totals sum to the grand
/// total; every token's count row has exactly one entry per author, and
/// its entries sum to at least one and at most the grand total.
pub proof fn lemma_trained_model_totals(v: ModelView)
    requires
        v.wf(),
    ensures
        sum_row(v.totals) == v.grand as int,
        forall|i: int| 0 <= i < v.rows.len() ==> (#[trigger] v.rows[i]).len() == v.authors.len(),
        forall|i: int| 0 <= i < v.rows.len() ==> 1 <= sum_row(#[trigger] v.rows[i]) <= v.grand as int,
{
    assert forall|i: int| 0 <= i < v.rows.len() implies 1 <= sum_row(#[trigger] v.rows[i])
        <= v.grand as int by {
        lemma_row_sum_le_grand(v, i);
    }
}

/// Every rating a sentence contributes lies in
/// `[MIN_RATING, MAX_RATING]`: computed ratings are clamped into that
/// interval, and the two fixed injections, `MIN_RATING` for an unseen
/// token and `NO_TOKEN_RATING` for a zero count, lie inside it.
pub proof fn lemma_sentence_ratings_in_range(v: ModelView, toks: Seq<Seq<char>>, a: int)
    ensures
        forall|k: int|
            0 <= k < spec_sentence_ratings(v, toks, a).len() ==> MIN_RATING <= #[trigger] spec_sentence_ratings(
                v,
                toks,
                a,
            )[k] <= MAX_RATING,
    decreases toks.len(),
{
    if toks.len() > 0 {
        lemma_sentence_ratings_in_range(v, toks.drop_last(), a);
        let t = toks.last();
        let pre = spec_sentence_ratings(v, toks.drop_last(), a);
        let part = spec_token_ratings_for_author(v, t, a);
        if v.has_token(t) {
            let row = v.rows[v.token_idx(t)];
            crate::rating::lemma_token_rating_in_range(
                row[a] as int,
                v.totals[a] as int,
                sum_row(row),
                v.grand as int,
            );
        }
        assert(forall|k: int| 0 <= k < part.len() ==> MIN_RATING <= #[trigger] part[k] <= MAX_RATING);
        assert forall|k: int| 0 <= k < spec_sentence_ratings(v, toks, a).len() implies MIN_RATING
            <= #[trigger] spec_sentence_ratings(v, toks, a)[k] <= MAX_RATING by {
            if k < pre.len() {
                assert(spec_sentence_ratings(v, toks, a)[k] == pre[k]);
            } else {
                assert(spec_sentence_ratings(v, toks, a)[k] == part[k - pre.len()]);
            }
        }
    }
}

proof fn lemma_unknown_ratings_equal(v: ModelView, toks: Seq<Seq<char>>, a1: int, a2: int)
    requires
        forall|j: int| 0 <= j < toks.len() ==> !v.has_token(#[trigger] toks[j]),
    ensures
        spec_sentence_ratings(v, toks, a1) == spec_sentence_ratings(v, toks, a2),
    decreases toks.len(),
{
    if toks.len() > 0 {
        assert forall|j: int| 0 <= j < toks.len() - 1 implies !v.has_token(
            #[trigger] toks.drop_last()[j],
        ) by {
            assert(toks.drop_last()[j] == toks[j]);
        }
        lemma_unknown_ratings_equal(v, toks.drop_last(), a1, a2);
        assert(!v.has_token(toks.last()));
    }
}

/// A sentence of tokens wholly absent from the model scores every
/// author alike: each token contributes the same fixed `MIN_RATING` to
/// every author's list.
pub proof fn lemma_unknown_tokens_score_uniform(
    v: ModelView,
    toks: Seq<Seq<char>>,
    a1: int,
    a2: int,
)
    requires
        forall|j: int| 0 <= j < toks.len() ==> !v.has_token(#[trigger] toks[j]),
    ensures
        spec_sentence_score(v, toks, a1) == spec_sentence_score(v, toks, a2),
{
    lemma_unknown_ratings_equal(v, toks, a1, a2);
}

/// Classification is a pure function of the model and the text: any
/// two aggregate score vectors that both meet `classify_text`'s
/// contract for the same model and text are identical.
pub proof fn lemma_classify_deterministic(
    x1: Seq<u64>,
    x2: Seq<u64>,
    v: ModelView,
    text: Seq<char>,
)
    requires
        x1.len() == v.authors.len(),
        x2.len() == v.authors.len(),
        forall|a: int| 0 <= a < x1.len() ==> (#[trigger] x1[a]) as int == spec_total_score(v, text, a),
        forall|a: int| 0 <= a < x2.len() ==> (#[trigger] x2[a]) as int == spec_total_score(v, text, a),
    ensures
        x1 == x2,
{
    assert(x1 =~= x2);
}

} // verus!
