use vstd::prelude::*;

verus! {

/// `s` with `sep` before, between and after its elements: element `k` of `s`
/// lands at position `2k + 1`, and every even position holds `sep`.
pub open spec fn interspersed(s: Seq<i64>, sep: i64) -> Seq<i64> {
    Seq::new(
        (2 * s.len() + 1) as nat,
        |k: int|
            if k % 2 == 0 {
                sep
            } else {
                s[(k - 1) / 2]
            },
    )
}

/// The per-character phoneme counts once interspersion is accounted for:
/// every count doubled, and the first one more for the leading boundary token.
pub open spec fn adjusted(w: Seq<usize>) -> Seq<int> {
    Seq::new(w.len(), |i: int| 2 * w[i] + if i == 0 { 1int } else { 0int })
}

/// The sum of a sequence of integers.
pub open spec fn total(s: Seq<int>) -> int
    decreases s.len(),
{
    if s.len() == 0 {
        0
    } else {
        total(s.drop_last()) + s.last()
    }
}

/// The sum of the adjusted counts of `w`, where it fits in a `usize`.
pub open spec fn fitting_total(w: Seq<usize>) -> Option<usize> {
    let t = total(adjusted(w));
    if 0 <= t <= usize::MAX {
        Some(t as usize)
    } else {
        None
    }
}

/// The counts of `c` as integers.
pub open spec fn as_ints(c: Seq<usize>) -> Seq<int> {
    Seq::new(c.len(), |i: int| c[i] as int)
}

/// For each phoneme position, the index of the character (and so of the
/// embedding row) that it belongs to: index `i` repeated `c[i]` times, in order.
pub open spec fn expanded(c: Seq<int>) -> Seq<usize>
    decreases c.len(),
{
    if c.len() == 0 {
        Seq::empty()
    } else {
        expanded(c.drop_last()) + Seq::new(
            (if c.last() < 0 { 0 } else { c.last() }) as nat,
            |j: int| (c.len() - 1) as usize,
        )
    }
}

/// Why analyzer output could not be aligned.
#[derive(Debug, Clone, Copy, PartialEq, Eq)]
pub enum AlignError {
    /// The adjusted counts do not sum to the character count plus two.
    /// `actual` is `None` where the sum does not fit in a `usize`.
    CountMismatch { expected: usize, actual: Option<usize> },
    /// The encoder gave fewer embedding rows than there are counts.
    MissingEmbeddingRows { rows: usize, needed: usize },
}

/// Interspersed phoneme, tone and language-id sequences, the adjusted counts,
/// and for each phoneme position the embedding row to place there.
pub struct AlignedText {
    pub phones: Vec<i64>,
    pub tones: Vec<i64>,
    pub lang_ids: Vec<i64>,
    pub word2ph: Vec<usize>,
    pub rows: Vec<usize>,
}

proof fn lemma_total_prefix(s: Seq<int>, i: int)
    requires
        0 <= i <= s.len(),
        forall|k: int| 0 <= k < s.len() ==> s[k] >= 0,
    ensures
        total(s.subrange(0, i)) <= total(s),
    decreases s.len() - i,
{
    if i < s.len() {
        lemma_total_prefix(s, i + 1);
        assert(s.subrange(0, i + 1).drop_last() =~= s.subrange(0, i));
    } else {
        assert(s.subrange(0, i) =~= s);
    }
}

proof fn lemma_total_step(s: Seq<int>, i: int)
    requires
        0 <= i < s.len(),
    ensures
        total(s.subrange(0, i + 1)) == total(s.subrange(0, i)) + s[i],
{
    assert(s.subrange(0, i + 1).drop_last() =~= s.subrange(0, i));
}

proof fn lemma_expanded_len(c: Seq<int>)
    requires
        forall|k: int| 0 <= k < c.len() ==> c[k] >= 0,
    ensures
        expanded(c).len() == total(c),
    decreases c.len(),
{
    if c.len() > 0 {
        lemma_expanded_len(c.drop_last());
    }
}

/// Interspersion turns a sequence of length `n` into one of length `2n + 1`,
/// with the separator at every even position and the original elements, in
/// order, at the odd ones.
pub proof fn lemma_intersperse_shape(s: Seq<i64>, sep: i64)
    ensures
        interspersed(s, sep).len() == 2 * s.len() + 1,
        forall|k: int| 0 <= k <= s.len() ==> #[trigger] interspersed(s, sep)[2 * k] == sep,
        forall|k: int| 0 <= k < s.len() ==> #[trigger] interspersed(s, sep)[2 * k + 1] == s[k],
{
    assert forall|k: int| 0 <= k < s.len() implies #[trigger] interspersed(s, sep)[2 * k + 1]
        == s[k] by {
        assert((2 * k + 1) % 2 == 1);
        assert((2 * k + 1 - 1) / 2 == k);
    }
    assert forall|k: int| 0 <= k <= s.len() implies #[trigger] interspersed(s, sep)[2 * k]
        == sep by {
        assert((2 * k) % 2 == 0);
    }
}

/// Puts `sep` before, between and after the elements of `v`.
pub fn intersperse(v: &Vec<i64>, sep: i64) -> (r: Vec<i64>)
    requires
        2 * v@.len() + 1 <= usize::MAX,
    ensures
        r@ == interspersed(v@, sep),
{
    let mut r: Vec<i64> = Vec::new();
    r.push(sep);
    let mut i: usize = 0;
    while i < v.len()
        invariant
            i <= v@.len(),
            2 * v@.len() + 1 <= usize::MAX,
            r@ =~= interspersed(v@.subrange(0, i as int), sep),
        decreases v@.len() - i,
    {
        let ghost prev = r@;
        r.push(v[i]);
        r.push(sep);
        i = i + 1;
        assert forall|k: int| 0 <= k < r@.len() implies r@[k] == interspersed(
            v@.subrange(0, i as int),
            sep,
        )[k] by {
            if k < prev.len() {
                assert(r@[k] == prev[k]);
            } else if k == prev.len() {
                assert(k == 2 * (i - 1) + 1);
                assert((k - 1) / 2 == i - 1);
            } else {
                assert(k == 2 * i);
            }
        }
    }
    assert(v@.subrange(0, v@.len() as int) =~= v@);
    r
}


proof fn lemma_total_nonneg(s: Seq<int>)
    requires
        forall|k: int| 0 <= k < s.len() ==> s[k] >= 0,
    ensures
        total(s) >= 0,
{
    lemma_total_prefix(s, 0);
    assert(s.subrange(0, 0).len() == 0);
}

/// Each count is at most the total of a sequence of non-negative counts.
proof fn lemma_term_le_total(s: Seq<int>, i: int)
    requires
        0 <= i < s.len(),
        forall|k: int| 0 <= k < s.len() ==> s[k] >= 0,
    ensures
        s[i] <= total(s),
{
    lemma_total_step(s, i);
    lemma_total_prefix(s, i + 1);
    lemma_total_nonneg(s.subrange(0, i));
}

proof fn lemma_expanded_step(c: Seq<int>, i: int)
    requires
        0 <= i < c.len(),
        c[i] >= 0,
    ensures
        expanded(c.subrange(0, i + 1)) == expanded(c.subrange(0, i)) + Seq::new(
            c[i] as nat,
            |j: int| i as usize,
        ),
{
    assert(c.subrange(0, i + 1).drop_last() =~= c.subrange(0, i));
    assert(Seq::new(c[i] as nat, |j: int| (c.subrange(0, i + 1).len() - 1) as usize) =~= Seq::new(
        c[i] as nat,
        |j: int| i as usize,
    ));
}

proof fn lemma_expanded_bound(c: Seq<int>)
    ensures
        forall|p: int| 0 <= p < expanded(c).len() ==> (#[trigger] expanded(c)[p] as int) < c.len(),
    decreases c.len(),
{
    if c.len() > 0 {
        lemma_expanded_bound(c.drop_last());
        let prev = expanded(c.drop_last());
        assert forall|p: int| 0 <= p < expanded(c).len() implies (#[trigger] expanded(c)[p] as int)
            < c.len() by {
            if p < prev.len() {
                assert(expanded(c)[p] == prev[p]);
            }
        }
    }
}

/// The sum of the adjusted counts of `word2ph`, where it fits in a `usize`.
fn adjusted_total(word2ph: &Vec<usize>) -> (r: Option<usize>)
    ensures
        r == fitting_total(word2ph@),
{
    let ghost a = adjusted(word2ph@);
    proof {
        assert forall|k: int| 0 <= k < a.len() implies a[k] >= 0 by {}
        lemma_total_nonneg(a);
    }
    let mut acc: u128 = 0;
    let mut i: usize = 0;
    while i < word2ph.len()
        invariant
            i <= word2ph@.len(),
            a == adjusted(word2ph@),
            total(a) >= 0,
            acc == total(a.subrange(0, i as int)),
            acc <= usize::MAX,
        decreases word2ph@.len() - i,
    {
        let first: u128 = if i == 0 { 1 } else { 0 };
        acc = acc + 2 * (word2ph[i] as u128) + first;
        proof {
            lemma_total_step(a, i as int);
        }
        i = i + 1;
        if acc > usize::MAX as u128 {
            proof {
                lemma_total_prefix(a, i as int);
            }
            return None;
        }
    }
    assert(a.subrange(0, i as int) =~= a);
    Some(acc as usize)
}

/// Doubles every count and adds one to the first, so that the counts match
/// the interspersed phoneme sequence.
pub fn adjust_word2ph(word2ph: &mut Vec<usize>)
    requires
        total(adjusted(old(word2ph)@)) <= usize::MAX,
    ensures
        as_ints(final(word2ph)@) == adjusted(old(word2ph)@),
{
    let ghost a = adjusted(word2ph@);
    let ghost w = word2ph@;
    let mut i: usize = 0;
    while i < word2ph.len()
        invariant
            i <= word2ph@.len(),
            word2ph@.len() == w.len(),
            a == adjusted(w),
            total(a) <= usize::MAX,
            forall|k: int| 0 <= k < i ==> word2ph@[k] as int == a[k],
            forall|k: int| i <= k < w.len() ==> word2ph@[k] == w[k],
        decreases word2ph@.len() - i,
    {
        proof {
            lemma_term_le_total(a, i as int);
        }
        let first: usize = if i == 0 { 1 } else { 0 };
        let v = 2 * word2ph[i] + first;
        word2ph.set(i, v);
        i = i + 1;
    }
    assert(as_ints(word2ph@) =~= a);
}

/// For each phoneme position, the index of the count that covers it: index
/// `i` repeated `counts[i]` times, in order.
pub fn expand_rows(counts: &Vec<usize>) -> (r: Vec<usize>)
    ensures
        r@ == expanded(as_ints(counts@)),
{
    let ghost c = as_ints(counts@);
    let mut r: Vec<usize> = Vec::new();
    let mut i: usize = 0;
    while i < counts.len()
        invariant
            i <= counts@.len(),
            c == as_ints(counts@),
            r@ == expanded(c.subrange(0, i as int)),
        decreases counts@.len() - i,
    {
        let reps = counts[i];
        let mut j: usize = 0;
        while j < reps
            invariant
                i < counts@.len(),
                c == as_ints(counts@),
                reps == counts@[i as int],
                j <= reps,
                r@ == expanded(c.subrange(0, i as int)) + Seq::new(j as nat, |q: int| i as usize),
            decreases reps - j,
        {
            r.push(i);
            j = j + 1;
            assert(r@ =~= expanded(c.subrange(0, i as int)) + Seq::new(
                j as nat,
                |q: int| i as usize,
            ));
        }
        proof {
            lemma_expanded_step(c, i as int);
        }
        i = i + 1;
    }
    assert(c.subrange(0, i as int) =~= c);
    r
}


/// Aligns analyzer output for `text` (the normalized text) with an encoder
/// output of `n_token_rows` embedding rows.
///
/// The adjusted counts must sum to the character count of `text` plus two;
/// otherwise the result is `CountMismatch`, and nothing is truncated or padded.
/// Each count then needs an embedding row of its own; otherwise the result is
/// `MissingEmbeddingRows`.
pub fn align_text(
    text: &str,
    phones: &Vec<i64>,
    tones: &Vec<i64>,
    lang_ids: &Vec<i64>,
    word2ph: Vec<usize>,
    n_token_rows: usize,
) -> (r: Result<AlignedText, AlignError>)
    requires
        text@.len() + 2 <= usize::MAX,
        2 * phones@.len() + 1 <= usize::MAX,
        2 * tones@.len() + 1 <= usize::MAX,
        2 * lang_ids@.len() + 1 <= usize::MAX,
    ensures
        match r {
            Ok(a) => {
                &&& total(adjusted(word2ph@)) == text@.len() + 2
                &&& word2ph@.len() <= n_token_rows
                &&& a.phones@ == interspersed(phones@, 0)
                &&& a.tones@ == interspersed(tones@, 0)
                &&& a.lang_ids@ == interspersed(lang_ids@, 0)
                &&& as_ints(a.word2ph@) == adjusted(word2ph@)
                &&& a.rows@ == expanded(adjusted(word2ph@))
                &&& a.rows@.len() == text@.len() + 2
                &&& forall|p: int| 0 <= p < a.rows@.len() ==> (#[trigger] a.rows@[p] as int) < n_token_rows
            },
            Err(AlignError::CountMismatch { expected, actual }) => {
                &&& expected == text@.len() + 2
                &&& total(adjusted(word2ph@)) != expected
                &&& actual == fitting_total(word2ph@)
            },
            Err(AlignError::MissingEmbeddingRows { rows, needed }) => {
                &&& total(adjusted(word2ph@)) == text@.len() + 2
                &&& rows == n_token_rows
                &&& needed == word2ph@.len()
                &&& needed > rows
            },
        },
{
    let expected = text.unicode_len() + 2;
    let actual = adjusted_total(&word2ph);
    match actual {
        Some(t) => {
            if t != expected {
                return Err(AlignError::CountMismatch { expected, actual });
            }
        },
        None => {
            return Err(AlignError::CountMismatch { expected, actual });
        },
    }
    if word2ph.len() > n_token_rows {
        return Err(AlignError::MissingEmbeddingRows { rows: n_token_rows, needed: word2ph.len() });
    }
    let ghost w = word2ph@;
    let mut word2ph = word2ph;
    adjust_word2ph(&mut word2ph);
    let rows = expand_rows(&word2ph);
    proof {
        let a = adjusted(w);
        assert forall|k: int| 0 <= k < a.len() implies a[k] >= 0 by {}
        lemma_expanded_len(a);
        lemma_expanded_bound(a);
    }
    Ok(AlignedText {
        phones: intersperse(phones, 0),
        tones: intersperse(tones, 0),
        lang_ids: intersperse(lang_ids, 0),
        word2ph,
        rows,
    })
}

} // verus!
