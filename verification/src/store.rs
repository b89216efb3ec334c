//! Trigram rows and the row-level query logic: partial filters, frequency
//! sums, and the deterministic "roulette wheel" selection that underlies
//! weighted random completion.

use vstd::prelude::*;

verus! {

/// Identifies one of the three word columns of a trigram row, either as a
/// filter position or as the selected output position.
#[derive(Clone, Copy, PartialEq, Eq, Structural, Debug)]
pub enum WordField {
    One,
    Two,
    Three,
}

impl WordField {
    /// The column's name, as the persistent schema spells it.
    pub fn to_str(&self) -> (r: &'static str)
        ensures
            r@ == self.spec_str(),
    {
        proof {
            reveal_strlit("word1");
            reveal_strlit("word2");
            reveal_strlit("word3");
        }
        match *self {
            WordField::One => "word1",
            WordField::Two => "word2",
            WordField::Three => "word3",
        }
    }

    /// Consuming variant of [`Self::to_str`].
    pub fn into_str(self) -> (r: &'static str)
        ensures
            r@ == self.spec_str(),
    {
        self.to_str()
    }

    /// What [`Self::to_str`] returns.
    pub open spec fn spec_str(self) -> Seq<char> {
        match self {
            WordField::One => "word1"@,
            WordField::Two => "word2"@,
            WordField::Three => "word3"@,
        }
    }
}

/// One row of the trigram table: an ordered triple of word identifiers and
/// the number of times that triple has been observed.
#[derive(Clone, Copy, PartialEq, Eq, Structural, Debug)]
pub struct Trigram {
    pub word1: usize,
    pub word2: usize,
    pub word3: usize,
    pub freq: u64,
}

/// A partial filter over the three word columns: a bound column must hold
/// the given word identifier, an unbound one matches anything.
#[derive(Clone, Copy, PartialEq, Eq, Structural, Debug)]
pub struct Filter {
    pub word1: Option<usize>,
    pub word2: Option<usize>,
    pub word3: Option<usize>,
}

impl Filter {
    /// The filter that matches every row.
    pub fn empty() -> (r: Filter)
        ensures
            r == (Filter { word1: None::<usize>, word2: None::<usize>, word3: None::<usize> }),
    {
        Filter { word1: None, word2: None, word3: None }
    }
}

/// The word identifier a row holds at the given column.
pub open spec fn field_of(t: Trigram, f: WordField) -> usize {
    match f {
        WordField::One => t.word1,
        WordField::Two => t.word2,
        WordField::Three => t.word3,
    }
}

/// Whether a row satisfies every bound column of a filter.
pub open spec fn row_matches(t: Trigram, f: Filter) -> bool {
    &&& (f.word1 matches Some(w) ==> t.word1 == w)
    &&& (f.word2 matches Some(w) ==> t.word2 == w)
    &&& (f.word3 matches Some(w) ==> t.word3 == w)
}

/// Executable counterpart of [`row_matches`].
pub fn matches_filter(t: &Trigram, f: &Filter) -> (b: bool)
    ensures
        b == row_matches(*t, *f),
{
    let ok1 = match f.word1 {
        Some(w) => t.word1 == w,
        None => true,
    };
    let ok2 = match f.word2 {
        Some(w) => t.word2 == w,
        None => true,
    };
    let ok3 = match f.word3 {
        Some(w) => t.word3 == w,
        None => true,
    };
    ok1 && ok2 && ok3
}

/// Sum of the frequencies of the rows that match a filter.
pub open spec fn sum_freq(rows: Seq<Trigram>, f: Filter) -> int
    decreases rows.len(),
{
    if rows.len() == 0 {
        0
    } else {
        (if row_matches(rows[0], f) {
            rows[0].freq as int
        } else {
            0
        }) + sum_freq(rows.drop_first(), f)
    }
}

/// Whether any row matches a filter.
pub open spec fn any_match(rows: Seq<Trigram>, f: Filter) -> bool {
    exists|i: int| 0 <= i < rows.len() && row_matches(rows[i], f)
}

/// Deterministic roulette-wheel selection: walk the rows in order, and
/// return the first matching row at which `pick`, reduced by the frequency
/// of every earlier matching row, has dropped to or below that row's
/// frequency.  `None` once the rows are exhausted.
pub open spec fn pick_row(rows: Seq<Trigram>, f: Filter, pick: int) -> Option<Trigram>
    decreases rows.len(),
{
    if rows.len() == 0 {
        None
    } else if row_matches(rows[0], f) && pick <= rows[0].freq {
        Some(rows[0])
    } else if row_matches(rows[0], f) {
        pick_row(rows.drop_first(), f, pick - rows[0].freq)
    } else {
        pick_row(rows.drop_first(), f, pick)
    }
}

/// Every row's frequency is at least one: a row exists only because its
/// triple was observed.
pub open spec fn freqs_positive(rows: Seq<Trigram>) -> bool {
    forall|i: int| 0 <= i < rows.len() ==> rows[i].freq >= 1
}

/// Whether a row holds exactly the given ordered triple.
pub open spec fn is_triple(t: Trigram, a: usize, b: usize, c: usize) -> bool {
    t.word1 == a && t.word2 == b && t.word3 == c
}

/// At most one row per ordered triple.
pub open spec fn triples_unique(rows: Seq<Trigram>) -> bool {
    forall|i: int, j: int|
        0 <= i < j < rows.len() ==> !(rows[i].word1 == rows[j].word1 && rows[i].word2
            == rows[j].word2 && rows[i].word3 == rows[j].word3)
}

/// Every word identifier in every row is below the given bound.
pub open spec fn ids_below(rows: Seq<Trigram>, n: int) -> bool {
    forall|i: int|
        0 <= i < rows.len() ==> rows[i].word1 < n && rows[i].word2 < n && rows[i].word3 < n
}

/// Whether some row holds the given triple.
pub open spec fn contains_triple(rows: Seq<Trigram>, a: usize, b: usize, c: usize) -> bool {
    exists|i: int| 0 <= i < rows.len() && is_triple(rows[i], a, b, c)
}

/// The frequency recorded for a triple: that of its first row, or zero
/// where no row holds it.
pub open spec fn freq_of(rows: Seq<Trigram>, a: usize, b: usize, c: usize) -> int
    decreases rows.len(),
{
    if rows.len() == 0 {
        0
    } else if is_triple(rows[0], a, b, c) {
        rows[0].freq as int
    } else {
        freq_of(rows.drop_first(), a, b, c)
    }
}

/// A row after one more observation of its triple; the count saturates at
/// the machine bound rather than wrap.
pub open spec fn bump(t: Trigram) -> Trigram {
    Trigram {
        freq: if t.freq < u64::MAX {
            (t.freq + 1) as u64
        } else {
            t.freq
        },
        ..t
    }
}

/// The rows after one observation of a triple: the first row holding it
/// has its frequency raised by one, or a fresh row with frequency one is
/// appended where none holds it.
pub open spec fn inc_rows(rows: Seq<Trigram>, a: usize, b: usize, c: usize) -> Seq<Trigram>
    decreases rows.len(),
{
    if rows.len() == 0 {
        seq![Trigram { word1: a, word2: b, word3: c, freq: 1 }]
    } else if is_triple(rows[0], a, b, c) {
        seq![bump(rows[0])] + rows.drop_first()
    } else {
        seq![rows[0]] + inc_rows(rows.drop_first(), a, b, c)
    }
}

/// Where the first row holding the triple stands at `i`, the increment is
/// a point update there.
pub proof fn lemma_inc_rows_update(rows: Seq<Trigram>, a: usize, b: usize, c: usize, i: int)
    requires
        0 <= i < rows.len(),
        is_triple(rows[i], a, b, c),
        forall|j: int| 0 <= j < i ==> !is_triple(rows[j], a, b, c),
    ensures
        inc_rows(rows, a, b, c) =~= rows.update(i, bump(rows[i])),
    decreases i,
{
    if i == 0 {
        assert(inc_rows(rows, a, b, c) == seq![bump(rows[0])] + rows.drop_first());
    } else {
        let rest = rows.drop_first();
        assert(rest[i - 1] == rows[i]);
        assert(forall|j: int| 0 <= j < i - 1 ==> rest[j] == rows[j + 1]);
        lemma_inc_rows_update(rest, a, b, c, i - 1);
        assert(inc_rows(rows, a, b, c) == seq![rows[0]] + inc_rows(rest, a, b, c));
    }
}

/// Where no row holds the triple, the increment appends a fresh row.
pub proof fn lemma_inc_rows_push(rows: Seq<Trigram>, a: usize, b: usize, c: usize)
    requires
        !contains_triple(rows, a, b, c),
    ensures
        inc_rows(rows, a, b, c) =~= rows.push(Trigram { word1: a, word2: b, word3: c, freq: 1 }),
    decreases rows.len(),
{
    if rows.len() > 0 {
        let rest = rows.drop_first();
        assert(forall|j: int| 0 <= j < rest.len() ==> rest[j] == rows[j + 1]);
        assert(!contains_triple(rest, a, b, c));
        lemma_inc_rows_push(rest, a, b, c);
        assert(inc_rows(rows, a, b, c) == seq![rows[0]] + inc_rows(rest, a, b, c));
    }
}

/// One observation records a fresh triple with count one, and raises an
/// existing triple's count by exactly one (saturating only at the machine
/// bound); the triple is present afterwards either way.
pub proof fn lemma_increment_freq(rows: Seq<Trigram>, a: usize, b: usize, c: usize)
    ensures
        contains_triple(inc_rows(rows, a, b, c), a, b, c),
        !contains_triple(rows, a, b, c) ==> freq_of(inc_rows(rows, a, b, c), a, b, c) == 1,
        contains_triple(rows, a, b, c) && freq_of(rows, a, b, c) < u64::MAX ==> freq_of(
            inc_rows(rows, a, b, c),
            a,
            b,
            c,
        ) == freq_of(rows, a, b, c) + 1,
    decreases rows.len(),
{
    let inc = inc_rows(rows, a, b, c);
    if rows.len() == 0 {
        assert(inc[0] == (Trigram { word1: a, word2: b, word3: c, freq: 1 }));
        assert(inc.drop_first() =~= Seq::<Trigram>::empty());
        assert(freq_of(inc, a, b, c) == 1);
    } else if is_triple(rows[0], a, b, c) {
        assert(inc == seq![bump(rows[0])] + rows.drop_first());
        assert(inc[0] == bump(rows[0]));
        assert(is_triple(inc[0], a, b, c));
        assert(freq_of(inc, a, b, c) == bump(rows[0]).freq as int);
        assert(freq_of(rows, a, b, c) == rows[0].freq as int);
    } else {
        assert(inc == seq![rows[0]] + inc_rows(rows.drop_first(), a, b, c));
        assert(inc[0] == rows[0]);
        assert(inc.drop_first() =~= inc_rows(rows.drop_first(), a, b, c));
        lemma_increment_freq(rows.drop_first(), a, b, c);
        let j = choose|j: int|
            0 <= j < inc_rows(rows.drop_first(), a, b, c).len() && is_triple(
                #[trigger] inc_rows(rows.drop_first(), a, b, c)[j],
                a,
                b,
                c,
            );
        assert(inc[j + 1] == inc_rows(rows.drop_first(), a, b, c)[j]);
        assert(contains_triple(inc, a, b, c));
        assert(freq_of(inc, a, b, c) == freq_of(inc_rows(rows.drop_first(), a, b, c), a, b, c));
        if contains_triple(rows, a, b, c) {
            let k = choose|k: int| 0 <= k < rows.len() && is_triple(#[trigger] rows[k], a, b, c);
            assert(rows.drop_first()[k - 1] == rows[k]);
            assert(contains_triple(rows.drop_first(), a, b, c));
            assert(freq_of(rows, a, b, c) == freq_of(rows.drop_first(), a, b, c));
        }
        if contains_triple(rows.drop_first(), a, b, c) {
            let k = choose|k: int|
                0 <= k < rows.drop_first().len() && is_triple(
                    #[trigger] rows.drop_first()[k],
                    a,
                    b,
                    c,
                );
            assert(rows[k + 1] == rows.drop_first()[k]);
            assert(contains_triple(rows, a, b, c));
        }
    }
}

/// Somewhere among rows that hold a triple stands its first occurrence.
proof fn lemma_first_triple_index(rows: Seq<Trigram>, a: usize, b: usize, c: usize)
    requires
        contains_triple(rows, a, b, c),
    ensures
        exists|i: int|
            0 <= i < rows.len() && is_triple(#[trigger] rows[i], a, b, c) && (forall|j: int|
                0 <= j < i ==> !is_triple(rows[j], a, b, c)),
    decreases rows.len(),
{
    if is_triple(rows[0], a, b, c) {
        assert(forall|j: int| 0 <= j < 0 ==> !is_triple(rows[j], a, b, c));
    } else {
        let k = choose|k: int| 0 <= k < rows.len() && is_triple(#[trigger] rows[k], a, b, c);
        assert(rows.drop_first()[k - 1] == rows[k]);
        lemma_first_triple_index(rows.drop_first(), a, b, c);
        let i = choose|i: int|
            0 <= i < rows.drop_first().len() && is_triple(
                #[trigger] rows.drop_first()[i],
                a,
                b,
                c,
            ) && (forall|j: int| 0 <= j < i ==> !is_triple(rows.drop_first()[j], a, b, c));
        assert(rows[i + 1] == rows.drop_first()[i]);
        assert(forall|j: int| 1 <= j < i + 1 ==> rows[j] == rows.drop_first()[j - 1]);
        assert(forall|j: int| 0 <= j < i + 1 ==> !is_triple(rows[j], a, b, c));
    }
}

/// An observation keeps the one-row-per-triple discipline: no duplicate
/// row is ever inserted.
pub proof fn lemma_inc_rows_unique(rows: Seq<Trigram>, a: usize, b: usize, c: usize)
    requires
        triples_unique(rows),
    ensures
        triples_unique(inc_rows(rows, a, b, c)),
{
    let inc = inc_rows(rows, a, b, c);
    if contains_triple(rows, a, b, c) {
        lemma_first_triple_index(rows, a, b, c);
        let i = choose|i: int|
            0 <= i < rows.len() && is_triple(#[trigger] rows[i], a, b, c) && (forall|j: int|
                0 <= j < i ==> !is_triple(rows[j], a, b, c));
        lemma_inc_rows_update(rows, a, b, c, i);
        assert(forall|k: int|
            0 <= k < inc.len() ==> #[trigger] inc[k].word1 == rows[k].word1 && inc[k].word2
                == rows[k].word2 && inc[k].word3 == rows[k].word3);
    } else {
        lemma_inc_rows_push(rows, a, b, c);
        assert(forall|k: int| 0 <= k < rows.len() ==> inc[k] == rows[k]);
        assert(forall|k: int| 0 <= k < rows.len() ==> !is_triple(#[trigger] rows[k], a, b, c));
    }
}

/// An observation of one triple leaves every other triple untouched: its
/// presence and its recorded count stay exactly as they were.
pub proof fn lemma_inc_rows_other_triples(
    rows: Seq<Trigram>,
    a: usize,
    b: usize,
    c: usize,
    x: usize,
    y: usize,
    z: usize,
)
    requires
        !(x == a && y == b && z == c),
    ensures
        freq_of(inc_rows(rows, a, b, c), x, y, z) == freq_of(rows, x, y, z),
        contains_triple(inc_rows(rows, a, b, c), x, y, z) <==> contains_triple(rows, x, y, z),
    decreases rows.len(),
{
    let inc = inc_rows(rows, a, b, c);
    if rows.len() == 0 {
        assert(inc[0] == (Trigram { word1: a, word2: b, word3: c, freq: 1 }));
        assert(!is_triple(inc[0], x, y, z));
        assert(inc.drop_first() =~= Seq::<Trigram>::empty());
        assert(freq_of(Seq::<Trigram>::empty(), x, y, z) == 0);
        assert(freq_of(inc, x, y, z) == 0);
        assert(freq_of(rows, x, y, z) == 0);
        assert(!contains_triple(inc, x, y, z)) by {
            assert(forall|k: int| 0 <= k < inc.len() ==> !is_triple(#[trigger] inc[k], x, y, z));
        }
    } else if is_triple(rows[0], a, b, c) {
        assert(inc == seq![bump(rows[0])] + rows.drop_first());
        assert(inc[0] == bump(rows[0]));
        assert(!is_triple(rows[0], x, y, z));
        assert(!is_triple(inc[0], x, y, z));
        assert(inc.drop_first() =~= rows.drop_first());
        assert(freq_of(inc, x, y, z) == freq_of(rows.drop_first(), x, y, z));
        assert(freq_of(rows, x, y, z) == freq_of(rows.drop_first(), x, y, z));
        if contains_triple(inc, x, y, z) {
            let k = choose|k: int| 0 <= k < inc.len() && is_triple(#[trigger] inc[k], x, y, z);
            assert(k >= 1);
            assert(rows[k] == inc[k]);
        }
        if contains_triple(rows, x, y, z) {
            let k = choose|k: int| 0 <= k < rows.len() && is_triple(#[trigger] rows[k], x, y, z);
            assert(k >= 1);
            assert(inc[k] == rows[k]);
        }
    } else {
        assert(inc == seq![rows[0]] + inc_rows(rows.drop_first(), a, b, c));
        assert(inc[0] == rows[0]);
        assert(inc.drop_first() =~= inc_rows(rows.drop_first(), a, b, c));
        lemma_inc_rows_other_triples(rows.drop_first(), a, b, c, x, y, z);
        if is_triple(rows[0], x, y, z) {
            assert(freq_of(inc, x, y, z) == rows[0].freq as int);
            assert(freq_of(rows, x, y, z) == rows[0].freq as int);
            assert(contains_triple(inc, x, y, z));
            assert(contains_triple(rows, x, y, z));
        } else {
            assert(freq_of(inc, x, y, z) == freq_of(inc_rows(rows.drop_first(), a, b, c), x, y, z));
            assert(freq_of(rows, x, y, z) == freq_of(rows.drop_first(), x, y, z));
            if contains_triple(inc, x, y, z) {
                let k = choose|k: int| 0 <= k < inc.len() && is_triple(#[trigger] inc[k], x, y, z);
                assert(k >= 1);
                assert(inc.drop_first()[k - 1] == inc[k]);
                assert(contains_triple(inc.drop_first(), x, y, z));
            }
            if contains_triple(rows, x, y, z) {
                let k = choose|k: int|
                    0 <= k < rows.len() && is_triple(#[trigger] rows[k], x, y, z);
                assert(k >= 1);
                assert(rows.drop_first()[k - 1] == rows[k]);
                assert(contains_triple(rows.drop_first(), x, y, z));
            }
            if contains_triple(inc.drop_first(), x, y, z) {
                let k = choose|k: int|
                    0 <= k < inc.drop_first().len() && is_triple(
                        #[trigger] inc.drop_first()[k],
                        x,
                        y,
                        z,
                    );
                assert(inc[k + 1] == inc.drop_first()[k]);
            }
            if contains_triple(rows.drop_first(), x, y, z) {
                let k = choose|k: int|
                    0 <= k < rows.drop_first().len() && is_triple(
                        #[trigger] rows.drop_first()[k],
                        x,
                        y,
                        z,
                    );
                assert(rows[k + 1] == rows.drop_first()[k]);
            }
        }
    }
}

/// An observation of one triple keeps every triple already present.
pub proof fn lemma_inc_rows_preserves(
    rows: Seq<Trigram>,
    a: usize,
    b: usize,
    c: usize,
    x: usize,
    y: usize,
    z: usize,
)
    requires
        contains_triple(rows, x, y, z),
    ensures
        contains_triple(inc_rows(rows, a, b, c), x, y, z),
    decreases rows.len(),
{
    let inc = inc_rows(rows, a, b, c);
    let i = choose|i: int| 0 <= i < rows.len() && is_triple(#[trigger] rows[i], x, y, z);
    if is_triple(rows[0], a, b, c) {
        assert(inc == seq![bump(rows[0])] + rows.drop_first());
        if i == 0 {
            assert(is_triple(inc[0], x, y, z));
        } else {
            assert(inc[i] == rows.drop_first()[i - 1]);
            assert(rows.drop_first()[i - 1] == rows[i]);
        }
    } else {
        assert(inc == seq![rows[0]] + inc_rows(rows.drop_first(), a, b, c));
        if i == 0 {
            assert(is_triple(inc[0], x, y, z));
        } else {
            assert(rows.drop_first()[i - 1] == rows[i]);
            assert(contains_triple(rows.drop_first(), x, y, z));
            lemma_inc_rows_preserves(rows.drop_first(), a, b, c, x, y, z);
            let j = choose|j: int|
                0 <= j < inc_rows(rows.drop_first(), a, b, c).len() && is_triple(
                    #[trigger] inc_rows(rows.drop_first(), a, b, c)[j],
                    x,
                    y,
                    z,
                );
            assert(inc[j + 1] == inc_rows(rows.drop_first(), a, b, c)[j]);
        }
    }
}

/// An observation keeps every count positive.
pub proof fn lemma_inc_rows_freqs_positive(rows: Seq<Trigram>, a: usize, b: usize, c: usize)
    requires
        freqs_positive(rows),
    ensures
        freqs_positive(inc_rows(rows, a, b, c)),
    decreases rows.len(),
{
    let inc = inc_rows(rows, a, b, c);
    if rows.len() == 0 {
        assert(inc[0].freq == 1);
        assert(forall|i: int| 0 <= i < inc.len() ==> inc[i].freq >= 1);
    } else if is_triple(rows[0], a, b, c) {
        assert(inc == seq![bump(rows[0])] + rows.drop_first());
        assert(forall|i: int| 1 <= i < inc.len() ==> inc[i] == rows[i]);
        assert(inc[0].freq >= 1);
    } else {
        assert(inc == seq![rows[0]] + inc_rows(rows.drop_first(), a, b, c));
        assert(freqs_positive(rows.drop_first())) by {
            assert(forall|i: int|
                0 <= i < rows.drop_first().len() ==> rows.drop_first()[i] == rows[i + 1]);
        }
        lemma_inc_rows_freqs_positive(rows.drop_first(), a, b, c);
        assert(forall|i: int|
            1 <= i < inc.len() ==> inc[i] == inc_rows(rows.drop_first(), a, b, c)[i - 1]);
    }
}

/// Appending a row extends the frequency sum by that row's contribution.
pub proof fn lemma_sum_freq_snoc(rows: Seq<Trigram>, t: Trigram, f: Filter)
    ensures
        sum_freq(rows.push(t), f) == sum_freq(rows, f) + (if row_matches(t, f) {
            t.freq as int
        } else {
            0
        }),
    decreases rows.len(),
{
    assert(rows.push(t).len() == rows.len() + 1);
    if rows.len() == 0 {
        assert(rows.push(t)[0] == t);
        assert(rows.push(t).drop_first() =~= Seq::<Trigram>::empty());
        assert(sum_freq(rows, f) == 0);
        assert(sum_freq(rows.push(t).drop_first(), f) == 0);
        assert(sum_freq(rows.push(t), f) == (if row_matches(rows.push(t)[0], f) {
            rows.push(t)[0].freq as int
        } else {
            0
        }) + sum_freq(rows.push(t).drop_first(), f));
    } else {
        assert(rows.push(t)[0] == rows[0]);
        assert(rows.push(t).drop_first() =~= rows.drop_first().push(t));
        lemma_sum_freq_snoc(rows.drop_first(), t, f);
        assert(sum_freq(rows.push(t), f) == (if row_matches(rows.push(t)[0], f) {
            rows.push(t)[0].freq as int
        } else {
            0
        }) + sum_freq(rows.push(t).drop_first(), f));
    }
}

/// Whether a row is counted by the nearby-context score for a word pair:
/// the pair occurs in the row's leading or trailing positions.
pub open spec fn nearby_matches(t: Trigram, w1: usize, w2: usize) -> bool {
    (t.word1 == w1 && t.word2 == w2) || (t.word2 == w1 && t.word3 == w2)
}

/// Sum of the frequencies of the rows whose leading or trailing word pair
/// is the given one: a candidate context's corpus support.
pub open spec fn sum_nearby(rows: Seq<Trigram>, w1: usize, w2: usize) -> int
    decreases rows.len(),
{
    if rows.len() == 0 {
        0
    } else {
        (if nearby_matches(rows[0], w1, w2) {
            rows[0].freq as int
        } else {
            0
        }) + sum_nearby(rows.drop_first(), w1, w2)
    }
}

/// Appending a row extends the nearby-context score by that row's
/// contribution.
pub proof fn lemma_sum_nearby_snoc(rows: Seq<Trigram>, t: Trigram, w1: usize, w2: usize)
    ensures
        sum_nearby(rows.push(t), w1, w2) == sum_nearby(rows, w1, w2) + (if nearby_matches(
            t,
            w1,
            w2,
        ) {
            t.freq as int
        } else {
            0
        }),
    decreases rows.len(),
{
    assert(rows.push(t).len() == rows.len() + 1);
    if rows.len() == 0 {
        assert(rows.push(t)[0] == t);
        assert(rows.push(t).drop_first() =~= Seq::<Trigram>::empty());
        assert(sum_nearby(rows.push(t).drop_first(), w1, w2) == 0);
    } else {
        assert(rows.push(t)[0] == rows[0]);
        assert(rows.push(t).drop_first() =~= rows.drop_first().push(t));
        lemma_sum_nearby_snoc(rows.drop_first(), t, w1, w2);
    }
    assert(sum_nearby(rows.push(t), w1, w2) == (if nearby_matches(rows.push(t)[0], w1, w2) {
        rows.push(t)[0].freq as int
    } else {
        0
    }) + sum_nearby(rows.push(t).drop_first(), w1, w2));
}

/// The nearby-context score is nonnegative and bounded like any frequency
/// sum.
pub proof fn lemma_sum_nearby_bound(rows: Seq<Trigram>, w1: usize, w2: usize)
    ensures
        0 <= sum_nearby(rows, w1, w2) <= rows.len() * (u64::MAX as int),
    decreases rows.len(),
{
    if rows.len() > 0 {
        lemma_sum_nearby_bound(rows.drop_first(), w1, w2);
        assert((rows.len() - 1) * (u64::MAX as int) + (u64::MAX as int) == rows.len() * (
        u64::MAX as int)) by (nonlinear_arith);
    }
}

/// The frequency sum over any filter is nonnegative.
pub proof fn lemma_sum_freq_nonneg(rows: Seq<Trigram>, f: Filter)
    ensures
        sum_freq(rows, f) >= 0,
    decreases rows.len(),
{
    if rows.len() > 0 {
        lemma_sum_freq_nonneg(rows.drop_first(), f);
    }
}

/// The frequency sum is positive exactly when some row matches, provided
/// every frequency is positive.
pub proof fn lemma_sum_freq_pos(rows: Seq<Trigram>, f: Filter)
    requires
        freqs_positive(rows),
    ensures
        sum_freq(rows, f) >= 1 <==> any_match(rows, f),
    decreases rows.len(),
{
    if rows.len() > 0 {
        lemma_sum_freq_nonneg(rows.drop_first(), f);
        assert(freqs_positive(rows.drop_first())) by {
            assert(forall|i: int|
                0 <= i < rows.drop_first().len() ==> rows.drop_first()[i] == rows[i + 1]);
        }
        lemma_sum_freq_pos(rows.drop_first(), f);
        if row_matches(rows[0], f) {
            assert(any_match(rows, f));
            assert(sum_freq(rows, f) >= 1);
        } else {
            if any_match(rows.drop_first(), f) {
                let i = choose|i: int|
                    0 <= i < rows.drop_first().len() && row_matches(rows.drop_first()[i], f);
                assert(row_matches(rows[i + 1], f));
                assert(any_match(rows, f));
            }
            if any_match(rows, f) {
                let i = choose|i: int| 0 <= i < rows.len() && row_matches(rows[i], f);
                assert(i >= 1);
                assert(rows.drop_first()[i - 1] == rows[i]);
                assert(any_match(rows.drop_first(), f));
            }
        }
    }
}

/// A pick within the matching range always lands on a matching row.
pub proof fn lemma_pick_row_in_range(rows: Seq<Trigram>, f: Filter, pick: int)
    requires
        1 <= pick <= sum_freq(rows, f),
    ensures
        pick_row(rows, f, pick) matches Some(t) && row_matches(t, f),
    decreases rows.len(),
{
    if rows.len() > 0 {
        if row_matches(rows[0], f) && pick <= rows[0].freq {
        } else if row_matches(rows[0], f) {
            lemma_pick_row_in_range(rows.drop_first(), f, pick - rows[0].freq);
        } else {
            lemma_pick_row_in_range(rows.drop_first(), f, pick);
        }
    }
}

/// Whatever a pick lands on is one of the rows and matches the filter.
pub proof fn lemma_pick_row_matches(rows: Seq<Trigram>, f: Filter, pick: int)
    requires
        pick_row(rows, f, pick) is Some,
    ensures
        row_matches(pick_row(rows, f, pick)->Some_0, f),
        rows.contains(pick_row(rows, f, pick)->Some_0),
    decreases rows.len(),
{
    if rows.len() > 0 {
        if row_matches(rows[0], f) && pick <= rows[0].freq {
            assert(rows[0] == rows.index(0));
        } else if row_matches(rows[0], f) {
            lemma_pick_row_matches(rows.drop_first(), f, pick - rows[0].freq);
            assert(rows.drop_first().contains(pick_row(rows, f, pick)->Some_0));
            let i = choose|i: int|
                0 <= i < rows.drop_first().len() && rows.drop_first()[i] == pick_row(
                    rows,
                    f,
                    pick,
                )->Some_0;
            assert(rows[i + 1] == rows.drop_first()[i]);
        } else {
            lemma_pick_row_matches(rows.drop_first(), f, pick);
            let i = choose|i: int|
                0 <= i < rows.drop_first().len() && rows.drop_first()[i] == pick_row(
                    rows,
                    f,
                    pick,
                )->Some_0;
            assert(rows[i + 1] == rows.drop_first()[i]);
        }
    }
}

/// Every matching row is reachable by some pick in the matching range:
/// weighted selection can produce any observed continuation.
pub proof fn lemma_pick_row_reachable(rows: Seq<Trigram>, f: Filter, i: int)
    requires
        freqs_positive(rows),
        0 <= i < rows.len(),
        row_matches(rows[i], f),
    ensures
        exists|pick: int|
            1 <= pick <= sum_freq(rows, f) && pick_row(rows, f, pick) == Some(rows[i]),
    decreases rows.len(),
{
    lemma_sum_freq_nonneg(rows.drop_first(), f);
    if i == 0 {
        assert(pick_row(rows, f, 1) == Some(rows[0]));
        assert(1 <= sum_freq(rows, f));
    } else {
        assert(freqs_positive(rows.drop_first())) by {
            assert(forall|j: int|
                0 <= j < rows.drop_first().len() ==> rows.drop_first()[j] == rows[j + 1]);
        }
        assert(rows.drop_first()[i - 1] == rows[i]);
        lemma_pick_row_reachable(rows.drop_first(), f, i - 1);
        let pick = choose|pick: int|
            1 <= pick <= sum_freq(rows.drop_first(), f) && pick_row(rows.drop_first(), f, pick)
                == Some(rows.drop_first()[i - 1]);
        if row_matches(rows[0], f) {
            let shifted = pick + rows[0].freq;
            assert(shifted > rows[0].freq);
            assert(pick_row(rows, f, shifted) == pick_row(rows.drop_first(), f, pick));
            assert(1 <= shifted <= sum_freq(rows, f));
        } else {
            assert(pick_row(rows, f, pick) == pick_row(rows.drop_first(), f, pick));
            assert(1 <= pick <= sum_freq(rows, f));
        }
    }
}

} // verus!

