//! The word store and the completion engine.
//!
//! Words are interned to stable integer identifiers; identifier `0` is a
//! reserved sentinel meaning "beginning/end of phrase" and always maps to
//! the empty spelling.  Observed word triples are kept with occurrence
//! counts and drive frequency-weighted completion.

use vstd::prelude::*;
use vstd::string::{StrSliceExecFns, StringExecFns};

use crate::migration;
use crate::store::{
    any_match, field_of, freqs_positive, ids_below, inc_rows, is_triple, lemma_inc_rows_push,
    lemma_inc_rows_update, lemma_pick_row_in_range, lemma_sum_freq_pos, lemma_sum_freq_snoc,
    lemma_sum_nearby_bound, lemma_sum_nearby_snoc, matches_filter, pick_row, row_matches,
    sum_freq, sum_nearby, triples_unique, Filter, Trigram, WordField,
};

verus! {

/// Relies on rand::random: a uniformly distributed random value.  Nothing
/// is promised of the value; callers state what holds of every outcome.
#[verifier::external_body]
fn random_u128() -> u128 {
    rand::random::<u128>()
}

/// Whether a character has the Unicode white-space property.
pub uninterp spec fn is_space(c: char) -> bool;

/// Relies on char::is_whitespace: whether the character has the Unicode
/// white-space property, a function of the character alone.
pub assume_specification[ char::is_whitespace ](c: char) -> (r: bool)
    ensures
        r == is_space(c),
;

/// A string's characters in lower case.
pub uninterp spec fn lower_of(s: Seq<char>) -> Seq<char>;

/// Relies on str::to_lowercase: the lowercase mapping of the characters,
/// a function of the characters alone; an empty string stays empty.
#[verifier::external_body]
fn lowercase(s: &str) -> (r: String)
    ensures
        r@ == lower_of(s@),
        s@.len() == 0 ==> r@.len() == 0,
{
    s.to_lowercase()
}

/// The hard iteration cap on a single chain traversal: cyclic or malformed
/// trigram data must not produce unbounded output.
pub const CHAIN_CAP: u64 = 200;

/// The filter with the given column bound to a word identifier.
pub open spec fn set_field(f: Filter, fld: WordField, w: usize) -> Filter {
    match fld {
        WordField::One => Filter { word1: Some(w), ..f },
        WordField::Two => Filter { word2: Some(w), ..f },
        WordField::Three => Filter { word3: Some(w), ..f },
    }
}

/// The filter a cursor queries with: the k-th retained window value bound
/// at the k-th traversal column.
pub open spec fn filter_for(fields: Seq<WordField>, window: Seq<usize>) -> Filter
    decreases window.len(),
{
    if window.len() == 0 {
        Filter { word1: None, word2: None, word3: None }
    } else {
        set_field(
            filter_for(fields, window.drop_last()),
            fields[window.len() - 1],
            window.last(),
        )
    }
}

/// The window after a produced identifier slides in: at most the last two
/// identifiers are retained.
pub open spec fn slide(window: Seq<usize>, id: usize) -> Seq<usize> {
    if window.len() == 0 {
        seq![id]
    } else {
        seq![window.last(), id]
    }
}

/// A cursor's initial window: where no seed identifier is given, the
/// cursor anchors at the sentinel, so that it matches only phrase-start
/// rows rather than every row.
pub open spec fn seeded(window: Seq<usize>) -> Seq<usize> {
    if window.len() == 0 {
        seq![0usize]
    } else {
        window
    }
}

/// The traversal order of a forward cursor: filter on the leading pair,
/// output the third column.
pub open spec fn fwd_fields() -> Seq<WordField> {
    seq![WordField::One, WordField::Two, WordField::Three]
}

/// The traversal order of a backward cursor: filter on the trailing pair,
/// output the first column.
pub open spec fn bwd_fields() -> Seq<WordField> {
    seq![WordField::Three, WordField::Two, WordField::One]
}

/// The traversal order of a middle cursor: filter on the two endpoints,
/// output the middle column.
pub open spec fn mid_fields() -> Seq<WordField> {
    seq![WordField::One, WordField::Three, WordField::Two]
}

/// One valid cursor production: some row matches the window's filter and
/// holds the produced identifier at the output column.
pub open spec fn chain_step_ok(
    rows: Seq<Trigram>,
    fields: Seq<WordField>,
    window: Seq<usize>,
    id: usize,
) -> bool {
    exists|i: int|
        0 <= i < rows.len() && row_matches(#[trigger] rows[i], filter_for(fields, window))
            && field_of(rows[i], fields[window.len() as int]) == id
}

/// A valid chain: every produced identifier is a valid production from the
/// window as it stood, which it then slides into.
pub open spec fn chain_ok(
    rows: Seq<Trigram>,
    fields: Seq<WordField>,
    window: Seq<usize>,
    gen: Seq<usize>,
) -> bool
    decreases gen.len(),
{
    gen.len() == 0 || (chain_step_ok(rows, fields, window, gen[0]) && chain_ok(
        rows,
        fields,
        slide(window, gen[0]),
        gen.drop_first(),
    ))
}

/// The window after a whole chain has slid through it.
pub open spec fn window_after(window: Seq<usize>, gen: Seq<usize>) -> Seq<usize>
    decreases gen.len(),
{
    if gen.len() == 0 {
        window
    } else {
        window_after(slide(window, gen[0]), gen.drop_first())
    }
}

/// A chain extends by one production taken at its final window.
pub proof fn lemma_chain_ok_snoc(
    rows: Seq<Trigram>,
    fields: Seq<WordField>,
    window: Seq<usize>,
    gen: Seq<usize>,
    id: usize,
)
    requires
        chain_ok(rows, fields, window, gen),
        chain_step_ok(rows, fields, window_after(window, gen), id),
    ensures
        chain_ok(rows, fields, window, gen.push(id)),
        window_after(window, gen.push(id)) == slide(window_after(window, gen), id),
    decreases gen.len(),
{
    assert(gen.push(id).len() == gen.len() + 1);
    if gen.len() == 0 {
        assert(gen.push(id)[0] == id);
        assert(gen.push(id).drop_first() =~= Seq::<usize>::empty());
        assert(window_after(window, gen) == window);
        assert(chain_ok(rows, fields, slide(window, id), gen.push(id).drop_first()));
        assert(window_after(window, gen.push(id)) == window_after(
            slide(window, id),
            gen.push(id).drop_first(),
        ));
    } else {
        assert(gen.push(id)[0] == gen[0]);
        assert(gen.push(id).drop_first() =~= gen.drop_first().push(id));
        assert(window_after(window, gen) == window_after(slide(window, gen[0]), gen.drop_first()));
        lemma_chain_ok_snoc(rows, fields, slide(window, gen[0]), gen.drop_first(), id);
        assert(chain_ok(rows, fields, window, gen.push(id)));
        assert(window_after(window, gen.push(id)) == window_after(
            slide(window, gen[0]),
            gen.push(id).drop_first(),
        ));
    }
}

/// The views of a sequence of owned strings.
pub open spec fn str_views(ss: Seq<String>) -> Seq<Seq<char>> {
    ss.map_values(|s: String| s@)
}

/// Whether a spelling occurs among the interned words.
pub open spec fn has_word_in(words: Seq<Seq<char>>, s: Seq<char>) -> bool {
    exists|i: int| 0 <= i < words.len() && words[i] == s
}

/// The identifier of an interned spelling (unique under the store
/// invariant).
pub open spec fn word_index(words: Seq<Seq<char>>, s: Seq<char>) -> usize {
    (choose|i: int| 0 <= i < words.len() && words[i] == s) as usize
}

/// Tokens resolved to identifiers for completion: unresolvable tokens are
/// dropped, not fatal.
pub open spec fn resolve_ids(words: Seq<Seq<char>>, toks: Seq<Seq<char>>) -> Seq<usize>
    decreases toks.len(),
{
    if toks.len() == 0 {
        Seq::<usize>::empty()
    } else {
        let rest = resolve_ids(words, toks.drop_first());
        if has_word_in(words, toks[0]) {
            seq![word_index(words, toks[0])] + rest
        } else {
            rest
        }
    }
}

/// Resolution of one more token extends the resolved identifiers by its
/// identifier, or by nothing where it is unknown.
pub proof fn lemma_resolve_ids_snoc(words: Seq<Seq<char>>, toks: Seq<Seq<char>>, tok: Seq<char>)
    ensures
        resolve_ids(words, toks.push(tok)) == resolve_ids(words, toks) + (if has_word_in(
            words,
            tok,
        ) {
            seq![word_index(words, tok)]
        } else {
            Seq::<usize>::empty()
        }),
    decreases toks.len(),
{
    assert(toks.push(tok).len() == toks.len() + 1);
    if toks.len() == 0 {
        assert(toks.push(tok)[0] == tok);
        assert(toks.push(tok).drop_first() =~= Seq::<Seq<char>>::empty());
        assert(resolve_ids(words, toks.push(tok).drop_first()) == Seq::<usize>::empty());
        assert(resolve_ids(words, toks) + (if has_word_in(words, tok) {
            seq![word_index(words, tok)]
        } else {
            Seq::<usize>::empty()
        }) =~= (if has_word_in(words, tok) {
            seq![word_index(words, tok)]
        } else {
            Seq::<usize>::empty()
        }));
    } else {
        assert(toks.push(tok)[0] == toks[0]);
        assert(toks.push(tok).drop_first() =~= toks.drop_first().push(tok));
        lemma_resolve_ids_snoc(words, toks.drop_first(), tok);
        assert(resolve_ids(words, toks.push(tok)) == (if has_word_in(words, toks[0]) {
            seq![word_index(words, toks[0])]
        } else {
            Seq::<usize>::empty()
        }) + resolve_ids(words, toks.push(tok).drop_first()));
        assert(resolve_ids(words, toks) + (if has_word_in(words, tok) {
            seq![word_index(words, tok)]
        } else {
            Seq::<usize>::empty()
        }) =~= (if has_word_in(words, toks[0]) {
            seq![word_index(words, toks[0])]
        } else {
            Seq::<usize>::empty()
        }) + (resolve_ids(words, toks.drop_first()) + (if has_word_in(words, tok) {
            seq![word_index(words, tok)]
        } else {
            Seq::<usize>::empty()
        })));
    }
}

/// The spellings of a sequence of identifiers; a stale identifier is
/// dropped silently.
pub open spec fn spell_all(words: Seq<Seq<char>>, ids: Seq<usize>) -> Seq<Seq<char>>
    decreases ids.len(),
{
    if ids.len() == 0 {
        Seq::<Seq<char>>::empty()
    } else {
        let rest = spell_all(words, ids.drop_first());
        if ids[0] < words.len() {
            seq![words[ids[0] as int]] + rest
        } else {
            rest
        }
    }
}

/// Spelling one more identifier extends the spellings by its word, or by
/// nothing where it is stale.
pub proof fn lemma_spell_all_snoc(words: Seq<Seq<char>>, ids: Seq<usize>, id: usize)
    ensures
        spell_all(words, ids.push(id)) == spell_all(words, ids) + (if id < words.len() {
            seq![words[id as int]]
        } else {
            Seq::<Seq<char>>::empty()
        }),
    decreases ids.len(),
{
    assert(ids.push(id).len() == ids.len() + 1);
    if ids.len() == 0 {
        assert(ids.push(id)[0] == id);
        assert(ids.push(id).drop_first() =~= Seq::<usize>::empty());
        assert(spell_all(words, ids.push(id).drop_first()) == Seq::<Seq<char>>::empty());
        assert(spell_all(words, ids) + (if id < words.len() {
            seq![words[id as int]]
        } else {
            Seq::<Seq<char>>::empty()
        }) =~= (if id < words.len() {
            seq![words[id as int]]
        } else {
            Seq::<Seq<char>>::empty()
        }));
    } else {
        assert(ids.push(id)[0] == ids[0]);
        assert(ids.push(id).drop_first() =~= ids.drop_first().push(id));
        lemma_spell_all_snoc(words, ids.drop_first(), id);
        assert(spell_all(words, ids.push(id)) == (if ids[0] < words.len() {
            seq![words[ids[0] as int]]
        } else {
            Seq::<Seq<char>>::empty()
        }) + spell_all(words, ids.push(id).drop_first()));
        assert(spell_all(words, ids) + (if id < words.len() {
            seq![words[id as int]]
        } else {
            Seq::<Seq<char>>::empty()
        }) =~= (if ids[0] < words.len() {
            seq![words[ids[0] as int]]
        } else {
            Seq::<Seq<char>>::empty()
        }) + (spell_all(words, ids.drop_first()) + (if id < words.len() {
            seq![words[id as int]]
        } else {
            Seq::<Seq<char>>::empty()
        })));
    }
}

/// Sum of a sequence of candidate scores.
pub open spec fn sum_counts(counts: Seq<u128>) -> int
    decreases counts.len(),
{
    if counts.len() == 0 {
        0
    } else {
        counts[0] + sum_counts(counts.drop_first())
    }
}

/// Appending a score extends the sum by it.
pub proof fn lemma_sum_counts_snoc(counts: Seq<u128>, c: u128)
    ensures
        sum_counts(counts.push(c)) == sum_counts(counts) + c,
    decreases counts.len(),
{
    assert(counts.push(c).len() == counts.len() + 1);
    if counts.len() == 0 {
        assert(counts.push(c)[0] == c);
        assert(counts.push(c).drop_first() =~= Seq::<u128>::empty());
        assert(sum_counts(counts.push(c).drop_first()) == 0);
    } else {
        assert(counts.push(c)[0] == counts[0]);
        assert(counts.push(c).drop_first() =~= counts.drop_first().push(c));
        lemma_sum_counts_snoc(counts.drop_first(), c);
    }
    assert(sum_counts(counts.push(c)) == counts.push(c)[0] + sum_counts(
        counts.push(c).drop_first(),
    ));
}

/// A candidate context's resolved identifiers: those of its known tokens,
/// none where the store has no tables.
pub open spec fn candidate_ids(m: DbModel, p: Seq<Seq<char>>) -> Seq<usize> {
    if m.has_tables {
        resolve_ids(m.words, p)
    } else {
        Seq::<usize>::empty()
    }
}

/// A candidate context's priming score: a resolved pair scores its corpus
/// support; a singleton scores a nominal one so it stays eligible; an
/// unresolved candidate scores nothing.
pub open spec fn candidate_score(m: DbModel, p: Seq<Seq<char>>) -> int {
    let ids = candidate_ids(m, p);
    if ids.len() == 2 {
        sum_nearby(m.phrases, ids[0], ids[1])
    } else if ids.len() == 1 {
        1
    } else {
        0
    }
}

/// Whether some candidate among the first `upto` has exactly these
/// identifiers and this positive score.
pub open spec fn is_candidate_of(
    m: DbModel,
    pviews: Seq<Seq<Seq<char>>>,
    upto: int,
    ids: Seq<usize>,
    score: int,
) -> bool {
    exists|j: int|
        0 <= j < upto && candidate_ids(m, pviews[j]) == ids && #[trigger] candidate_score(
            m,
            pviews[j],
        ) == score && score > 0
}

/// What priming may return for the given candidates: the identifiers of
/// some candidate with positive score, or the sentinel seed where no
/// candidate has support.
pub open spec fn primed_from(m: DbModel, prefixes: Seq<Seq<Seq<char>>>, primer: Seq<usize>) -> bool {
    if exists|k: int| 0 <= k < prefixes.len() && #[trigger] candidate_score(m, prefixes[k]) > 0 {
        exists|k: int|
            0 <= k < prefixes.len() && #[trigger] candidate_score(m, prefixes[k]) > 0 && primer
                == candidate_ids(m, prefixes[k])
    } else {
        primer == seq![0usize]
    }
}

/// The interned words after one spelling is interned: unchanged where it
/// is known, extended by it where it is new.
pub open spec fn intern_one(words: Seq<Seq<char>>, t: Seq<char>) -> Seq<Seq<char>> {
    if has_word_in(words, t) {
        words
    } else {
        words.push(t)
    }
}

/// The identifier one interned spelling gets: its existing one, or the
/// next free one.
pub open spec fn intern_id_one(words: Seq<Seq<char>>, t: Seq<char>) -> usize {
    if has_word_in(words, t) {
        word_index(words, t)
    } else {
        words.len() as usize
    }
}

/// The interned words after a whole phrase is interned, token by token.
pub open spec fn intern_words(words: Seq<Seq<char>>, toks: Seq<Seq<char>>) -> Seq<Seq<char>>
    decreases toks.len(),
{
    if toks.len() == 0 {
        words
    } else {
        intern_words(intern_one(words, toks[0]), toks.drop_first())
    }
}

/// The identifiers a whole phrase's tokens get, in order.
pub open spec fn intern_ids(words: Seq<Seq<char>>, toks: Seq<Seq<char>>) -> Seq<usize>
    decreases toks.len(),
{
    if toks.len() == 0 {
        Seq::<usize>::empty()
    } else {
        seq![intern_id_one(words, toks[0])] + intern_ids(
            intern_one(words, toks[0]),
            toks.drop_first(),
        )
    }
}

/// A phrase's identifiers padded with the sentinel on both ends: the form
/// in which its consecutive triples are counted.
pub open spec fn padded_ids(words: Seq<Seq<char>>, toks: Seq<Seq<char>>) -> Seq<usize> {
    seq![0usize] + intern_ids(words, toks) + seq![0usize]
}

/// The rows after every consecutive width-three window of a padded phrase
/// is observed once, left to right.
pub open spec fn add_windows(rows: Seq<Trigram>, ids: Seq<usize>) -> Seq<Trigram>
    decreases ids.len(),
{
    if ids.len() < 3 {
        rows
    } else {
        add_windows(inc_rows(rows, ids[0], ids[1], ids[2]), ids.drop_first())
    }
}

/// Interning is idempotent: interning a spelling a second time returns
/// the same identifier and changes nothing, and the identifier maps back
/// to the spelling (reverse lookup inverts interning).
pub proof fn lemma_intern_idempotent(words: Seq<Seq<char>>, s: Seq<char>)
    requires
        words.len() <= usize::MAX,
        forall|i: int, j: int| 0 <= i < j < words.len() ==> words[i] != words[j],
    ensures
        intern_one(intern_one(words, s), s) == intern_one(words, s),
        intern_id_one(intern_one(words, s), s) == intern_id_one(words, s),
        intern_id_one(words, s) < intern_one(words, s).len(),
        intern_one(words, s)[intern_id_one(words, s) as int] == s,
{
    if has_word_in(words, s) {
        let j = choose|i: int| 0 <= i < words.len() && words[i] == s;
        assert(0 <= j < words.len() && words[j] == s);
        assert(word_index(words, s) as int == j);
        assert(words[word_index(words, s) as int] == s);
    } else {
        let words2 = words.push(s);
        assert(words2[words.len() as int] == s);
        assert(has_word_in(words2, s));
        assert(intern_one(words2, s) == words2);
        let j = choose|i: int| 0 <= i < words2.len() && words2[i] == s;
        assert(0 <= j < words2.len() && words2[j] == s);
        assert(j < words.len() ==> words2[j] == words[j]);
        assert(j == words.len());
        assert(word_index(words2, s) as int == j);
    }
}

/// Ingesting one window keeps every triple already present.
pub proof fn lemma_add_windows_preserves(
    rows: Seq<Trigram>,
    ids: Seq<usize>,
    x: usize,
    y: usize,
    z: usize,
)
    requires
        crate::store::contains_triple(rows, x, y, z),
    ensures
        crate::store::contains_triple(add_windows(rows, ids), x, y, z),
    decreases ids.len(),
{
    if ids.len() >= 3 {
        crate::store::lemma_inc_rows_preserves(rows, ids[0], ids[1], ids[2], x, y, z);
        lemma_add_windows_preserves(
            inc_rows(rows, ids[0], ids[1], ids[2]),
            ids.drop_first(),
            x,
            y,
            z,
        );
    }
}

/// After a padded phrase is ingested, every one of its consecutive
/// width-three windows is present among the rows.
pub proof fn lemma_add_windows_contains(rows: Seq<Trigram>, ids: Seq<usize>, i: int)
    requires
        0 <= i,
        i + 3 <= ids.len(),
    ensures
        crate::store::contains_triple(add_windows(rows, ids), ids[i], ids[i + 1], ids[i + 2]),
    decreases ids.len(),
{
    let stepped = inc_rows(rows, ids[0], ids[1], ids[2]);
    if i == 0 {
        crate::store::lemma_increment_freq(rows, ids[0], ids[1], ids[2]);
        lemma_add_windows_preserves(stepped, ids.drop_first(), ids[0], ids[1], ids[2]);
    } else {
        assert(ids.drop_first()[i - 1] == ids[i]);
        assert(ids.drop_first()[i] == ids[i + 1]);
        assert(ids.drop_first()[i + 1] == ids[i + 2]);
        lemma_add_windows_contains(stepped, ids.drop_first(), i - 1);
    }
}

/// Ingestion keeps every count positive.
pub proof fn lemma_add_windows_freqs_positive(rows: Seq<Trigram>, ids: Seq<usize>)
    requires
        freqs_positive(rows),
    ensures
        freqs_positive(add_windows(rows, ids)),
    decreases ids.len(),
{
    if ids.len() >= 3 {
        crate::store::lemma_inc_rows_freqs_positive(rows, ids[0], ids[1], ids[2]);
        lemma_add_windows_freqs_positive(inc_rows(rows, ids[0], ids[1], ids[2]), ids.drop_first());
    }
}

/// The filter that binds the two leading columns to a word pair.
pub open spec fn pair_filter(a: usize, b: usize) -> Filter {
    Filter { word1: Some(a), word2: Some(b), word3: None }
}

/// Round trip: after a phrase is ingested, every consecutive window of
/// its sentinel-padded identifiers is individually retrievable — some pick
/// within the matching range makes weighted selection return the window's
/// third identifier from its leading two-identifier filter.  (Multiple
/// valid continuations may share that filter; this names one reaching
/// pick.)
pub proof fn lemma_round_trip(m: DbModel, toks: Seq<Seq<char>>, i: int)
    requires
        m.wf(),
        m.has_tables,
        0 <= i,
        i + 3 <= padded_ids(m.words, toks).len(),
    ensures
        ({
            let p = padded_ids(m.words, toks);
            let rows2 = add_windows(m.phrases, p);
            let f = pair_filter(p[i], p[i + 1]);
            exists|pick: int|
                1 <= pick <= sum_freq(rows2, f) && (#[trigger] pick_row(rows2, f, pick)
                    matches Some(t) && t.word3 == p[i + 2])
        }),
{
    let p = padded_ids(m.words, toks);
    let rows2 = add_windows(m.phrases, p);
    let f = pair_filter(p[i], p[i + 1]);
    lemma_add_windows_freqs_positive(m.phrases, p);
    lemma_add_windows_contains(m.phrases, p, i);
    let j = choose|j: int|
        0 <= j < rows2.len() && crate::store::is_triple(
            #[trigger] rows2[j],
            p[i],
            p[i + 1],
            p[i + 2],
        );
    assert(row_matches(rows2[j], f));
    crate::store::lemma_pick_row_reachable(rows2, f, j);
    let pick = choose|pick: int|
        1 <= pick <= sum_freq(rows2, f) && #[trigger] pick_row(rows2, f, pick) == Some(rows2[j]);
    assert(pick_row(rows2, f, pick) matches Some(t) && t.word3 == p[i + 2]);
}

/// A sequence out of an optional identifier: one element or none.
pub open spec fn opt_seq(o: Option<usize>) -> Seq<usize> {
    match o {
        Some(w) => seq![w],
        None => Seq::<usize>::empty(),
    }
}

/// The token at a prefix slot resolved to its identifier, or absent where
/// the slot is missing or its token unknown.
pub open spec fn resolved_slot(m: DbModel, toks: Seq<Seq<char>>, k: int) -> Option<usize> {
    if 0 <= k < toks.len() && has_word_in(m.words, toks[k]) {
        Some(word_index(m.words, toks[k]))
    } else {
        None
    }
}

/// What middle-out completion returns for two resolved endpoint slots:
/// where a connecting middle word exists, a backward extension of the
/// seeded gap followed by a forward extension; otherwise a fresh phrase
/// from the sentinel.
pub open spec fn middle_out_spec(
    m: DbModel,
    first: Option<usize>,
    last: Option<usize>,
    out: Seq<Seq<char>>,
) -> bool {
    let mf = opt_seq(first) + opt_seq(last);
    if mf.len() > 0 && any_match(m.phrases, filter_for(mid_fields(), mf)) {
        exists|mid: usize, back: Seq<usize>, gen: Seq<usize>|
            #![trigger spell_all(m.words, back.reverse() + (opt_seq(first) + seq![mid] + opt_seq(last)) + gen)]
            {
                let ids = opt_seq(first) + seq![mid] + opt_seq(last);
                &&& chain_step_ok(m.phrases, mid_fields(), mf, mid)
                &&& backward_closed(m, ids.take(2).reverse(), back)
                &&& forward_closed(m, back.reverse() + ids, gen)
                &&& out == spell_all(m.words, back.reverse() + ids + gen)
            }
    } else {
        exists|gen: Seq<usize>|
            #[trigger] forward_closed(m, seq![0usize], gen) && out == spell_all(
                m.words,
                seq![0usize] + gen,
            )
    }
}

/// A completed forward chain from a seed: the chain is valid from the
/// seed's trailing window, bounded by the cap, and where it ended below
/// the cap no row offered a further word.
pub open spec fn forward_closed(m: DbModel, seed: Seq<usize>, gen: Seq<usize>) -> bool {
    &&& chain_ok(m.phrases, fwd_fields(), seeded(last_k(seed, 2)), gen)
    &&& gen.len() <= CHAIN_CAP
    &&& (gen.len() < CHAIN_CAP ==> !any_match(
        m.phrases,
        filter_for(fwd_fields(), window_after(seeded(last_k(seed, 2)), gen)),
    ))
}

/// A completed backward chain from a seed, the mirror image of
/// [`forward_closed`].
pub open spec fn backward_closed(m: DbModel, seed: Seq<usize>, back: Seq<usize>) -> bool {
    &&& chain_ok(m.phrases, bwd_fields(), seeded(last_k(seed, 2)), back)
    &&& back.len() <= CHAIN_CAP
    &&& (back.len() < CHAIN_CAP ==> !any_match(
        m.phrases,
        filter_for(bwd_fields(), window_after(seeded(last_k(seed, 2)), back)),
    ))
}

/// How a store operation fails.  Queries against a store whose schema has
/// not been created yet fail as the underlying relational store would; a
/// row may only refer to word identifiers that exist.
#[derive(Clone, Copy, PartialEq, Eq, Structural, Debug)]
pub enum DbError {
    /// The schema has not been migrated: a required table is missing.
    MissingTable,
    /// A word identifier does not refer to any interned word.
    InvalidWordId,
}

/// The mathematical model of a store: the migration log, the schema state,
/// and the contents of the word and trigram tables.
#[verifier::ext_equal]
pub struct DbModel {
    /// Whether the migration log table exists.
    pub has_log: bool,
    /// The ids recorded in the migration log, in application order.
    pub applied: Seq<Seq<char>>,
    /// Whether the word and trigram tables exist.
    pub has_tables: bool,
    /// The interned spellings; a word's identifier is its position.
    pub words: Seq<Seq<char>>,
    /// The trigram rows, in insertion order.
    pub phrases: Seq<Trigram>,
}

impl DbModel {
    /// The interned spellings are well formed: the sentinel spelling sits
    /// at identifier zero and no spelling repeats.
    pub open spec fn words_wf(self) -> bool {
        &&& self.words.len() >= 1
        &&& self.words[0] == Seq::<char>::empty()
        &&& forall|i: int, j: int| 0 <= i < j < self.words.len() ==> self.words[i] != self.words[j]
    }

    /// The trigram rows are well formed: positive counts, one row per
    /// triple, and every identifier interned.
    pub open spec fn rows_wf(self) -> bool {
        &&& freqs_positive(self.phrases)
        &&& triples_unique(self.phrases)
        &&& ids_below(self.phrases, self.words.len() as int)
    }

    /// The store invariant, established by construction and by migration
    /// and preserved by every operation.
    pub open spec fn wf(self) -> bool {
        &&& (!self.has_log ==> self.applied.len() == 0)
        &&& (self.has_tables ==> self.has_log)
        &&& (self.has_tables <==> self.applied.contains(migration::init_tables_id()))
        &&& (!self.has_tables ==> self.words.len() == 0 && self.phrases.len() == 0)
        &&& (self.has_tables ==> self.words_wf() && self.rows_wf())
        &&& (forall|i: int, j: int|
            0 <= i < j < self.applied.len() ==> self.applied[i] != self.applied[j])
    }

    /// Whether a spelling is interned.
    pub open spec fn has_word(self, s: Seq<char>) -> bool {
        exists|i: int| 0 <= i < self.words.len() && self.words[i] == s
    }
}

/// The store: interned words, observed trigram rows, and the migration
/// log, exclusively owned by its holder.
#[derive(Debug)]
pub struct WordsDb {
    /// Whether the migration log table exists.
    pub has_log: bool,
    /// The ids recorded in the migration log, in application order.
    pub applied: Vec<String>,
    /// Whether the word and trigram tables exist.
    pub has_tables: bool,
    /// The interned spellings; a word's identifier is its position.
    pub words: Vec<String>,
    /// The trigram rows, in insertion order.
    pub phrases: Vec<Trigram>,
}

impl View for WordsDb {
    type V = DbModel;

    open spec fn view(&self) -> DbModel {
        DbModel {
            has_log: self.has_log,
            applied: self.applied@.map_values(|s: String| s@),
            has_tables: self.has_tables,
            words: self.words@.map_values(|s: String| s@),
            phrases: self.phrases@,
        }
    }
}

impl WordsDb {
    /// A fresh store with no schema yet: every table is still to be
    /// created by [`Self::migrate`].
    pub fn new() -> (db: WordsDb)
        ensures
            db@ == (DbModel {
                has_log: false,
                applied: Seq::<Seq<char>>::empty(),
                has_tables: false,
                words: Seq::<Seq<char>>::empty(),
                phrases: Seq::<Trigram>::empty(),
            }),
            db@.wf(),
    {
        let db = WordsDb {
            has_log: false,
            applied: Vec::new(),
            has_tables: false,
            words: Vec::new(),
            phrases: Vec::new(),
        };
        proof {
            assert(db@.applied =~= Seq::<Seq<char>>::empty());
            assert(db@.words =~= Seq::<Seq<char>>::empty());
        }
        db
    }

    /// Diagnostic counts of interned words and of trigram rows, or an
    /// error where the tables are missing and migration may be necessary.
    pub fn summary(&self) -> (r: Result<(usize, usize), DbError>)
        requires
            self@.wf(),
        ensures
            self@.has_tables ==> r == Ok::<_, DbError>(
                ((self@.words.len() as usize), (self@.phrases.len() as usize)),
            ),
            !self@.has_tables ==> r == Err::<(usize, usize), _>(DbError::MissingTable),
    {
        if !self.has_tables {
            return Err(DbError::MissingTable);
        }
        Ok((self.words.len(), self.phrases.len()))
    }

    /// Non-mutating lookup of a spelling's identifier; an absent spelling
    /// is a normal outcome, not an error.
    pub fn lookup_id(&self, spelling: &str) -> (r: Result<Option<usize>, DbError>)
        requires
            self@.wf(),
        ensures
            !self@.has_tables ==> r == Err::<Option<usize>, _>(DbError::MissingTable),
            self@.has_tables ==> match r {
                Ok(Some(id)) => id < self@.words.len() && self@.words[id as int] == spelling@,
                Ok(None) => !self@.has_word(spelling@),
                Err(_) => false,
            },
    {
        if !self.has_tables {
            return Err(DbError::MissingTable);
        }
        let owned = spelling.to_owned();
        let n = self.words.len();
        for i in 0..n
            invariant
                self@.has_tables,
                n == self.words.len(),
                owned@ == spelling@,
                forall|j: int| 0 <= j < i ==> self@.words[j] != spelling@,
        {
            if self.words[i] == owned {
                return Ok(Some(i));
            }
        }
        Ok(None)
    }

    /// Reverse lookup of an identifier's spelling; an unknown identifier
    /// is reported as absent, for callers to drop silently.
    pub fn spelling_of(&self, id: usize) -> (r: Result<Option<String>, DbError>)
        requires
            self@.wf(),
        ensures
            !self@.has_tables ==> r == Err::<Option<String>, _>(DbError::MissingTable),
            self@.has_tables ==> match r {
                Ok(Some(s)) => id < self@.words.len() && s@ == self@.words[id as int],
                Ok(None) => id >= self@.words.len(),
                Err(_) => false,
            },
    {
        if !self.has_tables {
            return Err(DbError::MissingTable);
        }
        if id < self.words.len() {
            Ok(Some(self.words[id].clone()))
        } else {
            Ok(None)
        }
    }

    /// The existing identifier for a spelling, or a fresh row's identifier
    /// where the spelling was not interned yet.
    pub fn get_or_create_id(&mut self, spelling: &str) -> (r: Result<usize, DbError>)
        requires
            old(self)@.wf(),
        ensures
            final(self)@.wf(),
            !old(self)@.has_tables ==> r == Err::<usize, _>(DbError::MissingTable) && final(self)@
                == old(self)@,
            old(self)@.has_tables ==> match r {
                Ok(id) => {
                    if old(self)@.has_word(spelling@) {
                        &&& final(self)@ == old(self)@
                        &&& id < old(self)@.words.len()
                        &&& old(self)@.words[id as int] == spelling@
                    } else {
                        &&& id == old(self)@.words.len()
                        &&& final(self)@ == (DbModel {
                            words: old(self)@.words.push(spelling@),
                            ..old(self)@
                        })
                    }
                },
                Err(_) => false,
            },
    {
        let looked_up = self.lookup_id(spelling)?;
        match looked_up {
            Some(id) => Ok(id),
            None => {
                let id = self.words.len();
                self.words.push(spelling.to_owned());
                proof {
                    assert(self@.words =~= old(self)@.words.push(spelling@));
                    assert(self@ =~= (DbModel { words: old(self)@.words.push(spelling@), ..old(
                        self,
                    )@ }));
                    assert(ids_below(self@.phrases, self@.words.len() as int));
                }
                Ok(id)
            },
        }
    }

    /// Bring the store's schema up to the latest known version; safe to
    /// call on every startup.
    pub fn migrate(&mut self) -> (r: Result<(), DbError>)
        requires
            old(self)@.wf(),
        ensures
            final(self)@.wf(),
            r == Ok::<(), DbError>(()),
            final(self)@ == migration::migrate_spec(old(self)@),
    {
        migration::migrate(self)
    }

    /// Intern every token of a phrase and surround the identifiers with
    /// the begin/end sentinel.
    fn get_phrase_vec(&mut self, phrase: &[String]) -> (r: Result<Vec<usize>, DbError>)
        requires
            old(self)@.wf(),
        ensures
            final(self)@.wf(),
            !old(self)@.has_tables && phrase@.len() > 0 ==> r == Err::<Vec<usize>, _>(
                DbError::MissingTable,
            ) && final(self)@ == old(self)@,
            !old(self)@.has_tables && phrase@.len() == 0 ==> (r matches Ok(v) && v@ == padded_ids(
                old(self)@.words,
                phrase.deep_view(),
            ) && final(self)@ == old(self)@),
            old(self)@.has_tables ==> (r matches Ok(v) && {
                &&& v@ == padded_ids(old(self)@.words, phrase.deep_view())
                &&& final(self)@ == (DbModel {
                    words: intern_words(old(self)@.words, phrase.deep_view()),
                    ..old(self)@
                })
                &&& forall|k: int| 0 <= k < v@.len() ==> v@[k] < final(self)@.words.len()
            }),
    {
        let ghost words0 = self@.words;
        let ghost tviews = phrase.deep_view();
        let mut v: Vec<usize> = Vec::new();
        v.push(0);
        let n = phrase.len();
        proof {
            assert(tviews.len() == n);
            assert(tviews.skip(0) =~= tviews);
            assert(v@.skip(1) =~= Seq::<usize>::empty());
        }
        for i in 0..n
            invariant
                self@.wf(),
                n == phrase@.len(),
                tviews == phrase.deep_view(),
                tviews.len() == n,
                v@.len() == i + 1,
                v@[0] == 0usize,
                self@.has_log == old(self)@.has_log,
                self@.applied == old(self)@.applied,
                self@.has_tables == old(self)@.has_tables,
                self@.phrases == old(self)@.phrases,
                !old(self)@.has_tables ==> self@ == old(self)@,
                i > 0 ==> old(self)@.has_tables,
                old(self)@.has_tables ==> {
                    &&& intern_words(words0, tviews) == intern_words(
                        self@.words,
                        tviews.skip(i as int),
                    )
                    &&& intern_ids(words0, tviews) == v@.skip(1) + intern_ids(
                        self@.words,
                        tviews.skip(i as int),
                    )
                    &&& forall|k: int| 0 <= k < v@.len() ==> v@[k] < self@.words.len()
                },
        {
            proof {
                assert(phrase@[i as int]@ == tviews[i as int]);
                assert(tviews.skip(i as int)[0] == tviews[i as int]);
                assert(tviews.skip(i as int).drop_first() =~= tviews.skip(i as int + 1));
            }
            let ghost v_old = v@;
            let ghost words_before = self@.words;
            let id = self.get_or_create_id(phrase[i].as_str())?;
            proof {
                if has_word_in(words_before, tviews[i as int]) {
                    let j = choose|j: int|
                        0 <= j < words_before.len() && words_before[j] == tviews[i as int];
                    assert(words_before[id as int] == tviews[i as int]);
                    assert(j == id as int);
                    assert(id == intern_id_one(words_before, tviews[i as int]));
                    assert(self@.words == intern_one(words_before, tviews[i as int]));
                } else {
                    assert(id == intern_id_one(words_before, tviews[i as int]));
                    assert(self@.words =~= intern_one(words_before, tviews[i as int]));
                }
            }
            v.push(id);
            proof {
                assert(v@.skip(1) =~= v_old.skip(1).push(id));
                assert(v_old.skip(1).push(id) + intern_ids(self@.words, tviews.skip(i as int + 1))
                    =~= v_old.skip(1) + (seq![id] + intern_ids(
                    self@.words,
                    tviews.skip(i as int + 1),
                )));
            }
        }
        proof {
            assert(tviews.skip(n as int) =~= Seq::<Seq<char>>::empty());
        }
        let ghost v_mid = v@;
        v.push(0);
        proof {
            if old(self)@.has_tables {
                assert(intern_ids(words0, tviews) == v_mid.skip(1));
                assert(v@ =~= seq![0usize] + intern_ids(words0, tviews) + seq![0usize]);
                assert(self@ =~= (DbModel { words: intern_words(words0, tviews), ..old(self)@ }));
            } else {
                assert(n == 0);
                assert(intern_ids(words0, phrase.deep_view()) =~= Seq::<usize>::empty());
                assert(v@ =~= padded_ids(old(self)@.words, phrase.deep_view()));
            }
        }
        Ok(v)
    }

    /// Ingest one phrase: intern every token, pad with the sentinel, and
    /// raise the count of every consecutive width-three window.
    pub fn add_phrase(&mut self, phrase: &[String]) -> (r: Result<(), DbError>)
        requires
            old(self)@.wf(),
        ensures
            final(self)@.wf(),
            !old(self)@.has_tables && phrase@.len() > 0 ==> r == Err::<(), _>(DbError::MissingTable)
                && final(self)@ == old(self)@,
            !old(self)@.has_tables && phrase@.len() == 0 ==> r == Ok::<_, DbError>(())
                && final(self)@ == old(self)@,
            old(self)@.has_tables ==> r == Ok::<_, DbError>(()) && final(self)@ == (DbModel {
                words: intern_words(old(self)@.words, phrase.deep_view()),
                phrases: add_windows(
                    old(self)@.phrases,
                    padded_ids(old(self)@.words, phrase.deep_view()),
                ),
                ..old(self)@
            }),
    {
        let v = self.get_phrase_vec(phrase)?;
        let ghost padded = v@;
        let ghost mid = self@;
        let ghost rows0 = self@.phrases;
        let n = v.len();
        proof {
            assert(n >= 2);
            assert(padded.skip(0) =~= padded);
        }
        for i in 0..(n - 2)
            invariant
                self@.wf(),
                n == padded.len(),
                n >= 2,
                padded == v@,
                self@.has_log == mid.has_log,
                self@.applied == mid.applied,
                self@.has_tables == mid.has_tables,
                self@.words == mid.words,
                !old(self)@.has_tables ==> n == 2,
                old(self)@.has_tables ==> {
                    &&& self@.has_tables
                    &&& (forall|k: int| 0 <= k < padded.len() ==> padded[k] < self@.words.len())
                    &&& add_windows(rows0, padded) == add_windows(
                        self@.phrases,
                        padded.skip(i as int),
                    )
                },
        {
            proof {
                assert(old(self)@.has_tables);
                assert(padded.skip(i as int)[0] == padded[i as int]);
                assert(padded.skip(i as int)[1] == padded[i as int + 1]);
                assert(padded.skip(i as int)[2] == padded[i as int + 2]);
                assert(padded.skip(i as int).drop_first() =~= padded.skip(i as int + 1));
            }
            let w1 = v[i];
            let w2 = v[i + 1];
            let w3 = v[i + 2];
            let stepped = self.increment(w1, w2, w3);
            proof {
                assert(stepped is Ok);
            }
            stepped?;
        }
        proof {
            assert(padded.skip(n as int - 2).len() < 3);
            assert(add_windows(self@.phrases, padded.skip(n as int - 2)) == self@.phrases);
            if old(self)@.has_tables {
                assert(self@ =~= (DbModel {
                    words: intern_words(old(self)@.words, phrase.deep_view()),
                    phrases: add_windows(
                        old(self)@.phrases,
                        padded_ids(old(self)@.words, phrase.deep_view()),
                    ),
                    ..old(self)@
                }));
            } else {
                assert(self@ =~= old(self)@);
            }
        }
        Ok(())
    }

    /// Ingest one line as a phrase: its whitespace-separated tokens.
    pub fn add_line(&mut self, line: &str) -> (r: Result<(), DbError>)
        requires
            old(self)@.wf(),
        ensures
            final(self)@.wf(),
            !old(self)@.has_tables && tokenize_spec(line@).len() > 0 ==> r == Err::<(), _>(
                DbError::MissingTable,
            ) && final(self)@ == old(self)@,
            !old(self)@.has_tables && tokenize_spec(line@).len() == 0 ==> r == Ok::<_, DbError>(())
                && final(self)@ == old(self)@,
            old(self)@.has_tables ==> r == Ok::<_, DbError>(()) && final(self)@ == (DbModel {
                words: intern_words(old(self)@.words, tokenize_spec(line@)),
                phrases: add_windows(
                    old(self)@.phrases,
                    padded_ids(old(self)@.words, tokenize_spec(line@)),
                ),
                ..old(self)@
            }),
    {
        let toks = tokenize_phrase(line);
        let tn = toks.len();
        let mut owned: Vec<String> = Vec::new();
        proof {
            assert(owned.deep_view() =~= Seq::<Seq<char>>::empty());
            assert(toks.deep_view().take(0) =~= Seq::<Seq<char>>::empty());
        }
        for i in 0..tn
            invariant
                tn == toks@.len(),
                toks.deep_view() == tokenize_spec(line@),
                owned.deep_view() == toks.deep_view().take(i as int),
        {
            let ghost owned_old = owned.deep_view();
            owned.push(String::from_str(toks[i]));
            proof {
                assert(owned.deep_view() =~= owned_old.push(toks@[i as int]@));
                assert(toks.deep_view().take(i as int + 1) =~= toks.deep_view().take(
                    i as int,
                ).push(toks.deep_view()[i as int]));
            }
        }
        proof {
            assert(toks.deep_view().take(tn as int) =~= toks.deep_view());
        }
        let phrase_slice = owned.as_slice();
        proof {
            assert(phrase_slice.deep_view() =~= tokenize_spec(line@));
        }
        self.add_phrase(phrase_slice)
    }

    /// Record one more observation of an ordered triple: its row's count
    /// rises by one, or a fresh row with count one appears.
    pub fn increment(&mut self, w1: usize, w2: usize, w3: usize) -> (r: Result<(), DbError>)
        requires
            old(self)@.wf(),
        ensures
            final(self)@.wf(),
            !old(self)@.has_tables ==> r == Err::<(), _>(DbError::MissingTable) && final(self)@
                == old(self)@,
            old(self)@.has_tables && !(w1 < old(self)@.words.len() && w2 < old(self)@.words.len()
                && w3 < old(self)@.words.len()) ==> r == Err::<(), _>(DbError::InvalidWordId)
                && final(self)@ == old(self)@,
            old(self)@.has_tables && w1 < old(self)@.words.len() && w2 < old(self)@.words.len()
                && w3 < old(self)@.words.len() ==> r == Ok::<_, DbError>(()) && final(self)@
                == (DbModel { phrases: inc_rows(old(self)@.phrases, w1, w2, w3), ..old(self)@ }),
    {
        if !self.has_tables {
            return Err(DbError::MissingTable);
        }
        let n_words = self.words.len();
        if !(w1 < n_words && w2 < n_words && w3 < n_words) {
            return Err(DbError::InvalidWordId);
        }
        let n = self.phrases.len();
        for i in 0..n
            invariant
                self@ == old(self)@,
                self@.wf(),
                self@.has_tables,
                w1 < self@.words.len() && w2 < self@.words.len() && w3 < self@.words.len(),
                n == self@.phrases.len(),
                forall|j: int| 0 <= j < i ==> !is_triple(self@.phrases[j], w1, w2, w3),
        {
            let t = self.phrases[i];
            if t.word1 == w1 && t.word2 == w2 && t.word3 == w3 {
                let nf = if t.freq < u64::MAX {
                    t.freq + 1
                } else {
                    t.freq
                };
                self.phrases[i] = Trigram { word1: t.word1, word2: t.word2, word3: t.word3, freq: nf };
                proof {
                    lemma_inc_rows_update(old(self)@.phrases, w1, w2, w3, i as int);
                    assert(self@.phrases =~= inc_rows(old(self)@.phrases, w1, w2, w3));
                    assert(self@ =~= (DbModel {
                        phrases: inc_rows(old(self)@.phrases, w1, w2, w3),
                        ..old(self)@
                    }));
                    assert(triples_unique(self@.phrases));
                    assert(final(self)@.wf());
                }
                return Ok(());
            }
        }
        self.phrases.push(Trigram { word1: w1, word2: w2, word3: w3, freq: 1 });
        proof {
            lemma_inc_rows_push(old(self)@.phrases, w1, w2, w3);
            assert(self@.phrases =~= inc_rows(old(self)@.phrases, w1, w2, w3));
            assert(self@ =~= (DbModel {
                phrases: inc_rows(old(self)@.phrases, w1, w2, w3),
                ..old(self)@
            }));
            assert(triples_unique(self@.phrases)) by {
                assert(forall|j: int|
                    0 <= j < old(self)@.phrases.len() ==> !is_triple(
                        old(self)@.phrases[j],
                        w1,
                        w2,
                        w3,
                    ));
            }
            assert(final(self)@.wf());
        }
        Ok(())
    }

    /// Sum of the counts of the rows matching a partial filter, or absent
    /// where no row matches (as the underlying aggregate would report).
    pub fn get_freq_where(&self, filter: &Filter) -> (r: Result<Option<u128>, DbError>)
        requires
            self@.wf(),
        ensures
            !self@.has_tables ==> r == Err::<Option<u128>, _>(DbError::MissingTable),
            self@.has_tables ==> match r {
                Ok(Some(total)) => any_match(self@.phrases, *filter) && total == sum_freq(
                    self@.phrases,
                    *filter,
                ),
                Ok(None) => !any_match(self@.phrases, *filter),
                Err(_) => false,
            },
    {
        if !self.has_tables {
            return Err(DbError::MissingTable);
        }
        let n = self.phrases.len();
        let mut acc: u128 = 0;
        let mut found = false;
        for i in 0..n
            invariant
                self@.has_tables,
                n == self@.phrases.len(),
                acc == sum_freq(self@.phrases.take(i as int), *filter),
                found == any_match(self@.phrases.take(i as int), *filter),
                acc <= (i as int) * (u64::MAX as int),
        {
            let t = self.phrases[i];
            proof {
                assert(self@.phrases.take(i as int).push(t) =~= self@.phrases.take(i as int + 1));
                lemma_sum_freq_snoc(self@.phrases.take(i as int), t, *filter);
                if row_matches(t, *filter) {
                    assert(self@.phrases.take(i as int + 1)[i as int] == t);
                }
                if any_match(self@.phrases.take(i as int + 1), *filter) && !row_matches(
                    t,
                    *filter,
                ) {
                    let j = choose|j: int|
                        0 <= j < self@.phrases.take(i as int + 1).len() && row_matches(
                            #[trigger] self@.phrases.take(i as int + 1)[j],
                            *filter,
                        );
                    if j < i {
                        assert(self@.phrases.take(i as int)[j] == self@.phrases.take(
                            i as int + 1,
                        )[j]);
                    }
                }
                assert(acc + t.freq <= (i as int + 1) * (u64::MAX as int)) by (nonlinear_arith)
                    requires
                        acc <= (i as int) * (u64::MAX as int),
                        t.freq <= u64::MAX,
                        i >= 0,
                ;
                assert((i as int + 1) * (u64::MAX as int) <= (u64::MAX as int) * (
                u64::MAX as int)) by (nonlinear_arith)
                    requires
                        0 <= i as int + 1 <= u64::MAX as int,
                ;
                assert((u64::MAX as int) * (u64::MAX as int) < u128::MAX as int) by (nonlinear_arith);
            }
            if matches_filter(&t, filter) {
                acc = acc + t.freq as u128;
                found = true;
            }
        }
        proof {
            assert(self@.phrases.take(n as int) =~= self@.phrases);
        }
        if found {
            Ok(Some(acc))
        } else {
            Ok(None)
        }
    }

    /// Deterministic roulette-wheel selection: walk the rows in insertion
    /// order, reducing `pick` by each matching row's count, and return the
    /// selected column of the first row at which it drops to or below the
    /// count; absent where the matching rows are exhausted first.
    pub fn weighted_pick(&self, select_field: WordField, filter: &Filter, pick: u128) -> (r:
        Result<Option<usize>, DbError>)
        requires
            self@.wf(),
        ensures
            !self@.has_tables ==> r == Err::<Option<usize>, _>(DbError::MissingTable),
            self@.has_tables ==> r == Ok::<_, DbError>(
                match pick_row(self@.phrases, *filter, pick as int) {
                    Some(t) => Some(field_of(t, select_field)),
                    None => None,
                },
            ),
    {
        if !self.has_tables {
            return Err(DbError::MissingTable);
        }
        let n = self.phrases.len();
        let mut cur: u128 = pick;
        proof {
            assert(self@.phrases.skip(0) =~= self@.phrases);
        }
        for i in 0..n
            invariant
                self@.has_tables,
                n == self@.phrases.len(),
                pick_row(self@.phrases, *filter, pick as int) == pick_row(
                    self@.phrases.skip(i as int),
                    *filter,
                    cur as int,
                ),
        {
            let t = self.phrases[i];
            proof {
                assert(self@.phrases.skip(i as int)[0] == t);
                assert(self@.phrases.skip(i as int).drop_first() =~= self@.phrases.skip(
                    i as int + 1,
                ));
            }
            if matches_filter(&t, filter) {
                if cur <= t.freq as u128 {
                    return Ok(Some(match select_field {
                        WordField::One => t.word1,
                        WordField::Two => t.word2,
                        WordField::Three => t.word3,
                    }));
                }
                cur = cur - t.freq as u128;
            }
        }
        proof {
            assert(self@.phrases.skip(n as int) =~= Seq::<Trigram>::empty());
        }
        Ok(None)
    }

    /// One frequency-weighted random draw among the rows matching a
    /// filter: a uniformly random pick within the total is taken, so a row
    /// is chosen with probability proportional to its count.  Absent
    /// exactly when no row matches.
    pub fn complete_any(&self, select_field: WordField, filter: &Filter) -> (r: Result<
        Option<usize>,
        DbError,
    >)
        requires
            self@.wf(),
        ensures
            !self@.has_tables ==> r == Err::<Option<usize>, _>(DbError::MissingTable),
            self@.has_tables ==> match r {
                Ok(Some(id)) => exists|pick: int|
                    1 <= pick <= sum_freq(self@.phrases, *filter) && (#[trigger] pick_row(
                        self@.phrases,
                        *filter,
                        pick,
                    ) matches Some(t) && field_of(t, select_field) == id),
                Ok(None) => !any_match(self@.phrases, *filter),
                Err(_) => false,
            },
    {
        let total_opt = self.get_freq_where(filter)?;
        match total_opt {
            Some(total) => {
                proof {
                    lemma_sum_freq_pos(self@.phrases, *filter);
                }
                let draw = random_u128();
                let pick = draw % total + 1;
                let picked = self.weighted_pick(select_field, filter, pick)?;
                proof {
                    lemma_pick_row_in_range(self@.phrases, *filter, pick as int);
                }
                Ok(picked)
            },
            None => Ok(None),
        }
    }

    /// A candidate context pair's corpus support: the summed count of the
    /// rows in which the pair occurs as the leading or the trailing two
    /// columns.  Zero where it occurs nowhere.
    pub fn count_nearby(&self, w1: usize, w2: usize) -> (r: Result<u128, DbError>)
        requires
            self@.wf(),
        ensures
            !self@.has_tables ==> r == Err::<u128, _>(DbError::MissingTable),
            self@.has_tables ==> r == Ok::<_, DbError>(sum_nearby(self@.phrases, w1, w2) as u128)
                && sum_nearby(self@.phrases, w1, w2) <= u128::MAX,
    {
        if !self.has_tables {
            return Err(DbError::MissingTable);
        }
        let n = self.phrases.len();
        let mut acc: u128 = 0;
        for i in 0..n
            invariant
                self@.has_tables,
                n == self@.phrases.len(),
                acc == sum_nearby(self@.phrases.take(i as int), w1, w2),
                acc <= (i as int) * (u64::MAX as int),
        {
            let t = self.phrases[i];
            proof {
                assert(self@.phrases.take(i as int).push(t) =~= self@.phrases.take(i as int + 1));
                lemma_sum_nearby_snoc(self@.phrases.take(i as int), t, w1, w2);
                assert(acc + t.freq <= (i as int + 1) * (u64::MAX as int)) by (nonlinear_arith)
                    requires
                        acc <= (i as int) * (u64::MAX as int),
                        t.freq <= u64::MAX,
                        i >= 0,
                ;
                assert((i as int + 1) * (u64::MAX as int) <= (u64::MAX as int) * (
                u64::MAX as int)) by (nonlinear_arith)
                    requires
                        0 <= i as int + 1 <= u64::MAX as int,
                ;
                assert((u64::MAX as int) * (u64::MAX as int) < u128::MAX as int) by (nonlinear_arith);
            }
            if (t.word1 == w1 && t.word2 == w2) || (t.word2 == w1 && t.word3 == w2) {
                acc = acc + t.freq as u128;
            }
        }
        proof {
            assert(self@.phrases.take(n as int) =~= self@.phrases);
        }
        Ok(acc)
    }

    /// Drive a cursor to exhaustion, collecting everything it produces.
    /// The collected chain is valid, bounded by the iteration cap, and
    /// where it ended below the cap no row matched its final window.
    fn run_chain(&self, it: &mut ChainIter) -> (gen: Vec<usize>)
        requires
            self@.wf(),
            old(it).wf(),
        ensures
            final(it).wf(),
            final(it).fields == old(it).fields,
            gen@.len() <= CHAIN_CAP - old(it).count,
            chain_ok(self@.phrases, old(it).fields@, old(it).window@, gen@),
            final(it).window@ == window_after(old(it).window@, gen@),
            self@.has_tables && gen@.len() < CHAIN_CAP - old(it).count ==> !any_match(
                self@.phrases,
                filter_for(old(it).fields@, window_after(old(it).window@, gen@)),
            ),
            !self@.has_tables ==> gen@.len() == 0,
            forall|k: int| 0 <= k < gen@.len() ==> gen@[k] < self@.words.len(),
    {
        let mut gen: Vec<usize> = Vec::new();
        proof {
            assert(gen@ =~= Seq::<usize>::empty());
        }
        loop
            invariant_except_break
                it.count == old(it).count + gen@.len(),
            invariant
                self@.wf(),
                it.wf(),
                it.fields == old(it).fields,
                chain_ok(self@.phrases, old(it).fields@, old(it).window@, gen@),
                it.window@ == window_after(old(it).window@, gen@),
                !self@.has_tables ==> gen@.len() == 0,
                forall|k: int| 0 <= k < gen@.len() ==> gen@[k] < self@.words.len(),
            ensures
                it.wf(),
                it.fields == old(it).fields,
                it.count == old(it).count + gen@.len() || it.count == old(it).count + gen@.len()
                    + 1,
                chain_ok(self@.phrases, old(it).fields@, old(it).window@, gen@),
                it.window@ == window_after(old(it).window@, gen@),
                self@.has_tables && gen@.len() < CHAIN_CAP - old(it).count ==> !any_match(
                    self@.phrases,
                    filter_for(old(it).fields@, window_after(old(it).window@, gen@)),
                ),
                !self@.has_tables ==> gen@.len() == 0,
                forall|k: int| 0 <= k < gen@.len() ==> gen@[k] < self@.words.len(),
            decreases CHAIN_CAP - it.count,
        {
            let produced = it.next(self);
            match produced {
                Some(id) => {
                    proof {
                        lemma_chain_ok_snoc(
                            self@.phrases,
                            old(it).fields@,
                            old(it).window@,
                            gen@,
                            id,
                        );
                    }
                    gen.push(id);
                },
                None => {
                    break ;
                },
            }
        }
        gen
    }

    /// A cursor over this store with the given traversal order, seeded
    /// with at most the last two of the given identifiers; where none is
    /// given the cursor anchors at the sentinel and walks from a phrase
    /// start.
    pub fn complete_ids(
        &self,
        filter1: WordField,
        filter2: WordField,
        filter3: WordField,
        filter_values: Vec<usize>,
    ) -> (it: ChainIter)
        ensures
            it.wf(),
            it.fields@ == seq![filter1, filter2, filter3],
            it.window@ == seeded(last_k(filter_values@, 2)),
            it.count == 0,
    {
        let mut window = last_n(filter_values.as_slice(), 2);
        if window.len() == 0 {
            window.push(0);
            proof {
                assert(window@ =~= seq![0usize]);
            }
        }
        ChainIter { fields: [filter1, filter2, filter3], window, count: 0 }
    }

    /// A forward cursor: walks a phrase left to right from the seed.
    pub fn complete_forward(&self, filter_values: Vec<usize>) -> (it: ChainIter)
        ensures
            it.wf(),
            it.fields@ == fwd_fields(),
            it.window@ == seeded(last_k(filter_values@, 2)),
            it.count == 0,
    {
        self.complete_ids(WordField::One, WordField::Two, WordField::Three, filter_values)
    }

    /// A backward cursor: walks a phrase right to left from the seed.
    pub fn complete_backward(&self, filter_values: Vec<usize>) -> (it: ChainIter)
        ensures
            it.wf(),
            it.fields@ == bwd_fields(),
            it.window@ == seeded(last_k(filter_values@, 2)),
            it.count == 0,
    {
        self.complete_ids(WordField::Three, WordField::Two, WordField::One, filter_values)
    }

    /// A middle cursor: a single-shot lookup that fills a one-word gap
    /// between two known endpoints; the produced word does not chain
    /// further.
    pub fn complete_middle(&self, filter_values: Vec<usize>) -> (it: ChainIter)
        ensures
            it.wf(),
            it.fields@ == mid_fields(),
            it.window@ == seeded(last_k(filter_values@, 2)),
            it.count == 0,
    {
        self.complete_ids(WordField::One, WordField::Three, WordField::Two, filter_values)
    }

    /// The identifiers of the known tokens among the given ones, in order:
    /// unknown tokens and lookup failures are dropped, never fatal.  This
    /// does not intern new words, so it only feeds completion.
    pub fn complete_id_vec(&self, prefix_words: &[&str]) -> (r: Vec<usize>)
        requires
            self@.wf(),
        ensures
            self@.has_tables ==> r@ == resolve_ids(self@.words, prefix_words.deep_view()),
            !self@.has_tables ==> r@.len() == 0,
            forall|k: int| 0 <= k < r@.len() ==> r@[k] < self@.words.len(),
    {
        let mut r: Vec<usize> = Vec::new();
        let n = prefix_words.len();
        proof {
            assert(prefix_words.deep_view().take(0) =~= Seq::<Seq<char>>::empty());
            assert(r@ =~= Seq::<usize>::empty());
        }
        for i in 0..n
            invariant
                self@.wf(),
                n == prefix_words@.len(),
                prefix_words.deep_view().len() == n,
                self@.has_tables ==> r@ == resolve_ids(
                    self@.words,
                    prefix_words.deep_view().take(i as int),
                ),
                !self@.has_tables ==> r@.len() == 0,
                forall|k: int| 0 <= k < r@.len() ==> r@[k] < self@.words.len(),
        {
            let res = self.lookup_id(prefix_words[i]);
            proof {
                assert(prefix_words.deep_view()[i as int] == prefix_words@[i as int]@);
                assert(prefix_words.deep_view().take(i as int).push(
                    prefix_words.deep_view()[i as int],
                ) =~= prefix_words.deep_view().take(i as int + 1));
                if self@.has_tables {
                    lemma_resolve_ids_snoc(
                        self@.words,
                        prefix_words.deep_view().take(i as int),
                        prefix_words.deep_view()[i as int],
                    );
                }
            }
            match res {
                Ok(Some(word_id)) => {
                    proof {
                        let tok = prefix_words.deep_view()[i as int];
                        assert(has_word_in(self@.words, tok));
                        let j = choose|j: int|
                            0 <= j < self@.words.len() && self@.words[j] == tok;
                        assert(self@.words[word_id as int] == tok);
                        assert(j == word_id as int);
                        assert(word_index(self@.words, tok) == word_id);
                        assert(r@.push(word_id) =~= resolve_ids(
                            self@.words,
                            prefix_words.deep_view().take(i as int),
                        ) + seq![word_index(self@.words, tok)]);
                    }
                    r.push(word_id);
                },
                Ok(None) => {
                    proof {
                        let tok = prefix_words.deep_view()[i as int];
                        assert(!has_word_in(self@.words, tok));
                        assert(r@ =~= resolve_ids(
                            self@.words,
                            prefix_words.deep_view().take(i as int),
                        ) + Seq::<usize>::empty());
                    }
                },
                Err(_) => {
                    // A lookup failure is ignored: completion degrades to
                    // what did resolve.
                },
            }
        }
        proof {
            assert(prefix_words.deep_view().take(n as int) =~= prefix_words.deep_view());
        }
        r
    }

    /// Spellings of the given identifiers followed by a forward chain from
    /// their trailing window, stale identifiers dropped.
    pub fn complete_and_map(&self, prefix: Vec<usize>) -> (r: Result<Vec<String>, DbError>)
        requires
            self@.wf(),
        ensures
            !self@.has_tables && prefix@.len() > 0 ==> r == Err::<Vec<String>, _>(
                DbError::MissingTable,
            ),
            !self@.has_tables && prefix@.len() == 0 ==> (r matches Ok(v) && v@.len() == 0),
            self@.has_tables ==> (r matches Ok(v) && exists|gen: Seq<usize>|
                #[trigger] forward_closed(self@, prefix@, gen) && str_views(v@) == spell_all(
                    self@.words,
                    prefix@ + gen,
                )),
    {
        let filter = last_n(prefix.as_slice(), 2);
        let mut it = self.complete_forward(filter);
        let mut gen = self.run_chain(&mut it);
        let ghost gen_view = gen@;
        let mut ids = prefix;
        ids.append(&mut gen);
        proof {
            assert(ids@ == prefix@ + gen_view);
        }
        let mut out: Vec<String> = Vec::new();
        let n = ids.len();
        proof {
            assert(ids@.take(0) =~= Seq::<usize>::empty());
            assert(str_views(out@) =~= Seq::<Seq<char>>::empty());
            assert(spell_all(self@.words, ids@.take(0)) == Seq::<Seq<char>>::empty());
        }
        for i in 0..n
            invariant
                self@.wf(),
                n == ids@.len(),
                !self@.has_tables ==> n as int == prefix@.len(),
                i > 0 ==> self@.has_tables,
                str_views(out@) == spell_all(self@.words, ids@.take(i as int)),
        {
            let id = ids[i];
            proof {
                assert(ids@.take(i as int).push(id) =~= ids@.take(i as int + 1));
                lemma_spell_all_snoc(self@.words, ids@.take(i as int), id);
            }
            let sp = self.spelling_of(id)?;
            match sp {
                Some(s) => {
                    proof {
                        assert(str_views(out@.push(s)) =~= str_views(out@).push(s@));
                    }
                    out.push(s);
                },
                None => {},
            }
        }
        proof {
            assert(ids@.take(n as int) =~= ids@);
            if self@.has_tables {
                assert(last_k(last_k(prefix@, 2), 2) == last_k(prefix@, 2));
                assert(forward_closed(self@, prefix@, gen_view));
            }
        }
        Ok(out)
    }

    /// Resolve prefix tokens to identifiers (dropping unknown ones), then
    /// generate a forward chain from their trailing window and map it back
    /// to spellings.  A store failure degrades to an empty result.
    pub fn complete(&self, prefix: &[&str]) -> (r: Result<Vec<String>, DbError>)
        requires
            self@.wf(),
        ensures
            r is Ok,
            !self@.has_tables ==> (r matches Ok(v) && v@.len() == 0),
            self@.has_tables ==> (r matches Ok(v) && exists|gen: Seq<usize>|
                #[trigger] forward_closed(self@, resolve_ids(self@.words, prefix.deep_view()), gen)
                    && str_views(v@) == spell_all(self@.words, gen)),
    {
        let filter = self.complete_id_vec(prefix);
        let mut it = self.complete_forward(filter);
        let gen = self.run_chain(&mut it);
        let mut out: Vec<String> = Vec::new();
        let n = gen.len();
        proof {
            assert(gen@.take(0) =~= Seq::<usize>::empty());
            assert(str_views(out@) =~= Seq::<Seq<char>>::empty());
            assert(spell_all(self@.words, gen@.take(0)) == Seq::<Seq<char>>::empty());
        }
        for i in 0..n
            invariant
                self@.wf(),
                n == gen@.len(),
                self@.has_tables || gen@.len() == 0,
                forall|k: int| 0 <= k < gen@.len() ==> gen@[k] < self@.words.len(),
                str_views(out@) == spell_all(self@.words, gen@.take(i as int)),
        {
            let id = gen[i];
            proof {
                assert(gen@.take(i as int).push(id) =~= gen@.take(i as int + 1));
                lemma_spell_all_snoc(self@.words, gen@.take(i as int), id);
            }
            let sp = self.spelling_of(id)?;
            match sp {
                Some(s) => {
                    proof {
                        assert(str_views(out@.push(s)) =~= str_views(out@).push(s@));
                    }
                    out.push(s);
                },
                None => {},
            }
        }
        proof {
            assert(gen@.take(n as int) =~= gen@);
            if self@.has_tables {
                assert(last_k(last_k(resolve_ids(self@.words, prefix.deep_view()), 2), 2)
                    == last_k(resolve_ids(self@.words, prefix.deep_view()), 2));
                assert(forward_closed(self@, resolve_ids(self@.words, prefix.deep_view()), gen@));
            }
        }
        Ok(out)
    }

    /// Choose a seed context among the candidates, with probability
    /// proportional to each candidate's corpus support; candidates without
    /// support are dropped, and where none has support the sentinel seeds
    /// a fresh phrase.
    pub fn prime_from_nearby(&self, prefixes: Vec<Vec<&str>>) -> (r: Result<Vec<usize>, DbError>)
        requires
            self@.wf(),
        ensures
            r matches Ok(primer) && {
                &&& primed_from(self@, prefixes.deep_view(), primer@)
                &&& primer@.len() >= 1
                &&& (self@.has_tables ==> forall|l: int|
                    0 <= l < primer@.len() ==> primer@[l] < self@.words.len())
            },
    {
        let ghost pviews = prefixes.deep_view();
        let mut prefix_ids: Vec<Vec<usize>> = Vec::new();
        let mut prefix_counts: Vec<u128> = Vec::new();
        let mut total: u128 = 0;
        let n = prefixes.len();
        proof {
            assert(pviews.len() == n);
        }
        for i in 0..n
            invariant
                self@.wf(),
                n == prefixes@.len(),
                pviews == prefixes.deep_view(),
                pviews.len() == n,
                prefix_ids@.len() == prefix_counts@.len(),
                forall|kk: int|
                    0 <= kk < prefix_ids@.len() ==> is_candidate_of(
                        self@,
                        pviews,
                        i as int,
                        #[trigger] prefix_ids@[kk]@,
                        prefix_counts@[kk] as int,
                    ),
                (exists|j: int| 0 <= j < i && #[trigger] candidate_score(self@, pviews[j]) > 0)
                    <==> prefix_ids@.len() > 0,
                forall|kk: int|
                    0 <= kk < prefix_counts@.len() ==> #[trigger] prefix_counts@[kk] >= 1,
                total as int <= sum_counts(prefix_counts@),
                total >= 1 <==> prefix_counts@.len() > 0,
                forall|kk: int, l: int|
                    0 <= kk < prefix_ids@.len() && 0 <= l < prefix_ids@[kk]@.len()
                        ==> #[trigger] prefix_ids@[kk]@[l] < self@.words.len(),
        {
            let p = &prefixes[i];
            let ids = self.complete_id_vec(p.as_slice());
            proof {
                assert(prefixes@[i as int].deep_view() =~= pviews[i as int]);
                assert(ids@ == candidate_ids(self@, pviews[i as int]));
            }
            let count: u128 = if ids.len() == 2 {
                proof {
                    lemma_sum_nearby_bound(self@.phrases, ids@[0], ids@[1]);
                }
                let c = self.count_nearby(ids[0], ids[1])?;
                c
            } else if ids.len() == 1 {
                1
            } else {
                0
            };
            proof {
                assert(count as int == candidate_score(self@, pviews[i as int]));
            }
            if count > 0 {
                proof {
                    lemma_sum_counts_snoc(prefix_counts@, count);
                }
                prefix_ids.push(ids);
                prefix_counts.push(count);
                total = if total <= u128::MAX - count {
                    total + count
                } else {
                    u128::MAX
                };
            }
        }
        if total > 0 {
            let draw = random_u128();
            let mut pick = draw % total + 1;
            let m = prefix_ids.len();
            proof {
                assert(prefix_counts@.skip(0) =~= prefix_counts@);
            }
            for k in 0..m
                invariant
                    self@.wf(),
                    pviews == prefixes.deep_view(),
                    m == prefix_ids@.len(),
                    prefix_ids@.len() == prefix_counts@.len(),
                    1 <= pick,
                    pick as int <= sum_counts(prefix_counts@.skip(k as int)),
                    forall|kk: int|
                        0 <= kk < prefix_ids@.len() ==> is_candidate_of(
                            self@,
                            pviews,
                            pviews.len() as int,
                            #[trigger] prefix_ids@[kk]@,
                            prefix_counts@[kk] as int,
                        ),
                    exists|j: int|
                        0 <= j < pviews.len() && #[trigger] candidate_score(self@, pviews[j]) > 0,
                    forall|kk: int, l: int|
                        0 <= kk < prefix_ids@.len() && 0 <= l < prefix_ids@[kk]@.len()
                            ==> #[trigger] prefix_ids@[kk]@[l] < self@.words.len(),
            {
                proof {
                    assert(prefix_counts@.skip(k as int)[0] == prefix_counts@[k as int]);
                    assert(prefix_counts@.skip(k as int).drop_first() =~= prefix_counts@.skip(
                        k as int + 1,
                    ));
                }
                let c = prefix_counts[k];
                if pick <= c {
                    let chosen = prefix_ids.swap_remove(k);
                    proof {
                        assert(is_candidate_of(
                            self@,
                            pviews,
                            pviews.len() as int,
                            chosen@,
                            prefix_counts@[k as int] as int,
                        ));
                        let j = choose|j: int|
                            0 <= j < pviews.len() && candidate_ids(self@, pviews[j]) == chosen@
                                && #[trigger] candidate_score(self@, pviews[j]) == prefix_counts@[
                            k as int] as int && prefix_counts@[k as int] as int > 0;
                        assert(chosen@.len() >= 1) by {
                            if candidate_ids(self@, pviews[j]).len() == 0 {
                                assert(candidate_score(self@, pviews[j]) == 0);
                            }
                        }
                        assert(primed_from(self@, pviews, chosen@));
                    }
                    return Ok(chosen);
                }
                pick = pick - c;
            }
            proof {
                assert(prefix_counts@.skip(m as int) =~= Seq::<u128>::empty());
                assert(false);
            }
            Ok(vec![0usize])
        } else {
            proof {
                assert(forall|j: int|
                    0 <= j < pviews.len() ==> #[trigger] candidate_score(self@, pviews[j]) <= 0);
            }
            let sentinel = vec![0usize];
            proof {
                assert(sentinel@ =~= seq![0usize]);
            }
            Ok(sentinel)
        }
    }

    /// Prime a seed context among the candidates, then extend it backward
    /// to a phrase start and forward to a phrase end; where no candidate
    /// has support, generate a fresh phrase from the sentinel.
    pub fn new_complete_middle_out(&self, prefixes: Vec<Vec<&str>>) -> (r: Result<
        Vec<String>,
        DbError,
    >)
        requires
            self@.wf(),
        ensures
            !self@.has_tables ==> r == Err::<Vec<String>, _>(DbError::MissingTable),
            self@.has_tables ==> (r matches Ok(v) && exists|
                primer: Seq<usize>,
                back: Seq<usize>,
                gen: Seq<usize>,
            |
                #![trigger spell_all(self@.words, back.reverse() + primer + gen)]
                {
                    &&& primed_from(self@, prefixes.deep_view(), primer)
                    &&& primer.len() >= 1
                    &&& (primer[0] == 0 ==> back.len() == 0)
                    &&& (primer[0] != 0 ==> backward_closed(self@, primer.reverse(), back))
                    &&& forward_closed(self@, back.reverse() + primer, gen)
                    &&& str_views(v@) == spell_all(self@.words, back.reverse() + primer + gen)
                }),
    {
        let ghost pviews = prefixes.deep_view();
        let primer = self.prime_from_nearby(prefixes)?;
        let ghost primer_v = primer@;
        let ghost mut back_chain: Seq<usize> = Seq::<usize>::empty();
        let first = primer[0];
        let ids = if first == 0 {
            primer
        } else {
            let back_filter = reverse_vec(&primer);
            let mut back_iter = self.complete_backward(back_filter);
            let back = self.run_chain(&mut back_iter);
            proof {
                back_chain = back@;
            }
            let mut combined = reverse_vec(&back);
            let mut primer_m = primer;
            combined.append(&mut primer_m);
            proof {
                assert(combined@ == back_chain.reverse() + primer_v);
            }
            combined
        };
        let ghost ids_v = ids@;
        proof {
            if primer_v[0] == 0 {
                assert(ids_v == primer_v);
                assert(back_chain.reverse() + primer_v =~= ids_v);
            } else {
                assert(ids_v == back_chain.reverse() + primer_v);
            }
        }
        let res = self.complete_and_map(ids);
        proof {
            if self@.has_tables {
                let v = res->Ok_0;
                let gen = choose|gen: Seq<usize>|
                    #[trigger] forward_closed(self@, ids_v, gen) && str_views(v@) == spell_all(
                        self@.words,
                        ids_v + gen,
                    );
                assert(back_chain.reverse() + primer_v =~= ids_v);
                assert(spell_all(self@.words, back_chain.reverse() + primer_v + gen) == spell_all(
                    self@.words,
                    ids_v + gen,
                ));
            }
        }
        res
    }

    /// Middle-out completion of up to three slots (before, match, after):
    /// resolve the endpoint slots, find one connecting middle word, then
    /// extend backward and forward; where no connector exists, fall back
    /// to a fresh phrase from the sentinel.
    pub fn complete_middle_out(&self, prefix: &[&str]) -> (r: Result<Vec<String>, DbError>)
        requires
            self@.wf(),
        ensures
            !self@.has_tables ==> r == Err::<Vec<String>, _>(DbError::MissingTable),
            self@.has_tables ==> (r matches Ok(v) && middle_out_spec(
                self@,
                resolved_slot(self@, prefix.deep_view(), 0),
                resolved_slot(self@, prefix.deep_view(), 2),
                str_views(v@),
            )),
    {
        let first_word: Option<usize> = if prefix.len() >= 1 {
            let looked = self.lookup_id(prefix[0])?;
            proof {
                assert(prefix.deep_view()[0] == prefix@[0]@);
            }
            looked
        } else {
            None
        };
        let last_word: Option<usize> = if prefix.len() >= 3 {
            let looked = self.lookup_id(prefix[2])?;
            proof {
                assert(prefix.deep_view()[2] == prefix@[2]@);
            }
            looked
        } else {
            None
        };
        proof {
            if self@.has_tables {
                assert(first_word == resolved_slot(self@, prefix.deep_view(), 0)) by {
                    if prefix@.len() >= 1 && first_word is Some {
                        let id = first_word->Some_0;
                        let tok = prefix.deep_view()[0];
                        let j = choose|j: int|
                            0 <= j < self@.words.len() && self@.words[j] == tok;
                        assert(j == id as int);
                    }
                }
                assert(last_word == resolved_slot(self@, prefix.deep_view(), 2)) by {
                    if prefix@.len() >= 3 && last_word is Some {
                        let id = last_word->Some_0;
                        let tok = prefix.deep_view()[2];
                        let j = choose|j: int|
                            0 <= j < self@.words.len() && self@.words[j] == tok;
                        assert(j == id as int);
                    }
                }
            }
        }
        let mut middle_filter: Vec<usize> = Vec::new();
        if let Some(w) = first_word {
            middle_filter.push(w);
        }
        if let Some(w) = last_word {
            middle_filter.push(w);
        }
        proof {
            assert(middle_filter@ =~= opt_seq(first_word) + opt_seq(last_word));
        }
        let ghost mf = middle_filter@;
        let middle_word: Option<usize> = if middle_filter.len() == 0 {
            None
        } else {
            let mut mit = self.complete_middle(middle_filter);
            proof {
                assert(last_k(mf, 2) =~= mf);
            }
            mit.next(self)
        };
        match middle_word {
            Some(mid) => {
                let mut filter_ids: Vec<usize> = Vec::new();
                if let Some(w) = first_word {
                    filter_ids.push(w);
                }
                filter_ids.push(mid);
                if let Some(w) = last_word {
                    filter_ids.push(w);
                }
                let ghost ids_v = filter_ids@;
                proof {
                    assert(ids_v =~= opt_seq(first_word) + seq![mid] + opt_seq(last_word));
                }
                let mut back_filter: Vec<usize> = Vec::new();
                if filter_ids.len() >= 2 {
                    back_filter.push(filter_ids[1]);
                }
                back_filter.push(filter_ids[0]);
                proof {
                    assert(back_filter@ =~= ids_v.take(2).reverse());
                    assert(last_k(back_filter@, 2) =~= back_filter@);
                }
                let mut back_iter = self.complete_backward(back_filter);
                let back = self.run_chain(&mut back_iter);
                let ghost back_v = back@;
                let mut ids = reverse_vec(&back);
                let mut fm = filter_ids;
                ids.append(&mut fm);
                proof {
                    assert(ids@ == back_v.reverse() + ids_v);
                }
                let res = self.complete_and_map(ids);
                proof {
                    if self@.has_tables {
                        let v = res->Ok_0;
                        let gen = choose|gen: Seq<usize>|
                            #[trigger] forward_closed(self@, back_v.reverse() + ids_v, gen)
                                && str_views(v@) == spell_all(
                                self@.words,
                                (back_v.reverse() + ids_v) + gen,
                            );
                        assert(spell_all(self@.words, back_v.reverse() + ids_v + gen) == spell_all(
                            self@.words,
                            (back_v.reverse() + ids_v) + gen,
                        ));
                        assert(middle_out_spec(
                            self@,
                            resolved_slot(self@, prefix.deep_view(), 0),
                            resolved_slot(self@, prefix.deep_view(), 2),
                            str_views(v@),
                        ));
                    }
                }
                res
            },
            None => {
                let seed = vec![0usize];
                proof {
                    assert(seed@ =~= seq![0usize]);
                }
                let res = self.complete_and_map(seed);
                proof {
                    if self@.has_tables {
                        let v = res->Ok_0;
                        let gen = choose|gen: Seq<usize>|
                            #[trigger] forward_closed(self@, seq![0usize], gen) && str_views(v@)
                                == spell_all(self@.words, seq![0usize] + gen);
                    }
                }
                res
            },
        }
    }
}

/// The last `k` elements of a sequence (all of it where it is shorter).
pub open spec fn last_k<T>(s: Seq<T>, k: int) -> Seq<T> {
    if s.len() <= k {
        s
    } else {
        s.skip(s.len() - k)
    }
}

/// The last `limit` elements of a slice, in order.
pub fn last_n<T: Copy>(vec: &[T], limit: usize) -> (r: Vec<T>)
    ensures
        r@ == last_k(vec@, limit as int),
{
    let len = vec.len();
    let start = if len <= limit {
        0
    } else {
        len - limit
    };
    let mut r: Vec<T> = Vec::new();
    for i in start..len
        invariant
            start <= len,
            len == vec@.len(),
            r@ =~= vec@.subrange(start as int, i as int),
    {
        r.push(vec[i]);
    }
    proof {
        if vec@.len() <= limit {
            assert(vec@.subrange(0, vec@.len() as int) =~= vec@);
        } else {
            assert(vec@.subrange(start as int, len as int) =~= vec@.skip(
                vec@.len() - limit as int,
            ));
        }
    }
    r
}

/// The non-empty words among the given ones, in order.
pub open spec fn nonempty_words(ws: Seq<Seq<char>>) -> Seq<Seq<char>>
    decreases ws.len(),
{
    if ws.len() == 0 {
        Seq::<Seq<char>>::empty()
    } else {
        let rest = nonempty_words(ws.drop_first());
        if ws[0].len() > 0 {
            seq![ws[0]] + rest
        } else {
            rest
        }
    }
}

/// One more word extends the non-empty words by it, or by nothing where
/// it is empty.
pub proof fn lemma_nonempty_words_snoc(ws: Seq<Seq<char>>, w: Seq<char>)
    ensures
        nonempty_words(ws.push(w)) == nonempty_words(ws) + (if w.len() > 0 {
            seq![w]
        } else {
            Seq::<Seq<char>>::empty()
        }),
    decreases ws.len(),
{
    assert(ws.push(w).len() == ws.len() + 1);
    if ws.len() == 0 {
        assert(ws.push(w)[0] == w);
        assert(ws.push(w).drop_first() =~= Seq::<Seq<char>>::empty());
        assert(nonempty_words(ws.push(w).drop_first()) == Seq::<Seq<char>>::empty());
        assert(nonempty_words(ws) + (if w.len() > 0 {
            seq![w]
        } else {
            Seq::<Seq<char>>::empty()
        }) =~= (if w.len() > 0 {
            seq![w]
        } else {
            Seq::<Seq<char>>::empty()
        }));
    } else {
        assert(ws.push(w)[0] == ws[0]);
        assert(ws.push(w).drop_first() =~= ws.drop_first().push(w));
        lemma_nonempty_words_snoc(ws.drop_first(), w);
        assert(nonempty_words(ws.push(w)) == (if ws[0].len() > 0 {
            seq![ws[0]]
        } else {
            Seq::<Seq<char>>::empty()
        }) + nonempty_words(ws.push(w).drop_first()));
        assert(nonempty_words(ws) + (if w.len() > 0 {
            seq![w]
        } else {
            Seq::<Seq<char>>::empty()
        }) =~= (if ws[0].len() > 0 {
            seq![ws[0]]
        } else {
            Seq::<Seq<char>>::empty()
        }) + (nonempty_words(ws.drop_first()) + (if w.len() > 0 {
            seq![w]
        } else {
            Seq::<Seq<char>>::empty()
        })));
    }
}

/// Words joined with a single space between consecutive ones.
pub open spec fn joined(ws: Seq<Seq<char>>) -> Seq<char>
    decreases ws.len(),
{
    if ws.len() == 0 {
        Seq::<char>::empty()
    } else if ws.len() == 1 {
        ws[0]
    } else {
        ws[0] + seq![' '] + joined(ws.drop_first())
    }
}

/// Joining one more word appends a space and the word (no space before
/// the first word).
pub proof fn lemma_joined_snoc(ws: Seq<Seq<char>>, w: Seq<char>)
    ensures
        ws.len() == 0 ==> joined(ws.push(w)) == w,
        ws.len() > 0 ==> joined(ws.push(w)) == joined(ws) + seq![' '] + w,
    decreases ws.len(),
{
    assert(ws.push(w).len() == ws.len() + 1);
    if ws.len() == 0 {
        assert(ws.push(w)[0] == w);
    } else {
        assert(ws.push(w)[0] == ws[0]);
        assert(ws.push(w).drop_first() =~= ws.drop_first().push(w));
        lemma_joined_snoc(ws.drop_first(), w);
        if ws.len() == 1 {
            assert(joined(ws.push(w)) == ws[0] + seq![' '] + joined(ws.drop_first().push(w)));
            assert(joined(ws.drop_first().push(w)) == w);
            assert(joined(ws) == ws[0]);
        } else {
            assert(joined(ws.push(w)) == ws[0] + seq![' '] + joined(ws.drop_first().push(w)));
            assert(joined(ws.drop_first().push(w)) == joined(ws.drop_first()) + seq![' '] + w);
            assert(ws[0] + seq![' '] + (joined(ws.drop_first()) + seq![' '] + w) =~= (ws[0]
                + seq![' '] + joined(ws.drop_first())) + seq![' '] + w);
        }
    }
}

/// Two vector phrases joined into one string: empty words are dropped and
/// the rest separated by single spaces.
pub fn join_phrase(phrase1: Vec<String>, phrase2: Vec<String>) -> (r: String)
    ensures
        r@ == joined(nonempty_words(str_views(phrase1@ + phrase2@))),
{
    let mut items = phrase1;
    let mut tail = phrase2;
    items.append(&mut tail);
    let mut out = String::new();
    let mut first = true;
    let n = items.len();
    proof {
        assert(items@.take(0) =~= Seq::<String>::empty());
        assert(str_views(items@.take(0)) =~= Seq::<Seq<char>>::empty());
    }
    for i in 0..n
        invariant
            n == items@.len(),
            out@ == joined(nonempty_words(str_views(items@.take(i as int)))),
            first <==> nonempty_words(str_views(items@.take(i as int))).len() == 0,
    {
        let w = &items[i];
        proof {
            assert(str_views(items@.take(i as int + 1)) =~= str_views(items@.take(i as int)).push(
                items@[i as int]@,
            ));
            lemma_nonempty_words_snoc(str_views(items@.take(i as int)), items@[i as int]@);
            if items@[i as int]@.len() > 0 {
                lemma_joined_snoc(
                    nonempty_words(str_views(items@.take(i as int))),
                    items@[i as int]@,
                );
                assert(nonempty_words(str_views(items@.take(i as int))).push(items@[i as int]@)
                    =~= nonempty_words(str_views(items@.take(i as int))) + seq![items@[i as int]@]);
            } else {
                assert(nonempty_words(str_views(items@.take(i as int + 1)))
                    =~= nonempty_words(str_views(items@.take(i as int))));
            }
            reveal_strlit(" ");
            assert(" "@ =~= seq![' ']);
        }
        if !w.as_str().is_empty() {
            if !first {
                out.append(" ");
            }
            out.append(w.as_str());
            first = false;
        }
    }
    proof {
        assert(items@.take(n as int) =~= items@);
    }
    out
}

/// The whitespace-separated tokens of a character sequence, scanned left
/// to right with `cur` the partial token in progress.
pub open spec fn tokenize_acc(s: Seq<char>, i: int, cur: Seq<char>) -> Seq<Seq<char>>
    decreases s.len() - i,
    when 0 <= i <= s.len()
{
    if i >= s.len() {
        if cur.len() > 0 {
            seq![cur]
        } else {
            Seq::<Seq<char>>::empty()
        }
    } else if is_space(s[i]) {
        (if cur.len() > 0 {
            seq![cur]
        } else {
            Seq::<Seq<char>>::empty()
        }) + tokenize_acc(s, i + 1, Seq::<char>::empty())
    } else {
        tokenize_acc(s, i + 1, cur.push(s[i]))
    }
}

/// The whitespace-separated tokens of a character sequence.
pub open spec fn tokenize_spec(s: Seq<char>) -> Seq<Seq<char>> {
    tokenize_acc(s, 0, Seq::<char>::empty())
}

/// The partial token a scan position stands in: the characters since the
/// token's start, or nothing between tokens.
pub open spec fn cur_of(s: Seq<char>, start: Option<usize>, i: int) -> Seq<char> {
    match start {
        Some(st) => s.subrange(st as int, i),
        None => Seq::<char>::empty(),
    }
}

/// Split a phrase on whitespace.  No sentinel padding happens here.
pub fn tokenize_phrase(phrase: &str) -> (r: Vec<&str>)
    ensures
        r.deep_view() == tokenize_spec(phrase@),
{
    let mut r: Vec<&str> = Vec::new();
    let len = phrase.unicode_len();
    let mut start: Option<usize> = None;
    proof {
        assert(r.deep_view() =~= Seq::<Seq<char>>::empty());
    }
    for i in 0..len
        invariant
            len == phrase@.len(),
            match start {
                Some(st) => st < i && !is_space(phrase@[st as int]) && forall|k: int|
                    st <= k < i ==> !is_space(phrase@[k]),
                None => true,
            },
            tokenize_spec(phrase@) == r.deep_view() + tokenize_acc(
                phrase@,
                i as int,
                cur_of(phrase@, start, i as int),
            ),
    {
        let c = phrase.get_char(i);
        if c.is_whitespace() {
            match start {
                Some(st) => {
                    let tok = phrase.substring_char(st, i);
                    let ghost r_old = r.deep_view();
                    r.push(tok);
                    proof {
                        assert(cur_of(phrase@, Some(st), i as int).len() > 0);
                        assert(r.deep_view() =~= r_old.push(tok@));
                        assert(r_old.push(tok@) =~= r_old + seq![cur_of(
                            phrase@,
                            Some(st),
                            i as int,
                        )]);
                    }
                    start = None;
                },
                None => {},
            }
        } else {
            match start {
                Some(st) => {
                    proof {
                        assert(cur_of(phrase@, start, i as int).push(phrase@[i as int])
                            =~= cur_of(phrase@, start, i as int + 1));
                    }
                },
                None => {
                    start = Some(i);
                    proof {
                        assert(Seq::<char>::empty().push(phrase@[i as int]) =~= cur_of(
                            phrase@,
                            start,
                            i as int + 1,
                        ));
                    }
                },
            }
        }
    }
    match start {
        Some(st) => {
            let tok = phrase.substring_char(st, len);
            let ghost r_old = r.deep_view();
            r.push(tok);
            proof {
                assert(cur_of(phrase@, Some(st), len as int).len() > 0);
                assert(r.deep_view() =~= r_old.push(tok@));
                assert(r_old.push(tok@) =~= r_old + seq![cur_of(phrase@, Some(st), len as int)]);
            }
        },
        None => {},
    }
    r
}

/// The haystack framed by empty sentinel tokens on both ends.
pub open spec fn framed_views(haystack: Seq<Seq<char>>) -> Seq<Seq<char>> {
    seq![Seq::<char>::empty()] + haystack + seq![Seq::<char>::empty()]
}

/// Case-insensitive prefix match of the needle against a token.
pub open spec fn needle_matches(needle: Seq<char>, s: Seq<char>) -> bool {
    lower_of(needle).is_prefix_of(lower_of(s))
}

/// The first position at or after `from` whose token the needle matches,
/// or the length where none does.
pub open spec fn first_match_from(fr: Seq<Seq<char>>, needle: Seq<char>, from: int) -> int
    decreases fr.len() - from,
    when 0 <= from <= fr.len()
{
    if from >= fr.len() {
        fr.len() as int
    } else if needle_matches(needle, fr[from]) {
        from
    } else {
        first_match_from(fr, needle, from + 1)
    }
}

/// What searching near a needle returns: nothing where the needle matches
/// no token; else the two-word contexts before and after the first match,
/// as far as they exist, or a single empty-context placeholder for a
/// degenerate single-token phrase.
pub open spec fn find_nearby_spec(needle: Seq<char>, haystack: Seq<Seq<char>>) -> Seq<
    Seq<Seq<char>>,
> {
    let fr = framed_views(haystack);
    let pos = first_match_from(fr, needle, 0);
    if pos == fr.len() {
        Seq::<Seq<Seq<char>>>::empty()
    } else {
        let before: Seq<Seq<Seq<char>>> = if pos > 1 {
            seq![seq![fr[pos - 2], fr[pos - 1]]]
        } else {
            Seq::<Seq<Seq<char>>>::empty()
        };
        let found: Seq<Seq<Seq<char>>> = if pos < fr.len() - 2 {
            before + seq![seq![fr[pos + 1], fr[pos + 2]]]
        } else {
            before
        };
        if found.len() == 0 {
            seq![seq![Seq::<char>::empty()]]
        } else {
            found
        }
    }
}

/// Whether one character sequence begins with another.
fn starts_with_chars(s: &str, p: &str) -> (b: bool)
    ensures
        b == p@.is_prefix_of(s@),
{
    let sl = s.unicode_len();
    let pl = p.unicode_len();
    if pl > sl {
        return false;
    }
    for i in 0..pl
        invariant
            pl == p@.len(),
            sl == s@.len(),
            pl <= sl,
            forall|j: int| 0 <= j < i ==> s@[j] == p@[j],
    {
        if s.get_char(i) != p.get_char(i) {
            return false;
        }
    }
    proof {
        assert(p@ =~= s@.subrange(0, pl as int));
    }
    true
}

/// Search the haystack, framed by phrase boundaries, for a token the
/// needle matches (case-insensitively, by prefix), and return the nearby
/// two-word contexts: none where the needle is absent; the pairs before
/// and/or after the match where they exist; a single empty-context
/// placeholder where the match stands alone.
pub fn find_nearby<'a>(needle: &str, haystack: &[&'a str]) -> (r: Vec<Vec<&'a str>>)
    ensures
        r.deep_view() == find_nearby_spec(needle@, haystack.deep_view()),
{
    proof {
        reveal_strlit("");
        assert(""@ =~= Seq::<char>::empty());
    }
    let lower_needle = lowercase(needle);
    let mut framed: Vec<&str> = Vec::new();
    framed.push("");
    let hn = haystack.len();
    for k in 0..hn
        invariant
            hn == haystack@.len(),
            framed@.len() == k + 1,
            framed.deep_view()[0] =~= Seq::<char>::empty(),
            forall|j: int| 0 <= j < k ==> framed.deep_view()[j + 1] == haystack.deep_view()[j],
    {
        framed.push(haystack[k]);
    }
    framed.push("");
    proof {
        assert(framed.deep_view() =~= framed_views(haystack.deep_view()));
    }
    let ghost fr = framed.deep_view();
    let n = framed.len();
    proof {
        assert(fr.len() == framed@.len());
    }
    let mut pos: usize = 0;
    while pos < n
        invariant_except_break
            n == fr.len(),
            n == framed@.len(),
            fr == framed.deep_view(),
            pos <= n,
            lower_needle@ == lower_of(needle@),
            forall|j: int| 0 <= j < pos ==> !needle_matches(needle@, fr[j]),
        ensures
            n == fr.len(),
            n == framed@.len(),
            fr == framed.deep_view(),
            pos <= n,
            forall|j: int| 0 <= j < pos ==> !needle_matches(needle@, fr[j]),
            pos < n ==> needle_matches(needle@, fr[pos as int]),
        decreases n - pos,
    {
        let lw = lowercase(framed[pos]);
        proof {
            assert(fr[pos as int] == framed@[pos as int]@);
        }
        if starts_with_chars(lw.as_str(), lower_needle.as_str()) {
            proof {
                assert(needle_matches(needle@, fr[pos as int]));
            }
            break ;
        }
        pos = pos + 1;
    }
    proof {
        lemma_first_match_at(fr, needle@, pos as int);
    }
    if pos == n {
        Vec::new()
    } else {
        let mut found: Vec<Vec<&'a str>> = Vec::new();
        if pos > 1 {
            let mut pair: Vec<&'a str> = Vec::new();
            pair.push(framed[pos - 2]);
            pair.push(framed[pos - 1]);
            proof {
                assert(pair.deep_view() =~= seq![fr[pos - 2], fr[pos - 1]]);
            }
            found.push(pair);
        }
        if pos < n - 2 {
            let mut pair: Vec<&'a str> = Vec::new();
            pair.push(framed[pos + 1]);
            pair.push(framed[pos + 2]);
            proof {
                assert(pair.deep_view() =~= seq![fr[pos + 1], fr[pos + 2]]);
            }
            found.push(pair);
        }
        if found.len() == 0 {
            let mut placeholder: Vec<&'a str> = Vec::new();
            placeholder.push("");
            proof {
                assert(placeholder.deep_view() =~= seq![Seq::<char>::empty()]);
            }
            found.push(placeholder);
        }
        proof {
            assert(found.deep_view() =~= find_nearby_spec(needle@, haystack.deep_view()));
        }
        found
    }
}

/// Where every position before `j` fails to match and `j` matches or is
/// the end, the first match stands at `j`.
proof fn lemma_first_match_at(fr: Seq<Seq<char>>, needle: Seq<char>, j: int)
    requires
        0 <= j <= fr.len(),
        forall|k: int| 0 <= k < j ==> !needle_matches(needle, fr[k]),
        j < fr.len() ==> needle_matches(needle, fr[j]),
    ensures
        first_match_from(fr, needle, 0) == j,
{
    lemma_first_match_step(fr, needle, 0, j);
}

/// Helper induction for [`lemma_first_match_at`], from an arbitrary start.
proof fn lemma_first_match_step(fr: Seq<Seq<char>>, needle: Seq<char>, from: int, j: int)
    requires
        0 <= from <= j <= fr.len(),
        forall|k: int| from <= k < j ==> !needle_matches(needle, fr[k]),
        j < fr.len() ==> needle_matches(needle, fr[j]),
    ensures
        first_match_from(fr, needle, from) == j,
    decreases j - from,
{
    if from < j {
        lemma_first_match_step(fr, needle, from + 1, j);
    }
}

/// The elements of a vector in reverse order.
fn reverse_vec<T: Copy>(vec: &Vec<T>) -> (r: Vec<T>)
    ensures
        r@ == vec@.reverse(),
{
    let n = vec.len();
    let mut r: Vec<T> = Vec::new();
    for i in 0..n
        invariant
            n == vec@.len(),
            r@.len() == i,
            forall|j: int| 0 <= j < i ==> r@[j] == vec@[n - 1 - j],
    {
        r.push(vec[n - 1 - i]);
    }
    proof {
        assert(r@ =~= vec@.reverse());
    }
    r
}

/// A resumable, directional generator of word identifiers: a sliding
/// window of at most the last two produced (or seed) identifiers, queried
/// against the store in a fixed traversal order.  The sequence it produces
/// is finite: a hard iteration cap guards against cyclic trigram data.
pub struct ChainIter {
    /// The trigram columns in traversal order: the columns the window is
    /// bound at, then the output column.
    pub fields: [WordField; 3],
    /// At most the last two produced (or seed) word identifiers.
    pub window: Vec<usize>,
    /// How many productions have been attempted.
    pub count: u64,
}

impl ChainIter {
    /// A cursor's window always holds one or two identifiers — at least
    /// its sentinel anchor — and its production count never passes the
    /// cap.
    pub open spec fn wf(self) -> bool {
        1 <= self.window@.len() <= 2 && self.count <= CHAIN_CAP
    }

    /// The filter the next production is drawn under.
    pub open spec fn spec_filter(self) -> Filter {
        filter_for(self.fields@, self.window@)
    }

    /// The column the next production is read from.
    pub open spec fn spec_select(self) -> WordField {
        self.fields@[self.window@.len() as int]
    }

    /// Slide a produced identifier into the window, retaining at most the
    /// last two.
    fn push(&mut self, n: usize)
        requires
            old(self).wf(),
        ensures
            final(self).wf(),
            final(self).fields == old(self).fields,
            final(self).count == old(self).count,
            final(self).window@ == slide(old(self).window@, n),
    {
        while self.window.len() > 1
            invariant
                self.fields == old(self).fields,
                self.count == old(self).count,
                self.window@.len() <= 2,
                old(self).window@.len() <= 1 ==> self.window@ == old(self).window@,
                old(self).window@.len() > 1 ==> 1 <= self.window@.len() && self.window@ == old(
                    self,
                ).window@.skip(old(self).window@.len() - self.window@.len()),
            decreases self.window.len(),
        {
            self.window.remove(0);
            proof {
                if old(self).window@.len() > 1 {
                    assert(self.window@ =~= old(self).window@.skip(
                        old(self).window@.len() - self.window@.len(),
                    ));
                }
            }
        }
        proof {
            if old(self).window@.len() > 1 {
                assert(self.window@ =~= seq![old(self).window@.last()]);
            }
        }
        self.window.push(n);
        proof {
            assert(self.window@ =~= slide(old(self).window@, n));
        }
    }

    /// The cursor's next production: a frequency-weighted random draw
    /// among the rows matching the current window's filter.  The sequence
    /// ends when no row matches, when the cap is reached, or when the
    /// store fails — a store failure demotes to end-of-sequence rather
    /// than propagate.
    pub fn next(&mut self, words: &WordsDb) -> (r: Option<usize>)
        requires
            old(self).wf(),
            words@.wf(),
        ensures
            final(self).wf(),
            final(self).fields == old(self).fields,
            old(self).count >= CHAIN_CAP ==> r is None && *final(self) == *old(self),
            old(self).count < CHAIN_CAP ==> final(self).count == old(self).count + 1 && match r {
                Some(id) => {
                    &&& words@.has_tables
                    &&& id < words@.words.len()
                    &&& chain_step_ok(words@.phrases, old(self).fields@, old(self).window@, id)
                    &&& final(self).window@ == slide(old(self).window@, id)
                },
                None => {
                    &&& final(self).window@ == old(self).window@
                    &&& (words@.has_tables ==> !any_match(words@.phrases, old(self).spec_filter()))
                },
            },
    {
        if self.count >= CHAIN_CAP {
            // Aborting a long chain: possible loop in the trigram data.
            return None;
        }
        self.count = self.count + 1;
        let filter = self.build_filter();
        let select_field = self.fields[self.window.len()];
        let res = words.complete_any(select_field, &filter);
        match res {
            Ok(Some(id)) => {
                proof {
                    let pick = choose|pick: int|
                        1 <= pick <= sum_freq(words@.phrases, filter_for(
                            old(self).fields@,
                            old(self).window@,
                        )) && (#[trigger] pick_row(
                            words@.phrases,
                            filter_for(old(self).fields@, old(self).window@),
                            pick,
                        ) matches Some(t) && field_of(t, old(self).spec_select()) == id);
                    crate::store::lemma_pick_row_matches(
                        words@.phrases,
                        filter_for(old(self).fields@, old(self).window@),
                        pick,
                    );
                }
                self.push(id);
                Some(id)
            },
            Ok(None) => None,
            Err(_) => {
                // A store error demotes to end-of-sequence.
                None
            },
        }
    }

    /// The filter for the current window: each retained identifier bound
    /// at its traversal column.
    fn build_filter(&self) -> (f: Filter)
        requires
            self.wf(),
        ensures
            f == self.spec_filter(),
    {
        let mut f = Filter::empty();
        let n = self.window.len();
        for k in 0..n
            invariant
                self.wf(),
                n == self.window@.len(),
                f == filter_for(self.fields@, self.window@.take(k as int)),
        {
            let fld = self.fields[k];
            let w = self.window[k];
            f = match fld {
                WordField::One => Filter { word1: Some(w), word2: f.word2, word3: f.word3 },
                WordField::Two => Filter { word1: f.word1, word2: Some(w), word3: f.word3 },
                WordField::Three => Filter { word1: f.word1, word2: f.word2, word3: Some(w) },
            };
            proof {
                assert(self.window@.take(k as int + 1).drop_last() =~= self.window@.take(
                    k as int,
                ));
                assert(self.window@.take(k as int + 1).last() == self.window@[k as int]);
            }
        }
        proof {
            assert(self.window@.take(n as int) =~= self.window@);
        }
        f
    }
}

} // verus!
