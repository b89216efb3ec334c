use bazbot::markov_words::{DbError, WordsDb};
use bazbot::markov_words::{find_nearby, join_phrase, last_n, tokenize_phrase};
use bazbot::store::{Filter, WordField};

fn memdb() -> WordsDb {
    WordsDb::new()
}

fn abcde() -> WordsDb {
    let mut w = memdb();
    w.migrate().expect("migrate");
    w.add_line("a b c d e").expect("read line");
    w
}

fn assert_next(words: &WordsDb, chain: &mut bazbot::markov_words::ChainIter, expected: &str) {
    let got = chain.next(words).map(|id| words.spelling_of(id));
    assert_eq!(got.unwrap().unwrap().unwrap(), expected);
}

fn lookup(w: &WordsDb, spelling: &str) -> usize {
    w.lookup_id(spelling).unwrap().unwrap()
}

#[test]
fn we_dont_know_what_to_test_in_main() {
    assert!(true);
}

#[test]
fn summary() {
    let c = abcde();
    let (words, phrases) = c.summary().expect("summary");
    assert_eq!(words, 6);
    assert_eq!(phrases, 5);
}

#[test]
fn forward1() {
    let w = abcde();
    let filter = w.complete_id_vec(&[""]);
    let mut chain = w.complete_forward(filter);
    assert_next(&w, &mut chain, "a");
    assert_next(&w, &mut chain, "b");
}

#[test]
fn forward() {
    let w = abcde();
    let filter = w.complete_id_vec(&["", "a"]);
    let mut chain = w.complete_forward(filter);
    assert_next(&w, &mut chain, "b");
    assert_next(&w, &mut chain, "c");
}

#[test]
fn backward() {
    let w = abcde();
    let filter = w.complete_id_vec(&["", "e"]);
    let mut chain = w.complete_backward(filter);
    assert_next(&w, &mut chain, "d");
    assert_next(&w, &mut chain, "c");
}

#[test]
fn middle1() {
    let w = abcde();
    let filter = w.complete_id_vec(&["", "b"]);
    let mut chain = w.complete_middle(filter);
    assert_next(&w, &mut chain, "a");
}

#[test]
fn middle() {
    let w = abcde();
    let filter = w.complete_id_vec(&["b", "d"]);
    let mut chain = w.complete_middle(filter);
    assert_next(&w, &mut chain, "c");
    let none = chain.next(&w);
    assert_eq!(None, none);
}

#[test]
fn complete_and_map() {
    let w = abcde();
    let complete: Vec<String> = w.complete_and_map(vec![0]).unwrap();
    assert_eq!(vec!["", "a", "b", "c", "d", "e", ""], complete);
}

#[test]
fn search_middle() {
    let filter = find_nearby("baz", &tokenize_phrase("a b baz d e"));
    assert_eq!(vec![vec!["a", "b"], vec!["d", "e"]], filter);
}

#[test]
fn search_begin() {
    let filter = find_nearby("baz", &tokenize_phrase("Baz, b c d e"));
    assert_eq!(vec![vec!["b", "c"]], filter);
}

#[test]
fn search_end() {
    let filter = find_nearby("baz", &tokenize_phrase("a b c d BAZOO!"));
    assert_eq!(vec![vec!["c", "d"]], filter);
}

#[test]
fn search_min() {
    let filter = find_nearby("baz", &tokenize_phrase("baz"));
    assert_eq!(vec![vec![""]], filter);
}

#[test]
fn search_fail() {
    let filter = find_nearby("baz", &tokenize_phrase("That's not a knife!"));
    let empty: Vec<Vec<&str>> = vec![];
    assert_eq!(empty, filter);
}

#[test]
fn interning_is_idempotent() {
    let mut w = memdb();
    w.migrate().expect("migrate");
    let first = w.get_or_create_id("hello").unwrap();
    let second = w.get_or_create_id("hello").unwrap();
    assert_eq!(first, second);
    assert_eq!(w.spelling_of(first).unwrap().unwrap(), "hello");
    let (words, _) = w.summary().unwrap();
    assert_eq!(words, 2);
}

#[test]
fn sentinel_is_word_zero() {
    let mut w = memdb();
    w.migrate().expect("migrate");
    assert_eq!(w.lookup_id("").unwrap(), Some(0));
    assert_eq!(w.spelling_of(0).unwrap().unwrap(), "");
}

#[test]
fn forward_completion_replays_phrase() {
    let w = abcde();
    let words = w.complete(&["a", "b"]).unwrap();
    assert_eq!(vec!["c", "d", "e", ""], words);
}

#[test]
fn increment_counts() {
    let mut w = memdb();
    w.migrate().expect("migrate");
    let a = w.get_or_create_id("a").unwrap();
    let b = w.get_or_create_id("b").unwrap();
    let c = w.get_or_create_id("c").unwrap();
    let f = Filter { word1: Some(a), word2: Some(b), word3: Some(c) };
    assert_eq!(w.get_freq_where(&f).unwrap(), None);
    w.increment(a, b, c).unwrap();
    assert_eq!(w.get_freq_where(&f).unwrap(), Some(1));
    w.increment(a, b, c).unwrap();
    assert_eq!(w.get_freq_where(&f).unwrap(), Some(2));
    let (_, phrases) = w.summary().unwrap();
    assert_eq!(phrases, 1);
}

#[test]
fn total_freq_sums_matching_rows() {
    let mut w = memdb();
    w.migrate().expect("migrate");
    let a = w.get_or_create_id("a").unwrap();
    let b = w.get_or_create_id("b").unwrap();
    let c = w.get_or_create_id("c").unwrap();
    let d = w.get_or_create_id("d").unwrap();
    w.increment(a, b, c).unwrap();
    w.increment(a, b, c).unwrap();
    w.increment(a, b, d).unwrap();
    w.increment(a, d, d).unwrap();
    let pair = Filter { word1: Some(a), word2: Some(b), word3: None };
    assert_eq!(w.get_freq_where(&pair).unwrap(), Some(3));
    let all = Filter { word1: None, word2: None, word3: None };
    assert_eq!(w.get_freq_where(&all).unwrap(), Some(4));
}

#[test]
fn weighted_pick_boundary() {
    let mut w = memdb();
    w.migrate().expect("migrate");
    w.add_line("a b").unwrap();
    let a = lookup(&w, "a");
    let b = lookup(&w, "b");
    let f = Filter { word1: Some(0), word2: Some(a), word3: None };
    // the first matching row has count one: a pick equal to it lands there
    assert_eq!(w.weighted_pick(WordField::Three, &f, 1).unwrap(), Some(b));
    // one past the total is out of range: nothing is selected
    assert_eq!(w.weighted_pick(WordField::Three, &f, 2).unwrap(), None);
}

#[test]
fn weighted_pick_walks_rows_in_order() {
    let mut w = memdb();
    w.migrate().expect("migrate");
    let a = w.get_or_create_id("a").unwrap();
    let b = w.get_or_create_id("b").unwrap();
    let c = w.get_or_create_id("c").unwrap();
    let d = w.get_or_create_id("d").unwrap();
    w.increment(a, b, c).unwrap();
    w.increment(a, b, c).unwrap();
    w.increment(a, b, d).unwrap();
    let f = Filter { word1: Some(a), word2: Some(b), word3: None };
    assert_eq!(w.weighted_pick(WordField::Three, &f, 1).unwrap(), Some(c));
    assert_eq!(w.weighted_pick(WordField::Three, &f, 2).unwrap(), Some(c));
    assert_eq!(w.weighted_pick(WordField::Three, &f, 3).unwrap(), Some(d));
    assert_eq!(w.weighted_pick(WordField::Three, &f, 4).unwrap(), None);
}

#[test]
fn chain_stops_at_cap_on_cyclic_data() {
    let mut w = memdb();
    w.migrate().expect("migrate");
    let a = w.get_or_create_id("a").unwrap();
    let b = w.get_or_create_id("b").unwrap();
    // a two-cycle with no phrase end: (a,b) -> a and (b,a) -> b forever
    w.increment(a, b, a).unwrap();
    w.increment(b, a, b).unwrap();
    let mut chain = w.complete_forward(vec![a, b]);
    let mut produced: usize = 0;
    while let Some(_) = chain.next(&w) {
        produced += 1;
        assert!(produced <= 200);
    }
    assert_eq!(produced, 200);
    assert_eq!(chain.next(&w), None);
}

#[test]
fn migrate_is_idempotent() {
    let mut w = memdb();
    w.migrate().expect("first migrate");
    w.add_line("a b").unwrap();
    let applied_once = w.applied.clone();
    let words_once = w.words.clone();
    let phrases_once = w.phrases.clone();
    w.migrate().expect("second migrate");
    assert_eq!(w.applied, applied_once);
    assert_eq!(w.words, words_once);
    assert_eq!(w.phrases, phrases_once);
}

#[test]
fn round_trip_each_window_retrievable() {
    let mut w = memdb();
    w.migrate().expect("migrate");
    w.add_line("a b c d e").unwrap();
    let ids: Vec<usize> = ["a", "b", "c", "d", "e"].iter().map(|t| lookup(&w, t)).collect();
    let padded: Vec<usize> =
        std::iter::once(0).chain(ids.into_iter()).chain(std::iter::once(0)).collect();
    for win in padded.windows(3) {
        let f = Filter { word1: Some(win[0]), word2: Some(win[1]), word3: None };
        let total = w.get_freq_where(&f).unwrap().expect("window missing");
        let mut reachable = false;
        let mut pick: u128 = 1;
        while pick <= total {
            if w.weighted_pick(WordField::Three, &f, pick).unwrap() == Some(win[2]) {
                reachable = true;
            }
            pick += 1;
        }
        assert!(reachable);
    }
}

#[test]
fn missing_tables_error() {
    let mut w = memdb();
    assert_eq!(w.summary(), Err(DbError::MissingTable));
    assert_eq!(w.lookup_id("a"), Err(DbError::MissingTable));
    assert_eq!(w.spelling_of(0), Err(DbError::MissingTable));
    assert_eq!(w.increment(0, 0, 0), Err(DbError::MissingTable));
    assert_eq!(w.add_phrase(&["a".to_string()]), Err(DbError::MissingTable));
    // completion demotes the failure to an empty result
    assert_eq!(w.complete(&["a"]).unwrap(), Vec::<String>::new());
}

#[test]
fn invalid_word_id_error() {
    let mut w = memdb();
    w.migrate().expect("migrate");
    assert_eq!(w.increment(5, 5, 5), Err(DbError::InvalidWordId));
}

#[test]
fn tokenize_splits_on_any_whitespace() {
    assert_eq!(tokenize_phrase("a\tb\nc  d "), vec!["a", "b", "c", "d"]);
    assert_eq!(tokenize_phrase(""), Vec::<&str>::new());
    assert_eq!(tokenize_phrase("   "), Vec::<&str>::new());
    assert_eq!(tokenize_phrase("one"), vec!["one"]);
}

#[test]
fn join_drops_empty_words() {
    let joined = join_phrase(
        vec!["".to_string(), "a".to_string()],
        vec!["b".to_string(), "".to_string(), "c".to_string()],
    );
    assert_eq!(joined, "a b c");
    assert_eq!(join_phrase(vec![], vec![]), "");
}

#[test]
fn last_n_keeps_the_tail() {
    assert_eq!(last_n(&[1, 2, 3, 4], 2), vec![3, 4]);
    assert_eq!(last_n(&[1, 2], 5), vec![1, 2]);
    assert_eq!(last_n(&[] as &[i32], 2), Vec::<i32>::new());
}

#[test]
fn find_nearby_matches_case_insensitive_prefix() {
    // the lowercase folding must really fold: an upper-case haystack word
    // is matched by a lower-case needle
    let toks = vec!["X", "Y", "BAZZY", "Z", "W"];
    let filter = find_nearby("baz", &toks);
    assert_eq!(vec![vec!["X", "Y"], vec!["Z", "W"]], filter);
}

#[test]
fn complete_middle_out_fills_a_gap() {
    let mut w = abcde();
    w.add_line("a b c d e").unwrap();
    let words = w.complete_middle_out(&["b", "?", "d"]).unwrap();
    assert_eq!(words, vec!["", "a", "b", "c", "d", "e", ""]);
}

#[test]
fn complete_middle_out_falls_back_to_fresh_phrase() {
    let w = abcde();
    // no connector between unknown endpoints: a fresh phrase is generated
    let words = w.complete_middle_out(&["nope", "?", "nada"]).unwrap();
    assert_eq!(words, vec!["", "a", "b", "c", "d", "e", ""]);
}

#[test]
fn new_complete_middle_out_primes_from_context() {
    let w = abcde();
    let words = w.new_complete_middle_out(vec![vec!["a", "b"]]).unwrap();
    assert_eq!(words, vec!["", "a", "b", "c", "d", "e", ""]);
}

#[test]
fn prime_without_support_seeds_sentinel() {
    let w = abcde();
    let primer = w.prime_from_nearby(vec![vec!["nope", "nada"]]).unwrap();
    assert_eq!(primer, vec![0]);
}

#[test]
fn unresolved_prefix_starts_fresh_phrase() {
    let w = abcde();
    // no token resolves: the cursor anchors at the sentinel and walks a
    // phrase from its start instead of sampling arbitrary rows
    let words = w.complete(&["nope", "nada"]).unwrap();
    assert_eq!(words, vec!["a", "b", "c", "d", "e", ""]);
}
