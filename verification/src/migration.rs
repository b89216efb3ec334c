//! Ordered, idempotent schema migrations.
//!
//! A migration is a named batch of schema statements identified by a stable
//! string id, applied at most once and in fixed declared order.  A reserved
//! base migration creates the migration log itself; its completion is
//! detected structurally (presence of the log), not via a log entry.

use vstd::prelude::*;

use crate::markov_words::{DbError, DbModel, WordsDb};
use crate::store::Trigram;

verus! {

/// A named, idempotent batch of schema statements.
#[derive(Debug)]
pub struct Migration {
    pub m_id: &'static str,
    pub m_sql: &'static str,
}

/// Id of the reserved base migration that creates the migration log.
pub open spec fn base_id() -> Seq<char> {
    "init"@
}

/// Id of the migration that creates the word and trigram tables and seeds
/// the sentinel word.
pub open spec fn init_tables_id() -> Seq<char> {
    "words_and_phrases_init"@
}

/// Id of the migration that adds the spelling view.
pub open spec fn spelling_view_id() -> Seq<char> {
    "phrases_spelling_view"@
}

/// Id of the migration that adds the backward-traversal index.
pub open spec fn backward_index_id() -> Seq<char> {
    "idx_phrases_backward"@
}

/// The base migration's statement: it creates the migration log itself.
/// Once released, a migration's statements never change: this literal text
/// is the wire contract with any existing database file.
pub open spec fn base_sql() -> Seq<char> {
    "create table migrations ( m_id primary key );"@
}

/// The statements that create the word and trigram tables, their indexes,
/// and the sentinel word.
pub open spec fn init_tables_sql() -> Seq<char> {
    "
        CREATE TABLE words (word_id integer primary key autoincrement, spelling text not null);
        CREATE TABLE phrases (
            word1 integer not null, word2 integer not null, word3 integer not null, freq integer not null,
            foreign key (word1) references words(word_id),
            foreign key (word2) references words(word_id),
            foreign key (word3) references words(word_id)
        );
        insert into words (word_id, spelling) values (0,'');
        CREATE UNIQUE INDEX idx_words on words (word_id);
        CREATE UNIQUE INDEX idx_spelling on words (spelling);
        CREATE UNIQUE INDEX idx_phrases_u on phrases (word1,word2,word3);"@
}

/// The statement that creates the convenience view joining trigram rows to
/// spellings.
pub open spec fn spelling_view_sql() -> Seq<char> {
    "
        create view phrases_spelling as
        select w1.spelling as word1, w2.spelling as word2, w3.spelling as word3, freq
        from phrases
        inner join words w1 on phrases.word1 = w1.word_id
        inner join words w2 on phrases.word2 = w2.word_id
        inner join words w3 on phrases.word3 = w3.word_id;
        "@
}

/// The statement that creates the backward-traversal index.
pub open spec fn backward_index_sql() -> Seq<char> {
    "create index idx_phrases_backward on phrases(word3, word2);"@
}

/// The four migration ids are pairwise distinct.
pub proof fn lemma_migration_ids_distinct()
    ensures
        base_id() != init_tables_id(),
        base_id() != spelling_view_id(),
        base_id() != backward_index_id(),
        init_tables_id() != spelling_view_id(),
        init_tables_id() != backward_index_id(),
        spelling_view_id() != backward_index_id(),
{
    reveal_strlit("init");
    reveal_strlit("words_and_phrases_init");
    reveal_strlit("phrases_spelling_view");
    reveal_strlit("idx_phrases_backward");
    assert(base_id().len() == 4);
    assert(init_tables_id().len() == 22);
    assert(spelling_view_id().len() == 21);
    assert(backward_index_id().len() == 20);
}

/// The reserved base migration.
pub fn base() -> (m: Migration)
    ensures
        m.m_id@ == base_id(),
        m.m_sql@ == base_sql(),
{
    Migration { m_id: "init", m_sql: "create table migrations ( m_id primary key );" }
}

/// The ordered list of released migrations.  Once released, a migration's
/// id and statements never change; new ones are only appended.
pub fn migrations() -> (ms: Vec<Migration>)
    ensures
        ms@.len() == 3,
        ms@[0].m_id@ == init_tables_id(),
        ms@[1].m_id@ == spelling_view_id(),
        ms@[2].m_id@ == backward_index_id(),
        ms@[0].m_sql@ == init_tables_sql(),
        ms@[1].m_sql@ == spelling_view_sql(),
        ms@[2].m_sql@ == backward_index_sql(),
{
    let mut ms: Vec<Migration> = Vec::new();
    ms.push(
        Migration {
            m_id: "words_and_phrases_init",
            m_sql: "
        CREATE TABLE words (word_id integer primary key autoincrement, spelling text not null);
        CREATE TABLE phrases (
            word1 integer not null, word2 integer not null, word3 integer not null, freq integer not null,
            foreign key (word1) references words(word_id),
            foreign key (word2) references words(word_id),
            foreign key (word3) references words(word_id)
        );
        insert into words (word_id, spelling) values (0,'');
        CREATE UNIQUE INDEX idx_words on words (word_id);
        CREATE UNIQUE INDEX idx_spelling on words (spelling);
        CREATE UNIQUE INDEX idx_phrases_u on phrases (word1,word2,word3);",
        },
    );
    ms.push(
        Migration {
            m_id: "phrases_spelling_view",
            m_sql: "
        create view phrases_spelling as
        select w1.spelling as word1, w2.spelling as word2, w3.spelling as word3, freq
        from phrases
        inner join words w1 on phrases.word1 = w1.word_id
        inner join words w2 on phrases.word2 = w2.word_id
        inner join words w3 on phrases.word3 = w3.word_id;
        ",
        },
    );
    ms.push(
        Migration {
            m_id: "idx_phrases_backward",
            m_sql: "create index idx_phrases_backward on phrases(word3, word2);",
        },
    );
    ms
}

/// The effect of one migration's statement batch on the store, plus its
/// log entry.
pub open spec fn run_effect(m: DbModel, id: Seq<char>) -> DbModel {
    DbModel {
        has_log: m.has_log || id == base_id(),
        applied: m.applied.push(id),
        has_tables: m.has_tables || id == init_tables_id(),
        words: if id == init_tables_id() {
            seq![Seq::<char>::empty()]
        } else {
            m.words
        },
        phrases: if id == init_tables_id() {
            Seq::<Trigram>::empty()
        } else {
            m.phrases
        },
    }
}

/// The store after the base migration: the log exists, created and logged
/// where it was missing.
pub open spec fn base_applied(m: DbModel) -> DbModel {
    if m.has_log {
        m
    } else {
        run_effect(m, base_id())
    }
}

/// The store after one migration, run only where its id is not yet logged.
pub open spec fn apply_if_missing(m: DbModel, id: Seq<char>) -> DbModel {
    if m.applied.contains(id) {
        m
    } else {
        run_effect(m, id)
    }
}

/// The store after the released migrations, each applied at most once, in
/// declared order.
pub open spec fn apply_seq(m: DbModel, ids: Seq<Seq<char>>) -> DbModel
    decreases ids.len(),
{
    if ids.len() == 0 {
        m
    } else {
        apply_seq(apply_if_missing(m, ids[0]), ids.drop_first())
    }
}

/// The ids of the released migrations, in order.
pub open spec fn released_ids() -> Seq<Seq<char>> {
    seq![init_tables_id(), spelling_view_id(), backward_index_id()]
}

/// The store after a whole migration run.
pub open spec fn migrate_spec(m: DbModel) -> DbModel {
    apply_seq(base_applied(m), released_ids())
}

/// Applying one more migration to a folded run.
pub proof fn lemma_apply_seq_snoc(m: DbModel, ids: Seq<Seq<char>>, id: Seq<char>)
    ensures
        apply_seq(m, ids.push(id)) == apply_if_missing(apply_seq(m, ids), id),
    decreases ids.len(),
{
    assert(ids.push(id).len() == ids.len() + 1);
    if ids.len() == 0 {
        assert(ids.push(id)[0] == id);
        assert(ids.push(id).drop_first() =~= Seq::<Seq<char>>::empty());
        assert(apply_seq(m, ids.push(id)) == apply_seq(
            apply_if_missing(m, id),
            ids.push(id).drop_first(),
        ));
        assert(apply_seq(apply_if_missing(m, id), Seq::<Seq<char>>::empty()) == apply_if_missing(
            m,
            id,
        ));
    } else {
        assert(ids.push(id)[0] == ids[0]);
        assert(ids.push(id).drop_first() =~= ids.drop_first().push(id));
        lemma_apply_seq_snoc(apply_if_missing(m, ids[0]), ids.drop_first(), id);
        assert(apply_seq(m, ids.push(id)) == apply_seq(
            apply_if_missing(m, ids[0]),
            ids.push(id).drop_first(),
        ));
        assert(apply_seq(m, ids) == apply_seq(apply_if_missing(m, ids[0]), ids.drop_first()));
    }
}

/// Whether two character sequences are the same spelling.
fn str_eq(a: &str, b: &str) -> (r: bool)
    ensures
        r == (a@ == b@),
{
    let owned_a = a.to_owned();
    let owned_b = b.to_owned();
    owned_a == owned_b
}

/// Bring a store's schema up to the latest known version; safe on every
/// startup, including against an empty store.
pub fn migrate(db: &mut WordsDb) -> (r: Result<(), DbError>)
    requires
        old(db)@.wf(),
    ensures
        final(db)@.wf(),
        r == Ok::<(), DbError>(()),
        final(db)@ == migrate_spec(old(db)@),
{
    let m = Migrator::new();
    m.migrate(db)
}

/// Applies the ordered migrations to a store, each at most once.
pub struct Migrator {}

impl Migrator {
    /// A migrator for one run.
    pub fn new() -> Migrator {
        Migrator {  }
    }

    /// Run the base migration structurally, then every released migration
    /// whose id is not yet logged, in declared order.
    pub fn migrate(&self, db: &mut WordsDb) -> (r: Result<(), DbError>)
        requires
            old(db)@.wf(),
        ensures
            final(db)@.wf(),
            r == Ok::<(), DbError>(()),
            final(db)@ == migrate_spec(old(db)@),
    {
        self.base_migration(db)?;
        let ms = migrations();
        let ghost ids = released_ids();
        proof {
            assert(ids =~= ms@.map_values(|mg: Migration| mg.m_id@));
            assert(apply_seq(base_applied(old(db)@), ids.take(0)) == base_applied(old(db)@));
        }
        let n = ms.len();
        for i in 0..n
            invariant
                n == ms@.len(),
                ids.len() == n,
                forall|j: int| 0 <= j < n ==> ids[j] == #[trigger] ms@[j].m_id@,
                ids == released_ids(),
                db@.wf(),
                db@.has_log,
                db@ == apply_seq(base_applied(old(db)@), ids.take(i as int)),
        {
            proof {
                lemma_migration_ids_distinct();
                assert(ids.take(i as int).push(ids[i as int]) =~= ids.take(i as int + 1));
                lemma_apply_seq_snoc(base_applied(old(db)@), ids.take(i as int), ids[i as int]);
                assert(ids[i as int] != base_id());
            }
            let already = self.check_migration(db, &ms[i])?;
            if !already {
                self.run_migration(db, &ms[i])?;
                proof {
                    assert(db@ == apply_if_missing(
                        apply_seq(base_applied(old(db)@), ids.take(i as int)),
                        ids[i as int],
                    ));
                }
            }
        }
        proof {
            assert(ids.take(n as int) =~= ids);
        }
        Ok(())
    }

    /// The base migration goes by structure, not by the log: where the log
    /// table is missing, create it; where it exists, nothing to do.
    fn base_migration(&self, db: &mut WordsDb) -> (r: Result<(), DbError>)
        requires
            old(db)@.wf(),
        ensures
            final(db)@.wf(),
            final(db)@.has_log,
            r == Ok::<(), DbError>(()),
            final(db)@ == base_applied(old(db)@),
    {
        if db.has_log {
            Ok(())
        } else {
            proof {
                lemma_migration_ids_distinct();
            }
            let b = base();
            self.run_migration(db, &b)
        }
    }

    /// Whether a migration's id is already logged; a missing log table
    /// reads as "not yet applied", not as an error.
    fn check_migration(&self, db: &WordsDb, migration: &Migration) -> (r: Result<bool, DbError>)
        requires
            db@.wf(),
        ensures
            r == Ok::<bool, DbError>(db@.has_log && db@.applied.contains(migration.m_id@)),
    {
        if !db.has_log {
            return Ok(false);
        }
        let n = db.applied.len();
        proof {
            assert(db@.applied.len() == n);
        }
        for i in 0..n
            invariant
                db@.has_log,
                n == db.applied@.len(),
                db@.applied.len() == n,
                forall|j: int| 0 <= j < i ==> db@.applied[j] != migration.m_id@,
        {
            if str_eq(db.applied[i].as_str(), migration.m_id) {
                proof {
                    assert(db@.applied[i as int] == migration.m_id@);
                    assert(db@.applied.contains(migration.m_id@));
                }
                return Ok(true);
            }
        }
        proof {
            assert(!db@.applied.contains(migration.m_id@));
        }
        Ok(false)
    }

    /// Execute a migration's statement batch as one unit, then record its
    /// id in the log.
    fn run_migration(&self, db: &mut WordsDb, migration: &Migration) -> (r: Result<(), DbError>)
        requires
            old(db)@.wf(),
            !old(db)@.applied.contains(migration.m_id@),
            migration.m_id@ == base_id() ==> !old(db)@.has_log,
            migration.m_id@ != base_id() ==> old(db)@.has_log,
            migration.m_id@ == init_tables_id() ==> !old(db)@.has_tables,
        ensures
            final(db)@.wf(),
            r == Ok::<(), DbError>(()),
            final(db)@ == run_effect(old(db)@, migration.m_id@),
    {
        proof {
            lemma_migration_ids_distinct();
        }
        if str_eq(migration.m_id, "init") {
            db.has_log = true;
        } else if str_eq(migration.m_id, "words_and_phrases_init") {
            db.has_tables = true;
            let mut words: Vec<String> = Vec::new();
            words.push(String::new());
            db.words = words;
            db.phrases = Vec::new();
        }
        db.applied.push(migration.m_id.to_owned());
        proof {
            assert(db@.applied =~= old(db)@.applied.push(migration.m_id@));
            if migration.m_id@ == init_tables_id() {
                assert(db@.words =~= seq![Seq::<char>::empty()]);
                assert(db@.phrases =~= Seq::<Trigram>::empty());
            } else {
                assert(db@.words == old(db)@.words);
                assert(db@.phrases == old(db)@.phrases);
            }
            assert(db@ =~= run_effect(old(db)@, migration.m_id@));
            assert(db@.applied[old(db)@.applied.len() as int] == migration.m_id@);
            assert(db@.applied.contains(migration.m_id@));
            if old(db)@.has_tables {
                let w = choose|w: int|
                    0 <= w < old(db)@.applied.len() && old(db)@.applied[w] == init_tables_id();
                assert(db@.applied[w] == init_tables_id());
                assert(db@.applied.contains(init_tables_id()));
            }
            if db@.has_tables && !old(db)@.has_tables {
                assert(migration.m_id@ == init_tables_id());
            }
            if db@.applied.contains(init_tables_id()) && !db@.has_tables {
                let w = choose|w: int|
                    0 <= w < db@.applied.len() && db@.applied[w] == init_tables_id();
                assert(w < old(db)@.applied.len() || db@.applied[w] == migration.m_id@);
                if w < old(db)@.applied.len() {
                    assert(old(db)@.applied.contains(init_tables_id()));
                }
            }
            assert(final(db)@.wf());
        }
        Ok(())
    }
}

/// Migration is idempotent: a second run right after a first changes
/// nothing — no schema changes and no errors.
pub proof fn lemma_migrate_idempotent(m: DbModel)
    requires
        m.wf(),
    ensures
        migrate_spec(migrate_spec(m)) == migrate_spec(m),
{
    lemma_migration_ids_distinct();
    let m1 = migrate_spec(m);
    lemma_migrate_applies_all(m);
    assert(base_applied(m1) == m1);
    assert(apply_if_missing(m1, init_tables_id()) == m1);
    assert(apply_if_missing(m1, spelling_view_id()) == m1);
    assert(apply_if_missing(m1, backward_index_id()) == m1);
    lemma_migrate_unfolds(m1);
}

/// One migration run unfolds to the three released migrations after the
/// base one.
pub proof fn lemma_migrate_unfolds(m: DbModel)
    ensures
        migrate_spec(m) == apply_if_missing(
            apply_if_missing(
                apply_if_missing(base_applied(m), init_tables_id()),
                spelling_view_id(),
            ),
            backward_index_id(),
        ),
{
    let m0 = base_applied(m);
    let m1 = apply_if_missing(m0, init_tables_id());
    let m2 = apply_if_missing(m1, spelling_view_id());
    let ids = released_ids();
    assert(ids[0] == init_tables_id());
    assert(ids.drop_first() =~= seq![spelling_view_id(), backward_index_id()]);
    assert(ids.drop_first()[0] == spelling_view_id());
    assert(ids.drop_first().drop_first() =~= seq![backward_index_id()]);
    assert(ids.drop_first().drop_first()[0] == backward_index_id());
    assert(ids.drop_first().drop_first().drop_first() =~= Seq::<Seq<char>>::empty());
    assert(apply_seq(m0, ids) == apply_seq(m1, ids.drop_first()));
    assert(apply_seq(m1, ids.drop_first()) == apply_seq(m2, ids.drop_first().drop_first()));
    assert(apply_seq(m2, ids.drop_first().drop_first()) == apply_seq(
        apply_if_missing(m2, backward_index_id()),
        ids.drop_first().drop_first().drop_first(),
    ));
}

/// After one migration run, the log exists and every released id is
/// logged.
pub proof fn lemma_migrate_applies_all(m: DbModel)
    requires
        m.wf(),
    ensures
        migrate_spec(m).has_log,
        migrate_spec(m).applied.contains(init_tables_id()),
        migrate_spec(m).applied.contains(spelling_view_id()),
        migrate_spec(m).applied.contains(backward_index_id()),
{
    lemma_migration_ids_distinct();
    let m0 = base_applied(m);
    let m1 = apply_if_missing(m0, init_tables_id());
    let m2 = apply_if_missing(m1, spelling_view_id());
    let m3 = apply_if_missing(m2, backward_index_id());
    lemma_migrate_unfolds(m);
    assert(migrate_spec(m) == m3);
    lemma_contains_after_apply(m0, init_tables_id());
    lemma_contains_preserved(m1, spelling_view_id(), init_tables_id());
    lemma_contains_after_apply(m1, spelling_view_id());
    lemma_contains_preserved(m2, backward_index_id(), init_tables_id());
    lemma_contains_preserved(m2, backward_index_id(), spelling_view_id());
    lemma_contains_after_apply(m2, backward_index_id());
}

/// Applying a migration leaves its id logged.
proof fn lemma_contains_after_apply(m: DbModel, id: Seq<char>)
    ensures
        apply_if_missing(m, id).applied.contains(id),
{
    if !m.applied.contains(id) {
        assert(m.applied.push(id)[m.applied.len() as int] == id);
    }
}

/// Applying a migration keeps every id already logged.
proof fn lemma_contains_preserved(m: DbModel, id: Seq<char>, other: Seq<char>)
    requires
        m.applied.contains(other),
    ensures
        apply_if_missing(m, id).applied.contains(other),
{
    if !m.applied.contains(id) {
        let w = choose|w: int| 0 <= w < m.applied.len() && m.applied[w] == other;
        assert(m.applied.push(id)[w] == other);
    }
}

} // verus!

