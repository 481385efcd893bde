use crate::Migrations;
use vstd::prelude::*;

verus! {

// ---------------------------------------------------------------------------
// Records
// ---------------------------------------------------------------------------

/// One persisted row of the state table: the script pair of an applied
/// batch, keyed by an increasing identifier. The row with the highest
/// identifier is the cursor.
pub struct MigrationRecord {
    pub id: u64,
    pub up_file: String,
    pub down_file: String,
}

/// Mathematical image of a record.
pub struct RecordModel {
    pub id: int,
    pub up_file: Seq<char>,
    pub down_file: Seq<char>,
}

impl View for MigrationRecord {
    type V = RecordModel;

    open spec fn view(&self) -> RecordModel {
        RecordModel { id: self.id as int, up_file: self.up_file@, down_file: self.down_file@ }
    }
}

pub open spec fn records_view(rs: Seq<MigrationRecord>) -> Seq<RecordModel> {
    rs.map_values(|r: MigrationRecord| r@)
}

/// The records that survive deletion by down-file name.
pub open spec fn remove_down(s: Seq<RecordModel>, down: Seq<char>) -> Seq<RecordModel> {
    s.filter(|r: RecordModel| r.down_file != down)
}

/// The state left after deleting by each down-file name in turn.
pub open spec fn rollback_all(s: Seq<RecordModel>, downs: Seq<Seq<char>>) -> Seq<RecordModel>
    decreases downs.len(),
{
    if downs.len() == 0 {
        s
    } else {
        rollback_all(remove_down(s, downs[0]), downs.drop_first())
    }
}

/// The down-file names of a record sequence, in record order.
pub open spec fn downs_of(s: Seq<RecordModel>) -> Seq<Seq<char>> {
    s.map_values(|r: RecordModel| r.down_file)
}

/// The identifier the next record receives.
pub open spec fn next_id(s: Seq<RecordModel>) -> int {
    if s.len() == 0 {
        1
    } else {
        s.last().id + 1
    }
}

/// The state left after recording each batch of a catalog in order.
pub open spec fn apply_all(
    s: Seq<RecordModel>,
    ups: Seq<Seq<char>>,
    downs: Seq<Seq<char>>,
) -> Seq<RecordModel>
    decreases ups.len(),
{
    if ups.len() == 0 || downs.len() == 0 {
        s
    } else {
        apply_all(
            s.push(RecordModel { id: next_id(s), up_file: ups[0], down_file: downs[0] }),
            ups.drop_first(),
            downs.drop_first(),
        )
    }
}

// ---------------------------------------------------------------------------
// The state table
// ---------------------------------------------------------------------------

/// Model of the state table: the applied batches in application order.
/// Apply inserts a record at the end; rollback deletes the record whose
/// down-file name matches.
pub struct StateTable {
    records: Vec<MigrationRecord>,
}

impl View for StateTable {
    type V = Seq<RecordModel>;

    closed spec fn view(&self) -> Seq<RecordModel> {
        records_view(self.records@)
    }
}

impl StateTable {
    /// Identifiers increase with position, so the last record carries the
    /// highest identifier.
    pub open spec fn wf(self) -> bool {
        forall|i: int, j: int| 0 <= i < j < self@.len() ==> self@[i].id < self@[j].id
    }

    pub fn new() -> (s: StateTable)
        ensures
            s@ == Seq::<RecordModel>::empty(),
            s.wf(),
    {
        let s = StateTable { records: Vec::new() };
        proof {
            assert(s@ =~= Seq::<RecordModel>::empty());
        }
        s
    }

    /// How many batches are currently applied.
    pub fn count(&self) -> (n: u64)
        ensures
            n as int == self@.len(),
    {
        self.records.len() as u64
    }

    /// The cursor's up-file or down-file name, or `None` when no batch has
    /// been applied.
    pub fn last_applied(&self, direction: Migrations) -> (r: Option<String>)
        ensures
            match r {
                Option::None => self@.len() == 0,
                Option::Some(f) => self@.len() > 0 && f@ == (match direction {
                    Migrations::UP => self@.last().up_file,
                    Migrations::DOWN => self@.last().down_file,
                }),
            },
    {
        let n = self.records.len();
        if n == 0 {
            None
        } else {
            let rec = &self.records[n - 1];
            match direction {
                Migrations::UP => Some(rec.up_file.clone()),
                Migrations::DOWN => Some(rec.down_file.clone()),
            }
        }
    }

    /// Appends the record of a freshly applied batch; it becomes the new
    /// cursor, under an identifier above every existing one.
    pub fn insert(&mut self, up_file: String, down_file: String)
        requires
            old(self).wf(),
            old(self)@.len() > 0 ==> old(self)@.last().id < u64::MAX,
        ensures
            final(self).wf(),
            final(self)@ == old(self)@.push(
                RecordModel { id: next_id(old(self)@), up_file: up_file@, down_file: down_file@ },
            ),
    {
        let n = self.records.len();
        let id: u64 = if n == 0 {
            1
        } else {
            self.records[n - 1].id + 1
        };
        self.records.push(MigrationRecord { id, up_file, down_file });
        proof {
            assert(final(self)@ =~= old(self)@.push(final(self)@.last()));
        }
    }

    /// Deletes every record whose down-file name equals `down_file`; with
    /// pairwise distinct down-file names that is the one record of the
    /// rolled-back batch.
    #[verifier::loop_isolation(false)]
    pub fn remove(&mut self, down_file: &String)
        requires
            old(self).wf(),
        ensures
            final(self).wf(),
            final(self)@ == remove_down(old(self)@, down_file@),
    {
        let ghost rs = self@;
        let ghost pred = |r: RecordModel| r.down_file != down_file@;
        let mut kept: Vec<MigrationRecord> = Vec::new();
        let n = self.records.len();
        let mut i: usize = 0;
        proof {
            reveal(Seq::filter);
            assert(records_view(kept@) =~= rs.subrange(0, 0).filter(pred));
        }
        while i < n
            invariant
                i <= n,
                records_view(kept@) == rs.subrange(0, i as int).filter(pred),
                forall|a: int, b: int|
                    0 <= a < b < records_view(kept@).len() ==> records_view(kept@)[a].id
                        < records_view(kept@)[b].id,
                forall|a: int, j: int|
                    0 <= a < records_view(kept@).len() && i <= j < rs.len() ==> records_view(
                        kept@,
                    )[a].id < rs[j].id,
            decreases n - i,
        {
            let ghost prev_kept = records_view(kept@);
            let rec = &self.records[i];
            if !(rec.down_file == *down_file) {
                kept.push(
                    MigrationRecord {
                        id: rec.id,
                        up_file: rec.up_file.clone(),
                        down_file: rec.down_file.clone(),
                    },
                );
                proof {
                    assert(records_view(kept@) =~= prev_kept.push(rs[i as int]));
                }
            }
            proof {
                reveal(Seq::filter);
                let p = rs.subrange(0, i + 1);
                assert(p.drop_last() =~= rs.subrange(0, i as int));
                assert(p.last() == rs[i as int]);
                assert(records_view(kept@) =~= p.filter(pred));
            }
            i = i + 1;
        }
        proof {
            assert(rs.subrange(0, n as int) =~= rs);
        }
        self.records = kept;
    }
}

// ---------------------------------------------------------------------------
// The round-trip law
// ---------------------------------------------------------------------------

proof fn lemma_filter_all_true(s: Seq<RecordModel>, pred: spec_fn(RecordModel) -> bool)
    requires
        forall|i: int| 0 <= i < s.len() ==> pred(s[i]),
    ensures
        s.filter(pred) == s,
    decreases s.len(),
{
    reveal(Seq::filter);
    if s.len() > 0 {
        lemma_filter_all_true(s.drop_last(), pred);
        assert(s.drop_last().push(s.last()) =~= s);
    }
}

/// Law: rolling back every applied batch, newest first, restores the empty
/// state. Deletion is by down-file name, so the recorded down-file names
/// must be pairwise distinct, as names of files in one directory are.
/// Because the final state equals the initial one, an apply run followed by
/// a full rollback can be repeated with the same outcome.
pub proof fn lemma_round_trip(records: Seq<RecordModel>)
    requires
        downs_of(records).no_duplicates(),
    ensures
        rollback_all(records, downs_of(records).reverse()) == Seq::<RecordModel>::empty(),
    decreases records.len(),
{
    let downs = downs_of(records).reverse();
    if records.len() == 0 {
        assert(downs =~= Seq::<Seq<char>>::empty());
        assert(rollback_all(records, downs) =~= Seq::<RecordModel>::empty());
    } else {
        let d = records.last().down_file;
        let rest = records.drop_last();
        let pred = |r: RecordModel| r.down_file != d;
        assert(downs[0] == d);
        assert(!pred(records.last()));
        assert(records.drop_last().push(records.last()) =~= records);
        assert(records.filter(pred) == rest.filter(pred)) by {
            reveal(Seq::filter);
        }
        assert forall|i: int| 0 <= i < rest.len() implies pred(rest[i]) by {
            assert(downs_of(records)[i] == rest[i].down_file);
            assert(downs_of(records)[records.len() - 1] == d);
        }
        lemma_filter_all_true(rest, pred);
        assert(remove_down(records, d) == rest);
        assert(downs.drop_first() =~= downs_of(rest).reverse()) by {
            assert forall|k: int| 0 <= k < records.len() - 1 implies downs.drop_first()[k]
                == downs_of(rest).reverse()[k] by {
                assert(downs.drop_first()[k] == downs_of(records)[records.len() - 2 - k]);
                assert(downs_of(rest).reverse()[k] == downs_of(rest)[rest.len() - 1 - k]);
                assert(downs_of(rest)[rest.len() - 1 - k] == rest[rest.len() - 1 - k].down_file);
            }
        }
        assert(downs_of(rest) =~= downs_of(records).drop_last());
        lemma_round_trip(rest);
    }
}

proof fn lemma_apply_all_downs(s: Seq<RecordModel>, ups: Seq<Seq<char>>, downs: Seq<Seq<char>>)
    requires
        ups.len() == downs.len(),
    ensures
        downs_of(apply_all(s, ups, downs)) == downs_of(s) + downs,
    decreases ups.len(),
{
    if ups.len() == 0 {
        assert(downs_of(s) + downs =~= downs_of(s));
    } else {
        let r = RecordModel { id: next_id(s), up_file: ups[0], down_file: downs[0] };
        lemma_apply_all_downs(s.push(r), ups.drop_first(), downs.drop_first());
        assert(downs_of(s.push(r)) =~= downs_of(s).push(downs[0]));
        assert(downs_of(s).push(downs[0]) + downs.drop_first() =~= downs_of(s) + downs);
    }
}

/// Law: recording every batch of a catalog onto the empty state and then
/// deleting as many batches, newest first, restores the empty state; the
/// cycle can therefore repeat with the same outcome. The catalog's
/// down-file names must be pairwise distinct, as names of files in one
/// directory are.
pub proof fn lemma_apply_rollback_round_trip(ups: Seq<Seq<char>>, downs: Seq<Seq<char>>)
    requires
        ups.len() == downs.len(),
        downs.no_duplicates(),
    ensures
        rollback_all(apply_all(Seq::empty(), ups, downs), downs.reverse()) == Seq::<
            RecordModel,
        >::empty(),
{
    let records = apply_all(Seq::empty(), ups, downs);
    lemma_apply_all_downs(Seq::empty(), ups, downs);
    assert(downs_of(Seq::<RecordModel>::empty()) =~= Seq::<Seq<char>>::empty());
    assert(downs_of(records) =~= downs);
    lemma_round_trip(records);
}

} // verus!
