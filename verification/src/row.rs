//! The row-mode engine: append-only ingestion of structured batch elements,
//! each tagged with its creation cursor, and predicate-scoped rollback.

use vstd::prelude::*;

use crate::value::{
    clone_fields, field_views_of, lemma_views_of, lookup, value_eq, views_of, Field, FieldV,
    Value, ValueV,
};

verus! {

/// One equality constraint of an invalidation scope: the named field must
/// carry exactly the given value.
pub struct Condition {
    pub field: String,
    pub value: Value,
}

/// Mathematical model of a `Condition`.
pub struct ConditionV {
    pub field: Seq<char>,
    pub value: ValueV,
}

impl View for Condition {
    type V = ConditionV;

    open spec fn view(&self) -> ConditionV {
        ConditionV { field: self.field@, value: self.value.spec_view() }
    }
}

/// The views of a sequence of conditions, in order.
pub open spec fn conditions_view(s: Seq<Condition>) -> Seq<ConditionV> {
    Seq::new(s.len(), |i: int| s[i]@)
}

/// A persisted record: the batch element's own fields plus the implicit
/// creation cursor. A record is immutable once written except for deletion.
pub struct RowRecord {
    pub fields: Vec<Field>,
    pub cursor: u64,
}

/// Mathematical model of a `RowRecord`.
pub struct RowRecordV {
    pub fields: Seq<FieldV>,
    pub cursor: u64,
}

impl View for RowRecord {
    type V = RowRecordV;

    open spec fn view(&self) -> RowRecordV {
        RowRecordV { fields: field_views_of(self.fields@), cursor: self.cursor }
    }
}

/// The persisted state of the row-mode engine: the records in insertion
/// order.
pub struct RowStore {
    pub records: Vec<RowRecord>,
}

impl View for RowStore {
    type V = Seq<RowRecordV>;

    open spec fn view(&self) -> Seq<RowRecordV> {
        Seq::new(self.records@.len(), |i: int| self.records@[i]@)
    }
}

/// Whether a record's fields satisfy every constraint of the scope: each
/// named field is present and carries exactly the constraint's value.
pub open spec fn scope_matches(fields: Seq<FieldV>, scope: Seq<ConditionV>) -> bool {
    forall|i: int|
        0 <= i < scope.len() ==> lookup(fields, scope[i].field) == Some(scope[i].value)
}

/// The records that ingesting a batch appends: one per structured object
/// element, carrying the element's fields and the batch's end position;
/// elements that are not objects are dropped.
pub open spec fn row_ingest(els: Seq<ValueV>, end_key: u64) -> Seq<RowRecordV>
    decreases els.len(),
{
    if els.len() == 0 {
        Seq::empty()
    } else {
        let rest = row_ingest(els.drop_last(), end_key);
        match els.last() {
            ValueV::Object(fs) => rest.push(RowRecordV { fields: fs, cursor: end_key }),
            _ => rest,
        }
    }
}

/// Whether a record survives a rollback to `key`: it was created at or
/// before the rollback position, or it fails the invalidation scope and is
/// therefore exempt from rollback.
pub open spec fn row_keep(r: RowRecordV, scope: Seq<ConditionV>, key: u64) -> bool {
    r.cursor <= key || !scope_matches(r.fields, scope)
}

/// The records remaining after a rollback to `key`, in their original order.
pub open spec fn row_rollback(s: Seq<RowRecordV>, scope: Seq<ConditionV>, key: u64) -> Seq<
    RowRecordV,
>
    decreases s.len(),
{
    if s.len() == 0 {
        Seq::empty()
    } else {
        let rest = row_rollback(s.drop_last(), scope, key);
        if row_keep(s.last(), scope, key) {
            rest.push(s.last())
        } else {
            rest
        }
    }
}

/// Whether a record's fields satisfy every constraint of the scope.
pub fn record_matches_scope(fields: &Vec<Field>, scope: &Vec<Condition>) -> (r: bool)
    ensures
        r == scope_matches(field_views_of(fields@), conditions_view(scope@)),
{
    let ghost sv = conditions_view(scope@);
    let mut i: usize = 0;
    while i < scope.len()
        invariant
            i <= scope.len(),
            sv == conditions_view(scope@),
            forall|j: int|
                0 <= j < i ==> lookup(field_views_of(fields@), sv[j].field) == Some(sv[j].value),
        decreases scope@.len() - i,
    {
        match crate::value::find_field(fields, &scope[i].field) {
            Some(v) => {
                if !value_eq(v, &scope[i].value) {
                    proof {
                        assert(lookup(field_views_of(fields@), sv[i as int].field) != Some(
                            sv[i as int].value,
                        ));
                        assert(!scope_matches(field_views_of(fields@), sv));
                    }
                    return false;
                }
            },
            None => {
                proof {
                    assert(lookup(field_views_of(fields@), sv[i as int].field) != Some(
                        sv[i as int].value,
                    ));
                    assert(!scope_matches(field_views_of(fields@), sv));
                }
                return false;
            },
        }
        i += 1;
    }
    true
}

impl RowStore {
    /// An empty store.
    pub fn new() -> (r: RowStore)
        ensures
            r@ == Seq::<RowRecordV>::empty(),
    {
        let r = RowStore { records: Vec::new() };
        proof {
            assert(r@ =~= Seq::<RowRecordV>::empty());
        }
        r
    }

    /// Appends one record per structured object element of the batch, tagged
    /// with the batch's end position; other elements are silently dropped.
    pub fn ingest(&mut self, elements: &Vec<Value>, end_key: u64)
        ensures
            final(self)@ == old(self)@ + row_ingest(views_of(elements@), end_key),
    {
        let ghost evs = views_of(elements@);
        proof {
            lemma_views_of(elements@);
            assert(evs.take(0) =~= Seq::<ValueV>::empty());
            assert(self@ + row_ingest(evs.take(0), end_key) =~= self@);
        }
        let mut i: usize = 0;
        while i < elements.len()
            invariant
                i <= elements.len(),
                evs == views_of(elements@),
                evs.len() == elements@.len(),
                forall|j: int| 0 <= j < elements@.len() ==> evs[j] == elements@[j]@,
                self@ == old(self)@ + row_ingest(evs.take(i as int), end_key),
            decreases elements@.len() - i,
        {
            proof {
                assert(evs.take(i + 1).drop_last() =~= evs.take(i as int));
                assert(evs.take(i + 1).last() == evs[i as int]);
            }
            match &elements[i] {
                Value::Object(fs) => {
                    let fields = clone_fields(fs);
                    let rec = RowRecord { fields, cursor: end_key };
                    let ghost before = self@;
                    self.records.push(rec);
                    proof {
                        assert(self@ =~= before.push(rec@));
                        assert(self@ =~= old(self)@ + row_ingest(evs.take(i + 1), end_key));
                    }
                },
                _ => {
                    proof {
                        assert(row_ingest(evs.take(i + 1), end_key) == row_ingest(
                            evs.take(i as int),
                            end_key,
                        ));
                    }
                },
            }
            i += 1;
        }
        proof {
            assert(evs.take(elements@.len() as int) =~= evs);
        }
    }

    /// Deletes every record created strictly after the rollback position,
    /// except records failing the invalidation scope, which are exempt.
    pub fn rollback(&mut self, scope: &Vec<Condition>, key: u64)
        ensures
            final(self)@ == row_rollback(old(self)@, conditions_view(scope@), key),
    {
        let ghost sv = conditions_view(scope@);
        let ghost before = self@;
        let mut kept: Vec<RowRecord> = Vec::new();
        proof {
            assert(before.take(0) =~= Seq::<RowRecordV>::empty());
            assert(Seq::new(kept@.len(), |i: int| kept@[i]@) =~= row_rollback(
                before.take(0),
                sv,
                key,
            ));
        }
        let mut i: usize = 0;
        while i < self.records.len()
            invariant
                i <= self.records@.len(),
                sv == conditions_view(scope@),
                before == self@,
                before.len() == self.records@.len(),
                forall|j: int| 0 <= j < self.records@.len() ==> before[j] == self.records@[j]@,
                Seq::new(kept@.len(), |k: int| kept@[k]@) == row_rollback(
                    before.take(i as int),
                    sv,
                    key,
                ),
            decreases self.records@.len() - i,
        {
            proof {
                assert(before.take(i + 1).drop_last() =~= before.take(i as int));
                assert(before.take(i + 1).last() == before[i as int]);
            }
            let keep_it = self.records[i].cursor <= key || !record_matches_scope(
                &self.records[i].fields,
                scope,
            );
            if keep_it {
                let fields = clone_fields(&self.records[i].fields);
                let ghost prev = Seq::new(kept@.len(), |k: int| kept@[k]@);
                kept.push(RowRecord { fields, cursor: self.records[i].cursor });
                proof {
                    assert(Seq::new(kept@.len(), |k: int| kept@[k]@) =~= prev.push(
                        before[i as int],
                    ));
                }
            }
            i += 1;
        }
        proof {
            assert(before.take(before.len() as int) =~= before);
        }
        self.records = kept;
        proof {
            assert(self@ =~= Seq::new(kept@.len(), |k: int| kept@[k]@));
        }
    }
}

/// Rolling back never deletes a record that fails the scope: every record
/// exempted by the scope is still present afterwards, whatever its cursor.
pub proof fn lemma_scope_exemption(s: Seq<RowRecordV>, scope: Seq<ConditionV>, key: u64)
    ensures
        forall|i: int|
            0 <= i < s.len() && !scope_matches(s[i].fields, scope) ==> row_rollback(
                s,
                scope,
                key,
            ).contains(s[i]),
    decreases s.len(),
{
    if s.len() > 0 {
        lemma_scope_exemption(s.drop_last(), scope, key);
        let rest = row_rollback(s.drop_last(), scope, key);
        let out = row_rollback(s, scope, key);
        assert forall|i: int|
            0 <= i < s.len() && !scope_matches(s[i].fields, scope) implies out.contains(
            s[i],
        ) by {
            if i < s.len() - 1 {
                assert(s.drop_last()[i] == s[i]);
                assert(rest.contains(s[i]));
                let w = choose|w: int| 0 <= w < rest.len() && rest[w] == s[i];
                assert(out[w] == s[i]);
            } else {
                assert(row_keep(s.last(), scope, key));
                assert(out.last() == s[i]);
            }
        }
    }
}

/// Ingestion tags every appended record with the batch's end position; a
/// store fed only batches with positive positions therefore meets the
/// premise of `lemma_full_rollback` at genesis.
pub proof fn lemma_row_ingest_cursor(els: Seq<ValueV>, end_key: u64)
    ensures
        forall|i: int|
            0 <= i < row_ingest(els, end_key).len() ==> (#[trigger] row_ingest(els, end_key)[i]).cursor
                == end_key,
    decreases els.len(),
{
    if els.len() > 0 {
        lemma_row_ingest_cursor(els.drop_last(), end_key);
        let rest = row_ingest(els.drop_last(), end_key);
        let out = row_ingest(els, end_key);
        assert forall|i: int| 0 <= i < out.len() implies (#[trigger] out[i]).cursor
            == end_key by {
            if i < rest.len() {
                assert(out[i] == rest[i]);
            }
        }
    }
}

/// Rolling back to genesis with no scope configured leaves nothing: every
/// record created after position zero is deleted.
pub proof fn lemma_full_rollback(s: Seq<RowRecordV>, key: u64)
    requires
        forall|i: int| 0 <= i < s.len() ==> s[i].cursor > key,
    ensures
        row_rollback(s, Seq::<ConditionV>::empty(), key) == Seq::<RowRecordV>::empty(),
    decreases s.len(),
{
    if s.len() > 0 {
        lemma_full_rollback(s.drop_last(), key);
        assert(scope_matches(s.last().fields, Seq::<ConditionV>::empty()));
    }
}

} // verus!
