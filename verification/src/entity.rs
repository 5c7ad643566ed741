//! The entity-mode engine: bitemporal, key-addressed versioning with
//! merge-style partial updates, same-batch squashing, and rollback that both
//! deletes versions created after the rollback position and reopens the
//! version that was current there.

use vstd::prelude::*;

use crate::value::{
    field_views_of, lookup, views_of, Field, FieldV, Value, ValueV,
};

verus! {

/// One version of an entity: its merged data fields and the half-open
/// validity interval `[valid_from, valid_to)`, open-ended while current.
pub struct Version {
    pub data: Vec<Field>,
    pub valid_from: u64,
    pub valid_to: Option<u64>,
}

/// Mathematical model of a `Version`.
pub struct VersionV {
    pub data: Seq<FieldV>,
    pub valid_from: u64,
    pub valid_to: Option<u64>,
}

impl View for Version {
    type V = VersionV;

    open spec fn view(&self) -> VersionV {
        VersionV {
            data: field_views_of(self.data@),
            valid_from: self.valid_from,
            valid_to: self.valid_to,
        }
    }
}

/// The full version history of one entity, ordered by `valid_from`.
pub struct EntityHistory {
    pub key: Value,
    pub versions: Vec<Version>,
}

/// Mathematical model of an `EntityHistory`.
pub struct HistoryV {
    pub key: ValueV,
    pub versions: Seq<VersionV>,
}

/// The views of a sequence of versions, in order.
pub open spec fn versions_view(s: Seq<Version>) -> Seq<VersionV> {
    Seq::new(s.len(), |i: int| s[i]@)
}

/// The views of a sequence of entity histories, in order.
pub open spec fn histories_view(s: Seq<EntityHistory>) -> Seq<HistoryV> {
    Seq::new(s.len(), |i: int| s[i]@)
}

impl View for EntityHistory {
    type V = HistoryV;

    open spec fn view(&self) -> HistoryV {
        HistoryV { key: self.key.spec_view(), versions: versions_view(self.versions@) }
    }
}

/// The persisted state of the entity-mode engine: one history per entity
/// key, in order of first appearance.
pub struct EntityStore {
    pub entities: Vec<EntityHistory>,
}

impl View for EntityStore {
    type V = Seq<HistoryV>;

    open spec fn view(&self) -> Seq<HistoryV> {
        histories_view(self.entities@)
    }
}

/// One decoded update operation: a shallow merge or a numeric increment.
pub enum UpdateOp {
    Assign(Vec<Field>),
    Increment(Vec<Field>),
}

/// Mathematical model of an `UpdateOp`.
pub enum UpdateOpV {
    Assign(Seq<FieldV>),
    Increment(Seq<FieldV>),
}

impl View for UpdateOp {
    type V = UpdateOpV;

    open spec fn view(&self) -> UpdateOpV {
        match self {
            UpdateOp::Assign(fs) => UpdateOpV::Assign(field_views_of(fs@)),
            UpdateOp::Increment(fs) => UpdateOpV::Increment(field_views_of(fs@)),
        }
    }
}

/// The views of a sequence of update operations, in order.
pub open spec fn ops_view(s: Seq<UpdateOp>) -> Seq<UpdateOpV> {
    Seq::new(s.len(), |i: int| s[i]@)
}

/// One decoded batch element: the entity it addresses and the update
/// operations to fold into that entity, in order.
pub struct EntityUpdate {
    pub key: Value,
    pub ops: Vec<UpdateOp>,
}

/// Mathematical model of an `EntityUpdate`.
pub struct EntityUpdateV {
    pub key: ValueV,
    pub ops: Seq<UpdateOpV>,
}

impl View for EntityUpdate {
    type V = EntityUpdateV;

    open spec fn view(&self) -> EntityUpdateV {
        EntityUpdateV { key: self.key.spec_view(), ops: ops_view(self.ops@) }
    }
}

/// The views of a sequence of decoded batch elements, in order.
pub open spec fn updates_view(s: Seq<EntityUpdate>) -> Seq<EntityUpdateV> {
    Seq::new(s.len(), |i: int| s[i]@)
}

// ---------------------------------------------------------------------------
// Decoding batch elements
// ---------------------------------------------------------------------------

/// The operations named by one update object, in field order: `$set` and
/// `$inc` fields with mapping operands become operations, such fields with
/// non-mapping operands are ignored, and any other field name is an
/// unsupported operator, reported as the error.
pub open spec fn parse_ops_obj(fields: Seq<FieldV>) -> Result<Seq<UpdateOpV>, Seq<char>>
    decreases fields.len(),
{
    if fields.len() == 0 {
        Ok(Seq::empty())
    } else {
        match parse_ops_obj(fields.drop_last()) {
            Err(e) => Err(e),
            Ok(ops) => {
                let f = fields.last();
                if f.name == "$set"@ {
                    match f.value {
                        ValueV::Object(fs) => Ok(ops.push(UpdateOpV::Assign(fs))),
                        _ => Ok(ops),
                    }
                } else if f.name == "$inc"@ {
                    match f.value {
                        ValueV::Object(fs) => Ok(ops.push(UpdateOpV::Increment(fs))),
                        _ => Ok(ops),
                    }
                } else {
                    Err(f.name)
                }
            },
        }
    }
}

/// The operations of a sequence of update objects, concatenated in order;
/// list items that are not objects are ignored.
pub open spec fn parse_update_list(items: Seq<ValueV>) -> Result<Seq<UpdateOpV>, Seq<char>>
    decreases items.len(),
{
    if items.len() == 0 {
        Ok(Seq::empty())
    } else {
        match parse_update_list(items.drop_last()) {
            Err(e) => Err(e),
            Ok(ops) => match items.last() {
                ValueV::Object(fs) => match parse_ops_obj(fs) {
                    Err(e) => Err(e),
                    Ok(more) => Ok(ops + more),
                },
                _ => Ok(ops),
            },
        }
    }
}

/// The operations named by an `update` value: a single update object, or a
/// list of update objects; any other shape carries no operations.
pub open spec fn parse_update(v: ValueV) -> Result<Seq<UpdateOpV>, Seq<char>> {
    match v {
        ValueV::Object(fs) => parse_ops_obj(fs),
        ValueV::List(items) => parse_update_list(items),
        _ => Ok(Seq::empty()),
    }
}

/// The decoded form of one batch element: an object with an object-valued
/// `entity` field and an `update` field decodes to an update of that entity;
/// any other element is silently dropped. An unsupported operator inside the
/// `update` value is the error.
pub open spec fn parse_element(v: ValueV) -> Result<Option<EntityUpdateV>, Seq<char>> {
    match v {
        ValueV::Object(fs) => match lookup(fs, "entity"@) {
            Some(key) => if key is Object {
                match lookup(fs, "update"@) {
                    Some(u) => match parse_update(u) {
                        Ok(ops) => Ok(Some(EntityUpdateV { key, ops })),
                        Err(e) => Err(e),
                    },
                    None => Ok(None),
                }
            } else {
                Ok(None)
            },
            None => Ok(None),
        },
        _ => Ok(None),
    }
}

/// The decoded form of a whole batch, in element order; the first
/// unsupported operator, in element order, is the error.
pub open spec fn parse_batch(els: Seq<ValueV>) -> Result<Seq<EntityUpdateV>, Seq<char>>
    decreases els.len(),
{
    if els.len() == 0 {
        Ok(Seq::empty())
    } else {
        match parse_batch(els.drop_last()) {
            Err(e) => Err(e),
            Ok(ups) => match parse_element(els.last()) {
                Err(e) => Err(e),
                Ok(Some(u)) => Ok(ups.push(u)),
                Ok(None) => Ok(ups),
            },
        }
    }
}

// ---------------------------------------------------------------------------
// Applying update operations to working data
// ---------------------------------------------------------------------------

/// The position of the first field named `name`, or `-1` if none.
pub open spec fn field_index(fields: Seq<FieldV>, name: Seq<char>) -> int
    decreases fields.len(),
{
    if fields.len() == 0 {
        -1
    } else if fields.first().name == name {
        0
    } else {
        let rest = field_index(fields.drop_first(), name);
        if rest == -1 {
            -1
        } else {
            rest + 1
        }
    }
}

/// Overwrites the first field named as `f`, or appends `f` if the name is
/// absent.
pub open spec fn set_field(data: Seq<FieldV>, f: FieldV) -> Seq<FieldV> {
    let i = field_index(data, f.name);
    if i == -1 {
        data.push(f)
    } else {
        data.update(i, f)
    }
}

/// Shallow-merges the fields of a `$set` mapping into the working data, in
/// order, overwriting.
pub open spec fn set_fields(data: Seq<FieldV>, updates: Seq<FieldV>) -> Seq<FieldV>
    decreases updates.len(),
{
    if updates.len() == 0 {
        data
    } else {
        set_field(set_fields(data, updates.drop_last()), updates.last())
    }
}

/// The current numeric value of a field: its integer when it carries one,
/// and zero when it is absent or not an integer.
pub open spec fn numeric_base(data: Seq<FieldV>, i: int) -> i64 {
    if i == -1 {
        0
    } else {
        match data[i].value {
            ValueV::Int(b) => b,
            _ => 0,
        }
    }
}

/// Adds `delta` to the named field's current numeric value, with wrapping
/// 64-bit arithmetic, writing the sum in place or appending it.
pub open spec fn inc_field(data: Seq<FieldV>, name: Seq<char>, delta: i64) -> Seq<FieldV> {
    let i = field_index(data, name);
    let sum = vstd::wrapping::i64_specs::wrapping_add(numeric_base(data, i), delta);
    if i == -1 {
        data.push(FieldV { name, value: ValueV::Int(sum) })
    } else {
        data.update(i, FieldV { name, value: ValueV::Int(sum) })
    }
}

/// Applies the fields of an `$inc` mapping to the working data, in order;
/// fields whose delta is not an integer are ignored.
pub open spec fn inc_fields(data: Seq<FieldV>, updates: Seq<FieldV>) -> Seq<FieldV>
    decreases updates.len(),
{
    if updates.len() == 0 {
        data
    } else {
        let rest = inc_fields(data, updates.drop_last());
        match updates.last().value {
            ValueV::Int(delta) => inc_field(rest, updates.last().name, delta),
            _ => rest,
        }
    }
}

/// Applies one update operation to the working data.
pub open spec fn apply_op(data: Seq<FieldV>, op: UpdateOpV) -> Seq<FieldV> {
    match op {
        UpdateOpV::Assign(us) => set_fields(data, us),
        UpdateOpV::Increment(us) => inc_fields(data, us),
    }
}

/// Applies update operations to the working data, left to right.
pub open spec fn apply_ops(data: Seq<FieldV>, ops: Seq<UpdateOpV>) -> Seq<FieldV>
    decreases ops.len(),
{
    if ops.len() == 0 {
        data
    } else {
        apply_op(apply_ops(data, ops.drop_last()), ops.last())
    }
}

// ---------------------------------------------------------------------------
// The store transition of one batch
// ---------------------------------------------------------------------------

/// The position of the first history whose key equals `key`, or `-1`.
pub open spec fn key_index(s: Seq<HistoryV>, key: ValueV) -> int
    decreases s.len(),
{
    if s.len() == 0 {
        -1
    } else if s.first().key == key {
        0
    } else {
        let rest = key_index(s.drop_first(), key);
        if rest == -1 {
            -1
        } else {
            rest + 1
        }
    }
}

/// The effect of one decoded update on the store at position `end_key`: a
/// new entity gains its first version; an entity whose current version was
/// created at an earlier position has it closed at `end_key` and a new
/// current version opened there; and an entity already updated at `end_key`
/// has the operations folded into that same version (same-batch squashing).
pub open spec fn entity_apply(s: Seq<HistoryV>, u: EntityUpdateV, end_key: u64) -> Seq<HistoryV> {
    let i = key_index(s, u.key);
    if i == -1 {
        s.push(
            HistoryV {
                key: u.key,
                versions: seq![
                    VersionV {
                        data: apply_ops(Seq::empty(), u.ops),
                        valid_from: end_key,
                        valid_to: None,
                    },
                ],
            },
        )
    } else {
        let h = s[i];
        let last = h.versions.len() - 1;
        let cur = h.versions.last();
        if cur.valid_from == end_key {
            s.update(
                i,
                HistoryV {
                    key: h.key,
                    versions: h.versions.update(
                        last,
                        VersionV {
                            data: apply_ops(cur.data, u.ops),
                            valid_from: cur.valid_from,
                            valid_to: cur.valid_to,
                        },
                    ),
                },
            )
        } else {
            s.update(
                i,
                HistoryV {
                    key: h.key,
                    versions: h.versions.update(
                        last,
                        VersionV {
                            data: cur.data,
                            valid_from: cur.valid_from,
                            valid_to: Some(end_key),
                        },
                    ).push(
                        VersionV {
                            data: apply_ops(cur.data, u.ops),
                            valid_from: end_key,
                            valid_to: None,
                        },
                    ),
                },
            )
        }
    }
}

/// The effect of a whole decoded batch, applied in element order.
pub open spec fn ingest_entities(s: Seq<HistoryV>, ups: Seq<EntityUpdateV>, end_key: u64) -> Seq<
    HistoryV,
>
    decreases ups.len(),
{
    if ups.len() == 0 {
        s
    } else {
        entity_apply(ingest_entities(s, ups.drop_last(), end_key), ups.last(), end_key)
    }
}

// ---------------------------------------------------------------------------
// Rollback
// ---------------------------------------------------------------------------

/// One version after a rollback to `key`, when it survives: reopened if it
/// was closed strictly after `key`, unchanged otherwise.
pub open spec fn reopened(v: VersionV, key: u64) -> VersionV {
    match v.valid_to {
        Some(t) => if t > key {
            VersionV { data: v.data, valid_from: v.valid_from, valid_to: None }
        } else {
            v
        },
        None => v,
    }
}

/// The versions of one entity after a rollback to `key`: versions created
/// strictly after `key` are deleted outright; surviving versions closed
/// strictly after `key` are reopened; all comparisons are strict, so a
/// version closed exactly at `key` stays closed.
pub open spec fn rollback_versions(vs: Seq<VersionV>, key: u64) -> Seq<VersionV>
    decreases vs.len(),
{
    if vs.len() == 0 {
        Seq::empty()
    } else {
        let rest = rollback_versions(vs.drop_last(), key);
        if vs.last().valid_from > key {
            rest
        } else {
            rest.push(reopened(vs.last(), key))
        }
    }
}

/// The store after a rollback to `key`: each history is rolled back, and
/// entities left with no version disappear entirely.
pub open spec fn rollback_store(s: Seq<HistoryV>, key: u64) -> Seq<HistoryV>
    decreases s.len(),
{
    if s.len() == 0 {
        Seq::empty()
    } else {
        let rest = rollback_store(s.drop_last(), key);
        let vs = rollback_versions(s.last().versions, key);
        if vs.len() == 0 {
            rest
        } else {
            rest.push(HistoryV { key: s.last().key, versions: vs })
        }
    }
}

// ---------------------------------------------------------------------------
// Well-formedness
// ---------------------------------------------------------------------------

/// The partition invariant of one entity's history: it is non-empty; exactly
/// the last version is current (`valid_to` absent); consecutive versions
/// tile gap-free, each closed version ending where the next begins; and no
/// version ends before it begins.
pub open spec fn versions_chained(vs: Seq<VersionV>) -> bool {
    &&& vs.len() > 0
    &&& vs.last().valid_to is None
    &&& forall|i: int| 0 <= i < vs.len() - 1 ==> vs[i].valid_to == Some(vs[i + 1].valid_from)
    &&& forall|i: int|
        0 <= i < vs.len() ==> match (#[trigger] vs[i]).valid_to {
            Some(t) => vs[i].valid_from <= t,
            None => true,
        }
}

/// Well-formedness of the whole store: every history satisfies the
/// partition invariant, and entity keys are pairwise distinct.
pub open spec fn store_wf(s: Seq<HistoryV>) -> bool {
    &&& forall|i: int| 0 <= i < s.len() ==> versions_chained(#[trigger] s[i].versions)
    &&& forall|i: int, j: int| 0 <= i < j < s.len() ==> s[i].key != s[j].key
}

/// Every position recorded in the store lies at or before `end_key`:
/// batches arrive in non-decreasing `order_key` order.
pub open spec fn store_bounded(s: Seq<HistoryV>, end_key: u64) -> bool {
    forall|i: int, j: int|
        0 <= i < s.len() && 0 <= j < s[i].versions.len() ==> {
            &&& (#[trigger] s[i].versions[j]).valid_from <= end_key
            &&& match s[i].versions[j].valid_to {
                Some(t) => t <= end_key,
                None => true,
            }
        }
}

// ---------------------------------------------------------------------------
// Executable decoding
// ---------------------------------------------------------------------------

/// An error in a prefix of an update object decides the whole object.
proof fn lemma_parse_ops_obj_err(fields: Seq<FieldV>, j: int)
    requires
        0 <= j <= fields.len(),
        parse_ops_obj(fields.take(j)) is Err,
    ensures
        parse_ops_obj(fields) == parse_ops_obj(fields.take(j)),
    decreases fields.len() - j,
{
    if j < fields.len() {
        assert(fields.take(j + 1).drop_last() =~= fields.take(j));
        lemma_parse_ops_obj_err(fields, j + 1);
    } else {
        assert(fields.take(j) =~= fields);
    }
}

/// An error in a prefix of an update list decides the whole list.
proof fn lemma_parse_update_list_err(items: Seq<ValueV>, j: int)
    requires
        0 <= j <= items.len(),
        parse_update_list(items.take(j)) is Err,
    ensures
        parse_update_list(items) == parse_update_list(items.take(j)),
    decreases items.len() - j,
{
    if j < items.len() {
        assert(items.take(j + 1).drop_last() =~= items.take(j));
        lemma_parse_update_list_err(items, j + 1);
    } else {
        assert(items.take(j) =~= items);
    }
}

/// An error in a prefix of a batch decides the whole batch.
proof fn lemma_parse_batch_err(els: Seq<ValueV>, j: int)
    requires
        0 <= j <= els.len(),
        parse_batch(els.take(j)) is Err,
    ensures
        parse_batch(els) == parse_batch(els.take(j)),
    decreases els.len() - j,
{
    if j < els.len() {
        assert(els.take(j + 1).drop_last() =~= els.take(j));
        lemma_parse_batch_err(els, j + 1);
    } else {
        assert(els.take(j) =~= els);
    }
}

/// Decodes one update object, reporting the first unsupported operator.
fn parse_ops_obj_exec(fields: &Vec<Field>) -> (r: Result<Vec<UpdateOp>, String>)
    ensures
        match r {
            Ok(ops) => parse_ops_obj(field_views_of(fields@)) == Ok::<_, Seq<char>>(
                ops_view(ops@),
            ),
            Err(e) => parse_ops_obj(field_views_of(fields@)) == Err::<Seq<UpdateOpV>, _>(e@),
        },
{
    let set_name: String = "$set".to_owned();
    let inc_name: String = "$inc".to_owned();
    let ghost fvs = field_views_of(fields@);
    proof {
        crate::value::lemma_field_views_of(fields@);
        assert(fvs.take(0) =~= Seq::<FieldV>::empty());
    }
    let mut ops: Vec<UpdateOp> = Vec::new();
    proof {
        assert(ops_view(ops@) =~= Seq::<UpdateOpV>::empty());
    }
    let mut i: usize = 0;
    while i < fields.len()
        invariant
            i <= fields.len(),
            fvs == field_views_of(fields@),
            fvs.len() == fields@.len(),
            forall|j: int| 0 <= j < fields@.len() ==> fvs[j] == fields@[j]@,
            set_name@ == "$set"@,
            inc_name@ == "$inc"@,
            parse_ops_obj(fvs.take(i as int)) == Ok::<_, Seq<char>>(ops_view(ops@)),
        decreases fields@.len() - i,
    {
        proof {
            assert(fvs.take(i + 1).drop_last() =~= fvs.take(i as int));
            assert(fvs.take(i + 1).last() == fvs[i as int]);
        }
        let is_set = fields[i].name == set_name;
        let is_inc = fields[i].name == inc_name;
        if is_set || is_inc {
            match &fields[i].value {
                Value::Object(fs) => {
                    let operand = crate::value::clone_fields(fs);
                    let ghost prev = ops_view(ops@);
                    let op = if is_set {
                        UpdateOp::Assign(operand)
                    } else {
                        UpdateOp::Increment(operand)
                    };
                    ops.push(op);
                    proof {
                        assert(ops_view(ops@) =~= prev.push(op@));
                    }
                },
                _ => {},
            }
        } else {
            proof {
                assert(parse_ops_obj(fvs.take(i + 1)) == Err::<Seq<UpdateOpV>, _>(
                    fvs[i as int].name,
                ));
                lemma_parse_ops_obj_err(fvs, i + 1);
            }
            return Err(fields[i].name.clone());
        }
        i += 1;
    }
    proof {
        assert(fvs.take(fields@.len() as int) =~= fvs);
    }
    Ok(ops)
}

/// Decodes an `update` value: one update object or a list of them.
fn parse_update_exec(v: &Value) -> (r: Result<Vec<UpdateOp>, String>)
    ensures
        match r {
            Ok(ops) => parse_update(v@) == Ok::<_, Seq<char>>(ops_view(ops@)),
            Err(e) => parse_update(v@) == Err::<Seq<UpdateOpV>, _>(e@),
        },
{
    match v {
        Value::Object(fs) => parse_ops_obj_exec(fs),
        Value::List(items) => {
            let ghost ivs = views_of(items@);
            proof {
                assert(*v == Value::List(*items));
                assert(v@ == ValueV::List(ivs));
                crate::value::lemma_views_of(items@);
                assert(ivs.take(0) =~= Seq::<ValueV>::empty());
            }
            let mut ops: Vec<UpdateOp> = Vec::new();
            proof {
                assert(ops_view(ops@) =~= Seq::<UpdateOpV>::empty());
            }
            let mut i: usize = 0;
            while i < items.len()
                invariant
                    i <= items.len(),
                    ivs == views_of(items@),
                    v@ == ValueV::List(ivs),
                    ivs.len() == items@.len(),
                    forall|j: int| 0 <= j < items@.len() ==> ivs[j] == items@[j]@,
                    parse_update_list(ivs.take(i as int)) == Ok::<_, Seq<char>>(ops_view(ops@)),
                decreases items@.len() - i,
            {
                proof {
                    assert(ivs.take(i + 1).drop_last() =~= ivs.take(i as int));
                    assert(ivs.take(i + 1).last() == ivs[i as int]);
                }
                match &items[i] {
                    Value::Object(fs) => {
                        match parse_ops_obj_exec(fs) {
                            Ok(mut more) => {
                                let ghost prev = ops_view(ops@);
                                let ghost morev = ops_view(more@);
                                ops.append(&mut more);
                                proof {
                                    assert(ops_view(ops@) =~= prev + morev);
                                }
                            },
                            Err(e) => {
                                proof {
                                    assert(parse_update_list(ivs.take(i + 1))
                                        == Err::<Seq<UpdateOpV>, _>(e@));
                                    lemma_parse_update_list_err(ivs, i + 1);
                                    assert(v@ == ValueV::List(ivs));
                                    assert(parse_update(v@) == Err::<Seq<UpdateOpV>, _>(e@));
                                }
                                return Err(e);
                            },
                        }
                    },
                    _ => {},
                }
                i += 1;
            }
            proof {
                assert(ivs.take(items@.len() as int) =~= ivs);
            }
            Ok(ops)
        },
        _ => {
            let ops: Vec<UpdateOp> = Vec::new();
            proof {
                assert(ops_view(ops@) =~= Seq::<UpdateOpV>::empty());
            }
            Ok(ops)
        },
    }
}

/// Decodes one batch element, or drops it silently when it is not an object
/// carrying an object-valued `entity` and an `update`.
fn parse_element_exec(v: &Value) -> (r: Result<Option<EntityUpdate>, String>)
    ensures
        match r {
            Ok(Some(u)) => parse_element(v@) == Ok::<_, Seq<char>>(Some(u@)),
            Ok(None) => parse_element(v@) == Ok::<Option<EntityUpdateV>, Seq<char>>(None),
            Err(e) => parse_element(v@) == Err::<Option<EntityUpdateV>, _>(e@),
        },
{
    let entity_name: String = "entity".to_owned();
    let update_name: String = "update".to_owned();
    match v {
        Value::Object(fs) => {
            match crate::value::find_field(fs, &entity_name) {
                Some(key) => {
                    let key_is_object = match key {
                        Value::Object(_) => true,
                        _ => false,
                    };
                    if key_is_object {
                        match crate::value::find_field(fs, &update_name) {
                            Some(u) => match parse_update_exec(u) {
                                Ok(ops) => {
                                    let key_copy = crate::value::clone_value(key);
                                    Ok(Some(EntityUpdate { key: key_copy, ops }))
                                },
                                Err(e) => Err(e),
                            },
                            None => Ok(None),
                        }
                    } else {
                        Ok(None)
                    }
                },
                None => Ok(None),
            }
        },
        _ => Ok(None),
    }
}

/// Decodes a whole batch in element order, reporting the first unsupported
/// operator and decoding nothing else in that case.
pub fn parse_batch_exec(elements: &Vec<Value>) -> (r: Result<Vec<EntityUpdate>, String>)
    ensures
        match r {
            Ok(ups) => parse_batch(views_of(elements@)) == Ok::<_, Seq<char>>(
                updates_view(ups@),
            ),
            Err(e) => parse_batch(views_of(elements@)) == Err::<Seq<EntityUpdateV>, _>(e@),
        },
{
    let ghost evs = views_of(elements@);
    proof {
        crate::value::lemma_views_of(elements@);
        assert(evs.take(0) =~= Seq::<ValueV>::empty());
    }
    let mut ups: Vec<EntityUpdate> = Vec::new();
    proof {
        assert(updates_view(ups@) =~= Seq::<EntityUpdateV>::empty());
    }
    let mut i: usize = 0;
    while i < elements.len()
        invariant
            i <= elements.len(),
            evs == views_of(elements@),
            evs.len() == elements@.len(),
            forall|j: int| 0 <= j < elements@.len() ==> evs[j] == elements@[j]@,
            parse_batch(evs.take(i as int)) == Ok::<_, Seq<char>>(updates_view(ups@)),
        decreases elements@.len() - i,
    {
        proof {
            assert(evs.take(i + 1).drop_last() =~= evs.take(i as int));
            assert(evs.take(i + 1).last() == evs[i as int]);
        }
        match parse_element_exec(&elements[i]) {
            Ok(Some(u)) => {
                let ghost prev = updates_view(ups@);
                let ghost uv = u@;
                ups.push(u);
                proof {
                    assert(updates_view(ups@) =~= prev.push(uv));
                }
            },
            Ok(None) => {},
            Err(e) => {
                proof {
                    assert(parse_batch(evs.take(i + 1)) == Err::<Seq<EntityUpdateV>, _>(e@));
                    lemma_parse_batch_err(evs, i + 1);
                }
                return Err(e);
            },
        }
        i += 1;
    }
    proof {
        assert(evs.take(elements@.len() as int) =~= evs);
    }
    Ok(ups)
}

// ---------------------------------------------------------------------------
// Executable field updates
// ---------------------------------------------------------------------------

/// `field_index` is `-1` or a position inside the sequence.
proof fn lemma_field_index_range(s: Seq<FieldV>, name: Seq<char>)
    ensures
        -1 <= field_index(s, name) < s.len(),
    decreases s.len(),
{
    if s.len() > 0 && s.first().name != name {
        lemma_field_index_range(s.drop_first(), name);
    }
}

/// A scan that mismatched the first `i` names locates `field_index`.
proof fn lemma_field_index_skip(s: Seq<FieldV>, name: Seq<char>, i: int)
    requires
        0 <= i <= s.len(),
        forall|j: int| 0 <= j < i ==> s[j].name != name,
    ensures
        field_index(s, name) == if field_index(s.skip(i), name) == -1 {
            -1int
        } else {
            i + field_index(s.skip(i), name)
        },
    decreases i,
{
    if i == 0 {
        assert(s.skip(0) =~= s);
    } else {
        lemma_field_index_skip(s, name, i - 1);
        let prev = s.skip(i - 1);
        lemma_field_index_range(s.skip(i), name);
        assert(prev.first() == s[i - 1]);
        assert(prev.drop_first() =~= s.skip(i));
        assert(field_index(prev, name) == if field_index(s.skip(i), name) == -1 {
            -1int
        } else {
            1 + field_index(s.skip(i), name)
        });
    }
}

/// After a scan that mismatched the first `i` names, the name stands at `i`
/// or nowhere.
proof fn lemma_field_index_scan(s: Seq<FieldV>, name: Seq<char>, i: int)
    requires
        0 <= i <= s.len(),
        forall|j: int| 0 <= j < i ==> s[j].name != name,
        i < s.len() ==> s[i].name == name,
    ensures
        field_index(s, name) == if i == s.len() {
            -1int
        } else {
            i
        },
{
    lemma_field_index_skip(s, name, i);
    if i < s.len() {
        assert(s.skip(i).first() == s[i]);
    } else {
        assert(s.skip(i).len() == 0);
    }
}

/// Overwrites the first field named as `f`, or appends a copy of `f`.
fn set_field_exec(data: &mut Vec<Field>, f: &Field)
    ensures
        field_views_of(final(data)@) == set_field(field_views_of(old(data)@), f@),
{
    let ghost dvs = field_views_of(old(data)@);
    proof {
        crate::value::lemma_field_views_of(old(data)@);
    }
    let mut i: usize = 0;
    while i < data.len()
        invariant
            i <= data@.len(),
            *data == *old(data),
            dvs == field_views_of(data@),
            dvs.len() == data@.len(),
            forall|j: int| 0 <= j < data@.len() ==> dvs[j] == data@[j]@,
            forall|j: int| 0 <= j < i ==> dvs[j].name != f@.name,
        decreases data@.len() - i,
    {
        if data[i].name == f.name {
            proof {
                lemma_field_index_scan(dvs, f@.name, i as int);
            }
            let replacement = Field {
                name: f.name.clone(),
                value: crate::value::clone_value(&f.value),
            };
            data[i] = replacement;
            proof {
                crate::value::lemma_field_views_of(data@);
                assert(field_views_of(data@) =~= dvs.update(i as int, f@));
            }
            return;
        }
        i += 1;
    }
    proof {
        lemma_field_index_scan(dvs, f@.name, dvs.len() as int);
    }
    data.push(Field { name: f.name.clone(), value: crate::value::clone_value(&f.value) });
    proof {
        crate::value::lemma_field_views_of(data@);
        assert(field_views_of(data@) =~= dvs.push(f@));
    }
}

/// Adds `delta` to the named field's current numeric value with wrapping
/// arithmetic, in place or by appending.
fn inc_field_exec(data: &mut Vec<Field>, name: &String, delta: i64)
    ensures
        field_views_of(final(data)@) == inc_field(field_views_of(old(data)@), name@, delta),
{
    let ghost dvs = field_views_of(old(data)@);
    proof {
        crate::value::lemma_field_views_of(old(data)@);
    }
    let mut i: usize = 0;
    while i < data.len()
        invariant
            i <= data@.len(),
            *data == *old(data),
            dvs == field_views_of(data@),
            dvs.len() == data@.len(),
            forall|j: int| 0 <= j < data@.len() ==> dvs[j] == data@[j]@,
            forall|j: int| 0 <= j < i ==> dvs[j].name != name@,
        decreases data@.len() - i,
    {
        if data[i].name == *name {
            proof {
                lemma_field_index_scan(dvs, name@, i as int);
            }
            let base: i64 = match &data[i].value {
                Value::Int(b) => *b,
                _ => 0,
            };
            let sum = base.wrapping_add(delta);
            data[i] = Field { name: name.clone(), value: Value::Int(sum) };
            proof {
                crate::value::lemma_field_views_of(data@);
                assert(field_views_of(data@) =~= dvs.update(
                    i as int,
                    FieldV { name: name@, value: ValueV::Int(sum) },
                ));
            }
            return;
        }
        i += 1;
    }
    proof {
        lemma_field_index_scan(dvs, name@, dvs.len() as int);
    }
    let sum = 0i64.wrapping_add(delta);
    data.push(Field { name: name.clone(), value: Value::Int(sum) });
    proof {
        crate::value::lemma_field_views_of(data@);
        assert(field_views_of(data@) =~= dvs.push(
            FieldV { name: name@, value: ValueV::Int(sum) },
        ));
    }
}

/// Shallow-merges a `$set` mapping into the working data, in field order.
fn apply_assign_exec(data: &mut Vec<Field>, updates: &Vec<Field>)
    ensures
        field_views_of(final(data)@) == set_fields(
            field_views_of(old(data)@),
            field_views_of(updates@),
        ),
{
    let ghost d0 = field_views_of(old(data)@);
    let ghost uvs = field_views_of(updates@);
    proof {
        crate::value::lemma_field_views_of(updates@);
        assert(uvs.take(0) =~= Seq::<FieldV>::empty());
    }
    let mut k: usize = 0;
    while k < updates.len()
        invariant
            k <= updates@.len(),
            uvs == field_views_of(updates@),
            uvs.len() == updates@.len(),
            forall|j: int| 0 <= j < updates@.len() ==> uvs[j] == updates@[j]@,
            field_views_of(data@) == set_fields(d0, uvs.take(k as int)),
        decreases updates@.len() - k,
    {
        proof {
            assert(uvs.take(k + 1).drop_last() =~= uvs.take(k as int));
            assert(uvs.take(k + 1).last() == uvs[k as int]);
        }
        set_field_exec(data, &updates[k]);
        k += 1;
    }
    proof {
        assert(uvs.take(updates@.len() as int) =~= uvs);
    }
}

/// Applies an `$inc` mapping to the working data, in field order; fields
/// whose delta is not an integer are ignored.
fn apply_increment_exec(data: &mut Vec<Field>, updates: &Vec<Field>)
    ensures
        field_views_of(final(data)@) == inc_fields(
            field_views_of(old(data)@),
            field_views_of(updates@),
        ),
{
    let ghost d0 = field_views_of(old(data)@);
    let ghost uvs = field_views_of(updates@);
    proof {
        crate::value::lemma_field_views_of(updates@);
        assert(uvs.take(0) =~= Seq::<FieldV>::empty());
    }
    let mut k: usize = 0;
    while k < updates.len()
        invariant
            k <= updates@.len(),
            uvs == field_views_of(updates@),
            uvs.len() == updates@.len(),
            forall|j: int| 0 <= j < updates@.len() ==> uvs[j] == updates@[j]@,
            field_views_of(data@) == inc_fields(d0, uvs.take(k as int)),
        decreases updates@.len() - k,
    {
        proof {
            assert(uvs.take(k + 1).drop_last() =~= uvs.take(k as int));
            assert(uvs.take(k + 1).last() == uvs[k as int]);
        }
        match &updates[k].value {
            Value::Int(d) => {
                inc_field_exec(data, &updates[k].name, *d);
            },
            _ => {},
        }
        k += 1;
    }
    proof {
        assert(uvs.take(updates@.len() as int) =~= uvs);
    }
}

/// Applies one decoded update operation to the working data.
fn apply_op_exec(data: &mut Vec<Field>, op: &UpdateOp)
    ensures
        field_views_of(final(data)@) == apply_op(field_views_of(old(data)@), op@),
{
    match op {
        UpdateOp::Assign(us) => apply_assign_exec(data, us),
        UpdateOp::Increment(us) => apply_increment_exec(data, us),
    }
}

/// Applies decoded update operations to the working data, left to right.
fn apply_ops_exec(data: &mut Vec<Field>, ops: &Vec<UpdateOp>)
    ensures
        field_views_of(final(data)@) == apply_ops(field_views_of(old(data)@), ops_view(ops@)),
{
    let ghost d0 = field_views_of(old(data)@);
    let ghost ovs = ops_view(ops@);
    proof {
        assert(ovs.take(0) =~= Seq::<UpdateOpV>::empty());
    }
    let mut k: usize = 0;
    while k < ops.len()
        invariant
            k <= ops@.len(),
            ovs == ops_view(ops@),
            ovs.len() == ops@.len(),
            forall|j: int| 0 <= j < ops@.len() ==> ovs[j] == ops@[j]@,
            field_views_of(data@) == apply_ops(d0, ovs.take(k as int)),
        decreases ops@.len() - k,
    {
        proof {
            assert(ovs.take(k + 1).drop_last() =~= ovs.take(k as int));
            assert(ovs.take(k + 1).last() == ovs[k as int]);
        }
        apply_op_exec(data, &ops[k]);
        k += 1;
    }
    proof {
        assert(ovs.take(ops@.len() as int) =~= ovs);
    }
}

// ---------------------------------------------------------------------------
// The executable store
// ---------------------------------------------------------------------------

/// `key_index` is `-1` or a position inside the sequence.
proof fn lemma_key_index_range(s: Seq<HistoryV>, key: ValueV)
    ensures
        -1 <= key_index(s, key) < s.len(),
    decreases s.len(),
{
    if s.len() > 0 && s.first().key != key {
        lemma_key_index_range(s.drop_first(), key);
    }
}

/// A scan that mismatched the first `i` keys locates `key_index`.
proof fn lemma_key_index_skip(s: Seq<HistoryV>, key: ValueV, i: int)
    requires
        0 <= i <= s.len(),
        forall|j: int| 0 <= j < i ==> s[j].key != key,
    ensures
        key_index(s, key) == if key_index(s.skip(i), key) == -1 {
            -1int
        } else {
            i + key_index(s.skip(i), key)
        },
    decreases i,
{
    if i == 0 {
        assert(s.skip(0) =~= s);
    } else {
        lemma_key_index_skip(s, key, i - 1);
        let prev = s.skip(i - 1);
        lemma_key_index_range(s.skip(i), key);
        assert(prev.first() == s[i - 1]);
        assert(prev.drop_first() =~= s.skip(i));
        assert(key_index(prev, key) == if key_index(s.skip(i), key) == -1 {
            -1int
        } else {
            1 + key_index(s.skip(i), key)
        });
    }
}

/// After a scan that mismatched the first `i` keys, the key stands at `i` or
/// nowhere.
proof fn lemma_key_index_scan(s: Seq<HistoryV>, key: ValueV, i: int)
    requires
        0 <= i <= s.len(),
        forall|j: int| 0 <= j < i ==> s[j].key != key,
        i < s.len() ==> s[i].key == key,
    ensures
        key_index(s, key) == if i == s.len() {
            -1int
        } else {
            i
        },
{
    lemma_key_index_skip(s, key, i);
    if i < s.len() {
        assert(s.skip(i).first() == s[i]);
    } else {
        assert(s.skip(i).len() == 0);
    }
}

/// `key_index` finds the first history of the key, and `-1` means the key is
/// absent.
pub proof fn lemma_key_index_props(s: Seq<HistoryV>, key: ValueV)
    ensures
        key_index(s, key) == -1 ==> forall|j: int| 0 <= j < s.len() ==> s[j].key != key,
        key_index(s, key) != -1 ==> {
            &&& 0 <= key_index(s, key) < s.len()
            &&& s[key_index(s, key)].key == key
            &&& forall|j: int| 0 <= j < key_index(s, key) ==> s[j].key != key
        },
    decreases s.len(),
{
    if s.len() > 0 && s.first().key != key {
        lemma_key_index_props(s.drop_first(), key);
        assert forall|j: int| 1 <= j < s.len() implies s.drop_first()[j - 1] == s[j] by {}
    }
}

/// The position of the first history of `key`, if any.
fn find_key(entities: &Vec<EntityHistory>, key: &Value) -> (r: Option<usize>)
    ensures
        match r {
            Some(i) => i < entities@.len() && key_index(histories_view(entities@), key@) == i,
            None => key_index(histories_view(entities@), key@) == -1,
        },
{
    let ghost hvs = histories_view(entities@);
    let mut i: usize = 0;
    while i < entities.len()
        invariant
            i <= entities@.len(),
            hvs == histories_view(entities@),
            hvs.len() == entities@.len(),
            forall|j: int| 0 <= j < entities@.len() ==> hvs[j] == entities@[j]@,
            forall|j: int| 0 <= j < i ==> hvs[j].key != key@,
        decreases entities@.len() - i,
    {
        if crate::value::value_eq(&entities[i].key, key) {
            proof {
                lemma_key_index_scan(hvs, key@, i as int);
            }
            return Some(i);
        }
        i += 1;
    }
    proof {
        lemma_key_index_scan(hvs, key@, hvs.len() as int);
    }
    None
}

impl EntityStore {
    /// An empty store.
    pub fn new() -> (r: EntityStore)
        ensures
            r@ == Seq::<HistoryV>::empty(),
    {
        let r = EntityStore { entities: Vec::new() };
        proof {
            assert(r@ =~= Seq::<HistoryV>::empty());
        }
        r
    }

    /// Applies one decoded update to the store at position `end_key`.
    pub fn apply_update(&mut self, u: &EntityUpdate, end_key: u64)
        requires
            forall|i: int| 0 <= i < old(self)@.len() ==> (#[trigger] old(self)@[i]).versions.len() > 0,
        ensures
            final(self)@ == entity_apply(old(self)@, u@, end_key),
    {
        let ghost s0 = self@;
        match find_key(&self.entities, &u.key) {
            None => {
                let mut data: Vec<Field> = Vec::new();
                proof {
                    assert(field_views_of(data@) =~= Seq::<FieldV>::empty());
                }
                apply_ops_exec(&mut data, &u.ops);
                let key_copy = crate::value::clone_value(&u.key);
                let mut versions: Vec<Version> = Vec::new();
                versions.push(Version { data, valid_from: end_key, valid_to: None });
                let h = EntityHistory { key: key_copy, versions };
                let ghost hv = h@;
                self.entities.push(h);
                proof {
                    assert(hv.versions =~= seq![
                        VersionV {
                            data: apply_ops(Seq::empty(), u@.ops),
                            valid_from: end_key,
                            valid_to: None,
                        },
                    ]);
                    assert(self@ =~= s0.push(hv));
                    assert(self@ =~= entity_apply(s0, u@, end_key));
                }
            },
            Some(i) => {
                let ghost hv0 = s0[i as int];
                let mut h = self.entities.remove(i);
                proof {
                    assert(h@ == hv0);
                }
                let cur = h.versions.pop().unwrap();
                let ghost curv = hv0.versions.last();
                proof {
                    assert(curv == cur@);
                    assert(versions_view(h.versions@) =~= hv0.versions.drop_last());
                }
                if cur.valid_from == end_key {
                    let mut data = cur.data;
                    proof {
                        assert(field_views_of(data@) == curv.data);
                    }
                    apply_ops_exec(&mut data, &u.ops);
                    h.versions.push(
                        Version { data, valid_from: cur.valid_from, valid_to: cur.valid_to },
                    );
                    proof {
                        assert(versions_view(h.versions@) =~= hv0.versions.update(
                            hv0.versions.len() - 1,
                            VersionV {
                                data: apply_ops(curv.data, u@.ops),
                                valid_from: curv.valid_from,
                                valid_to: curv.valid_to,
                            },
                        ));
                    }
                } else {
                    let mut data = crate::value::clone_fields(&cur.data);
                    apply_ops_exec(&mut data, &u.ops);
                    let from0 = cur.valid_from;
                    h.versions.push(
                        Version { data: cur.data, valid_from: from0, valid_to: Some(end_key) },
                    );
                    h.versions.push(Version { data, valid_from: end_key, valid_to: None });
                    proof {
                        assert(versions_view(h.versions@) =~= hv0.versions.update(
                            hv0.versions.len() - 1,
                            VersionV {
                                data: curv.data,
                                valid_from: curv.valid_from,
                                valid_to: Some(end_key),
                            },
                        ).push(
                            VersionV {
                                data: apply_ops(curv.data, u@.ops),
                                valid_from: end_key,
                                valid_to: None,
                            },
                        ));
                    }
                }
                let ghost hv1 = h@;
                self.entities.insert(i, h);
                proof {
                    assert(self@ =~= s0.update(i as int, hv1));
                    assert(self@ =~= entity_apply(s0, u@, end_key));
                }
            },
        }
    }

    /// The current version of the entity `key` — the one with `valid_to`
    /// absent — or nothing when the entity is unknown.
    pub fn find_current(&self, key: &Value) -> (r: Option<&Version>)
        requires
            store_wf(self@),
        ensures
            match r {
                Some(v) => {
                    &&& key_index(self@, key@) != -1
                    &&& v@ == self@[key_index(self@, key@)].versions.last()
                    &&& v@.valid_to is None
                },
                None => key_index(self@, key@) == -1,
            },
    {
        match find_key(&self.entities, key) {
            Some(i) => {
                proof {
                    assert(versions_chained(self@[i as int].versions));
                }
                let n = self.entities[i].versions.len();
                Some(&self.entities[i].versions[n - 1])
            },
            None => None,
        }
    }

    /// Rolls the store back to `key`: versions created strictly after `key`
    /// are deleted, surviving versions closed strictly after `key` are
    /// reopened, and entities left without versions disappear.
    pub fn rollback(&mut self, key: u64)
        ensures
            final(self)@ == rollback_store(old(self)@, key),
    {
        let ghost s0 = self@;
        let mut out: Vec<EntityHistory> = Vec::new();
        proof {
            assert(s0.take(0) =~= Seq::<HistoryV>::empty());
            assert(histories_view(out@) =~= rollback_store(s0.take(0), key));
        }
        let mut i: usize = 0;
        while i < self.entities.len()
            invariant
                i <= self.entities@.len(),
                s0 == self@,
                s0.len() == self.entities@.len(),
                forall|j: int| 0 <= j < self.entities@.len() ==> s0[j] == self.entities@[j]@,
                histories_view(out@) == rollback_store(s0.take(i as int), key),
            decreases self.entities@.len() - i,
        {
            proof {
                assert(s0.take(i + 1).drop_last() =~= s0.take(i as int));
                assert(s0.take(i + 1).last() == s0[i as int]);
            }
            let ghost hv = s0[i as int];
            let mut kept: Vec<Version> = Vec::new();
            proof {
                assert(hv.versions.take(0) =~= Seq::<VersionV>::empty());
                assert(versions_view(kept@) =~= rollback_versions(hv.versions.take(0), key));
            }
            let mut j: usize = 0;
            while j < self.entities[i].versions.len()
                invariant
                    i < self.entities@.len(),
                    j <= self.entities@[i as int].versions@.len(),
                    s0 == self@,
                    s0.len() == self.entities@.len(),
                    forall|jj: int|
                        0 <= jj < self.entities@.len() ==> s0[jj] == self.entities@[jj]@,
                    hv == s0[i as int],
                    hv.versions.len() == self.entities@[i as int].versions@.len(),
                    forall|jj: int|
                        0 <= jj < hv.versions.len() ==> hv.versions[jj]
                            == self.entities@[i as int].versions@[jj]@,
                    versions_view(kept@) == rollback_versions(hv.versions.take(j as int), key),
                decreases self.entities@[i as int].versions@.len() - j,
            {
                proof {
                    assert(hv.versions.take(j + 1).drop_last() =~= hv.versions.take(j as int));
                    assert(hv.versions.take(j + 1).last() == hv.versions[j as int]);
                }
                let v = &self.entities[i].versions[j];
                if v.valid_from <= key {
                    let keep_to: Option<u64> = match v.valid_to {
                        Some(t) => if t > key {
                            None
                        } else {
                            Some(t)
                        },
                        None => None,
                    };
                    let data = crate::value::clone_fields(&v.data);
                    let ghost prev = versions_view(kept@);
                    let w = Version { data, valid_from: v.valid_from, valid_to: keep_to };
                    let ghost wv = w@;
                    kept.push(w);
                    proof {
                        assert(wv == reopened(hv.versions[j as int], key));
                        assert(versions_view(kept@) =~= prev.push(wv));
                    }
                }
                j += 1;
            }
            proof {
                assert(hv.versions.take(hv.versions.len() as int) =~= hv.versions);
            }
            if kept.len() > 0 {
                let key_copy = crate::value::clone_value(&self.entities[i].key);
                let ghost prev = histories_view(out@);
                let ghost keptv = versions_view(kept@);
                let nh = EntityHistory { key: key_copy, versions: kept };
                let ghost nhv = nh@;
                out.push(nh);
                proof {
                    assert(nhv == HistoryV { key: hv.key, versions: keptv });
                    assert(histories_view(out@) =~= prev.push(nhv));
                }
            }
            i += 1;
        }
        proof {
            assert(s0.take(s0.len() as int) =~= s0);
        }
        self.entities = out;
        proof {
            assert(self@ =~= histories_view(out@));
        }
    }
}

// ---------------------------------------------------------------------------
// Preservation of the partition invariant
// ---------------------------------------------------------------------------

/// Applying one update preserves well-formedness and keeps the store
/// bounded by the batch position.
pub proof fn lemma_entity_apply_wf(s: Seq<HistoryV>, u: EntityUpdateV, e: u64)
    requires
        store_wf(s),
        store_bounded(s, e),
    ensures
        store_wf(entity_apply(s, u, e)),
        store_bounded(entity_apply(s, u, e), e),
{
    lemma_key_index_props(s, u.key);
    let i = key_index(s, u.key);
    let out = entity_apply(s, u, e);
    if i == -1 {
        assert forall|j: int| 0 <= j < out.len() implies versions_chained(
            #[trigger] out[j].versions,
        ) by {
            if j < s.len() {
                assert(out[j] == s[j]);
            } else {
                assert(out[j].versions.len() == 1);
            }
        }
        assert forall|j1: int, j2: int| 0 <= j1 < j2 < out.len() implies out[j1].key
            != out[j2].key by {
            if j2 < s.len() {
            } else {
                assert(out[j2].key == u.key);
                assert(out[j1] == s[j1]);
            }
        }
        assert forall|j: int, k: int|
            0 <= j < out.len() && 0 <= k < out[j].versions.len() implies {
            &&& (#[trigger] out[j].versions[k]).valid_from <= e
            &&& match out[j].versions[k].valid_to {
                Some(t) => t <= e,
                None => true,
            }
        } by {
            if j < s.len() {
                assert(out[j] == s[j]);
                assert(s[j].versions[k].valid_from <= e);
            } else {
                assert(out[j].versions[k].valid_from == e);
            }
        }
    } else {
        let h = s[i];
        let cur = h.versions.last();
        let last = h.versions.len() - 1;
        assert(versions_chained(h.versions));
        assert(h.versions[last].valid_from <= e);
        let nv = out[i].versions;
        assert forall|j: int| 0 <= j < out.len() implies versions_chained(
            #[trigger] out[j].versions,
        ) by {
            if j != i {
                assert(out[j] == s[j]);
            } else {
                if cur.valid_from == e {
                    assert(nv.len() == h.versions.len());
                    assert(nv.last().valid_to is None);
                    assert forall|k: int| 0 <= k < nv.len() - 1 implies nv[k].valid_to
                        == Some(nv[k + 1].valid_from) by {
                        assert(h.versions[k].valid_to == Some(h.versions[k + 1].valid_from));
                    }
                } else {
                    assert(nv.len() == h.versions.len() + 1);
                    assert(nv.last().valid_to is None);
                    assert forall|k: int| 0 <= k < nv.len() - 1 implies nv[k].valid_to
                        == Some(nv[k + 1].valid_from) by {
                        if k < last {
                            assert(h.versions[k].valid_to == Some(h.versions[k + 1].valid_from));
                        } else {
                            assert(nv[k].valid_to == Some(e));
                            assert(nv[k + 1].valid_from == e);
                        }
                    }
                }
            }
        }
        assert forall|j1: int, j2: int| 0 <= j1 < j2 < out.len() implies out[j1].key
            != out[j2].key by {
            assert(out[j1].key == s[j1].key);
            assert(out[j2].key == s[j2].key);
        }
        assert forall|j: int, k: int|
            0 <= j < out.len() && 0 <= k < out[j].versions.len() implies {
            &&& (#[trigger] out[j].versions[k]).valid_from <= e
            &&& match out[j].versions[k].valid_to {
                Some(t) => t <= e,
                None => true,
            }
        } by {
            if j != i {
                assert(out[j] == s[j]);
                assert(s[j].versions[k].valid_from <= e);
            } else {
                if k < h.versions.len() {
                    assert(h.versions[k].valid_from <= e);
                }
            }
        }
    }
}

/// Ingesting a whole decoded batch preserves well-formedness.
pub proof fn lemma_ingest_entities_wf(s: Seq<HistoryV>, ups: Seq<EntityUpdateV>, e: u64)
    requires
        store_wf(s),
        store_bounded(s, e),
    ensures
        store_wf(ingest_entities(s, ups, e)),
        store_bounded(ingest_entities(s, ups, e), e),
    decreases ups.len(),
{
    if ups.len() > 0 {
        lemma_ingest_entities_wf(s, ups.drop_last(), e);
        lemma_entity_apply_wf(ingest_entities(s, ups.drop_last(), e), ups.last(), e);
    }
}

/// Within a chained history, `valid_from` never decreases.
proof fn lemma_from_monotone(vs: Seq<VersionV>, i: int, j: int)
    requires
        versions_chained(vs),
        0 <= i <= j < vs.len(),
    ensures
        vs[i].valid_from <= vs[j].valid_from,
    decreases j - i,
{
    if i < j {
        lemma_from_monotone(vs, i, j - 1);
        assert(vs[j - 1].valid_to == Some(vs[j].valid_from));
    }
}

/// A chained history splits at the rollback position: an initial stretch
/// created at or before it, and a final stretch created after it.
proof fn lemma_find_split(vs: Seq<VersionV>, key: u64, j: int) -> (m: int)
    requires
        versions_chained(vs),
        0 <= j <= vs.len(),
        forall|k: int| j <= k < vs.len() ==> vs[k].valid_from > key,
    ensures
        0 <= m <= vs.len(),
        forall|k: int| 0 <= k < m ==> vs[k].valid_from <= key,
        forall|k: int| m <= k < vs.len() ==> vs[k].valid_from > key,
    decreases j,
{
    if j == 0 {
        0
    } else if vs[j - 1].valid_from <= key {
        assert forall|k: int| 0 <= k < j implies vs[k].valid_from <= key by {
            lemma_from_monotone(vs, k, j - 1);
        }
        j
    } else {
        lemma_find_split(vs, key, j - 1)
    }
}

/// With a split at `m`, rolling back keeps exactly the first `m` versions,
/// each reopened when it was closed after the rollback position.
proof fn lemma_rollback_split(vs: Seq<VersionV>, key: u64, m: int)
    requires
        0 <= m <= vs.len(),
        forall|k: int| 0 <= k < m ==> vs[k].valid_from <= key,
        forall|k: int| m <= k < vs.len() ==> vs[k].valid_from > key,
    ensures
        rollback_versions(vs, key) == Seq::new(m as nat, |k: int| reopened(vs[k], key)),
    decreases vs.len(),
{
    if vs.len() == 0 {
        assert(rollback_versions(vs, key) =~= Seq::new(m as nat, |k: int| reopened(vs[k], key)));
    } else if vs.last().valid_from > key {
        assert(m <= vs.len() - 1);
        lemma_rollback_split(vs.drop_last(), key, m);
        assert(Seq::new(m as nat, |k: int| reopened(vs.drop_last()[k], key)) =~= Seq::new(
            m as nat,
            |k: int| reopened(vs[k], key),
        ));
    } else {
        assert(m == vs.len());
        lemma_rollback_split(vs.drop_last(), key, m - 1);
        assert(rollback_versions(vs, key) =~= Seq::new(m as nat, |k: int| reopened(vs[k], key)));
    }
}

/// Rolling back a chained history yields a chained history (or none), all
/// of whose positions lie at or before the rollback position.
pub proof fn lemma_rollback_versions_wf(vs: Seq<VersionV>, key: u64)
    requires
        versions_chained(vs),
    ensures
        rollback_versions(vs, key).len() > 0 ==> versions_chained(rollback_versions(vs, key)),
        forall|k: int|
            0 <= k < rollback_versions(vs, key).len() ==> {
                &&& (#[trigger] rollback_versions(vs, key)[k]).valid_from <= key
                &&& match rollback_versions(vs, key)[k].valid_to {
                    Some(t) => t <= key,
                    None => true,
                }
            },
{
    let m = lemma_find_split(vs, key, vs.len() as int);
    lemma_rollback_split(vs, key, m);
    let out = rollback_versions(vs, key);
    assert(out.len() == m);
    if m > 0 {
        assert(out.last() == reopened(vs[m - 1], key));
        if m < vs.len() {
            assert(vs[m - 1].valid_to == Some(vs[m].valid_from));
            assert(vs[m].valid_from > key);
            assert(out.last().valid_to is None);
        } else {
            assert(vs[m - 1].valid_to is None);
            assert(out.last().valid_to is None);
        }
        assert forall|k: int| 0 <= k < out.len() - 1 implies out[k].valid_to == Some(
            out[k + 1].valid_from,
        ) by {
            assert(vs[k].valid_to == Some(vs[k + 1].valid_from));
            assert(vs[k + 1].valid_from <= key);
            assert(out[k] == reopened(vs[k], key));
            assert(out[k + 1] == reopened(vs[k + 1], key));
        }
        assert forall|k: int| 0 <= k < out.len() implies match (#[trigger] out[k]).valid_to {
            Some(t) => out[k].valid_from <= t,
            None => true,
        } by {
            assert(out[k] == reopened(vs[k], key));
        }
    }
    assert forall|k: int| 0 <= k < out.len() implies {
        &&& (#[trigger] out[k]).valid_from <= key
        &&& match out[k].valid_to {
            Some(t) => t <= key,
            None => true,
        }
    } by {
        assert(out[k] == reopened(vs[k], key));
        assert(vs[k].valid_from <= key);
    }
}

/// Rolling back preserves well-formedness, bounds the store by the rollback
/// position, and introduces no new entity keys.
pub proof fn lemma_rollback_store_wf(s: Seq<HistoryV>, key: u64)
    requires
        store_wf(s),
    ensures
        store_wf(rollback_store(s, key)),
        store_bounded(rollback_store(s, key), key),
        forall|j: int|
            0 <= j < rollback_store(s, key).len() ==> exists|i: int|
                0 <= i < s.len() && s[i].key == #[trigger] rollback_store(s, key)[j].key,
    decreases s.len(),
{
    let out = rollback_store(s, key);
    if s.len() == 0 {
    } else {
        assert(store_wf(s.drop_last()));
        lemma_rollback_store_wf(s.drop_last(), key);
        let rest = rollback_store(s.drop_last(), key);
        assert(versions_chained(s.last().versions));
        lemma_rollback_versions_wf(s.last().versions, key);
        let vs = rollback_versions(s.last().versions, key);
        if vs.len() == 0 {
            assert(out == rest);
            assert forall|j: int| 0 <= j < out.len() implies exists|i: int|
                0 <= i < s.len() && s[i].key == #[trigger] out[j].key by {
                let i = choose|i: int| 0 <= i < s.len() - 1 && s.drop_last()[i].key == rest[j].key;
                assert(s[i].key == out[j].key);
            }
        } else {
            assert(out == rest.push(HistoryV { key: s.last().key, versions: vs }));
            assert forall|j: int| 0 <= j < out.len() implies exists|i: int|
                0 <= i < s.len() && s[i].key == #[trigger] out[j].key by {
                if j < rest.len() {
                    let i = choose|i: int|
                        0 <= i < s.len() - 1 && s.drop_last()[i].key == rest[j].key;
                    assert(s[i].key == out[j].key);
                } else {
                    assert(s[s.len() - 1].key == out[j].key);
                }
            }
            assert forall|j: int| 0 <= j < out.len() implies versions_chained(
                #[trigger] out[j].versions,
            ) by {
                if j < rest.len() {
                    assert(out[j] == rest[j]);
                }
            }
            assert forall|j1: int, j2: int| 0 <= j1 < j2 < out.len() implies out[j1].key
                != out[j2].key by {
                if j2 < rest.len() {
                    assert(out[j1] == rest[j1]);
                    assert(out[j2] == rest[j2]);
                } else {
                    assert(out[j1] == rest[j1]);
                    let i = choose|i: int|
                        0 <= i < s.len() - 1 && s.drop_last()[i].key == rest[j1].key;
                    assert(s[i].key != s[s.len() - 1].key);
                }
            }
            assert forall|j: int, k: int|
                0 <= j < out.len() && 0 <= k < out[j].versions.len() implies {
                &&& (#[trigger] out[j].versions[k]).valid_from <= key
                &&& match out[j].versions[k].valid_to {
                    Some(t) => t <= key,
                    None => true,
                }
            } by {
                if j < rest.len() {
                    assert(out[j] == rest[j]);
                    assert(rest[j].versions[k].valid_from <= key);
                } else {
                    assert(out[j].versions == vs);
                }
            }
        }
    }
}

// ---------------------------------------------------------------------------
// Stated laws
// ---------------------------------------------------------------------------

/// The partition invariant: in a well-formed store, every entity has
/// exactly one current version — the last — and its versions tile gap-free
/// and non-overlapping in `valid_from` order.
pub proof fn lemma_partition_invariant(s: Seq<HistoryV>)
    requires
        store_wf(s),
    ensures
        forall|i: int|
            0 <= i < s.len() ==> {
                let vs = (#[trigger] s[i]).versions;
                &&& vs.len() > 0
                &&& vs.last().valid_to is None
                &&& forall|j: int| 0 <= j < vs.len() - 1 ==> (#[trigger] vs[j]).valid_to is Some
                &&& forall|j: int|
                    0 <= j < vs.len() - 1 ==> (#[trigger] vs[j]).valid_to == Some(
                        vs[j + 1].valid_from,
                    )
                &&& forall|j: int, k: int|
                    0 <= j <= k < vs.len() ==> (#[trigger] vs[j]).valid_from
                        <= (#[trigger] vs[k]).valid_from
            },
{
    assert forall|i: int| 0 <= i < s.len() implies {
        let vs = (#[trigger] s[i]).versions;
        &&& vs.len() > 0
        &&& vs.last().valid_to is None
        &&& forall|j: int| 0 <= j < vs.len() - 1 ==> (#[trigger] vs[j]).valid_to is Some
        &&& forall|j: int|
            0 <= j < vs.len() - 1 ==> (#[trigger] vs[j]).valid_to == Some(vs[j + 1].valid_from)
        &&& forall|j: int, k: int|
            0 <= j <= k < vs.len() ==> (#[trigger] vs[j]).valid_from
                <= (#[trigger] vs[k]).valid_from
    } by {
        let vs = s[i].versions;
        assert(versions_chained(vs));
        assert forall|j: int, k: int| 0 <= j <= k < vs.len() implies (#[trigger] vs[j]).valid_from
            <= (#[trigger] vs[k]).valid_from by {
            lemma_from_monotone(vs, j, k);
        }
    }
}

/// The boundary is exclusive: a version closed exactly at the rollback
/// position survives the rollback unchanged — it is not reopened.
pub proof fn lemma_boundary_no_op(vs: Seq<VersionV>, i: int, key: u64)
    requires
        versions_chained(vs),
        0 <= i < vs.len(),
        vs[i].valid_to == Some(key),
    ensures
        i < rollback_versions(vs, key).len(),
        rollback_versions(vs, key)[i] == vs[i],
{
    let m = lemma_find_split(vs, key, vs.len() as int);
    lemma_rollback_split(vs, key, m);
    assert(vs[i].valid_from <= key);
    assert(i < m);
    assert(rollback_versions(vs, key)[i] == reopened(vs[i], key));
}

/// Applying a concatenation of operation lists equals applying them one
/// list after the other.
pub proof fn lemma_apply_ops_concat(data: Seq<FieldV>, ops1: Seq<UpdateOpV>, ops2: Seq<UpdateOpV>)
    ensures
        apply_ops(data, ops1 + ops2) == apply_ops(apply_ops(data, ops1), ops2),
    decreases ops2.len(),
{
    if ops2.len() == 0 {
        assert(ops1 + ops2 =~= ops1);
    } else {
        assert((ops1 + ops2).drop_last() =~= ops1 + ops2.drop_last());
        assert((ops1 + ops2).last() == ops2.last());
        lemma_apply_ops_concat(data, ops1, ops2.drop_last());
    }
}

/// Same-batch squashing is deterministic: two update elements for the same
/// entity key within one batch produce exactly one new version, whose data
/// is the sequential left-to-right application of both operation lists —
/// the same store as one element carrying the concatenated operations.
pub proof fn lemma_squash_determinism(
    s: Seq<HistoryV>,
    key: ValueV,
    ops1: Seq<UpdateOpV>,
    ops2: Seq<UpdateOpV>,
    e: u64,
)
    requires
        store_wf(s),
        key_index(s, key) != -1 ==> s[key_index(s, key)].versions.last().valid_from != e,
    ensures
        ingest_entities(
            s,
            seq![
                EntityUpdateV { key, ops: ops1 },
                EntityUpdateV { key, ops: ops2 },
            ],
            e,
        ) == entity_apply(s, EntityUpdateV { key, ops: ops1 + ops2 }, e),
{
    let u1 = EntityUpdateV { key, ops: ops1 };
    let u2 = EntityUpdateV { key, ops: ops2 };
    let u12 = EntityUpdateV { key, ops: ops1 + ops2 };
    let pair = seq![u1, u2];
    assert(pair.drop_last() =~= seq![u1]);
    assert(seq![u1].drop_last() =~= Seq::<EntityUpdateV>::empty());
    assert(ingest_entities(s, Seq::<EntityUpdateV>::empty(), e) == s);
    assert(seq![u1].last() == u1);
    assert(ingest_entities(s, seq![u1], e) == entity_apply(s, u1, e));
    assert(pair.last() == u2);
    assert(ingest_entities(s, pair, e) == entity_apply(entity_apply(s, u1, e), u2, e));
    lemma_key_index_props(s, key);
    let i = key_index(s, key);
    let s1 = entity_apply(s, u1, e);
    if i == -1 {
        let d1 = apply_ops(Seq::empty(), ops1);
        let v1 = VersionV { data: d1, valid_from: e, valid_to: None };
        let h1 = HistoryV { key, versions: seq![v1] };
        assert(s1 == s.push(h1));
        assert forall|j: int| 0 <= j < s.len() implies s1[j].key != key by {
            assert(s1[j] == s[j]);
        }
        lemma_key_index_scan(s1, key, s.len() as int);
        assert(key_index(s1, key) == s.len());
        assert(s1[s.len() as int] == h1);
        assert(h1.versions.last() == v1);
        let v1x = VersionV { data: apply_ops(d1, ops2), valid_from: e, valid_to: None };
        assert(entity_apply(s1, u2, e) == s1.update(
            s.len() as int,
            HistoryV { key, versions: seq![v1].update(0, v1x) },
        ));
        lemma_apply_ops_concat(Seq::empty(), ops1, ops2);
        let v12 = VersionV { data: apply_ops(Seq::empty(), ops1 + ops2), valid_from: e, valid_to: None };
        assert(seq![v1].update(0, v1x) =~= seq![v12]);
        assert(entity_apply(s, u12, e) == s.push(HistoryV { key, versions: seq![v12] }));
        assert(s.push(h1).update(s.len() as int, HistoryV { key, versions: seq![v12] }) =~= s.push(
            HistoryV { key, versions: seq![v12] },
        ));
    } else {
        let h = s[i];
        let last = h.versions.len() - 1;
        let cur = h.versions.last();
        assert(versions_chained(h.versions));
        assert(cur.valid_from != e);
        let closed = VersionV { data: cur.data, valid_from: cur.valid_from, valid_to: Some(e) };
        let v1 = VersionV { data: apply_ops(cur.data, ops1), valid_from: e, valid_to: None };
        let h1 = HistoryV { key: h.key, versions: h.versions.update(last, closed).push(v1) };
        assert(s1 == s.update(i, h1));
        assert forall|j: int| 0 <= j < i implies s1[j].key != key by {
            assert(s1[j] == s[j]);
        }
        assert(s1[i].key == key);
        lemma_key_index_scan(s1, key, i);
        assert(key_index(s1, key) == i);
        let n1 = h1.versions.len() - 1;
        assert(h1.versions.last() == v1);
        let v1x = VersionV { data: apply_ops(v1.data, ops2), valid_from: e, valid_to: None };
        assert(entity_apply(s1, u2, e) == s1.update(
            i,
            HistoryV { key: h.key, versions: h1.versions.update(n1, v1x) },
        ));
        lemma_apply_ops_concat(cur.data, ops1, ops2);
        let v12 = VersionV {
            data: apply_ops(cur.data, ops1 + ops2),
            valid_from: e,
            valid_to: None,
        };
        assert(h1.versions.update(n1, v1x) =~= h.versions.update(last, closed).push(v12));
        assert(entity_apply(s, u12, e) == s.update(
            i,
            HistoryV { key: h.key, versions: h.versions.update(last, closed).push(v12) },
        ));
        assert(s.update(i, h1).update(
            i,
            HistoryV { key: h.key, versions: h1.versions.update(n1, v1x) },
        ) =~= s.update(
            i,
            HistoryV { key: h.key, versions: h.versions.update(last, closed).push(v12) },
        ));
    }
}

impl EntityStore {
    /// Decodes and ingests one batch at position `end_key`: decoded updates
    /// are applied in element order, same-key elements folding into one new
    /// version; on an unsupported operator nothing is applied and the error
    /// names the operator.
    pub fn ingest(&mut self, elements: &Vec<Value>, end_key: u64) -> (r: Result<(), String>)
        requires
            store_wf(old(self)@),
            store_bounded(old(self)@, end_key),
        ensures
            store_wf(final(self)@),
            match parse_batch(views_of(elements@)) {
                Ok(ups) => {
                    &&& r is Ok
                    &&& final(self)@ == ingest_entities(old(self)@, ups, end_key)
                    &&& store_bounded(final(self)@, end_key)
                },
                Err(name) => {
                    &&& r is Err
                    &&& match r {
                        Err(e) => e@ == name,
                        Ok(_) => false,
                    }
                    &&& final(self)@ == old(self)@
                },
            },
    {
        let ghost s0 = self@;
        match parse_batch_exec(elements) {
            Err(e) => Err(e),
            Ok(ups) => {
                let ghost uvs = updates_view(ups@);
                proof {
                    assert(uvs.take(0) =~= Seq::<EntityUpdateV>::empty());
                }
                let mut k: usize = 0;
                while k < ups.len()
                    invariant
                        k <= ups@.len(),
                        uvs == updates_view(ups@),
                        uvs.len() == ups@.len(),
                        forall|j: int| 0 <= j < ups@.len() ==> uvs[j] == ups@[j]@,
                        store_wf(self@),
                        store_bounded(self@, end_key),
                        self@ == ingest_entities(s0, uvs.take(k as int), end_key),
                    decreases ups@.len() - k,
                {
                    proof {
                        assert(uvs.take(k + 1).drop_last() =~= uvs.take(k as int));
                        assert(uvs.take(k + 1).last() == uvs[k as int]);
                    }
                    let ghost before = self@;
                    proof {
                        assert forall|i: int| 0 <= i < before.len() implies (#[trigger] before[i]).versions.len()
                            > 0 by {
                            assert(versions_chained(before[i].versions));
                        }
                    }
                    self.apply_update(&ups[k], end_key);
                    proof {
                        lemma_entity_apply_wf(before, uvs[k as int], end_key);
                    }
                    k += 1;
                }
                proof {
                    assert(uvs.take(ups@.len() as int) =~= uvs);
                }
                Ok(())
            },
        }
    }
}

} // verus!
