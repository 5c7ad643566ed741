//! The payload model: a dynamically shaped, JSON-like value as delivered by
//! the upstream transform layer, together with its mathematical view.

use vstd::prelude::*;

verus! {

/// One named field of an object value.
pub struct Field {
    pub name: String,
    pub value: Value,
}

/// A dynamically shaped payload value. Batches, records, entity keys and
/// update operations all arrive as values of this shape; the engine decodes
/// them before any store operation.
pub enum Value {
    Null,
    Bool(bool),
    Int(i64),
    Text(String),
    List(Vec<Value>),
    Object(Vec<Field>),
}

/// Mathematical model of a `Field`.
pub struct FieldV {
    pub name: Seq<char>,
    pub value: ValueV,
}

/// Mathematical model of a `Value`.
pub enum ValueV {
    Null,
    Bool(bool),
    Int(i64),
    Text(Seq<char>),
    List(Seq<ValueV>),
    Object(Seq<FieldV>),
}

impl Value {
    /// The mathematical value this executable value stands for.
    pub open spec fn spec_view(self) -> ValueV
        decreases self,
    {
        match self {
            Value::Null => ValueV::Null,
            Value::Bool(b) => ValueV::Bool(b),
            Value::Int(i) => ValueV::Int(i),
            Value::Text(s) => ValueV::Text(s@),
            Value::List(items) => ValueV::List(views_of(items@)),
            Value::Object(fields) => ValueV::Object(field_views_of(fields@)),
        }
    }
}

/// The views of a sequence of values, in order.
pub open spec fn views_of(s: Seq<Value>) -> Seq<ValueV>
    decreases s,
{
    if s.len() == 0 {
        Seq::empty()
    } else {
        views_of(s.drop_last()).push(s.last().spec_view())
    }
}

/// The views of a sequence of fields, in order.
pub open spec fn field_views_of(s: Seq<Field>) -> Seq<FieldV>
    decreases s,
{
    if s.len() == 0 {
        Seq::empty()
    } else {
        field_views_of(s.drop_last()).push(
            FieldV { name: s.last().name@, value: s.last().value.spec_view() },
        )
    }
}

impl View for Value {
    type V = ValueV;

    open spec fn view(&self) -> ValueV {
        self.spec_view()
    }
}

impl View for Field {
    type V = FieldV;

    open spec fn view(&self) -> FieldV {
        FieldV { name: self.name@, value: self.value.spec_view() }
    }
}

/// `views_of` maps the sequence pointwise.
pub proof fn lemma_views_of(s: Seq<Value>)
    ensures
        views_of(s).len() == s.len(),
        forall|i: int| 0 <= i < s.len() ==> views_of(s)[i] == s[i]@,
    decreases s,
{
    if s.len() > 0 {
        lemma_views_of(s.drop_last());
    }
}

/// `field_views_of` maps the sequence pointwise.
pub proof fn lemma_field_views_of(s: Seq<Field>)
    ensures
        field_views_of(s).len() == s.len(),
        forall|i: int| 0 <= i < s.len() ==> field_views_of(s)[i] == s[i]@,
    decreases s,
{
    if s.len() > 0 {
        lemma_field_views_of(s.drop_last());
    }
}

/// Structural equality of two values: true exactly when their views coincide.
pub fn value_eq(a: &Value, b: &Value) -> (r: bool)
    ensures
        r == (a@ == b@),
    decreases *a,
{
    match (a, b) {
        (Value::Null, Value::Null) => true,
        (Value::Bool(x), Value::Bool(y)) => *x == *y,
        (Value::Int(x), Value::Int(y)) => *x == *y,
        (Value::Text(x), Value::Text(y)) => *x == *y,
        (Value::List(xs), Value::List(ys)) => value_list_eq(xs, ys),
        (Value::Object(xs), Value::Object(ys)) => field_list_eq(xs, ys),
        _ => false,
    }
}

/// Pointwise structural equality of two value sequences.
fn value_list_eq(xs: &Vec<Value>, ys: &Vec<Value>) -> (r: bool)
    ensures
        r == (views_of(xs@) == views_of(ys@)),
    decreases xs@,
{
    proof {
        lemma_views_of(xs@);
        lemma_views_of(ys@);
    }
    if xs.len() != ys.len() {
        return false;
    }
    let mut i: usize = 0;
    while i < xs.len()
        invariant
            i <= xs.len(),
            xs@.len() == ys@.len(),
            forall|j: int| 0 <= j < i ==> xs@[j]@ == ys@[j]@,
        decreases xs@.len() - i,
    {
        if !value_eq(&xs[i], &ys[i]) {
            proof {
                lemma_views_of(xs@);
                lemma_views_of(ys@);
                assert(views_of(xs@)[i as int] != views_of(ys@)[i as int]);
            }
            return false;
        }
        i += 1;
    }
    proof {
        lemma_views_of(xs@);
        lemma_views_of(ys@);
        assert(views_of(xs@) =~= views_of(ys@));
    }
    true
}

/// Pointwise structural equality of two field sequences.
fn field_list_eq(xs: &Vec<Field>, ys: &Vec<Field>) -> (r: bool)
    ensures
        r == (field_views_of(xs@) == field_views_of(ys@)),
    decreases xs@,
{
    proof {
        lemma_field_views_of(xs@);
        lemma_field_views_of(ys@);
    }
    if xs.len() != ys.len() {
        return false;
    }
    let mut i: usize = 0;
    while i < xs.len()
        invariant
            i <= xs.len(),
            xs@.len() == ys@.len(),
            forall|j: int| 0 <= j < i ==> xs@[j]@ == ys@[j]@,
        decreases xs@.len() - i,
    {
        let names_match = xs[i].name == ys[i].name;
        if !names_match || !value_eq(&xs[i].value, &ys[i].value) {
            proof {
                lemma_field_views_of(xs@);
                lemma_field_views_of(ys@);
                assert(field_views_of(xs@)[i as int] != field_views_of(ys@)[i as int]);
            }
            return false;
        }
        i += 1;
    }
    proof {
        lemma_field_views_of(xs@);
        lemma_field_views_of(ys@);
        assert(field_views_of(xs@) =~= field_views_of(ys@));
    }
    true
}

/// A copy of a value with the same view.
pub fn clone_value(v: &Value) -> (r: Value)
    ensures
        r@ == v@,
    decreases *v,
{
    match v {
        Value::Null => Value::Null,
        Value::Bool(b) => Value::Bool(*b),
        Value::Int(i) => Value::Int(*i),
        Value::Text(s) => Value::Text(s.clone()),
        Value::List(items) => Value::List(clone_values(items)),
        Value::Object(fields) => Value::Object(clone_fields(fields)),
    }
}

/// A copy of a value sequence with the same views.
pub fn clone_values(items: &Vec<Value>) -> (r: Vec<Value>)
    ensures
        views_of(r@) == views_of(items@),
    decreases items@,
{
    let mut out: Vec<Value> = Vec::new();
    let mut i: usize = 0;
    while i < items.len()
        invariant
            i <= items.len(),
            out@.len() == i,
            forall|j: int| 0 <= j < i ==> out@[j]@ == items@[j]@,
        decreases items@.len() - i,
    {
        let c = clone_value(&items[i]);
        out.push(c);
        i += 1;
    }
    proof {
        lemma_views_of(out@);
        lemma_views_of(items@);
        assert(views_of(out@) =~= views_of(items@));
    }
    out
}

/// A copy of a field sequence with the same views.
pub fn clone_fields(fields: &Vec<Field>) -> (r: Vec<Field>)
    ensures
        field_views_of(r@) == field_views_of(fields@),
    decreases fields@,
{
    let mut out: Vec<Field> = Vec::new();
    let mut i: usize = 0;
    while i < fields.len()
        invariant
            i <= fields.len(),
            out@.len() == i,
            forall|j: int| 0 <= j < i ==> out@[j]@ == fields@[j]@,
        decreases fields@.len() - i,
    {
        let c = clone_value(&fields[i].value);
        out.push(Field { name: fields[i].name.clone(), value: c });
        i += 1;
    }
    proof {
        lemma_field_views_of(out@);
        lemma_field_views_of(fields@);
        assert(field_views_of(out@) =~= field_views_of(fields@));
    }
    out
}

/// The value of the first field named `name`, if any.
pub open spec fn lookup(fields: Seq<FieldV>, name: Seq<char>) -> Option<ValueV>
    decreases fields.len(),
{
    if fields.len() == 0 {
        None
    } else if fields.first().name == name {
        Some(fields.first().value)
    } else {
        lookup(fields.drop_first(), name)
    }
}

/// Skipping a leading field that does not carry `name` leaves `lookup` unchanged.
pub proof fn lemma_lookup_skip(fields: Seq<FieldV>, name: Seq<char>, i: int)
    requires
        0 <= i <= fields.len(),
        forall|j: int| 0 <= j < i ==> fields[j].name != name,
    ensures
        lookup(fields, name) == lookup(fields.skip(i), name),
    decreases i,
{
    if i > 0 {
        assert(fields.skip(i - 1).drop_first() =~= fields.skip(i));
        lemma_lookup_skip(fields, name, i - 1);
    } else {
        assert(fields.skip(0) =~= fields);
    }
}

/// The first field named `name`, by reference, if any.
pub fn find_field<'a>(fields: &'a Vec<Field>, name: &String) -> (r: Option<&'a Value>)
    ensures
        match r {
            Some(v) => lookup(field_views_of(fields@), name@) == Some(v@),
            None => lookup(field_views_of(fields@), name@) is None,
        },
{
    proof {
        lemma_field_views_of(fields@);
    }
    let ghost fvs = field_views_of(fields@);
    let mut i: usize = 0;
    while i < fields.len()
        invariant
            i <= fields.len(),
            fvs == field_views_of(fields@),
            fvs.len() == fields@.len(),
            forall|j: int| 0 <= j < fields@.len() ==> fvs[j] == fields@[j]@,
            forall|j: int| 0 <= j < i ==> fvs[j].name != name@,
        decreases fields@.len() - i,
    {
        if fields[i].name == *name {
            proof {
                lemma_lookup_skip(fvs, name@, i as int);
                assert(fvs.skip(i as int).first() == fvs[i as int]);
            }
            return Some(&fields[i].value);
        }
        i += 1;
    }
    proof {
        lemma_lookup_skip(fvs, name@, i as int);
        assert(fvs.skip(i as int).len() == 0);
    }
    None
}

} // verus!
