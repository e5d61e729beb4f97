//! The dynamically-typed scalar value model: a borrowed view, an owned form,
//! aggregate accumulators, and records (ordered sequences of values).
use vstd::prelude::*;

verus! {

/// Marks whether a text payload is plain text or JSON-tagged text.
/// The subtype affects downstream formatting only, never equality,
/// ordering, or the codec.
#[derive(Debug, Clone, Copy, PartialEq, Eq, Structural)]
pub enum TextSubtype {
    Text,
    Json,
}

/// An owned text payload together with its subtype tag.
#[derive(Debug, Clone, PartialEq, Eq)]
pub struct LimboText {
    pub value: String,
    pub subtype: TextSubtype,
}

impl LimboText {
    /// Builds a plain-text payload.
    pub fn new(value: String) -> (r: Self)
        ensures
            r.value@ == value@,
            r.subtype == TextSubtype::Text,
    {
        Self { value, subtype: TextSubtype::Text }
    }

    /// Builds a JSON-tagged text payload.
    pub fn json(value: String) -> (r: Self)
        ensures
            r.value@ == value@,
            r.subtype == TextSubtype::Json,
    {
        Self { value, subtype: TextSubtype::Json }
    }

    /// Copy with the same payload and subtype.
    pub fn duplicate(&self) -> (r: Self)
        ensures
            r.value@ == self.value@,
            r.subtype == self.subtype,
    {
        Self { value: self.value.clone(), subtype: self.subtype }
    }
}

/// The mathematical model of an owned value. Text carries its character
/// sequence and subtype; Blob its byte sequence; Float the IEEE 754
/// binary64 bit pattern of its payload.
pub enum ValueView {
    Null,
    Integer(int),
    Float(u64),
    Text(Seq<char>, TextSubtype),
    Blob(Seq<u8>),
    Agg(Box<AggView>),
    Record(Seq<ValueView>),
}

/// The mathematical model of an aggregate accumulator.
pub enum AggView {
    Avg(ValueView, ValueView),
    Sum(ValueView),
    Count(ValueView),
    Max(Option<ValueView>),
    Min(Option<ValueView>),
    GroupConcat(ValueView),
}

/// An owned dynamically-typed scalar. `Float` holds the IEEE 754 binary64
/// bit pattern of the number; the codec stores exactly these eight bytes and
/// the collation order is defined on them, so no native float type is needed
/// in the core.
#[derive(Debug, PartialEq)]
pub enum OwnedValue {
    Null,
    Integer(i64),
    Float(u64),
    Text(LimboText),
    Blob(Vec<u8>),
    Agg(Box<AggContext>),
    Record(OwnedRecord),
}

/// A streaming aggregate accumulator: the intermediate state of one
/// aggregate function over one group's rows.
#[derive(Debug, PartialEq)]
pub enum AggContext {
    /// Accumulated average and the count of inputs seen.
    Avg(OwnedValue, OwnedValue),
    Sum(OwnedValue),
    Count(OwnedValue),
    Max(Option<OwnedValue>),
    Min(Option<OwnedValue>),
    GroupConcat(OwnedValue),
}

/// An ordered sequence of owned values: one row, or one composite index key.
#[derive(Debug, PartialEq)]
pub struct OwnedRecord {
    pub values: Vec<OwnedValue>,
}

impl View for OwnedValue {
    type V = ValueView;

    open spec fn view(&self) -> ValueView {
        value_view(*self)
    }
}

impl View for AggContext {
    type V = AggView;

    open spec fn view(&self) -> AggView {
        agg_view(*self)
    }
}

impl View for OwnedRecord {
    type V = Seq<ValueView>;

    open spec fn view(&self) -> Seq<ValueView> {
        values_view(self.values@)
    }
}

/// The model of a sequence of owned values, element-wise.
pub open spec fn values_view(vs: Seq<OwnedValue>) -> Seq<ValueView>
    decreases vs,
{
    if vs.len() == 0 {
        Seq::empty()
    } else {
        seq![value_view(vs[0])] + values_view(vs.subrange(1, vs.len() as int))
    }
}

/// `values_view` maps the element models pointwise.
pub proof fn lemma_values_view_index(vs: Seq<OwnedValue>)
    ensures
        values_view(vs).len() == vs.len(),
        forall|i: int| 0 <= i < vs.len() ==> values_view(vs)[i] == value_view(vs[i]),
    decreases vs.len(),
{
    if vs.len() > 0 {
        let tail = vs.subrange(1, vs.len() as int);
        lemma_values_view_index(tail);
        assert forall|i: int| 0 <= i < vs.len() implies values_view(vs)[i] == value_view(
            vs[i],
        ) by {
            if i > 0 {
                assert(tail[i - 1] == vs[i]);
            }
        }
    }
}

/// The model of an owned value.
pub open spec fn value_view(v: OwnedValue) -> ValueView
    decreases v,
    via value_view_decreases
{
    match v {
        OwnedValue::Null => ValueView::Null,
        OwnedValue::Integer(i) => ValueView::Integer(i as int),
        OwnedValue::Float(bits) => ValueView::Float(bits),
        OwnedValue::Text(t) => ValueView::Text(t.value@, t.subtype),
        OwnedValue::Blob(b) => ValueView::Blob(b@),
        OwnedValue::Agg(a) => ValueView::Agg(Box::new(agg_view(*a))),
        OwnedValue::Record(r) => ValueView::Record(values_view(r.values@)),
    }
}

#[via_fn]
proof fn value_view_decreases(v: OwnedValue) {
    match v {
        OwnedValue::Record(r) => {
            assert(decreases_to!(v => r.values));
            assert(decreases_to!(r.values => r.values@));
        },
        _ => {},
    }
}

/// The model of an aggregate accumulator.
pub open spec fn agg_view(a: AggContext) -> AggView
    decreases a,
{
    match a {
        AggContext::Avg(acc, count) => AggView::Avg(value_view(acc), value_view(count)),
        AggContext::Sum(acc) => AggView::Sum(value_view(acc)),
        AggContext::Count(count) => AggView::Count(value_view(count)),
        AggContext::Max(m) => AggView::Max(match m {
            Some(x) => Some(value_view(x)),
            None => None,
        }),
        AggContext::Min(m) => AggView::Min(match m {
            Some(x) => Some(value_view(x)),
            None => None,
        }),
        AggContext::GroupConcat(s) => AggView::GroupConcat(value_view(s)),
    }
}

impl OwnedValue {
    /// Builds a plain-text owned value from a string.
    pub fn build_text(text: String) -> (r: Self)
        ensures
            r@ == ValueView::Text(text@, TextSubtype::Text),
    {
        OwnedValue::Text(LimboText::new(text))
    }

    /// Deep copy with the same model.
    pub fn duplicate(&self) -> (r: Self)
        ensures
            r@ == self@,
        decreases *self,
    {
        broadcast use vstd::std_specs::vec::axiom_vec_index_decreases;

        match self {
            OwnedValue::Null => OwnedValue::Null,
            OwnedValue::Integer(i) => OwnedValue::Integer(*i),
            OwnedValue::Float(bits) => OwnedValue::Float(*bits),
            OwnedValue::Text(t) => OwnedValue::Text(t.duplicate()),
            OwnedValue::Blob(b) => OwnedValue::Blob(b.clone()),
            OwnedValue::Agg(a) => OwnedValue::Agg(Box::new(a.duplicate())),
            OwnedValue::Record(r) => {
                let mut values: Vec<OwnedValue> = Vec::new();
                let n = r.values.len();
                for i in 0..n
                    invariant
                        n == r.values.len(),
                        values@.len() == i,
                        forall|j: int| 0 <= j < i ==> values@[j]@ == r.values@[j]@,
                        decreases_to!(*self => r.values),
                {
                    proof {
                        assert(decreases_to!(r.values => r.values[i as int]));
                    }
                    values.push(r.values[i].duplicate());
                }
                let copy = OwnedValue::Record(OwnedRecord { values });
                proof {
                    lemma_values_view_index(values@);
                    lemma_values_view_index(r.values@);
                    assert(values_view(values@) =~= values_view(r.values@));
                }
                copy
            },
        }
    }
}

impl AggContext {
    /// Deep copy with the same model.
    pub fn duplicate(&self) -> (r: Self)
        ensures
            r@ == self@,
        decreases *self,
    {
        match self {
            AggContext::Avg(acc, count) => AggContext::Avg(acc.duplicate(), count.duplicate()),
            AggContext::Sum(acc) => AggContext::Sum(acc.duplicate()),
            AggContext::Count(count) => AggContext::Count(count.duplicate()),
            AggContext::Max(m) => AggContext::Max(match m {
                Some(x) => Some(x.duplicate()),
                None => None,
            }),
            AggContext::Min(m) => AggContext::Min(match m {
                Some(x) => Some(x.duplicate()),
                None => None,
            }),
            AggContext::GroupConcat(s) => AggContext::GroupConcat(s.duplicate()),
        }
    }
}

/// The final value an aggregate accumulator projects to, at the model level:
/// Max/Min project to Null while never updated, every other variant exposes
/// its accumulator.
pub open spec fn agg_final_view(a: AggView) -> ValueView {
    match a {
        AggView::Avg(acc, _count) => acc,
        AggView::Sum(acc) => acc,
        AggView::Count(count) => count,
        AggView::Max(m) => match m {
            Some(x) => x,
            None => ValueView::Null,
        },
        AggView::Min(m) => match m {
            Some(x) => x,
            None => ValueView::Null,
        },
        AggView::GroupConcat(s) => s,
    }
}

impl AggContext {
    /// Projects the accumulator to its final concrete value.
    pub fn final_value(&self) -> (r: OwnedValue)
        ensures
            r@ == agg_final_view(self@),
    {
        match self {
            AggContext::Avg(acc, _count) => acc.duplicate(),
            AggContext::Sum(acc) => acc.duplicate(),
            AggContext::Count(count) => count.duplicate(),
            AggContext::Max(max) => match max {
                Some(x) => x.duplicate(),
                None => OwnedValue::Null,
            },
            AggContext::Min(min) => match min {
                Some(x) => x.duplicate(),
                None => OwnedValue::Null,
            },
            AggContext::GroupConcat(s) => s.duplicate(),
        }
    }
}

/// A borrowed view of a scalar value, projected from an owned value for
/// the duration of one read: it never owns its text or blob payload. The
/// float case carries the IEEE 754 bit pattern.
#[derive(Debug, Clone, PartialEq)]
pub enum Value<'a> {
    Null,
    Integer(i64),
    Float(u64),
    Text(&'a String),
    Blob(&'a Vec<u8>),
}

impl<'a> View for Value<'a> {
    type V = ValueView;

    open spec fn view(&self) -> ValueView {
        match self {
            Value::Null => ValueView::Null,
            Value::Integer(i) => ValueView::Integer(*i as int),
            Value::Float(bits) => ValueView::Float(*bits),
            Value::Text(s) => ValueView::Text(s@, TextSubtype::Text),
            Value::Blob(b) => ValueView::Blob(b@),
        }
    }
}

/// Whether an owned value can be projected to a borrowed view: nested
/// records cannot, directly or from inside an aggregate accumulator.
pub open spec fn projectable(v: ValueView) -> bool
    decreases v,
{
    match v {
        ValueView::Record(_) => false,
        ValueView::Agg(a) => match *a {
            AggView::Avg(_, _) => true,
            AggView::Sum(_) => true,
            AggView::Count(c) => projectable(c),
            AggView::Max(m) => match m {
                Some(x) => projectable(x),
                None => true,
            },
            AggView::Min(m) => match m {
                Some(x) => projectable(x),
                None => true,
            },
            AggView::GroupConcat(s) => projectable(s),
        },
        _ => true,
    }
}

/// The scalar a value projects to: an aggregate projects through its
/// accumulator, with a zero float standing in for an average or sum whose
/// accumulator is not numeric; the text subtype is not part of the view.
pub open spec fn spec_to_value(v: ValueView) -> ValueView
    decreases v,
{
    match v {
        ValueView::Null => ValueView::Null,
        ValueView::Integer(i) => ValueView::Integer(i),
        ValueView::Float(bits) => ValueView::Float(bits),
        ValueView::Text(s, _) => ValueView::Text(s, TextSubtype::Text),
        ValueView::Blob(b) => ValueView::Blob(b),
        ValueView::Agg(a) => match *a {
            AggView::Avg(acc, _) => match acc {
                ValueView::Integer(i) => ValueView::Integer(i),
                ValueView::Float(bits) => ValueView::Float(bits),
                _ => ValueView::Float(0),
            },
            AggView::Sum(acc) => match acc {
                ValueView::Integer(i) => ValueView::Integer(i),
                ValueView::Float(bits) => ValueView::Float(bits),
                _ => ValueView::Float(0),
            },
            AggView::Count(c) => spec_to_value(c),
            AggView::Max(m) => match m {
                Some(x) => spec_to_value(x),
                None => ValueView::Null,
            },
            AggView::Min(m) => match m {
                Some(x) => spec_to_value(x),
                None => ValueView::Null,
            },
            AggView::GroupConcat(s) => spec_to_value(s),
        },
        ValueView::Record(_) => ValueView::Null,
    }
}

/// Projects an owned value to its borrowed view, without copying payloads.
pub fn to_value(value: &OwnedValue) -> (r: Value<'_>)
    requires
        projectable(value@),
    ensures
        r@ == spec_to_value(value@),
    decreases value@,
{
    match value {
        OwnedValue::Null => Value::Null,
        OwnedValue::Integer(i) => Value::Integer(*i),
        OwnedValue::Float(bits) => Value::Float(*bits),
        OwnedValue::Text(t) => Value::Text(&t.value),
        OwnedValue::Blob(b) => Value::Blob(b),
        OwnedValue::Agg(a) => {
            proof {
                let av = agg_view(**a);
                assert(decreases_to!(value@ => value@->Agg_0));
                assert(value@->Agg_0 == Box::new(av));
                match av {
                    AggView::Count(c) => {
                        assert(decreases_to!(av => av->Count_0));
                    },
                    AggView::Max(m) => {
                        if m is Some {
                            assert(decreases_to!(av => av->Max_0));
                            assert(decreases_to!(av->Max_0 => av->Max_0->Some_0));
                        }
                    },
                    AggView::Min(m) => {
                        if m is Some {
                            assert(decreases_to!(av => av->Min_0));
                            assert(decreases_to!(av->Min_0 => av->Min_0->Some_0));
                        }
                    },
                    AggView::GroupConcat(s) => {
                        assert(decreases_to!(av => av->GroupConcat_0));
                    },
                    _ => {},
                }
            }
            match &**a {
                AggContext::Avg(acc, _count) => match acc {
                    OwnedValue::Integer(i) => Value::Integer(*i),
                    OwnedValue::Float(bits) => Value::Float(*bits),
                    _ => Value::Float(0),
                },
                AggContext::Sum(acc) => match acc {
                    OwnedValue::Integer(i) => Value::Integer(*i),
                    OwnedValue::Float(bits) => Value::Float(*bits),
                    _ => Value::Float(0),
                },
                AggContext::Count(count) => to_value(count),
                AggContext::Max(max) => match max {
                    Some(x) => to_value(x),
                    None => Value::Null,
                },
                AggContext::Min(min) => match min {
                    Some(x) => to_value(x),
                    None => Value::Null,
                },
                AggContext::GroupConcat(s) => to_value(s),
            }
        },
        OwnedValue::Record(_) => Value::Null,
    }
}

/// A row of borrowed values, valid only as long as its owner.
#[derive(Debug)]
pub struct Record<'a> {
    pub values: Vec<Value<'a>>,
}

impl<'a> Record<'a> {
    /// Wraps an ordered sequence of borrowed values as a record view.
    pub fn new(values: Vec<Value<'a>>) -> (r: Self)
        ensures
            r.values@ == values@,
    {
        Self { values }
    }
}

/// Typed extraction from a borrowed value: the conversion succeeds exactly
/// when the value's tag matches the requested native type.
pub trait FromValue<'a> where Self: Sized {
    /// Whether a value with this model converts to `Self`.
    spec fn convertible(v: ValueView) -> bool;

    /// Whether `r` is the converted form of a value with model `v`.
    spec fn converted(v: ValueView, r: Self) -> bool;

    /// Extracts the native value, or reports the tag mismatch.
    fn from_value(value: &Value<'a>) -> (r: Result<Self, crate::LimboError>)
        ensures
            match r {
                Ok(x) => Self::convertible(value@) && Self::converted(value@, x),
                Err(e) => !Self::convertible(value@) && e is ConversionError,
            },
    ;
}

impl<'a> FromValue<'a> for i64 {
    open spec fn convertible(v: ValueView) -> bool {
        v is Integer
    }

    open spec fn converted(v: ValueView, r: i64) -> bool {
        v == ValueView::Integer(r as int)
    }

    fn from_value(value: &Value<'a>) -> (r: Result<Self, crate::LimboError>) {
        match value {
            Value::Integer(i) => Ok(*i),
            _ => Err(crate::LimboError::ConversionError(expected_integer_message())),
        }
    }
}

impl<'a> FromValue<'a> for String {
    open spec fn convertible(v: ValueView) -> bool {
        v is Text
    }

    open spec fn converted(v: ValueView, r: String) -> bool {
        v matches ValueView::Text(s, _) && r@ == s
    }

    fn from_value(value: &Value<'a>) -> (r: Result<Self, crate::LimboError>) {
        match value {
            Value::Text(s) => Ok((*s).clone()),
            _ => Err(crate::LimboError::ConversionError(expected_text_message())),
        }
    }
}

impl<'a> FromValue<'a> for &'a str {
    open spec fn convertible(v: ValueView) -> bool {
        v is Text
    }

    open spec fn converted(v: ValueView, r: &'a str) -> bool {
        v matches ValueView::Text(s, _) && r@ == s
    }

    fn from_value(value: &Value<'a>) -> (r: Result<Self, crate::LimboError>) {
        match value {
            Value::Text(s) => Ok(s.as_str()),
            _ => Err(crate::LimboError::ConversionError(expected_text_message())),
        }
    }
}

/// The message of the mismatch error for integer extraction.
fn expected_integer_message() -> (r: String)
    ensures
        r@ == "Expected integer value"@,
{
    proof {
        reveal_strlit("Expected integer value");
    }
    "Expected integer value".to_owned()
}

/// The message of the mismatch error for text extraction.
fn expected_text_message() -> (r: String)
    ensures
        r@ == "Expected text value"@,
{
    proof {
        reveal_strlit("Expected text value");
    }
    "Expected text value".to_owned()
}

impl OwnedRecord {
    /// Wraps an ordered sequence of owned values as a record.
    pub fn new(values: Vec<OwnedValue>) -> (r: Self)
        ensures
            r@ == values_view(values@),
    {
        Self { values }
    }

    /// Deep copy with the same model.
    pub fn duplicate(&self) -> (r: Self)
        ensures
            r@ == self@,
    {
        let mut values: Vec<OwnedValue> = Vec::new();
        let n = self.values.len();
        for i in 0..n
            invariant
                n == self.values.len(),
                values@.len() == i,
                forall|j: int| 0 <= j < i ==> values@[j]@ == self.values@[j]@,
        {
            values.push(self.values[i].duplicate());
        }
        let copy = OwnedRecord { values };
        proof {
            lemma_values_view_index(copy.values@);
            lemma_values_view_index(self.values@);
            assert(copy@ =~= self@);
        }
        copy
    }
}

} // verus!
