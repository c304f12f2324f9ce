//! The values that a schema describes, held without a type of their own: what
//! a record, an array or a single field contains at run time.

use vstd::prelude::*;

verus! {

/// A value as a mathematical object.
pub enum DatumModel {
    /// An optional field that holds nothing.
    Null,
    /// A whole number.
    Int(int),
    /// A truth value.
    Bool(bool),
    /// A byte sequence.
    Bytes(Seq<u8>),
    /// The ordinal of a variant of an enumeration, counted from zero.
    Enum(nat),
    /// The values of the fields of a record, in declaration order.
    Record(Seq<DatumModel>),
    /// The items of an array.
    Array(Seq<DatumModel>),
}

/// A value of a field.
#[derive(Debug, PartialEq, Eq)]
pub enum Datum {
    /// An optional field that holds nothing.
    Null,
    /// A whole number.
    Int(i64),
    /// A truth value.
    Bool(bool),
    /// A byte sequence.
    Bytes(Vec<u8>),
    /// The ordinal of a variant of an enumeration, counted from zero.
    Enum(u64),
    /// The values of the fields of a record, in declaration order.
    Record(Vec<Datum>),
    /// The items of an array.
    Array(Vec<Datum>),
}

/// The models of `values`, in the same order.
pub open spec fn datum_models(values: Seq<Datum>) -> Seq<DatumModel>
    decreases values, 0nat,
{
    if values.len() == 0 {
        Seq::empty()
    } else {
        datum_models(values.drop_last()).push(values.last()@)
    }
}

impl Datum {
    /// The value as a mathematical object.
    pub open spec fn view(&self) -> DatumModel
        decreases self, 1nat,
    {
        match self {
            Datum::Null => DatumModel::Null,
            Datum::Int(number) => DatumModel::Int(*number as int),
            Datum::Bool(truth) => DatumModel::Bool(*truth),
            Datum::Bytes(bytes) => DatumModel::Bytes(bytes@),
            Datum::Enum(ordinal) => DatumModel::Enum(*ordinal as nat),
            Datum::Record(values) => DatumModel::Record(datum_models(values@)),
            Datum::Array(items) => DatumModel::Array(datum_models(items@)),
        }
    }
}

/// The models of a sequence of values are the models of its members.
pub proof fn lemma_datum_models(values: Seq<Datum>)
    ensures
        datum_models(values).len() == values.len(),
        forall|i: int| 0 <= i < values.len() ==> (#[trigger] datum_models(values)[i]) == values[i]@,
    decreases values.len(),
{
    if values.len() > 0 {
        lemma_datum_models(values.drop_last());
    }
}

/// The models of a sequence with one more value are the models of the
/// sequence with the model of that value.
pub proof fn lemma_datum_models_push(values: Seq<Datum>, value: Datum)
    ensures
        datum_models(values.push(value)) == datum_models(values).push(value@),
{
    assert(values.push(value).drop_last() =~= values);
}

/// Copies of `values`, in the same order.
pub fn duplicate_values(values: &Vec<Datum>) -> (copies: Vec<Datum>)
    ensures
        datum_models(copies@) == datum_models(values@),
    decreases datum_models(values@), 0nat,
{
    let mut copies: Vec<Datum> = Vec::new();
    let mut i: usize = 0;
    proof {
        lemma_datum_models(values@);
    }
    while i < values.len()
        invariant
            i <= values@.len(),
            copies@.len() == i,
            datum_models(values@).len() == values@.len(),
            forall|k: int|
                0 <= k < values@.len() ==> (#[trigger] datum_models(values@)[k]) == values@[k]@,
            forall|k: int| 0 <= k < i ==> (#[trigger] copies@[k])@ == values@[k]@,
        decreases values@.len() - i,
    {
        proof {
            assert(datum_models(values@)[i as int] == values@[i as int]@);
            vstd::seq::axiom_seq_index_decreases(datum_models(values@), i as int);
        }
        let copy = values[i].duplicate();
        copies.push(copy);
        i = i + 1;
    }
    proof {
        lemma_datum_models(copies@);
        assert(datum_models(copies@) =~= datum_models(values@));
    }
    copies
}

impl Datum {
    /// A copy of the value.
    pub fn duplicate(&self) -> (copy: Self)
        ensures
            copy@ == self@,
        decreases self@, 1nat,
    {
        match self {
            Datum::Null => Datum::Null,
            Datum::Int(number) => Datum::Int(*number),
            Datum::Bool(truth) => Datum::Bool(*truth),
            Datum::Bytes(bytes) => Datum::Bytes(vstd::slice::slice_to_vec(bytes.as_slice())),
            Datum::Enum(ordinal) => Datum::Enum(*ordinal),
            Datum::Record(values) => {
                proof {
                    assert(decreases_to!(self@ => self@->Record_0));
                }
                Datum::Record(duplicate_values(values))
            },
            Datum::Array(items) => {
                proof {
                    assert(decreases_to!(self@ => self@->Array_0));
                }
                Datum::Array(duplicate_values(items))
            },
        }
    }
}

impl Clone for Datum {
    fn clone(&self) -> (copy: Self)
        ensures
            copy@ == self@,
    {
        self.duplicate()
    }
}

} // verus!
