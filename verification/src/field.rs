//! The field model: the typed tree that a schema describes, and the
//! arithmetic that derives the bit width of every field from its bounds.

use vstd::prelude::*;
use vstd::arithmetic::power2::lemma2_to64;
use crate::bit::{bit_length, bit_length_of, lemma_bit_length_below};

verus! {

/// The width of the tag that stands in front of a number or a length whose
/// field declares no bound.
pub const WIDTH_TAG_BITS: u8 = 5;

/// The length that stands for "no bound" on an array.
pub const UNBOUNDED_LENGTH: u32 = 0xFFFF_FFFF;

/// The largest width a field may have.
pub const MAX_FIELD_BITS: u32 = 255;

/// What a field holds, as a mathematical value.
pub enum KindModel {
    /// A whole number, with inclusive bounds where both are declared.
    Int { min: Option<int>, max: Option<int> },
    /// A truth value.
    Boolean,
    /// A byte sequence, at most `max_length` long where that is declared.
    Bytes { max_length: Option<nat> },
    /// One of `variants` alternatives, numbered from zero.
    Enum { variants: nat },
    /// The sub-fields, in declaration order.
    Record { fields: Seq<FieldModel> },
    /// A sequence of `items`; `UNBOUNDED_LENGTH` stands for no bound.
    Array { max_items: nat, items: Box<FieldModel> },
}

/// A field as a mathematical value: its name, whether it may be absent, and
/// what it holds.
pub struct FieldModel {
    pub name: Seq<char>,
    pub nullable: bool,
    pub kind: KindModel,
}

/// The sum of the widths of `fields`.
pub open spec fn total_width(fields: Seq<FieldModel>) -> nat
    decreases fields, 0nat,
{
    if fields.len() == 0 {
        0
    } else {
        total_width(fields.drop_last()) + fields.last().width()
    }
}

/// Whether no two of `fields` share a name.
pub open spec fn distinct_names(fields: Seq<FieldModel>) -> bool {
    forall|i: int, j: int|
        0 <= i < j < fields.len() ==> (#[trigger] fields[i]).name != (#[trigger] fields[j]).name
}

impl FieldModel {
    /// The number of bits the field occupies in the bit stream when it is
    /// present, not counting the presence bit, the items of an array or the
    /// bytes of a byte sequence.
    pub open spec fn payload_width(self) -> nat
        decreases self, 0nat,
    {
        match self.kind {
            KindModel::Int { min: Some(min), max: Some(max) } => bit_length((max - min) as nat),
            KindModel::Int { .. } => WIDTH_TAG_BITS as nat,
            KindModel::Boolean => 1,
            KindModel::Bytes { max_length: Some(max_length) } => bit_length(max_length),
            KindModel::Bytes { max_length: None } => WIDTH_TAG_BITS as nat,
            KindModel::Enum { variants } => bit_length(variants),
            KindModel::Record { fields } => total_width(fields),
            KindModel::Array { max_items, .. } => if max_items == UNBOUNDED_LENGTH {
                WIDTH_TAG_BITS as nat
            } else {
                bit_length(max_items)
            },
        }
    }

    /// The width of the field: its payload width, and one bit more where the
    /// field may be absent.
    pub open spec fn width(self) -> nat
        decreases self, 1nat,
    {
        self.payload_width() + if self.nullable { 1nat } else { 0nat }
    }

    /// Whether the field is one a schema can describe: bounds in order and
    /// within 32 bits, at most 255 variants, distinct names within a record,
    /// and no width above 255.
    pub open spec fn wf(self) -> bool
        decreases self,
    {
        &&& self.width() <= MAX_FIELD_BITS
        &&& match self.kind {
            KindModel::Int { min, max } => {
                &&& min matches Some(low) ==> i32::MIN <= low <= i32::MAX
                &&& max matches Some(high) ==> i32::MIN <= high <= i32::MAX
                &&& min matches Some(low) ==> (max matches Some(high) ==> low <= high)
            },
            KindModel::Boolean => true,
            KindModel::Bytes { max_length } => max_length matches Some(length) ==> length
                <= u32::MAX,
            KindModel::Enum { variants } => variants <= u8::MAX,
            KindModel::Record { fields } => {
                &&& distinct_names(fields)
                &&& forall|i: int| 0 <= i < fields.len() ==> (#[trigger] fields[i]).wf()
            },
            KindModel::Array { max_items, items } => max_items <= u32::MAX && items.wf(),
        }
    }

    /// Whether the field is an integer, a truth value, a byte sequence or an
    /// enumeration, and so neither a record nor an array.
    pub open spec fn is_primitive(self) -> bool {
        !(self.kind is Record) && !(self.kind is Array)
    }
}


/// The width of every prefix of `fields` is at most the width of all of them,
/// and grows by the width of the field that the prefix takes in.
pub proof fn lemma_total_width_prefix(fields: Seq<FieldModel>, n: int)
    requires
        0 <= n <= fields.len(),
    ensures
        total_width(fields.take(n)) <= total_width(fields),
        n < fields.len() ==> total_width(fields.take(n + 1)) == total_width(fields.take(n))
            + fields[n].width(),
    decreases fields.len() - n,
{
    if n < fields.len() {
        assert(fields.take(n + 1).drop_last() =~= fields.take(n));
        lemma_total_width_prefix(fields, n + 1);
    } else {
        assert(fields.take(n) =~= fields);
    }
}

/// An optional bound as a mathematical value.
pub open spec fn bound_model(bound: Option<i32>) -> Option<int> {
    match bound {
        Some(value) => Some(value as int),
        None => None,
    }
}

/// An optional length as a mathematical value.
pub open spec fn length_model(length: Option<u32>) -> Option<nat> {
    match length {
        Some(value) => Some(value as nat),
        None => None,
    }
}

/// The models of `fields`, in the same order.
pub open spec fn field_models(fields: Seq<Field>) -> Seq<FieldModel>
    decreases fields, 0nat,
{
    if fields.len() == 0 {
        Seq::empty()
    } else {
        field_models(fields.drop_last()).push(fields.last()@)
    }
}

/// The models of a sequence of fields are the models of its members.
pub proof fn lemma_field_models(fields: Seq<Field>)
    ensures
        field_models(fields).len() == fields.len(),
        forall|i: int| 0 <= i < fields.len() ==> (#[trigger] field_models(fields)[i]) == fields[i]@,
    decreases fields.len(),
{
    if fields.len() > 0 {
        lemma_field_models(fields.drop_last());
    }
}

/// An integer field.
#[derive(Eq, PartialEq, Debug, Hash)]
pub struct IntField {
    name: String,
    bits: u8,
    pub min: Option<i32>,
    pub max: Option<i32>,
    nullable: bool,
}

/// A truth-value field.
#[derive(Eq, PartialEq, Debug, Hash)]
pub struct BooleanField {
    name: String,
    bits: u8,
    nullable: bool,
}

/// A byte-sequence field.
#[derive(Eq, PartialEq, Debug, Hash)]
pub struct BytesField {
    name: String,
    bits: u8,
    pub max_length: Option<u32>,
    nullable: bool,
}

/// An enumeration field.
#[derive(Eq, PartialEq, Debug, Hash)]
pub struct EnumField {
    name: String,
    bits: u8,
    pub variants: u8,
    nullable: bool,
}

/// A record field: a list of sub-fields.
#[derive(Eq, PartialEq, Debug, Hash)]
pub struct RecordField {
    name: String,
    bits: u32,
    pub fields: Vec<Field>,
    nullable: bool,
}

/// An array field: a sequence of items of one kind.
#[derive(Eq, PartialEq, Debug, Hash)]
pub struct ArrayField {
    name: String,
    bits: u8,
    max_length: u32,
    pub items_field: Box<Field>,
    nullable: bool,
}

/// A field of a schema.
#[derive(Debug, Eq, PartialEq, Hash)]
pub enum Field {
    Int(IntField),
    Boolean(BooleanField),
    Bytes(BytesField),
    Enum(EnumField),
    Record(RecordField),
    Array(ArrayField),
}

impl View for IntField {
    type V = FieldModel;

    closed spec fn view(&self) -> FieldModel {
        FieldModel {
            name: self.name@,
            nullable: self.nullable,
            kind: KindModel::Int { min: bound_model(self.min), max: bound_model(self.max) },
        }
    }
}

impl IntField {
    /// Whether the bounds are in order and the stored width is the one
    /// derived from them.
    pub closed spec fn wf(&self) -> bool {
        self@.wf() && self.bits == self@.width()
    }
}

impl View for BooleanField {
    type V = FieldModel;

    closed spec fn view(&self) -> FieldModel {
        FieldModel { name: self.name@, nullable: self.nullable, kind: KindModel::Boolean }
    }
}

impl BooleanField {
    /// Whether the stored width is the one the kind of the field gives.
    pub closed spec fn wf(&self) -> bool {
        self@.wf() && self.bits == self@.width()
    }
}

impl View for BytesField {
    type V = FieldModel;

    closed spec fn view(&self) -> FieldModel {
        FieldModel {
            name: self.name@,
            nullable: self.nullable,
            kind: KindModel::Bytes { max_length: length_model(self.max_length) },
        }
    }
}

impl BytesField {
    /// Whether the stored width is the one derived from the longest length.
    pub closed spec fn wf(&self) -> bool {
        self@.wf() && self.bits == self@.width()
    }
}

impl View for EnumField {
    type V = FieldModel;

    closed spec fn view(&self) -> FieldModel {
        FieldModel {
            name: self.name@,
            nullable: self.nullable,
            kind: KindModel::Enum { variants: self.variants as nat },
        }
    }
}

impl EnumField {
    /// Whether the stored width is the one derived from the variant count.
    pub closed spec fn wf(&self) -> bool {
        self@.wf() && self.bits == self@.width()
    }
}

impl RecordField {
    /// Whether the sub-fields are well formed and distinct in name, and the
    /// stored width is the sum of their widths.
    pub closed spec fn wf(&self) -> bool
        decreases self, 1nat,
    {
        &&& self@.wf()
        &&& self.bits == self@.width()
        &&& forall|i: int| 0 <= i < self.fields@.len() ==> (#[trigger] self.fields@[i]).wf()
    }

    /// The record as a mathematical value.
    pub closed spec fn view(&self) -> FieldModel
        decreases self, 1nat,
    {
        FieldModel {
            name: self.name@,
            nullable: self.nullable,
            kind: KindModel::Record { fields: field_models(self.fields@) },
        }
    }
}

impl ArrayField {
    /// Whether the item field is well formed and the stored width is the one
    /// derived from the largest number of items.
    pub closed spec fn wf(&self) -> bool
        decreases self, 1nat,
    {
        &&& self@.wf()
        &&& self.bits == self@.width()
        &&& self.items_field.wf()
    }

    /// The array as a mathematical value.
    pub closed spec fn view(&self) -> FieldModel
        decreases self, 1nat,
    {
        FieldModel {
            name: self.name@,
            nullable: self.nullable,
            kind: KindModel::Array {
                max_items: self.max_length as nat,
                items: Box::new(self.items_field@),
            },
        }
    }
}

impl Field {
    /// Whether the field, and every field below it, is well formed.
    pub open spec fn wf(&self) -> bool
        decreases self, 2nat,
    {
        match self {
            Field::Int(field) => field.wf(),
            Field::Boolean(field) => field.wf(),
            Field::Bytes(field) => field.wf(),
            Field::Enum(field) => field.wf(),
            Field::Record(field) => field.wf(),
            Field::Array(field) => field.wf(),
        }
    }

    /// The field as a mathematical value.
    pub open spec fn view(&self) -> FieldModel
        decreases self, 2nat,
    {
        match self {
            Field::Int(field) => field@,
            Field::Boolean(field) => field@,
            Field::Bytes(field) => field@,
            Field::Enum(field) => field@,
            Field::Record(field) => field@,
            Field::Array(field) => field@,
        }
    }
}


/// One more bit where a field may be absent.
fn presence_bits(nullable: bool) -> (bits: u8)
    ensures
        bits == if nullable { 1int } else { 0int },
{
    if nullable {
        1
    } else {
        0
    }
}

/// The width of a length prefix that can hold every length up to `max_length`.
fn length_width(max_length: u32) -> (width: u8)
    ensures
        width == bit_length(max_length as nat),
        width <= 32,
{
    proof {
        lemma2_to64();
        lemma_bit_length_below(max_length as nat, 32);
    }
    bit_length_of(max_length as u64)
}

impl IntField {
    /// An integer field named `name`, with inclusive bounds where both `min`
    /// and `max` are given. Bounds out of order are refused.
    pub fn new(name: &str, min: Option<i32>, max: Option<i32>, nullable: bool) -> (r: Result<
        Self,
        String,
    >)
        ensures
            r is Err <==> (min matches Some(low) && max matches Some(high) && low > high),
            r matches Ok(field) ==> {
                &&& field.wf()
                &&& field@ == (FieldModel {
                    name: name@,
                    nullable,
                    kind: KindModel::Int { min: bound_model(min), max: bound_model(max) },
                })
            },
            r matches Err(message) ==> message@
                == "Minimum value cannot be greater than maximum value"@,
    {
        let payload: u8 = match (min, max) {
            (Some(low), Some(high)) => {
                if low > high {
                    return Err("Minimum value cannot be greater than maximum value".to_owned());
                }
                let span: u64 = (high as i64 - low as i64) as u64;
                proof {
                    lemma2_to64();
                    lemma_bit_length_below(span as nat, 32);
                }
                bit_length_of(span)
            },
            _ => WIDTH_TAG_BITS,
        };
        let bits: u8 = payload + presence_bits(nullable);
        Ok(IntField { name: name.to_owned(), bits, min, max, nullable })
    }

    /// The least value the field admits, where the schema declares one.
    pub fn min_bound(&self) -> (min: Option<i32>)
        ensures
            self@.kind is Int,
            self@.kind->min == bound_model(min),
    {
        self.min
    }

    /// The greatest value the field admits, where the schema declares one.
    pub fn max_bound(&self) -> (max: Option<i32>)
        ensures
            self@.kind is Int,
            self@.kind->max == bound_model(max),
    {
        self.max
    }

    /// A copy of the field.
    pub fn duplicate(&self) -> (copy: Self)
        ensures
            copy@ == self@,
            copy.wf() == self.wf(),
    {
        IntField {
            name: self.name.clone(),
            bits: self.bits,
            min: self.min,
            max: self.max,
            nullable: self.nullable,
        }
    }
}

impl BooleanField {
    /// A truth-value field named `name`.
    pub fn new(name: &str, nullable: bool) -> (field: Self)
        ensures
            field.wf(),
            field@ == (FieldModel { name: name@, nullable, kind: KindModel::Boolean }),
    {
        BooleanField { name: name.to_owned(), bits: 1 + presence_bits(nullable), nullable }
    }

    /// A copy of the field.
    pub fn duplicate(&self) -> (copy: Self)
        ensures
            copy@ == self@,
            copy.wf() == self.wf(),
    {
        BooleanField { name: self.name.clone(), bits: self.bits, nullable: self.nullable }
    }
}

impl BytesField {
    /// A byte-sequence field named `name`, at most `max_length` bytes long
    /// where a length is given.
    pub fn new(name: &str, max_length: Option<u32>, nullable: bool) -> (field: Self)
        ensures
            field.wf(),
            field@ == (FieldModel {
                name: name@,
                nullable,
                kind: KindModel::Bytes { max_length: length_model(max_length) },
            }),
    {
        let payload: u8 = match max_length {
            Some(length) => length_width(length),
            None => WIDTH_TAG_BITS,
        };
        BytesField {
            name: name.to_owned(),
            bits: payload + presence_bits(nullable),
            max_length,
            nullable,
        }
    }

    /// The greatest length the field admits, where the schema declares one.
    pub fn longest(&self) -> (max_length: Option<u32>)
        ensures
            self@.kind == (KindModel::Bytes { max_length: length_model(max_length) }),
    {
        self.max_length
    }

    /// A copy of the field.
    pub fn duplicate(&self) -> (copy: Self)
        ensures
            copy@ == self@,
            copy.wf() == self.wf(),
    {
        BytesField {
            name: self.name.clone(),
            bits: self.bits,
            max_length: self.max_length,
            nullable: self.nullable,
        }
    }
}

impl EnumField {
    /// An enumeration field named `name` with `variants` alternatives.
    pub fn new(name: &str, variants: u8, nullable: bool) -> (field: Self)
        ensures
            field.wf(),
            field@ == (FieldModel {
                name: name@,
                nullable,
                kind: KindModel::Enum { variants: variants as nat },
            }),
    {
        let payload: u8 = length_width(variants as u32);
        EnumField {
            name: name.to_owned(),
            bits: payload + presence_bits(nullable),
            variants,
            nullable,
        }
    }

    /// The number of alternatives.
    pub fn variant_count(&self) -> (variants: u8)
        ensures
            self@.kind == (KindModel::Enum { variants: variants as nat }),
    {
        self.variants
    }

    /// A copy of the field.
    pub fn duplicate(&self) -> (copy: Self)
        ensures
            copy@ == self@,
            copy.wf() == self.wf(),
    {
        EnumField {
            name: self.name.clone(),
            bits: self.bits,
            variants: self.variants,
            nullable: self.nullable,
        }
    }
}


impl RecordField {
    /// A record field named `name` with the sub-fields `fields`.
    ///
    /// The sub-fields are distinct in name, and the record is no wider than
    /// 255 bits.
    pub fn new(name: &str, fields: Vec<Field>, nullable: bool) -> (field: Self)
        requires
            forall|i: int| 0 <= i < fields@.len() ==> (#[trigger] fields@[i]).wf(),
            distinct_names(field_models(fields@)),
            total_width(field_models(fields@)) + (if nullable { 1int } else { 0int })
                <= MAX_FIELD_BITS,
        ensures
            field.wf(),
            field@ == (FieldModel {
                name: name@,
                nullable,
                kind: KindModel::Record { fields: field_models(fields@) },
            }),
    {
        let payload: u32 = sum_of_widths(&fields);
        proof {
            lemma_field_models(fields@);
        }
        RecordField {
            name: name.to_owned(),
            bits: payload + presence_bits(nullable) as u32,
            fields,
            nullable,
        }
    }

    /// The sub-fields, in declaration order.
    pub fn sub_fields(&self) -> (fields: &Vec<Field>)
        ensures
            self@.kind == (KindModel::Record { fields: field_models(fields@) }),
            self.wf() ==> forall|i: int| 0 <= i < fields@.len() ==> (#[trigger] fields@[i]).wf(),
    {
        &self.fields
    }

    /// A copy of the field.
    pub fn duplicate(&self) -> (copy: Self)
        ensures
            copy@ == self@,
            copy.wf() == self.wf(),
        decreases self@, 1nat,
    {
        proof {
            assert(self@.kind->fields == field_models(self.fields@));
            assert(decreases_to!(self@ => self@.kind->fields));
        }
        let fields = duplicate_fields(&self.fields);
        proof {
            assert forall|k: int| 0 <= k < fields@.len() implies (#[trigger] self.fields@[k]).wf()
                == fields@[k].wf() by {
                assert(fields@[k].wf() == self.fields@[k].wf());
            }
        }
        RecordField { name: self.name.clone(), bits: self.bits, fields, nullable: self.nullable }
    }
}

impl ArrayField {
    /// An array field named `name` whose items are described by `field`, at
    /// most `max_length` of them; `UNBOUNDED_LENGTH` stands for no bound.
    pub fn new(name: &str, max_length: u32, field: Field, nullable: bool) -> (array: Self)
        requires
            field.wf(),
        ensures
            array.wf(),
            array@ == (FieldModel {
                name: name@,
                nullable,
                kind: KindModel::Array { max_items: max_length as nat, items: Box::new(field@) },
            }),
    {
        let payload: u8 = if max_length == UNBOUNDED_LENGTH {
            WIDTH_TAG_BITS
        } else {
            length_width(max_length)
        };
        ArrayField {
            name: name.to_owned(),
            bits: payload + presence_bits(nullable),
            max_length,
            items_field: Box::new(field),
            nullable,
        }
    }

    /// The field that describes every item.
    pub fn item_field(&self) -> (field: &Field)
        ensures
            self@.kind is Array,
            self@.kind->items == Box::new(field@),
            self.wf() ==> field.wf(),
    {
        &*self.items_field
    }

    /// The largest number of items, `UNBOUNDED_LENGTH` standing for no bound.
    pub fn max_items(&self) -> (max_length: u32)
        ensures
            self@.kind is Array,
            self@.kind->max_items == max_length,
    {
        self.max_length
    }

    /// A copy of the field.
    pub fn duplicate(&self) -> (copy: Self)
        ensures
            copy@ == self@,
            copy.wf() == self.wf(),
        decreases self@, 1nat,
    {
        proof {
            assert(self@.kind->items == Box::new(self.items_field@));
            assert(decreases_to!(self@ => self@.kind->items));
        }
        let items = self.items_field.duplicate();
        ArrayField {
            name: self.name.clone(),
            bits: self.bits,
            max_length: self.max_length,
            items_field: Box::new(items),
            nullable: self.nullable,
        }
    }
}

/// Copies of `fields`, in the same order.
pub fn duplicate_fields(fields: &Vec<Field>) -> (copies: Vec<Field>)
    ensures
        field_models(copies@) == field_models(fields@),
        copies@.len() == fields@.len(),
        forall|k: int| 0 <= k < fields@.len() ==> (#[trigger] copies@[k]).wf() == fields@[k].wf(),
    decreases field_models(fields@), 0nat,
{
    let mut copies: Vec<Field> = Vec::new();
    let mut i: usize = 0;
    proof {
        lemma_field_models(fields@);
    }
    while i < fields.len()
        invariant
            i <= fields@.len(),
            copies@.len() == i,
            field_models(fields@).len() == fields@.len(),
            forall|k: int|
                0 <= k < fields@.len() ==> (#[trigger] field_models(fields@)[k]) == fields@[k]@,
            forall|k: int| 0 <= k < i ==> (#[trigger] copies@[k])@ == fields@[k]@,
            forall|k: int| 0 <= k < i ==> (#[trigger] copies@[k]).wf() == fields@[k].wf(),
        decreases fields@.len() - i,
    {
        proof {
            assert(field_models(fields@)[i as int] == fields@[i as int]@);
            vstd::seq::axiom_seq_index_decreases(field_models(fields@), i as int);
        }
        let copy = fields[i].duplicate();
        copies.push(copy);
        i = i + 1;
    }
    proof {
        lemma_field_models(copies@);
        assert(field_models(copies@) =~= field_models(fields@));
    }
    copies
}

/// The sum of the widths of `fields`.
pub fn sum_of_widths(fields: &Vec<Field>) -> (sum: u32)
    requires
        forall|i: int| 0 <= i < fields@.len() ==> (#[trigger] fields@[i]).wf(),
        total_width(field_models(fields@)) <= u32::MAX,
    ensures
        sum == total_width(field_models(fields@)),
{
    let mut sum: u32 = 0;
    let mut i: usize = 0;
    let ghost models = field_models(fields@);
    proof {
        lemma_field_models(fields@);
        assert(models.take(0) =~= Seq::<FieldModel>::empty());
    }
    while i < fields.len()
        invariant
            i <= fields@.len(),
            models == field_models(fields@),
            models.len() == fields@.len(),
            forall|k: int| 0 <= k < fields@.len() ==> (#[trigger] fields@[k]).wf(),
            forall|k: int| 0 <= k < fields@.len() ==> (#[trigger] models[k]) == fields@[k]@,
            total_width(models) <= u32::MAX,
            sum == total_width(models.take(i as int)),
        decreases fields@.len() - i,
    {
        proof {
            lemma_total_width_prefix(models, i as int);
            lemma_total_width_prefix(models, i + 1);
        }
        sum = sum + fields[i].bits();
        i = i + 1;
    }
    proof {
        assert(models.take(i as int) =~= models);
    }
    sum
}

/// What every field can tell of itself.
pub trait FieldTrait {
    /// The width of the field in bits.
    fn bits(&self) -> u32;

    /// The name of the field.
    fn name(&self) -> &str;

    /// Whether the field may be absent.
    fn nullable(&self) -> bool;

    /// Whether the field is neither a record nor an array.
    fn is_primitive(&self) -> bool;
}

impl FieldTrait for Field {
    fn bits(&self) -> (bits: u32)
        ensures
            self.wf() ==> bits == self@.width(),
    {
        match self {
            Field::Int(field) => field.bits as u32,
            Field::Boolean(field) => field.bits as u32,
            Field::Bytes(field) => field.bits as u32,
            Field::Enum(field) => field.bits as u32,
            Field::Record(field) => field.bits,
            Field::Array(field) => field.bits as u32,
        }
    }

    fn name(&self) -> (name: &str)
        ensures
            name@ == self@.name,
    {
        match self {
            Field::Int(field) => field.name.as_str(),
            Field::Boolean(field) => field.name.as_str(),
            Field::Bytes(field) => field.name.as_str(),
            Field::Enum(field) => field.name.as_str(),
            Field::Record(field) => field.name.as_str(),
            Field::Array(field) => field.name.as_str(),
        }
    }

    fn nullable(&self) -> (nullable: bool)
        ensures
            nullable == self@.nullable,
    {
        match self {
            Field::Int(field) => field.nullable,
            Field::Boolean(field) => field.nullable,
            Field::Bytes(field) => field.nullable,
            Field::Enum(field) => field.nullable,
            Field::Record(field) => field.nullable,
            Field::Array(field) => field.nullable,
        }
    }

    fn is_primitive(&self) -> (primitive: bool)
        ensures
            primitive == self@.is_primitive(),
            primitive == !(self is Record || self is Array),
    {
        match self {
            Field::Int(_) | Field::Boolean(_) | Field::Bytes(_) | Field::Enum(_) => true,
            Field::Record(_) | Field::Array(_) => false,
        }
    }
}

impl Field {
    /// A well-formed field has a well-formed model, of the kind of the field.
    pub proof fn lemma_model(&self)
        ensures
            self.wf() ==> self@.wf(),
            self is Int <==> self@.kind is Int,
            self is Boolean <==> self@.kind is Boolean,
            self is Bytes <==> self@.kind is Bytes,
            self is Enum <==> self@.kind is Enum,
            self is Record <==> self@.kind is Record,
            self is Array <==> self@.kind is Array,
    {
    }

    /// The width of the payload of the field: its width without the presence
    /// bit.
    pub fn payload_bits(&self) -> (bits: u32)
        requires
            self.wf(),
        ensures
            bits == self@.payload_width(),
    {
        self.bits() - presence_bits(self.nullable()) as u32
    }

    /// A copy of the field.
    pub fn duplicate(&self) -> (copy: Self)
        ensures
            copy@ == self@,
            copy.wf() == self.wf(),
        decreases self@, 2nat,
    {
        match self {
            Field::Int(field) => Field::Int(field.duplicate()),
            Field::Boolean(field) => Field::Boolean(field.duplicate()),
            Field::Bytes(field) => Field::Bytes(field.duplicate()),
            Field::Enum(field) => Field::Enum(field.duplicate()),
            Field::Record(field) => Field::Record(field.duplicate()),
            Field::Array(field) => Field::Array(field.duplicate()),
        }
    }
}

impl Clone for Field {
    fn clone(&self) -> (copy: Self)
        ensures
            copy@ == self@,
            copy.wf() == self.wf(),
    {
        self.duplicate()
    }
}

impl Clone for IntField {
    fn clone(&self) -> (copy: Self)
        ensures
            copy@ == self@,
            copy.wf() == self.wf(),
    {
        self.duplicate()
    }
}

impl Clone for BooleanField {
    fn clone(&self) -> (copy: Self)
        ensures
            copy@ == self@,
            copy.wf() == self.wf(),
    {
        self.duplicate()
    }
}

impl Clone for BytesField {
    fn clone(&self) -> (copy: Self)
        ensures
            copy@ == self@,
            copy.wf() == self.wf(),
    {
        self.duplicate()
    }
}

impl Clone for EnumField {
    fn clone(&self) -> (copy: Self)
        ensures
            copy@ == self@,
            copy.wf() == self.wf(),
    {
        self.duplicate()
    }
}

impl Clone for RecordField {
    fn clone(&self) -> (copy: Self)
        ensures
            copy@ == self@,
            copy.wf() == self.wf(),
    {
        self.duplicate()
    }
}

impl Clone for ArrayField {
    fn clone(&self) -> (copy: Self)
        ensures
            copy@ == self@,
            copy.wf() == self.wf(),
    {
        self.duplicate()
    }
}

impl Default for IntField {
    /// The field without a name, bounds or width. It is not well formed: a
    /// field without bounds has the width of the width tag.
    fn default() -> (field: Self)
        ensures
            field@ == (FieldModel {
                name: Seq::empty(),
                nullable: false,
                kind: KindModel::Int { min: None, max: None },
            }),
            !field.wf(),
    {
        IntField { name: String::new(), bits: 0, min: None, max: None, nullable: false }
    }
}

impl Default for BooleanField {
    /// The field without a name or width. It is not well formed: a truth
    /// value is one bit wide.
    fn default() -> (field: Self)
        ensures
            field@ == (FieldModel {
                name: Seq::empty(),
                nullable: false,
                kind: KindModel::Boolean,
            }),
            !field.wf(),
    {
        BooleanField { name: String::new(), bits: 0, nullable: false }
    }
}

impl Default for BytesField {
    /// The field without a name, longest length or width. It is not well
    /// formed: a field without a longest length has the width of the width
    /// tag.
    fn default() -> (field: Self)
        ensures
            field@ == (FieldModel {
                name: Seq::empty(),
                nullable: false,
                kind: KindModel::Bytes { max_length: None },
            }),
            !field.wf(),
    {
        BytesField { name: String::new(), bits: 0, max_length: None, nullable: false }
    }
}

impl Default for EnumField {
    /// The enumeration field without a name or variants.
    fn default() -> (field: Self)
        ensures
            field@ == (FieldModel {
                name: Seq::empty(),
                nullable: false,
                kind: KindModel::Enum { variants: 0 },
            }),
            field.wf(),
    {
        EnumField { name: String::new(), bits: 0, variants: 0, nullable: false }
    }
}

impl Default for RecordField {
    /// The record field without a name or sub-fields.
    fn default() -> (field: Self)
        ensures
            field@ == (FieldModel {
                name: Seq::empty(),
                nullable: false,
                kind: KindModel::Record { fields: Seq::empty() },
            }),
            field.wf(),
    {
        RecordField { name: String::new(), bits: 0, fields: Vec::new(), nullable: false }
    }
}

} // verus!
