//! The measurement record: one point of time-series data, with a key, an
//! optional timestamp, a mapping of typed fields and a mapping of string
//! tags, both iterated in ascending lexicographic order of their names.

use vstd::prelude::*;
use crate::ordmap::OrdMap;

verus! {

/// A measurement's field value: one of exactly four payload kinds. The
/// `Float` variant carries the bit pattern of a 64-bit IEEE 754 floating
/// point number, so that the record stores the number exactly as given
/// without interpreting it.
#[derive(Debug, Clone)]
pub enum Value {
    /// String payload.
    Text(String),
    /// Floating point payload, held as its IEEE 754 bit pattern.
    Float(u64),
    /// Integer payload.
    Integer(i64),
    /// Boolean payload.
    Boolean(bool),
}

/// The abstraction of a field value: the same four payload kinds, with the
/// string payload abstracted to its character sequence.
pub enum ValueView {
    /// String payload.
    Text(Seq<char>),
    /// Floating point payload, as its IEEE 754 bit pattern.
    Float(u64),
    /// Integer payload.
    Integer(i64),
    /// Boolean payload.
    Boolean(bool),
}

impl View for Value {
    type V = ValueView;

    open spec fn view(&self) -> ValueView {
        match self {
            Value::Text(s) => ValueView::Text(s@),
            Value::Float(bits) => ValueView::Float(*bits),
            Value::Integer(n) => ValueView::Integer(*n),
            Value::Boolean(b) => ValueView::Boolean(*b),
        }
    }
}

/// The abstraction of a measurement: its key, its timestamp, and the two
/// mappings, with iteration order abstracted away (the order is fixed by the
/// record's well-formedness: ascending lexicographic order of the names).
#[verifier::ext_equal]
pub struct MeasurementView {
    /// The key.
    pub key: Seq<char>,
    /// The timestamp; `None` means unset.
    pub timestamp: Option<i32>,
    /// The field mapping.
    pub fields: Map<Seq<char>, ValueView>,
    /// The tag mapping.
    pub tags: Map<Seq<char>, Seq<char>>,
}

/// A measurement record: a key naming the series, an optional timestamp
/// (absent means a downstream consumer assigns one), a mapping from field
/// names to typed values, and a mapping from tag names to string values.
/// Field names and tag names live in independent namespaces.
#[derive(Debug, Clone)]
pub struct Measurement {
    /// Key.
    pub key: String,
    /// Timestamp.
    pub timestamp: Option<i32>,
    /// Map of fields.
    pub fields: OrdMap<Value>,
    /// Map of tags.
    pub tags: OrdMap<String>,
}

impl View for Measurement {
    type V = MeasurementView;

    open spec fn view(&self) -> MeasurementView {
        MeasurementView {
            key: self.key@,
            timestamp: self.timestamp,
            fields: self.fields@,
            tags: self.tags@,
        }
    }
}

/// The given abstract record with its timestamp set to `t`.
pub open spec fn with_timestamp(m: MeasurementView, t: i32) -> MeasurementView {
    MeasurementView { key: m.key, timestamp: Some(t), fields: m.fields, tags: m.tags }
}

/// Setting the timestamp is idempotent: setting it twice to the same value
/// leaves the record as setting it once does.
pub proof fn lemma_set_timestamp_idempotent(m: MeasurementView, t: i32)
    ensures
        with_timestamp(with_timestamp(m, t), t) == with_timestamp(m, t),
{
}

impl Measurement {
    /// Well-formed: both mappings keep their entries in strictly ascending
    /// lexicographic order of their names. Every constructor establishes
    /// this and every method preserves it.
    pub open spec fn wf(self) -> bool {
        self.fields.wf() && self.tags.wf()
    }

    /// Constructs a new `Measurement` with the given key, no timestamp, an
    /// empty field mapping and an empty tag mapping. Total over all strings:
    /// the key is not validated, an empty string is accepted.
    pub fn new(key: &str) -> (m: Measurement)
        ensures
            m.wf(),
            m@ == (MeasurementView {
                key: key@,
                timestamp: None,
                fields: Map::<Seq<char>, ValueView>::empty(),
                tags: Map::<Seq<char>, Seq<char>>::empty(),
            }),
    {
        Measurement {
            key: key.to_owned(),
            timestamp: None,
            fields: OrdMap::<Value>::new(),
            tags: OrdMap::<String>::new(),
        }
    }

    /// Adds a field to the measurement: binds `field` to `value` in the
    /// field mapping, overwriting any previous binding of that name. The
    /// key, the timestamp and the tag mapping are untouched. Total over all
    /// names, empty and already present ones included.
    pub fn add_field(&mut self, field: &str, value: Value)
        requires
            old(self).wf(),
        ensures
            final(self).wf(),
            final(self)@ == (MeasurementView {
                fields: old(self)@.fields.insert(field@, value@),
                ..old(self)@
            }),
    {
        self.fields.insert(field.to_owned(), value);
    }

    /// Adds a tag to the measurement: binds `tag` to `value` in the tag
    /// mapping, overwriting any previous binding of that name. The key, the
    /// timestamp and the field mapping are untouched. Total over all names.
    pub fn add_tag(&mut self, tag: &str, value: &str)
        requires
            old(self).wf(),
        ensures
            final(self).wf(),
            final(self)@ == (MeasurementView {
                tags: old(self)@.tags.insert(tag@, value@),
                ..old(self)@
            }),
    {
        self.tags.insert(tag.to_owned(), value.to_owned());
    }

    /// Sets the timestamp of the measurement, overwriting any prior value.
    /// Everything else is untouched. Total over all values; what unit the
    /// integer carries is the caller's concern.
    pub fn set_timestamp(&mut self, timestamp: i32)
        requires
            old(self).wf(),
        ensures
            final(self).wf(),
            final(self)@ == with_timestamp(old(self)@, timestamp),
    {
        self.timestamp = Some(timestamp);
    }
}

} // verus!
