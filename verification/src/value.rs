//! Field values: a tagged scalar (or NULL) that can also carry an
//! entity reference or an entity collection, so one field map holds both
//! plain columns and relationship edges.

use vstd::prelude::*;

use crate::meta::FieldKind;

verus! {

/// A scalar column value as the relational store sees it.
#[derive(Debug, Clone)]
pub enum SqlValue {
    Null,
    Int(i64),
    UInt(u64),
    Text(String),
}

/// The mathematical shape of a `SqlValue`: text as its character sequence.
pub enum SqlValueV {
    Null,
    Int(i64),
    UInt(u64),
    Text(Seq<char>),
}

impl View for SqlValue {
    type V = SqlValueV;

    open spec fn view(&self) -> SqlValueV {
        match self {
            SqlValue::Null => SqlValueV::Null,
            SqlValue::Int(i) => SqlValueV::Int(*i),
            SqlValue::UInt(u) => SqlValueV::UInt(*u),
            SqlValue::Text(s) => SqlValueV::Text(s@),
        }
    }
}

impl SqlValue {
    /// A copy of the value, equal to it in the model.
    pub fn dup(&self) -> (r: SqlValue)
        ensures
            r@ == self@,
    {
        match self {
            SqlValue::Null => SqlValue::Null,
            SqlValue::Int(i) => SqlValue::Int(*i),
            SqlValue::UInt(u) => SqlValue::UInt(*u),
            SqlValue::Text(s) => SqlValue::Text(s.clone()),
        }
    }

    pub fn is_null(&self) -> (r: bool)
        ensures
            r == (self@ is Null),
    {
        matches!(self, SqlValue::Null)
    }
}

impl PartialEq for SqlValue {
    fn eq(&self, other: &SqlValue) -> (r: bool) {
        match (self, other) {
            (SqlValue::Null, SqlValue::Null) => true,
            (SqlValue::Int(a), SqlValue::Int(b)) => a == b,
            (SqlValue::UInt(a), SqlValue::UInt(b)) => a == b,
            (SqlValue::Text(a), SqlValue::Text(b)) => *a == *b,
            _ => false,
        }
    }
}

impl vstd::std_specs::cmp::PartialEqSpecImpl for SqlValue {
    open spec fn obeys_eq_spec() -> bool {
        true
    }

    open spec fn eq_spec(&self, other: &SqlValue) -> bool {
        self@ == other@
    }
}

impl Eq for SqlValue {

}

/// What one field of an entity node holds: a scalar column value, a
/// single entity reference, or a collection of entity references.
/// References are node identities within one `Graph`.
#[derive(Debug)]
pub enum FieldValue {
    Scalar(SqlValue),
    Entity(Option<usize>),
    Collection(Vec<usize>),
}

/// The mathematical shape of a `FieldValue`.
pub enum FieldValueV {
    Scalar(SqlValueV),
    Entity(Option<usize>),
    Collection(Seq<usize>),
}

impl View for FieldValue {
    type V = FieldValueV;

    open spec fn view(&self) -> FieldValueV {
        match self {
            FieldValue::Scalar(v) => FieldValueV::Scalar(v@),
            FieldValue::Entity(o) => FieldValueV::Entity(*o),
            FieldValue::Collection(v) => FieldValueV::Collection(v@),
        }
    }
}

impl FieldValue {
    /// The SQL NULL scalar.
    pub fn null() -> (r: FieldValue)
        ensures
            r@ == FieldValueV::Scalar(SqlValueV::Null),
    {
        FieldValue::Scalar(SqlValue::Null)
    }

    /// The default content for a field of the given kind: NULL for a
    /// column, an absent reference for a single relation, an empty
    /// collection for a to-many relation.
    pub fn default_for(kind: &FieldKind) -> (r: FieldValue)
        ensures
            r@ == spec_default_for(*kind),
    {
        match kind {
            FieldKind::Key => FieldValue::Scalar(SqlValue::Null),
            FieldKind::Plain => FieldValue::Scalar(SqlValue::Null),
            FieldKind::SingleRef { .. } => FieldValue::Entity(None),
            FieldKind::OneToOne { .. } => FieldValue::Entity(None),
            FieldKind::OneToMany { .. } => FieldValue::Collection(Vec::new()),
        }
    }
}

/// The model of `FieldValue::default_for`.
pub open spec fn spec_default_for(kind: FieldKind) -> FieldValueV {
    match kind {
        FieldKind::Key => FieldValueV::Scalar(SqlValueV::Null),
        FieldKind::Plain => FieldValueV::Scalar(SqlValueV::Null),
        FieldKind::SingleRef { .. } => FieldValueV::Entity(None),
        FieldKind::OneToOne { .. } => FieldValueV::Entity(None),
        FieldKind::OneToMany { .. } => FieldValueV::Collection(Seq::empty()),
    }
}

/// The variant a field's stored value must have to match its declared kind.
pub open spec fn variant_matches(kind: FieldKind, v: FieldValueV) -> bool {
    match kind {
        FieldKind::Key => v is Scalar,
        FieldKind::Plain => v is Scalar,
        FieldKind::SingleRef { .. } => v is Entity,
        FieldKind::OneToOne { .. } => v is Entity,
        FieldKind::OneToMany { .. } => v is Collection,
    }
}

} // verus!
