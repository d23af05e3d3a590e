//! Schema metadata: the immutable per-type description of an entity's
//! columns, key field and relation kinds. It is the single source of truth
//! for column mapping and relation direction; nothing mutates it at runtime.

use vstd::prelude::*;

verus! {

/// How one declared field of an entity type is stored and related.
pub enum FieldKind {
    /// The unique identifier column; the store assigns its value on insert.
    Key,
    /// An ordinary scalar column.
    Plain,
    /// This entity stores the target's key in a local foreign-key column
    /// (`fk_field` names that column on this entity's own table).
    SingleRef { target: String, fk_field: String, cascade: bool },
    /// The target entity stores a foreign key back to this entity
    /// (`fk_field` names that column on the target); at most one target.
    OneToOne { target: String, fk_field: String, cascade: bool },
    /// The target entities each store a foreign key back to this entity
    /// (`fk_field` names that column on each target).
    OneToMany { target: String, fk_field: String, cascade: bool },
}

/// One declared field: its name, its column definition text (only
/// meaningful for fields that own a column) and its kind.
pub struct FieldMeta {
    pub field_name: String,
    pub db_ty: String,
    pub kind: FieldKind,
}

/// The schema metadata of one entity type: table name and ordered fields.
pub struct EntityMeta {
    pub entity: String,
    pub table_name: String,
    pub fields: Vec<FieldMeta>,
}

/// The schema metadata of every entity type the process knows.
pub struct OrmMeta {
    pub entities: Vec<EntityMeta>,
}

impl FieldKind {
    pub open spec fn is_key(self) -> bool {
        matches!(self, FieldKind::Key)
    }

    pub open spec fn is_plain(self) -> bool {
        matches!(self, FieldKind::Plain)
    }

    pub open spec fn is_single_ref(self) -> bool {
        matches!(self, FieldKind::SingleRef { .. })
    }

    pub open spec fn is_one_one(self) -> bool {
        matches!(self, FieldKind::OneToOne { .. })
    }

    pub open spec fn is_one_many(self) -> bool {
        matches!(self, FieldKind::OneToMany { .. })
    }

    /// Fields that own a column in this entity's own table: the key and the
    /// plain scalars. Relation fields keep their data on the linked nodes
    /// (a single-reference's foreign key is a plain field of its own).
    pub open spec fn has_column(self) -> bool {
        self.is_key() || self.is_plain()
    }

    /// The foreign-key column named by a relation kind.
    pub open spec fn spec_fk_field(self) -> Seq<char> {
        match self {
            FieldKind::SingleRef { fk_field, .. } => fk_field@,
            FieldKind::OneToOne { fk_field, .. } => fk_field@,
            FieldKind::OneToMany { fk_field, .. } => fk_field@,
            _ => Seq::empty(),
        }
    }

    /// Whether cascading writes are enabled for a relation kind's edge.
    pub open spec fn spec_cascade(self) -> bool {
        match self {
            FieldKind::SingleRef { cascade, .. } => cascade,
            FieldKind::OneToOne { cascade, .. } => cascade,
            FieldKind::OneToMany { cascade, .. } => cascade,
            _ => false,
        }
    }
}

impl FieldMeta {
    /// Whether this field is the primary-key field.
    pub fn pkey(&self) -> (r: bool)
        ensures
            r == self.kind.is_key(),
    {
        matches!(self.kind, FieldKind::Key)
    }
}

/// The index of the first field with the given name, or -1 if none has it.
pub open spec fn field_idx(fields: Seq<FieldMeta>, name: Seq<char>) -> int
    decreases fields.len(),
{
    if fields.len() == 0 {
        -1
    } else if fields[0].field_name@ == name {
        0
    } else {
        let r = field_idx(fields.drop_first(), name);
        if r < 0 {
            -1
        } else {
            r + 1
        }
    }
}

/// The index of the first key field, or -1 if the type has none.
pub open spec fn key_idx(fields: Seq<FieldMeta>) -> int
    decreases fields.len(),
{
    if fields.len() == 0 {
        -1
    } else if fields[0].kind.is_key() {
        0
    } else {
        let r = key_idx(fields.drop_first());
        if r < 0 {
            -1
        } else {
            r + 1
        }
    }
}

/// What `field_idx` finds: a found index is in range, bears the name, and
/// nothing before it does; -1 means no field bears the name.
pub proof fn lemma_field_idx(fields: Seq<FieldMeta>, name: Seq<char>)
    ensures
        field_idx(fields, name) >= 0 ==> {
            &&& field_idx(fields, name) < fields.len()
            &&& fields[field_idx(fields, name)].field_name@ == name
            &&& forall|k: int|
                0 <= k < field_idx(fields, name) ==> fields[k].field_name@ != name
        },
        field_idx(fields, name) < 0 ==> forall|k: int|
            0 <= k < fields.len() ==> fields[k].field_name@ != name,
    decreases fields.len(),
{
    if fields.len() > 0 && fields[0].field_name@ != name {
        lemma_field_idx(fields.drop_first(), name);
        assert(forall|k: int|
            1 <= k < fields.len() ==> fields[k] == fields.drop_first()[k - 1]);
    }
}

/// What `key_idx` finds, in the same shape as `lemma_field_idx`.
pub proof fn lemma_key_idx(fields: Seq<FieldMeta>)
    ensures
        key_idx(fields) >= 0 ==> {
            &&& key_idx(fields) < fields.len()
            &&& fields[key_idx(fields)].kind.is_key()
            &&& forall|k: int| 0 <= k < key_idx(fields) ==> !fields[k].kind.is_key()
        },
        key_idx(fields) < 0 ==> forall|k: int|
            0 <= k < fields.len() ==> !fields[k].kind.is_key(),
    decreases fields.len(),
{
    if fields.len() > 0 && !fields[0].kind.is_key() {
        lemma_key_idx(fields.drop_first());
        assert(forall|k: int|
            1 <= k < fields.len() ==> fields[k] == fields.drop_first()[k - 1]);
    }
}

impl EntityMeta {
    /// No two fields share a name, so a name picks out one field.
    pub open spec fn names_unique(self) -> bool {
        forall|i: int, j: int|
            0 <= i < j < self.fields@.len() ==> self.fields@[i].field_name@
                != self.fields@[j].field_name@
    }

    pub open spec fn wf(self) -> bool {
        self.names_unique()
    }

    /// The index of the field called `name`, or -1.
    pub open spec fn idx_of(self, name: Seq<char>) -> int {
        field_idx(self.fields@, name)
    }

    /// The index of the key field, or -1.
    pub open spec fn spec_key_idx(self) -> int {
        key_idx(self.fields@)
    }

    pub open spec fn has_key(self) -> bool {
        self.spec_key_idx() >= 0
    }

    /// The name of the key field.
    pub open spec fn spec_key_name(self) -> Seq<char> {
        self.fields@[self.spec_key_idx()].field_name@
    }
}

/// Relies on `str`'s `PartialEq`: two string slices are equal exactly when
/// their character sequences are.
#[verifier::external_body]
pub fn str_eq(a: &str, b: &str) -> (r: bool)
    ensures
        r == (a@ == b@),
{
    a == b
}

/// Finds the field called `name`, returning its index.
pub fn find_field(meta: &EntityMeta, name: &str) -> (r: Option<usize>)
    ensures
        meta.idx_of(name@) >= 0 ==> (r matches Some(i) && i as int == meta.idx_of(name@)
            && i < meta.fields@.len() && meta.fields@[i as int].field_name@ == name@),
        meta.idx_of(name@) < 0 ==> r is None,
{
    proof {
        lemma_field_idx(meta.fields@, name@);
    }
    let n: usize = meta.fields.len();
    let mut i: usize = 0;
    while i < n
        invariant
            n == meta.fields@.len(),
            0 <= i <= n,
            forall|k: int| 0 <= k < i ==> meta.fields@[k].field_name@ != name@,
            meta.idx_of(name@) >= 0 ==> meta.idx_of(name@) < meta.fields@.len()
                && meta.fields@[meta.idx_of(name@)].field_name@ == name@,
            meta.idx_of(name@) < 0 ==> forall|k: int|
                0 <= k < meta.fields@.len() ==> meta.fields@[k].field_name@ != name@,
        decreases n - i,
    {
        if str_eq(meta.fields[i].field_name.as_str(), name) {
            proof {
                lemma_field_idx(meta.fields@, name@);
            }
            return Some(i);
        }
        i = i + 1;
    }
    None
}

/// Finds the key field of the type, returning its index.
pub fn find_key_field(meta: &EntityMeta) -> (r: Option<usize>)
    ensures
        meta.has_key() ==> (r matches Some(i) && i as int == meta.spec_key_idx()
            && i < meta.fields@.len() && meta.fields@[i as int].kind.is_key()),
        !meta.has_key() ==> r is None,
{
    proof {
        lemma_key_idx(meta.fields@);
    }
    let n: usize = meta.fields.len();
    let mut i: usize = 0;
    while i < n
        invariant
            n == meta.fields@.len(),
            0 <= i <= n,
            forall|k: int| 0 <= k < i ==> !meta.fields@[k].kind.is_key(),
            meta.spec_key_idx() >= 0 ==> meta.spec_key_idx() < meta.fields@.len()
                && meta.fields@[meta.spec_key_idx()].kind.is_key(),
            meta.spec_key_idx() < 0 ==> forall|k: int|
                0 <= k < meta.fields@.len() ==> !meta.fields@[k].kind.is_key(),
        decreases n - i,
    {
        if meta.fields[i].pkey() {
            proof {
                lemma_key_idx(meta.fields@);
            }
            return Some(i);
        }
        i = i + 1;
    }
    None
}

} // verus!
