//! Entity nodes and the node graph.
//!
//! An entity node is the mutable record for one row: its meta, one slot per
//! declared field, and a cascade mode. Nodes live in a `Graph` arena and are
//! named by stable indices, which are the unit of identity: two nodes with
//! equal field values are distinct unless they are the same index.

use vstd::prelude::*;

use crate::meta::{find_field, find_key_field, lemma_field_idx, EntityMeta, FieldKind};
use crate::value::{
    spec_default_for, variant_matches, FieldValue, FieldValueV, SqlValue, SqlValueV,
};

verus! {

/// How a pending persistence call should propagate through this node.
#[derive(Clone, Copy, PartialEq, Eq, Structural, Debug)]
pub enum Cascade {
    Insert,
    Update,
    Delete,
    Null,
}

/// The mutable record: schema metadata, one slot per declared field
/// (`None` = never populated), and the cascade mode.
pub struct EntityInner {
    pub meta: EntityMeta,
    pub fields: Vec<Option<FieldValue>>,
    pub cascade: Option<Cascade>,
}

/// The mathematical shape of an entity node.
pub struct NodeV {
    pub meta: EntityMeta,
    pub fields: Seq<Option<FieldValueV>>,
    pub cascade: Option<Cascade>,
}

/// The view of one field slot.
pub open spec fn slot_view(o: Option<FieldValue>) -> Option<FieldValueV> {
    match o {
        Some(f) => Some(f@),
        None => None,
    }
}

impl View for EntityInner {
    type V = NodeV;

    open spec fn view(&self) -> NodeV {
        NodeV {
            meta: self.meta,
            fields: self.fields@.map_values(|o: Option<FieldValue>| slot_view(o)),
            cascade: self.cascade,
        }
    }
}

impl NodeV {
    /// Well-formed: one slot per declared field, and every populated slot's
    /// variant matches the field's declared kind.
    pub open spec fn wf(self) -> bool {
        &&& self.meta.wf()
        &&& self.fields.len() == self.meta.fields@.len()
        &&& forall|i: int|
            0 <= i < self.fields.len() ==> match #[trigger] self.fields[i] {
                Some(v) => variant_matches(self.meta.fields@[i].kind, v),
                None => true,
            }
    }

    /// The slot of the field called `name` (`None` both when the type has no
    /// such field and when the field was never populated).
    pub open spec fn slot_of(self, name: Seq<char>) -> Option<FieldValueV> {
        if self.meta.idx_of(name) >= 0 {
            self.fields[self.meta.idx_of(name)]
        } else {
            None
        }
    }

    /// The scalar held by the field called `name`, if it holds one.
    pub open spec fn scalar_of(self, name: Seq<char>) -> Option<SqlValueV> {
        match self.slot_of(name) {
            Some(FieldValueV::Scalar(v)) => Some(v),
            _ => None,
        }
    }

    /// The value of the key field; NULL when the type has no key field or
    /// the key was never assigned.
    pub open spec fn key_value(self) -> SqlValueV {
        if self.meta.has_key() {
            match self.fields[self.meta.spec_key_idx()] {
                Some(FieldValueV::Scalar(v)) => v,
                _ => SqlValueV::Null,
            }
        } else {
            SqlValueV::Null
        }
    }

    /// The key as an unsigned integer, if it has been assigned one: a
    /// signed store value converts when it is in range, as fetched rows
    /// may carry the key as a signed integer.
    pub open spec fn spec_id_u64(self) -> Option<u64> {
        match self.key_value() {
            SqlValueV::UInt(u) => Some(u),
            SqlValueV::Int(i) => if i >= 0 {
                Some(i as u64)
            } else {
                None
            },
            _ => None,
        }
    }

    /// Whether the node still lacks a store-assigned key.
    pub open spec fn keyless(self) -> bool {
        self.spec_id_u64() is None
    }
}

impl EntityInner {
    /// A node with no field populated and no cascade mode.
    pub fn new(meta: EntityMeta) -> (n: EntityInner)
        ensures
            n@.meta == meta,
            n@.cascade is None,
            n@.fields.len() == meta.fields@.len(),
            forall|i: int| 0 <= i < n@.fields.len() ==> n@.fields[i] is None,
            meta.wf() ==> n@.wf(),
    {
        let len: usize = meta.fields.len();
        let mut fields: Vec<Option<FieldValue>> = Vec::new();
        let mut i: usize = 0;
        while i < len
            invariant
                0 <= i <= len,
                fields@.len() == i,
                forall|k: int| 0 <= k < i ==> fields@[k] is None,
            decreases len - i,
        {
            fields.push(None);
            i = i + 1;
        }
        let n = EntityInner { meta, fields, cascade: None };
        proof {
            assert(forall|i: int|
                0 <= i < n@.fields.len() ==> n@.fields[i] == slot_view(n.fields@[i]));
        }
        n
    }

    /// A node with every field populated with its schema-derived default,
    /// marked for cascading insert.
    pub fn default(meta: EntityMeta) -> (n: EntityInner)
        ensures
            n@.meta == meta,
            n@.cascade == Some(Cascade::Insert),
            n@.fields.len() == meta.fields@.len(),
            forall|i: int|
                0 <= i < n@.fields.len() ==> n@.fields[i] == Some(
                    spec_default_for(meta.fields@[i].kind),
                ),
            meta.wf() ==> n@.wf(),
    {
        let len: usize = meta.fields.len();
        let mut fields: Vec<Option<FieldValue>> = Vec::new();
        let mut i: usize = 0;
        while i < len
            invariant
                0 <= i <= len,
                len == meta.fields@.len(),
                fields@.len() == i,
                forall|k: int|
                    0 <= k < i ==> slot_view(#[trigger] fields@[k]) == Some(
                        spec_default_for(meta.fields@[k].kind),
                    ),
            decreases len - i,
        {
            fields.push(Some(FieldValue::default_for(&meta.fields[i].kind)));
            i = i + 1;
        }
        let n = EntityInner { meta, fields, cascade: Some(Cascade::Insert) };
        proof {
            assert(forall|i: int|
                0 <= i < n@.fields.len() ==> n@.fields[i] == slot_view(n.fields@[i]));
            assert(forall|k: FieldKind| variant_matches(k, #[trigger] spec_default_for(k)));
        }
        n
    }
}

impl EntityInner {
    /// The scalar held by `field`, if the field is populated with one.
    pub fn get_value(&self, field: &str) -> (r: Option<SqlValue>)
        requires
            self@.wf(),
        ensures
            match self@.scalar_of(field@) {
                Some(v) => r matches Some(x) && x@ == v,
                None => r is None,
            },
    {
        match find_field(&self.meta, field) {
            Some(i) => {
                proof {
                    assert(self@.fields[i as int] == slot_view(self.fields@[i as int]));
                }
                match &self.fields[i] {
                    Some(FieldValue::Scalar(v)) => Some(v.dup()),
                    _ => None,
                }
            },
            None => None,
        }
    }

    /// Stores a scalar into a column field. The field must be a declared
    /// key or plain column: relation fields are set through their own
    /// protocols.
    pub fn set_value(&mut self, field: &str, value: SqlValue)
        requires
            old(self)@.wf(),
            old(self)@.meta.idx_of(field@) >= 0,
            old(self)@.meta.fields@[old(self)@.meta.idx_of(field@)].kind.has_column(),
        ensures
            final(self)@.wf(),
            final(self)@.meta == old(self)@.meta,
            final(self)@.cascade == old(self)@.cascade,
            final(self)@.fields == old(self)@.fields.update(
                old(self)@.meta.idx_of(field@),
                Some(FieldValueV::Scalar(value@)),
            ),
    {
        let i: usize = match find_field(&self.meta, field) {
            Some(i) => i,
            None => {
                proof {
                    assert(false);
                }
                0
            },
        };
        self.fields[i] = Some(FieldValue::Scalar(value));
        proof {
            assert(self@.fields =~= old(self)@.fields.update(
                i as int,
                Some(FieldValueV::Scalar(value@)),
            ));
        }
    }

    /// Stores SQL NULL into a column field.
    pub fn set_value_null(&mut self, field: &str)
        requires
            old(self)@.wf(),
            old(self)@.meta.idx_of(field@) >= 0,
            old(self)@.meta.fields@[old(self)@.meta.idx_of(field@)].kind.has_column(),
        ensures
            final(self)@.wf(),
            final(self)@.meta == old(self)@.meta,
            final(self)@.cascade == old(self)@.cascade,
            final(self)@.fields == old(self)@.fields.update(
                old(self)@.meta.idx_of(field@),
                Some(FieldValueV::Scalar(SqlValueV::Null)),
            ),
    {
        self.set_value(field, SqlValue::Null);
    }

    /// Whether `field` is populated and holds SQL NULL.
    pub fn is_value_null(&self, field: &str) -> (r: bool)
        requires
            self@.wf(),
        ensures
            r == (self@.scalar_of(field@) == Some(SqlValueV::Null)),
    {
        match self.get_value(field) {
            Some(v) => v.is_null(),
            None => false,
        }
    }

    /// The key field's value; NULL when the type has no key field or the
    /// key was never assigned.
    pub fn get_id_value(&self) -> (r: SqlValue)
        requires
            self@.wf(),
        ensures
            r@ == self@.key_value(),
    {
        match find_key_field(&self.meta) {
            Some(i) => {
                proof {
                    assert(self@.fields[i as int] == slot_view(self.fields@[i as int]));
                }
                match &self.fields[i] {
                    Some(FieldValue::Scalar(v)) => v.dup(),
                    _ => SqlValue::Null,
                }
            },
            None => SqlValue::Null,
        }
    }

    /// The store-assigned key, if the node has one, converted to `u64`.
    pub fn get_id_u64(&self) -> (r: Option<u64>)
        requires
            self@.wf(),
        ensures
            r == self@.spec_id_u64(),
    {
        match self.get_id_value() {
            SqlValue::UInt(u) => Some(u),
            SqlValue::Int(i) => {
                if i >= 0 {
                    Some(i as u64)
                } else {
                    None
                }
            },
            _ => None,
        }
    }

    /// Whether the to-many field `field` was never populated.
    pub fn is_vec_null(&self, field: &str) -> (r: bool)
        requires
            self@.wf(),
        ensures
            r == (self@.slot_of(field@) is None),
    {
        match find_field(&self.meta, field) {
            Some(i) => {
                proof {
                    assert(self@.fields[i as int] == slot_view(self.fields@[i as int]));
                }
                matches!(&self.fields[i], None)
            },
            None => true,
        }
    }
}

/// Failures raised by node access and by the persistence engine.
#[derive(Debug, PartialEq, Eq)]
pub enum OrmError {
    /// A lookup by key found no row; carries the entity type and the key.
    NotFound { entity: String, key: u64 },
    /// A relation field was read before it was ever populated.
    NotLoaded,
}

/// Every reference inside one field value points below `len`.
pub open spec fn value_refs_in(v: FieldValueV, len: int) -> bool {
    match v {
        FieldValueV::Entity(Some(j)) => (j as int) < len,
        FieldValueV::Collection(s) => forall|k: int|
            0 <= k < s.len() ==> (#[trigger] s[k] as int) < len,
        _ => true,
    }
}

/// Every reference held by one node points below `len`.
pub open spec fn node_refs_in(n: NodeV, len: int) -> bool {
    forall|i: int|
        0 <= i < n.fields.len() ==> match #[trigger] n.fields[i] {
            Some(v) => value_refs_in(v, len),
            None => true,
        }
}

/// References that fit a small arena also fit a larger one.
pub proof fn lemma_refs_widen(n: NodeV, len1: int, len2: int)
    requires
        node_refs_in(n, len1),
        len1 <= len2,
    ensures
        node_refs_in(n, len2),
{
    assert forall|i: int|
        0 <= i < n.fields.len() implies match #[trigger] n.fields[i] {
        Some(v) => value_refs_in(v, len2),
        None => true,
    } by {
        match n.fields[i] {
            Some(v) => {
                assert(value_refs_in(v, len1));
                match v {
                    FieldValueV::Collection(s) => {
                        assert forall|k: int| 0 <= k < s.len() implies (#[trigger] s[k] as int)
                            < len2 by {
                            assert((s[k] as int) < len1);
                        }
                    },
                    _ => {},
                }
            },
            None => {},
        }
    }
}

/// The arena of entity nodes. A node is named by its index, which is its
/// identity for the process lifetime: nodes are never removed.
pub struct Graph {
    pub nodes: Vec<EntityInner>,
}

impl Graph {
    /// The model of node `i`.
    pub open spec fn node(self, i: int) -> NodeV {
        self.nodes@[i]@
    }

    pub open spec fn n_nodes(self) -> int {
        self.nodes@.len() as int
    }

    /// Well-formed: every node is well-formed and every reference stays
    /// inside the arena.
    pub open spec fn wf(self) -> bool {
        forall|i: int|
            0 <= i < self.n_nodes() ==> (#[trigger] self.node(i)).wf() && node_refs_in(
                self.node(i),
                self.n_nodes(),
            )
    }

    /// An empty arena.
    pub fn new() -> (g: Graph)
        ensures
            g.wf(),
            g.n_nodes() == 0,
    {
        Graph { nodes: Vec::new() }
    }

    /// Allocates a fresh, unpopulated node of the given type and hands out
    /// its identity.
    pub fn new_pointer(&mut self, meta: EntityMeta) -> (id: usize)
        requires
            old(self).wf(),
            meta.wf(),
        ensures
            final(self).wf(),
            final(self).n_nodes() == old(self).n_nodes() + 1,
            id as int == old(self).n_nodes(),
            forall|j: int| 0 <= j < old(self).n_nodes() ==> final(self).node(j) == old(
                self,
            ).node(j),
            final(self).node(id as int).meta == meta,
            final(self).node(id as int).cascade is None,
            forall|i: int|
                0 <= i < final(self).node(id as int).fields.len() ==> final(self).node(
                    id as int,
                ).fields[i] is None,
    {
        let id = self.nodes.len();
        let n = EntityInner::new(meta);
        self.nodes.push(n);
        proof {
            lemma_wf_push(*old(self), *self);
        }
        id
    }

    /// Allocates a node of the given type with schema-derived defaults,
    /// marked for cascading insert, and hands out its identity.
    pub fn default_pointer(&mut self, meta: EntityMeta) -> (id: usize)
        requires
            old(self).wf(),
            meta.wf(),
        ensures
            final(self).wf(),
            final(self).n_nodes() == old(self).n_nodes() + 1,
            id as int == old(self).n_nodes(),
            forall|j: int| 0 <= j < old(self).n_nodes() ==> final(self).node(j) == old(
                self,
            ).node(j),
            final(self).node(id as int).meta == meta,
            final(self).node(id as int).cascade == Some(Cascade::Insert),
            forall|i: int|
                0 <= i < final(self).node(id as int).fields.len() ==> final(self).node(
                    id as int,
                ).fields[i] == Some(spec_default_for(meta.fields@[i].kind)),
    {
        let id = self.nodes.len();
        let n = EntityInner::default(meta);
        proof {
            assert(forall|k: FieldKind| variant_matches(k, #[trigger] spec_default_for(k)));
            assert(forall|k: FieldKind|
                value_refs_in(#[trigger] spec_default_for(k), old(self).n_nodes() + 1));
        }
        self.nodes.push(n);
        proof {
            lemma_wf_push(*old(self), *self);
        }
        id
    }

    /// The node's surrogate address: its identity in the arena. Two handles
    /// are the same node exactly when their addresses are equal.
    pub fn get_addr(&self, id: usize) -> (r: u64)
        requires
            0 <= (id as int) < self.n_nodes(),
        ensures
            r == id as u64,
    {
        id as u64
    }

    /// The single entity linked through `field`, if that relation field was
    /// ever populated; reading an unpopulated relation is refused, since an
    /// empty answer would be indistinguishable from "no related row".
    pub fn get_entity(&self, a: usize, field: &str) -> (r: Result<Option<usize>, OrmError>)
        requires
            self.wf(),
            (a as int) < self.n_nodes(),
            ({
                let m = self.node(a as int).meta;
                let f = m.idx_of(field@);
                f >= 0 && (m.fields@[f].kind.is_single_ref() || m.fields@[f].kind.is_one_one())
            }),
        ensures
            r == (match self.node(a as int).slot_of(field@) {
                Some(FieldValueV::Entity(o)) => Ok::<Option<usize>, OrmError>(o),
                _ => Err::<Option<usize>, OrmError>(OrmError::NotLoaded),
            }),
    {
        let node = &self.nodes[a];
        match find_field(&node.meta, field) {
            Some(i) => {
                proof {
                    assert(node@.fields[i as int] == slot_view(node.fields@[i as int]));
                }
                match &node.fields[i] {
                    Some(FieldValue::Entity(o)) => Ok(*o),
                    _ => Err(OrmError::NotLoaded),
                }
            },
            None => {
                proof {
                    assert(false);
                }
                Err(OrmError::NotLoaded)
            },
        }
    }

    /// The collection linked through `field`, if that relation field was
    /// ever populated.
    pub fn get_vec(&self, a: usize, field: &str) -> (r: Result<Vec<usize>, OrmError>)
        requires
            self.wf(),
            (a as int) < self.n_nodes(),
            ({
                let m = self.node(a as int).meta;
                let f = m.idx_of(field@);
                f >= 0 && m.fields@[f].kind.is_one_many()
            }),
        ensures
            match self.node(a as int).slot_of(field@) {
                Some(FieldValueV::Collection(s)) => r matches Ok(v) && v@ == s,
                _ => r == Err::<Vec<usize>, OrmError>(OrmError::NotLoaded),
            },
    {
        let node = &self.nodes[a];
        match find_field(&node.meta, field) {
            Some(i) => {
                proof {
                    assert(node@.fields[i as int] == slot_view(node.fields@[i as int]));
                }
                match &node.fields[i] {
                    Some(FieldValue::Collection(v)) => {
                        let mut out: Vec<usize> = Vec::new();
                        let mut k: usize = 0;
                        let len = v.len();
                        while k < len
                            invariant
                                0 <= k <= len,
                                len == v@.len(),
                                out@ == v@.take(k as int),
                            decreases len - k,
                        {
                            out.push(v[k]);
                            proof {
                                assert(v@.take(k + 1 as int) =~= v@.take(k as int).push(
                                    v@[k as int],
                                ));
                            }
                            k = k + 1;
                        }
                        proof {
                            assert(v@.take(len as int) =~= v@);
                        }
                        Ok(out)
                    },
                    _ => Err(OrmError::NotLoaded),
                }
            },
            None => {
                proof {
                    assert(false);
                }
                Err(OrmError::NotLoaded)
            },
        }
    }
}

/// A graph that changed in one node alone stays well-formed if that node is
/// well-formed and its references stay inside the arena.
pub proof fn lemma_wf_update_node(pre: Graph, post: Graph, a: int)
    requires
        pre.wf(),
        0 <= a < pre.n_nodes(),
        post.n_nodes() == pre.n_nodes(),
        forall|j: int| 0 <= j < pre.n_nodes() && j != a ==> post.node(j) == pre.node(j),
        post.node(a).wf(),
        node_refs_in(post.node(a), post.n_nodes()),
    ensures
        post.wf(),
{
    assert forall|i: int|
        0 <= i < post.n_nodes() implies (#[trigger] post.node(i)).wf() && node_refs_in(
        post.node(i),
        post.n_nodes(),
    ) by {
        if i != a {
            assert(post.node(i) == pre.node(i));
            assert(pre.node(i).wf());
            assert(node_refs_in(pre.node(i), pre.n_nodes()));
        }
    }
}

/// A graph grown by one well-formed node at the end stays well-formed.
pub proof fn lemma_wf_push(pre: Graph, post: Graph)
    requires
        pre.wf(),
        post.n_nodes() == pre.n_nodes() + 1,
        forall|j: int| 0 <= j < pre.n_nodes() ==> post.node(j) == pre.node(j),
        post.node(pre.n_nodes()).wf(),
        node_refs_in(post.node(pre.n_nodes()), post.n_nodes()),
    ensures
        post.wf(),
{
    assert forall|i: int|
        0 <= i < post.n_nodes() implies (#[trigger] post.node(i)).wf() && node_refs_in(
        post.node(i),
        post.n_nodes(),
    ) by {
        if i < pre.n_nodes() {
            assert(post.node(i) == pre.node(i));
            assert(pre.node(i).wf());
            assert(node_refs_in(pre.node(i), pre.n_nodes()));
            lemma_refs_widen(pre.node(i), pre.n_nodes(), post.n_nodes());
        }
    }
}

/// The inputs under which a single-reference assignment is legal: the field
/// is a SingleRef whose foreign-key column is a plain field of the same
/// type, and the target (if any) is another node of the arena.
pub open spec fn pointer_pre(g: Graph, a: int, field: Seq<char>, b: Option<usize>) -> bool {
    let m = g.node(a).meta;
    let f = m.idx_of(field);
    let fk = m.idx_of(m.fields@[f].kind.spec_fk_field());
    &&& g.wf()
    &&& 0 <= a < g.n_nodes()
    &&& f >= 0
    &&& m.fields@[f].kind.is_single_ref()
    &&& fk >= 0
    &&& m.fields@[fk].kind.is_plain()
    &&& match b {
        Some(bi) => (bi as int) < g.n_nodes() && bi as int != a,
        None => true,
    }
}

/// What a single-reference assignment does: the foreign-key column of `a`
/// mirrors the target's key (NULL when unlinking), the relation slot holds
/// the link, and nothing else changes.
pub open spec fn pointer_set(pre: Graph, post: Graph, a: int, field: Seq<char>, b: Option<
    usize,
>) -> bool {
    let m = pre.node(a).meta;
    let f = m.idx_of(field);
    let fk = m.idx_of(m.fields@[f].kind.spec_fk_field());
    let fkv = match b {
        Some(bi) => pre.node(bi as int).key_value(),
        None => SqlValueV::Null,
    };
    &&& post.n_nodes() == pre.n_nodes()
    &&& forall|j: int| 0 <= j < pre.n_nodes() && j != a ==> post.node(j) == pre.node(j)
    &&& post.node(a).meta == m
    &&& post.node(a).cascade == pre.node(a).cascade
    &&& post.node(a).fields == pre.node(a).fields.update(
        fk,
        Some(FieldValueV::Scalar(fkv)),
    ).update(f, Some(FieldValueV::Entity(b)))
}

impl Graph {
    /// Links `a.field = b` for a SingleRef field, eagerly mirroring the
    /// target's key into the local foreign-key column.
    pub fn set_pointer(&mut self, a: usize, field: &str, b: Option<usize>)
        requires
            pointer_pre(*old(self), a as int, field@, b),
        ensures
            final(self).wf(),
            pointer_set(*old(self), *final(self), a as int, field@, b),
    {
        let f: usize = match find_field(&self.nodes[a].meta, field) {
            Some(i) => i,
            None => {
                proof {
                    assert(false);
                }
                0
            },
        };
        let fk_name: String = match &self.nodes[a].meta.fields[f].kind {
            FieldKind::SingleRef { fk_field, .. } => fk_field.clone(),
            _ => {
                proof {
                    assert(false);
                }
                String::new()
            },
        };
        let fk: usize = match find_field(&self.nodes[a].meta, fk_name.as_str()) {
            Some(i) => i,
            None => {
                proof {
                    assert(false);
                }
                0
            },
        };
        let fkv: SqlValue = match b {
            Some(bi) => self.nodes[bi].get_id_value(),
            None => SqlValue::Null,
        };
        self.nodes[a].fields[fk] = Some(FieldValue::Scalar(fkv));
        let ghost mid = *self;
        self.nodes[a].fields[f] = Some(FieldValue::Entity(b));
        proof {
            assert(mid.node(a as int).fields =~= old(self).node(a as int).fields.update(
                fk as int,
                Some(FieldValueV::Scalar(match b {
                    Some(bi) => old(self).node(bi as int).key_value(),
                    None => SqlValueV::Null,
                })),
            ));
            assert(self.node(a as int).fields =~= mid.node(a as int).fields.update(
                f as int,
                Some(FieldValueV::Entity(b)),
            ));
            assert forall|i: int|
                0 <= i < self.node(a as int).fields.len() implies match #[trigger] self.node(
                a as int,
            ).fields[i] {
                Some(v) => variant_matches(self.node(a as int).meta.fields@[i].kind, v)
                    && value_refs_in(v, self.n_nodes()),
                None => true,
            } by {
                assert(old(self).node(a as int).wf());
                assert(node_refs_in(old(self).node(a as int), old(self).n_nodes()));
            }
            lemma_wf_update_node(*old(self), *self, a as int);
        }
    }
}

/// The inputs under which a one-to-one assignment is legal: the field is a
/// populated OneToOne relation, and the departing and arriving targets (if
/// any) are other nodes whose types carry the back-reference column.
pub open spec fn one_one_pre(g: Graph, a: int, field: Seq<char>, b: Option<usize>) -> bool {
    let m = g.node(a).meta;
    let f = m.idx_of(field);
    let fkn = m.fields@[f].kind.spec_fk_field();
    &&& g.wf()
    &&& 0 <= a < g.n_nodes()
    &&& f >= 0
    &&& m.fields@[f].kind.is_one_one()
    &&& g.node(a).fields[f] matches Some(FieldValueV::Entity(_))
    &&& match g.node(a).fields[f] {
        Some(FieldValueV::Entity(Some(c))) => {
            let cm = g.node(c as int).meta;
            &&& c as int != a
            &&& cm.idx_of(fkn) >= 0
            &&& cm.fields@[cm.idx_of(fkn)].kind.is_plain()
        },
        _ => true,
    }
    &&& match b {
        Some(bi) => {
            let bm = g.node(bi as int).meta;
            &&& (bi as int) < g.n_nodes()
            &&& bi as int != a
            &&& bm.idx_of(fkn) >= 0
            &&& bm.fields@[bm.idx_of(fkn)].kind.is_plain()
        },
        None => true,
    }
}

/// What a one-to-one assignment does: the arriving target's back-reference
/// column takes `a`'s key, the departing target's is nulled (exclusivity),
/// `a`'s relation slot holds the link, and nothing else changes.
pub open spec fn one_one_set(pre: Graph, post: Graph, a: int, field: Seq<char>, b: Option<
    usize,
>) -> bool {
    let m = pre.node(a).meta;
    let f = m.idx_of(field);
    let fkn = m.fields@[f].kind.spec_fk_field();
    let akey = pre.node(a).key_value();
    &&& post.n_nodes() == pre.n_nodes()
    &&& post.node(a).meta == m
    &&& post.node(a).cascade == pre.node(a).cascade
    &&& post.node(a).fields == pre.node(a).fields.update(f, Some(FieldValueV::Entity(b)))
    &&& match b {
        Some(bi) => {
            let bm = pre.node(bi as int).meta;
            &&& post.node(bi as int).meta == bm
            &&& post.node(bi as int).cascade == pre.node(bi as int).cascade
            &&& post.node(bi as int).fields == pre.node(bi as int).fields.update(
                bm.idx_of(fkn),
                Some(FieldValueV::Scalar(akey)),
            )
        },
        None => true,
    }
    &&& match pre.node(a).fields[f] {
        Some(FieldValueV::Entity(Some(c))) => b != Some(c) ==> {
            let cm = pre.node(c as int).meta;
            &&& post.node(c as int).meta == cm
            &&& post.node(c as int).cascade == pre.node(c as int).cascade
            &&& post.node(c as int).fields == pre.node(c as int).fields.update(
                cm.idx_of(fkn),
                Some(FieldValueV::Scalar(SqlValueV::Null)),
            )
        },
        _ => true,
    }
    &&& forall|j: int|
        {
            &&& 0 <= j < pre.n_nodes()
            &&& j != a
            &&& (match b {
                Some(bi) => j != bi as int,
                None => true,
            })
            &&& (match pre.node(a).fields[f] {
                Some(FieldValueV::Entity(Some(c))) => j != c as int,
                _ => true,
            })
        } ==> post.node(j) == pre.node(j)
}

impl Graph {
    /// Links `a.field = b` for a OneToOne field: the target takes the
    /// back-reference to `a`, and the previously linked target (if it is a
    /// different node) loses its back-reference in the same operation.
    pub fn set_one_one(&mut self, a: usize, field: &str, b: Option<usize>)
        requires
            one_one_pre(*old(self), a as int, field@, b),
        ensures
            final(self).wf(),
            one_one_set(*old(self), *final(self), a as int, field@, b),
    {
        let f: usize = match find_field(&self.nodes[a].meta, field) {
            Some(i) => i,
            None => {
                proof {
                    assert(false);
                }
                0
            },
        };
        let fk_name: String = match &self.nodes[a].meta.fields[f].kind {
            FieldKind::OneToOne { fk_field, .. } => fk_field.clone(),
            _ => {
                proof {
                    assert(false);
                }
                String::new()
            },
        };
        let oldc: Option<usize> = match &self.nodes[a].fields[f] {
            Some(FieldValue::Entity(o)) => *o,
            _ => {
                proof {
                    assert(self.node(a as int).fields[f as int] == slot_view(
                        self.nodes@[a as int].fields@[f as int],
                    ));
                    assert(false);
                }
                None
            },
        };
        proof {
            assert(self.node(a as int).fields[f as int] == slot_view(
                self.nodes@[a as int].fields@[f as int],
            ));
        }
        let a_key: SqlValue = self.nodes[a].get_id_value();
        match oldc {
            Some(c) => {
                let differs: bool = match b {
                    Some(bi) => bi != c,
                    None => true,
                };
                if differs {
                    let ci: usize = match find_field(&self.nodes[c].meta, fk_name.as_str()) {
                        Some(i) => i,
                        None => {
                            proof {
                                assert(false);
                            }
                            0
                        },
                    };
                    self.nodes[c].fields[ci] = Some(FieldValue::Scalar(SqlValue::Null));
                    proof {
                        assert(self.node(c as int).fields =~= old(self).node(
                            c as int,
                        ).fields.update(ci as int, Some(FieldValueV::Scalar(SqlValueV::Null))));
                        assert forall|i: int|
                            0 <= i < self.node(c as int).fields.len() implies match #[trigger] self
                            .node(c as int).fields[i] {
                            Some(v) => variant_matches(self.node(c as int).meta.fields@[i].kind, v)
                                && value_refs_in(v, self.n_nodes()),
                            None => true,
                        } by {
                            assert(old(self).node(c as int).wf());
                            assert(node_refs_in(old(self).node(c as int), old(self).n_nodes()));
                        }
                        lemma_wf_update_node(*old(self), *self, c as int);
                    }
                }
            },
            None => {},
        }
        let ghost mid1 = *self;
        match b {
            Some(bi) => {
                let bidx: usize = match find_field(&self.nodes[bi].meta, fk_name.as_str()) {
                    Some(i) => i,
                    None => {
                        proof {
                            assert(false);
                        }
                        0
                    },
                };
                self.nodes[bi].fields[bidx] = Some(FieldValue::Scalar(a_key));
                proof {
                    assert(self.node(bi as int).fields =~= mid1.node(bi as int).fields.update(
                        bidx as int,
                        Some(FieldValueV::Scalar(old(self).node(a as int).key_value())),
                    ));
                    assert forall|i: int|
                        0 <= i < self.node(bi as int).fields.len() implies match #[trigger] self
                        .node(bi as int).fields[i] {
                        Some(v) => variant_matches(self.node(bi as int).meta.fields@[i].kind, v)
                            && value_refs_in(v, self.n_nodes()),
                        None => true,
                    } by {
                        assert(mid1.node(bi as int).wf());
                        assert(node_refs_in(mid1.node(bi as int), mid1.n_nodes()));
                    }
                    lemma_wf_update_node(mid1, *self, bi as int);
                }
            },
            None => {},
        }
        let ghost mid2 = *self;
        self.nodes[a].fields[f] = Some(FieldValue::Entity(b));
        proof {
            assert(self.node(a as int).fields =~= mid2.node(a as int).fields.update(
                f as int,
                Some(FieldValueV::Entity(b)),
            ));
            assert forall|i: int|
                0 <= i < self.node(a as int).fields.len() implies match #[trigger] self.node(
                a as int,
            ).fields[i] {
                Some(v) => variant_matches(self.node(a as int).meta.fields@[i].kind, v)
                    && value_refs_in(v, self.n_nodes()),
                None => true,
            } by {
                assert(mid2.node(a as int).wf());
                assert(node_refs_in(mid2.node(a as int), mid2.n_nodes()));
            }
            lemma_wf_update_node(mid2, *self, a as int);
            assert(self.node(a as int).fields =~= old(self).node(a as int).fields.update(
                f as int,
                Some(FieldValueV::Entity(b)),
            ));
        }
    }
}

/// Whether node index `j` occurs in a member list.
pub open spec fn seq_has(s: Seq<usize>, j: int) -> bool {
    exists|k: int| 0 <= k < s.len() && s[k] as int == j
}

/// Growing a processed prefix by one member adds exactly that member.
pub proof fn lemma_seq_has_take_step(s: Seq<usize>, t: int, j: int)
    requires
        0 <= t < s.len(),
    ensures
        seq_has(s.take(t + 1), j) == (seq_has(s.take(t), j) || s[t] as int == j),
{
    assert(s.take(t + 1) =~= s.take(t).push(s[t]));
    if seq_has(s.take(t), j) {
        let k = choose|k: int| 0 <= k < s.take(t).len() && (#[trigger] s.take(t)[k]) as int == j;
        assert(s.take(t + 1)[k] as int == j);
    }
    if s[t] as int == j {
        assert(s.take(t + 1)[t] as int == j);
    }
    if seq_has(s.take(t + 1), j) && s[t] as int != j {
        let k = choose|k: int|
            0 <= k < s.take(t + 1).len() && (#[trigger] s.take(t + 1)[k]) as int == j;
        assert(k < t);
        assert(s.take(t)[k] as int == j);
    }
}

/// Membership survives a push.
pub proof fn lemma_seq_has_push(s: Seq<usize>, x: usize, j: int)
    requires
        seq_has(s, j),
    ensures
        seq_has(s.push(x), j),
{
    let k = choose|k: int| 0 <= k < s.len() && (#[trigger] s[k]) as int == j;
    assert(s.push(x)[k] as int == j);
}

/// Membership survives dropping a last element that is not the member.
pub proof fn lemma_seq_has_pop(s: Seq<usize>, j: int)
    requires
        seq_has(s, j),
        s.len() > 0,
        s.last() as int != j,
    ensures
        seq_has(s.drop_last(), j),
{
    let k = choose|k: int| 0 <= k < s.len() && (#[trigger] s[k]) as int == j;
    assert(k < s.len() - 1);
    assert(s.drop_last()[k] as int == j);
}

/// A legal member of a one-to-many collection owned by `a`: a different
/// node whose type carries the back-reference column as a plain field.
pub open spec fn member_ok(g: Graph, a: int, fkn: Seq<char>, m: usize) -> bool {
    let mm = g.node(m as int).meta;
    &&& m as int != a
    &&& mm.idx_of(fkn) >= 0
    &&& mm.fields@[mm.idx_of(fkn)].kind.is_plain()
}

/// The inputs under which a one-to-many rebind is legal: the field is a
/// populated OneToMany relation and every departing and arriving member is
/// a legal member.
pub open spec fn one_many_pre(g: Graph, a: int, field: Seq<char>, ids: Seq<usize>) -> bool {
    let m = g.node(a).meta;
    let f = m.idx_of(field);
    let fkn = m.fields@[f].kind.spec_fk_field();
    &&& g.wf()
    &&& 0 <= a < g.n_nodes()
    &&& f >= 0
    &&& m.fields@[f].kind.is_one_many()
    &&& g.node(a).fields[f] matches Some(FieldValueV::Collection(_))
    &&& match g.node(a).fields[f] {
        Some(FieldValueV::Collection(olds)) => forall|k: int|
            0 <= k < olds.len() ==> member_ok(g, a, fkn, #[trigger] olds[k]),
        _ => true,
    }
    &&& forall|k: int|
        0 <= k < ids.len() ==> (#[trigger] ids[k] as int) < g.n_nodes() && member_ok(
            g,
            a,
            fkn,
            ids[k],
        )
}

/// What a one-to-many rebind does: every arriving member's back-reference
/// takes `a`'s key, every departing member not arriving again is nulled,
/// `a`'s collection slot holds the new members, and nothing else changes.
pub open spec fn one_many_set(pre: Graph, post: Graph, a: int, field: Seq<char>, ids: Seq<
    usize,
>) -> bool {
    let m = pre.node(a).meta;
    let f = m.idx_of(field);
    let fkn = m.fields@[f].kind.spec_fk_field();
    let akey = pre.node(a).key_value();
    let olds = match pre.node(a).fields[f] {
        Some(FieldValueV::Collection(s)) => s,
        _ => Seq::empty(),
    };
    &&& post.n_nodes() == pre.n_nodes()
    &&& post.node(a).meta == m
    &&& post.node(a).cascade == pre.node(a).cascade
    &&& post.node(a).fields == pre.node(a).fields.update(
        f,
        Some(FieldValueV::Collection(ids)),
    )
    &&& forall|j: int|
        0 <= j < pre.n_nodes() && j != a ==> {
            let jm = (#[trigger] pre.node(j)).meta;
            if seq_has(ids, j) {
                &&& post.node(j).meta == jm
                &&& post.node(j).cascade == pre.node(j).cascade
                &&& post.node(j).fields == pre.node(j).fields.update(
                    jm.idx_of(fkn),
                    Some(FieldValueV::Scalar(akey)),
                )
            } else if seq_has(olds, j) {
                &&& post.node(j).meta == jm
                &&& post.node(j).cascade == pre.node(j).cascade
                &&& post.node(j).fields == pre.node(j).fields.update(
                    jm.idx_of(fkn),
                    Some(FieldValueV::Scalar(SqlValueV::Null)),
                )
            } else {
                post.node(j) == pre.node(j)
            }
        }
}

/// Copies a member list.
fn copy_ids(v: &Vec<usize>) -> (r: Vec<usize>)
    ensures
        r@ == v@,
{
    let mut out: Vec<usize> = Vec::new();
    let mut k: usize = 0;
    let len = v.len();
    while k < len
        invariant
            0 <= k <= len,
            len == v@.len(),
            out@ == v@.take(k as int),
        decreases len - k,
    {
        out.push(v[k]);
        proof {
            assert(v@.take(k + 1 as int) =~= v@.take(k as int).push(v@[k as int]));
        }
        k = k + 1;
    }
    proof {
        assert(v@.take(len as int) =~= v@);
    }
    out
}

impl Graph {
    /// Rebinds the OneToMany collection `a.field = vec`: the back-reference
    /// of every previously linked node is nulled, then every node of the
    /// new collection takes the back-reference to `a`.
    pub fn set_vec(&mut self, a: usize, field: &str, vec: Vec<usize>)
        requires
            one_many_pre(*old(self), a as int, field@, vec@),
        ensures
            final(self).wf(),
            one_many_set(*old(self), *final(self), a as int, field@, vec@),
    {
        let ghost pre = *old(self);
        let ghost n = pre.n_nodes();
        let f: usize = match find_field(&self.nodes[a].meta, field) {
            Some(i) => i,
            None => {
                proof {
                    assert(false);
                }
                0
            },
        };
        let fk_name: String = match &self.nodes[a].meta.fields[f].kind {
            FieldKind::OneToMany { fk_field, .. } => fk_field.clone(),
            _ => {
                proof {
                    assert(false);
                }
                String::new()
            },
        };
        let olds: Vec<usize> = match &self.nodes[a].fields[f] {
            Some(FieldValue::Collection(v)) => copy_ids(v),
            _ => {
                proof {
                    assert(self.node(a as int).fields[f as int] == slot_view(
                        self.nodes@[a as int].fields@[f as int],
                    ));
                    assert(false);
                }
                Vec::new()
            },
        };
        proof {
            assert(self.node(a as int).fields[f as int] == slot_view(
                self.nodes@[a as int].fields@[f as int],
            ));
            assert(node_refs_in(pre.node(a as int), n));
            assert(pre.node(a as int).fields[f as int] matches Some(v) && value_refs_in(v, n));
        }
        let ghost fkn = pre.node(a as int).meta.fields@[f as int].kind.spec_fk_field();
        let a_key: SqlValue = self.nodes[a].get_id_value();

        // unbind the departing members
        let mut t: usize = 0;
        let olen = olds.len();
        while t < olen
            invariant
                0 <= t <= olen,
                olen == olds@.len(),
                fk_name@ == fkn,
                n == pre.n_nodes(),
                (f as int) < pre.node(a as int).fields.len(),
                fkn == pre.node(a as int).meta.fields@[f as int].kind.spec_fk_field(),
                value_refs_in(FieldValueV::Collection(olds@), n),
                one_many_pre(pre, a as int, field@, vec@),
                pre.node(a as int).fields[pre.node(a as int).meta.idx_of(field@)]
                    == Some(FieldValueV::Collection(olds@)),
                pre.node(a as int).meta.idx_of(field@) == f as int,
                self.wf(),
                self.n_nodes() == n,
                self.node(a as int) == pre.node(a as int),
                forall|j: int|
                    0 <= j < n && j != a as int ==> {
                        let jm = pre.node(j).meta;
                        if seq_has(olds@.take(t as int), j) {
                            &&& (#[trigger] self.node(j)).meta == jm
                            &&& self.node(j).cascade == pre.node(j).cascade
                            &&& self.node(j).fields == pre.node(j).fields.update(
                                jm.idx_of(fkn),
                                Some(FieldValueV::Scalar(SqlValueV::Null)),
                            )
                        } else {
                            self.node(j) == pre.node(j)
                        }
                    },
            decreases olen - t,
        {
            let m = olds[t];
            proof {
                assert(olds@[t as int] == m);
                assert(seq_has(olds@, m as int)) by {
                    assert(olds@[t as int] as int == m as int);
                }
                assert(node_refs_in(pre.node(a as int), n));
                assert(pre.node(a as int).fields[f as int] == Some(
                    FieldValueV::Collection(olds@),
                ));
                assert(value_refs_in(FieldValueV::Collection(olds@), n));
                assert((m as int) < n) by {
                    assert((olds@[t as int] as int) < n);
                }
                assert(member_ok(pre, a as int, fkn, olds@[t as int]));
                assert(self.node(m as int).meta == pre.node(m as int).meta);
            }
            let mi: usize = match find_field(&self.nodes[m].meta, fk_name.as_str()) {
                Some(i) => i,
                None => {
                    proof {
                        assert(false);
                    }
                    0
                },
            };
            let ghost before = *self;
            self.nodes[m].fields[mi] = Some(FieldValue::Scalar(SqlValue::Null));
            proof {
                assert(self.node(m as int).fields =~= before.node(m as int).fields.update(
                    mi as int,
                    Some(FieldValueV::Scalar(SqlValueV::Null)),
                ));
                assert forall|i: int|
                    0 <= i < self.node(m as int).fields.len() implies match #[trigger] self.node(
                    m as int,
                ).fields[i] {
                    Some(v) => variant_matches(self.node(m as int).meta.fields@[i].kind, v)
                        && value_refs_in(v, self.n_nodes()),
                    None => true,
                } by {
                    assert(before.node(m as int).wf());
                    assert(node_refs_in(before.node(m as int), before.n_nodes()));
                }
                lemma_wf_update_node(before, *self, m as int);
                assert(self.node(m as int).meta == before.node(m as int).meta);
                assert(self.node(m as int).cascade == before.node(m as int).cascade);
                assert(forall|j: int|
                    0 <= j < n && j != m as int ==> #[trigger] self.node(j) == before.node(j));
                assert(before.node(m as int).meta == pre.node(m as int).meta);
                assert(before.node(m as int).cascade == pre.node(m as int).cascade);
                if seq_has(olds@.take(t as int), m as int) {
                    assert(before.node(m as int).fields == pre.node(m as int).fields.update(
                        mi as int,
                        Some(FieldValueV::Scalar(SqlValueV::Null)),
                    ));
                    assert(self.node(m as int).fields =~= pre.node(m as int).fields.update(
                        mi as int,
                        Some(FieldValueV::Scalar(SqlValueV::Null)),
                    ));
                }
                assert forall|j: int| 0 <= j < n && j != a as int implies {
                    let jm = pre.node(j).meta;
                    if seq_has(olds@.take(t + 1 as int), j) {
                        &&& (#[trigger] self.node(j)).meta == jm
                        &&& self.node(j).cascade == pre.node(j).cascade
                        &&& self.node(j).fields == pre.node(j).fields.update(
                            jm.idx_of(fkn),
                            Some(FieldValueV::Scalar(SqlValueV::Null)),
                        )
                    } else {
                        self.node(j) == pre.node(j)
                    }
                } by {
                    lemma_seq_has_take_step(olds@, t as int, j);
                }
            }
            t = t + 1;
        }
        proof {
            assert(olds@.take(olen as int) =~= olds@);
        }

        // bind the arriving members
        let mut u: usize = 0;
        let vlen = vec.len();
        while u < vlen
            invariant
                0 <= u <= vlen,
                vlen == vec@.len(),
                fk_name@ == fkn,
                n == pre.n_nodes(),
                (f as int) < pre.node(a as int).fields.len(),
                fkn == pre.node(a as int).meta.fields@[f as int].kind.spec_fk_field(),
                value_refs_in(FieldValueV::Collection(olds@), n),
                one_many_pre(pre, a as int, field@, vec@),
                pre.node(a as int).fields[pre.node(a as int).meta.idx_of(field@)]
                    == Some(FieldValueV::Collection(olds@)),
                pre.node(a as int).meta.idx_of(field@) == f as int,
                a_key@ == pre.node(a as int).key_value(),
                self.wf(),
                self.n_nodes() == n,
                self.node(a as int) == pre.node(a as int),
                forall|j: int|
                    0 <= j < n && j != a as int ==> {
                        let jm = pre.node(j).meta;
                        if seq_has(vec@.take(u as int), j) {
                            &&& (#[trigger] self.node(j)).meta == jm
                            &&& self.node(j).cascade == pre.node(j).cascade
                            &&& self.node(j).fields == pre.node(j).fields.update(
                                jm.idx_of(fkn),
                                Some(FieldValueV::Scalar(a_key@)),
                            )
                        } else if seq_has(olds@, j) {
                            &&& (#[trigger] self.node(j)).meta == jm
                            &&& self.node(j).cascade == pre.node(j).cascade
                            &&& self.node(j).fields == pre.node(j).fields.update(
                                jm.idx_of(fkn),
                                Some(FieldValueV::Scalar(SqlValueV::Null)),
                            )
                        } else {
                            self.node(j) == pre.node(j)
                        }
                    },
            decreases vlen - u,
        {
            let m = vec[u];
            proof {
                assert(vec@[u as int] == m);
                assert(seq_has(vec@, m as int)) by {
                    assert(vec@[u as int] as int == m as int);
                }
                assert((vec@[u as int] as int) < n && member_ok(pre, a as int, fkn, vec@[u as int]));
                assert((m as int) < n);
                assert(self.node(m as int).meta == pre.node(m as int).meta);
            }
            let mi: usize = match find_field(&self.nodes[m].meta, fk_name.as_str()) {
                Some(i) => i,
                None => {
                    proof {
                        assert(false);
                    }
                    0
                },
            };
            let ghost before = *self;
            self.nodes[m].fields[mi] = Some(FieldValue::Scalar(a_key.dup()));
            proof {
                assert(self.node(m as int).fields =~= before.node(m as int).fields.update(
                    mi as int,
                    Some(FieldValueV::Scalar(a_key@)),
                ));
                assert forall|i: int|
                    0 <= i < self.node(m as int).fields.len() implies match #[trigger] self.node(
                    m as int,
                ).fields[i] {
                    Some(v) => variant_matches(self.node(m as int).meta.fields@[i].kind, v)
                        && value_refs_in(v, self.n_nodes()),
                    None => true,
                } by {
                    assert(before.node(m as int).wf());
                    assert(node_refs_in(before.node(m as int), before.n_nodes()));
                }
                lemma_wf_update_node(before, *self, m as int);
                assert(self.node(m as int).meta == before.node(m as int).meta);
                assert(self.node(m as int).cascade == before.node(m as int).cascade);
                assert(forall|j: int|
                    0 <= j < n && j != m as int ==> #[trigger] self.node(j) == before.node(j));
                assert(before.node(m as int).meta == pre.node(m as int).meta);
                assert(before.node(m as int).cascade == pre.node(m as int).cascade);
                if seq_has(vec@.take(u as int), m as int) || seq_has(olds@, m as int) {
                    assert(self.node(m as int).fields =~= pre.node(m as int).fields.update(
                        mi as int,
                        Some(FieldValueV::Scalar(a_key@)),
                    ));
                }
                assert forall|j: int| 0 <= j < n && j != a as int implies {
                    let jm = pre.node(j).meta;
                    if seq_has(vec@.take(u + 1 as int), j) {
                        &&& (#[trigger] self.node(j)).meta == jm
                        &&& self.node(j).cascade == pre.node(j).cascade
                        &&& self.node(j).fields == pre.node(j).fields.update(
                            jm.idx_of(fkn),
                            Some(FieldValueV::Scalar(a_key@)),
                        )
                    } else if seq_has(olds@, j) {
                        &&& (#[trigger] self.node(j)).meta == jm
                        &&& self.node(j).cascade == pre.node(j).cascade
                        &&& self.node(j).fields == pre.node(j).fields.update(
                            jm.idx_of(fkn),
                            Some(FieldValueV::Scalar(SqlValueV::Null)),
                        )
                    } else {
                        self.node(j) == pre.node(j)
                    }
                } by {
                    lemma_seq_has_take_step(vec@, u as int, j);
                }
            }
            u = u + 1;
        }
        proof {
            assert(vec@.take(vlen as int) =~= vec@);
        }

        // store the new collection on the owner
        let ghost mid = *self;
        let ghost vecv = vec@;
        self.nodes[a].fields[f] = Some(FieldValue::Collection(vec));
        proof {
            assert(self.node(a as int).fields =~= mid.node(a as int).fields.update(
                f as int,
                Some(FieldValueV::Collection(vecv)),
            ));
            assert forall|i: int|
                0 <= i < self.node(a as int).fields.len() implies match #[trigger] self.node(
                a as int,
            ).fields[i] {
                Some(v) => variant_matches(self.node(a as int).meta.fields@[i].kind, v)
                    && value_refs_in(v, self.n_nodes()),
                None => true,
            } by {
                assert(mid.node(a as int).wf());
                assert(node_refs_in(mid.node(a as int), mid.n_nodes()));
                if i == f as int {
                    assert(forall|k: int|
                        0 <= k < vecv.len() ==> (#[trigger] vecv[k] as int) < n);
                }
            }
            lemma_wf_update_node(mid, *self, a as int);
            assert(self.node(a as int).meta == mid.node(a as int).meta);
            assert(self.node(a as int).cascade == mid.node(a as int).cascade);
            assert(forall|j: int|
                0 <= j < n && j != a as int ==> #[trigger] self.node(j) == mid.node(j));
            assert(self.node(a as int).fields =~= pre.node(a as int).fields.update(
                f as int,
                Some(FieldValueV::Collection(vecv)),
            ));
        }
    }
}

impl Graph {
    /// Links `a.field = b`, dispatching on the field's declared relation
    /// kind; calling it on a field of any other kind is a contract
    /// violation by the caller.
    pub fn set_entity(&mut self, a: usize, field: &str, b: Option<usize>)
        requires
            ({
                let m = old(self).node(a as int).meta;
                let f = m.idx_of(field@);
                &&& 0 <= (a as int) < old(self).n_nodes()
                &&& f >= 0
                &&& (m.fields@[f].kind.is_single_ref() || m.fields@[f].kind.is_one_one())
                &&& (m.fields@[f].kind.is_single_ref() ==> pointer_pre(
                    *old(self),
                    a as int,
                    field@,
                    b,
                ))
                &&& (m.fields@[f].kind.is_one_one() ==> one_one_pre(
                    *old(self),
                    a as int,
                    field@,
                    b,
                ))
            }),
        ensures
            final(self).wf(),
            ({
                let m = old(self).node(a as int).meta;
                let f = m.idx_of(field@);
                &&& (m.fields@[f].kind.is_single_ref() ==> pointer_set(
                    *old(self),
                    *final(self),
                    a as int,
                    field@,
                    b,
                ))
                &&& (m.fields@[f].kind.is_one_one() ==> one_one_set(
                    *old(self),
                    *final(self),
                    a as int,
                    field@,
                    b,
                ))
            }),
    {
        let f: usize = match find_field(&self.nodes[a].meta, field) {
            Some(i) => i,
            None => {
                proof {
                    assert(false);
                }
                0
            },
        };
        let single: bool = matches!(&self.nodes[a].meta.fields[f].kind, FieldKind::SingleRef { .. });
        if single {
            self.set_pointer(a, field, b);
        } else {
            self.set_one_one(a, field, b);
        }
    }
}

/// How many entries of a visit mask are still unset.
pub open spec fn count_unset(s: Seq<bool>) -> nat
    decreases s.len(),
{
    if s.len() == 0 {
        0
    } else {
        count_unset(s.drop_last()) + if s.last() {
            0nat
        } else {
            1nat
        }
    }
}

/// Setting one unset entry lowers the unset count by one.
pub proof fn lemma_count_unset_set(s: Seq<bool>, k: int)
    requires
        0 <= k < s.len(),
        !s[k],
    ensures
        count_unset(s.update(k, true)) == count_unset(s) - 1,
    decreases s.len(),
{
    if k == s.len() - 1 {
        assert(s.update(k, true).drop_last() =~= s.drop_last());
    } else {
        lemma_count_unset_set(s.drop_last(), k);
        assert(s.update(k, true).drop_last() =~= s.drop_last().update(k, true));
        assert(s.update(k, true).last() == s.last());
    }
}

/// Whether one populated slot of `n` links to node `j`.
pub open spec fn linked_at(n: NodeV, i: int, j: int) -> bool {
    match n.fields[i] {
        Some(FieldValueV::Entity(Some(b))) => b as int == j,
        Some(FieldValueV::Collection(s)) => seq_has(s, j),
        _ => false,
    }
}

/// Whether `n` links to node `j` through any populated relation slot
/// (pointer target, one-to-one target, or one-to-many member).
pub open spec fn linked(n: NodeV, j: int) -> bool {
    exists|i: int| 0 <= i < n.fields.len() && #[trigger] linked_at(n, i, j)
}

/// Whether `j` is reachable from `root` in at most `k` link steps.
pub open spec fn reaches_in(g: Graph, root: int, j: int, k: nat) -> bool
    decreases k,
{
    if j == root {
        true
    } else if k == 0 {
        false
    } else {
        exists|m: int|
            0 <= m < g.n_nodes() && reaches_in(g, root, m, (k - 1) as nat) && linked(
                #[trigger] g.node(m),
                j,
            )
    }
}

/// Whether `j` is in the subgraph currently linked from `root`.
pub open spec fn reaches(g: Graph, root: int, j: int) -> bool {
    exists|k: nat| #[trigger] reaches_in(g, root, j, k)
}

/// One more link step keeps a node reachable.
pub proof fn lemma_reaches_step(g: Graph, root: int, m: int, j: int)
    requires
        reaches(g, root, m),
        0 <= m < g.n_nodes(),
        linked(g.node(m), j),
    ensures
        reaches(g, root, j),
{
    let k = choose|k: nat| #[trigger] reaches_in(g, root, m, k);
    assert(reaches_in(g, root, j, k + 1)) by {
        if j != root {
            assert(0 <= m < g.n_nodes() && reaches_in(g, root, m, ((k + 1) - 1) as nat) && linked(
                g.node(m),
                j,
            ));
        }
    }
}

/// A visit mask that contains the root and is closed under links contains
/// everything reachable from the root.
pub proof fn lemma_mask_complete(g: Graph, root: int, mask: Seq<bool>, j: int, k: nat)
    requires
        mask.len() == g.n_nodes(),
        0 <= root < g.n_nodes(),
        mask[root],
        forall|m: int, j2: int|
            0 <= m < g.n_nodes() && 0 <= j2 < g.n_nodes() && mask[m] && #[trigger] linked(
                g.node(m),
                j2,
            ) ==> mask[j2],
        0 <= j < g.n_nodes(),
        reaches_in(g, root, j, k),
    ensures
        mask[j],
    decreases k,
{
    if j != root && k > 0 {
        let m = choose|m: int|
            0 <= m < g.n_nodes() && reaches_in(g, root, m, (k - 1) as nat) && linked(
                #[trigger] g.node(m),
                j,
            );
        lemma_mask_complete(g, root, mask, m, (k - 1) as nat);
    }
}

impl Graph {
    /// Clears the cascade mode across the subgraph linked from `root`
    /// (pointer targets, one-to-one targets, one-to-many members,
    /// transitively), marking it as already synchronized so that no
    /// pending persistence call propagates through it again. Every node
    /// reachable from `root` ends with no mode; every other node is left
    /// exactly as it was; no field value or meta changes anywhere.
    pub fn cascade_reset(&mut self, root: usize)
        requires
            old(self).wf(),
            (root as int) < old(self).n_nodes(),
        ensures
            final(self).wf(),
            final(self).n_nodes() == old(self).n_nodes(),
            forall|j: int|
                0 <= j < old(self).n_nodes() ==> (#[trigger] final(self).node(j)).meta == old(
                    self,
                ).node(j).meta && final(self).node(j).fields == old(self).node(j).fields,
            forall|j: int|
                0 <= j < old(self).n_nodes() && reaches(*old(self), root as int, j) ==> (
                #[trigger] final(self).node(j)).cascade is None,
            forall|j: int|
                0 <= j < old(self).n_nodes() && !reaches(*old(self), root as int, j) ==> (
                #[trigger] final(self).node(j)) == old(self).node(j),
            final(self).node(root as int).cascade is None,
    {
        let ghost pre = *old(self);
        let n = self.nodes.len();
        let mut visited: Vec<bool> = Vec::new();
        let mut v: usize = 0;
        while v < n
            invariant
                0 <= v <= n,
                visited@.len() == v,
                forall|k: int| 0 <= k < v ==> !visited@[k],
            decreases n - v,
        {
            visited.push(false);
            v = v + 1;
        }
        let mut work: Vec<usize> = Vec::new();
        work.push(root);
        proof {
            assert(seq_has(work@, root as int)) by {
                assert(work@[0] as int == root as int);
            }
            assert(reaches(pre, root as int, root as int)) by {
                assert(reaches_in(pre, root as int, root as int, 0));
            }
        }
        while work.len() > 0
            invariant
                self.wf(),
                self.n_nodes() == pre.n_nodes(),
                n == pre.n_nodes(),
                visited@.len() == n,
                pre.wf(),
                (root as int) < pre.n_nodes(),
                forall|w: int| 0 <= w < work@.len() ==> (#[trigger] work@[w] as int) < n,
                forall|w: int|
                    0 <= w < work@.len() ==> reaches(pre, root as int, (#[trigger] work@[w]) as int),
                forall|j: int|
                    0 <= j < n ==> (#[trigger] self.node(j)).meta == pre.node(j).meta
                        && self.node(j).fields == pre.node(j).fields,
                forall|j: int|
                    0 <= j < n && !visited@[j] ==> #[trigger] self.node(j) == pre.node(j),
                forall|j: int|
                    0 <= j < n && visited@[j] ==> (#[trigger] self.node(j)).cascade is None,
                forall|j: int|
                    0 <= j < n && visited@[j] ==> reaches(pre, root as int, j),
                forall|m: int, j: int|
                    0 <= m < n && 0 <= j < n && visited@[m] && #[trigger] linked(pre.node(m), j)
                        ==> visited@[j] || seq_has(work@, j),
                visited@[root as int] || seq_has(work@, root as int),
            decreases count_unset(visited@), work@.len(),
        {
            let ghost work_before = work@;
            let ghost visited_at_top = visited@;
            let cur: usize = match work.pop() {
                Some(c) => c,
                None => {
                    proof {
                        assert(false);
                    }
                    0
                },
            };
            proof {
                assert(work_before[work_before.len() - 1] == cur);
                assert(reaches(pre, root as int, cur as int));
                if !visited@[root as int] && cur != root {
                    lemma_seq_has_pop(work_before, root as int);
                }
            }
            if !visited[cur] {
                let ghost visited_before = visited@;
                visited[cur] = true;
                proof {
                    lemma_count_unset_set(visited_before, cur as int);
                }
                let ghost mid = *self;
                self.nodes[cur].cascade = None;
                proof {
                    assert(self.node(cur as int).fields =~= mid.node(cur as int).fields);
                    assert(self.node(cur as int).wf());
                    lemma_wf_update_node(mid, *self, cur as int);
                    assert(forall|j: int|
                        0 <= j < n && j != cur as int ==> #[trigger] self.node(j) == mid.node(j));
                    assert(self.node(cur as int).meta == mid.node(cur as int).meta);
                }
                let ghost work_start = work@;
                let len_f = self.nodes[cur].fields.len();
                let mut i: usize = 0;
                while i < len_f
                    invariant
                        self.wf(),
                        n == self.n_nodes(),
                        pre.wf(),
                        n == pre.n_nodes(),
                        (cur as int) < n,
                        (root as int) < n,
                        len_f == self.node(cur as int).fields.len(),
                        len_f == pre.node(cur as int).fields.len(),
                        0 <= i <= len_f,
                        visited@.len() == n,
                        reaches(pre, root as int, cur as int),
                        self.node(cur as int).fields == pre.node(cur as int).fields,
                        forall|w: int| 0 <= w < work@.len() ==> (#[trigger] work@[w] as int) < n,
                        forall|w: int|
                            0 <= w < work@.len() ==> reaches(
                                pre,
                                root as int,
                                (#[trigger] work@[w]) as int,
                            ),
                        forall|j: int| #[trigger]
                            seq_has(work_start, j) ==> seq_has(work@, j),
                        forall|fld: int, j: int|
                            0 <= fld < i && 0 <= j < n && linked_at(pre.node(cur as int), fld, j)
                                ==> visited@[j] || seq_has(work@, j),
                        visited@[root as int] || seq_has(work@, root as int),
                    decreases len_f - i,
                {
                    proof {
                        assert(node_refs_in(self.node(cur as int), self.n_nodes()));
                        assert(self.node(cur as int).fields[i as int] == slot_view(
                            self.nodes@[cur as int].fields@[i as int],
                        ));
                    }
                    let ghost work_snap = work@;
                    match &self.nodes[cur].fields[i] {
                        Some(FieldValue::Entity(Some(j))) => {
                            let j = *j;
                            proof {
                                assert((j as int) < n);
                                assert(linked_at(pre.node(cur as int), i as int, j as int));
                                assert(linked(pre.node(cur as int), j as int));
                                lemma_reaches_step(pre, root as int, cur as int, j as int);
                            }
                            work.push(j);
                            proof {
                                assert forall|j2: int| #[trigger]
                                    seq_has(work_snap, j2) implies seq_has(work@, j2) by {
                                    lemma_seq_has_push(work_snap, j, j2);
                                }
                                assert(seq_has(work@, j as int)) by {
                                    assert(work@[work@.len() - 1] as int == j as int);
                                }
                            }
                        },
                        Some(FieldValue::Collection(ids)) => {
                            proof {
                                assert(value_refs_in(
                                    FieldValueV::Collection(ids@),
                                    self.n_nodes(),
                                ));
                                assert(pre.node(cur as int).fields[i as int] == Some(
                                    FieldValueV::Collection(ids@),
                                ));
                            }
                            let mlen = ids.len();
                            let mut m: usize = 0;
                            while m < mlen
                                invariant
                                    0 <= m <= mlen,
                                    mlen == ids@.len(),
                                    n == pre.n_nodes(),
                                    (cur as int) < n,
                                    (root as int) < n,
                                    reaches(pre, root as int, cur as int),
                                    pre.node(cur as int).fields[i as int] == Some(
                                        FieldValueV::Collection(ids@),
                                    ),
                                    (i as int) < pre.node(cur as int).fields.len(),
                                    forall|k: int|
                                        0 <= k < ids@.len() ==> (#[trigger] ids@[k] as int) < n,
                                    forall|w: int|
                                        0 <= w < work@.len() ==> (#[trigger] work@[w] as int) < n,
                                    forall|w: int|
                                        0 <= w < work@.len() ==> reaches(
                                            pre,
                                            root as int,
                                            (#[trigger] work@[w]) as int,
                                        ),
                                    forall|j: int| #[trigger]
                                        seq_has(work_snap, j) ==> seq_has(work@, j),
                                    forall|j: int|
                                        #[trigger] seq_has(ids@.take(m as int), j) ==> seq_has(
                                            work@,
                                            j,
                                        ),
                                decreases mlen - m,
                            {
                                let x = ids[m];
                                proof {
                                    assert((x as int) < n) by {
                                        assert((ids@[m as int] as int) < n);
                                    }
                                    assert(seq_has(ids@, x as int)) by {
                                        assert(ids@[m as int] as int == x as int);
                                    }
                                    assert(linked_at(pre.node(cur as int), i as int, x as int));
                                    assert(linked(pre.node(cur as int), x as int));
                                    lemma_reaches_step(pre, root as int, cur as int, x as int);
                                }
                                let ghost w2 = work@;
                                work.push(x);
                                proof {
                                    assert forall|j2: int| #[trigger]
                                        seq_has(w2, j2) implies seq_has(work@, j2) by {
                                        lemma_seq_has_push(w2, x, j2);
                                    }
                                    assert(seq_has(work@, x as int)) by {
                                        assert(work@[work@.len() - 1] as int == x as int);
                                    }
                                    assert forall|j: int| #[trigger]
                                        seq_has(ids@.take(m + 1 as int), j) implies seq_has(
                                        work@,
                                        j,
                                    ) by {
                                        lemma_seq_has_take_step(ids@, m as int, j);
                                    }
                                }
                                m = m + 1;
                            }
                            proof {
                                assert(ids@.take(mlen as int) =~= ids@);
                            }
                        },
                        _ => {},
                    }
                    proof {
                        assert forall|fld: int, j: int|
                            0 <= fld < i + 1 && 0 <= j < n && linked_at(
                            pre.node(cur as int),
                            fld,
                            j,
                        ) implies visited@[j] || seq_has(work@, j) by {
                            if fld < i && !visited@[j] {
                                assert(seq_has(work_snap, j));
                            }
                        }
                    }
                    i = i + 1;
                }
                proof {
                    // the freshly visited node's links are all covered now
                    assert forall|m2: int, j: int|
                        0 <= m2 < n && 0 <= j < n && visited@[m2] && #[trigger] linked(
                        pre.node(m2),
                        j,
                    ) implies visited@[j] || seq_has(work@, j) by {
                        if m2 == cur as int {
                            let fld = choose|fld: int|
                                0 <= fld < pre.node(cur as int).fields.len()
                                    && #[trigger] linked_at(pre.node(cur as int), fld, j);
                        } else {
                            assert(visited_at_top[m2]);
                            if !visited_at_top[j] && !visited@[j] {
                                assert(seq_has(work_before, j));
                                if j != cur as int {
                                    lemma_seq_has_pop(work_before, j);
                                    assert(seq_has(work_start, j));
                                }
                            }
                        }
                    }
                }
            } else {
                proof {
                    assert forall|m2: int, j: int|
                        0 <= m2 < n && 0 <= j < n && visited@[m2] && #[trigger] linked(
                        pre.node(m2),
                        j,
                    ) implies visited@[j] || seq_has(work@, j) by {
                        if !visited@[j] {
                            assert(seq_has(work_before, j));
                            if j != cur as int {
                                lemma_seq_has_pop(work_before, j);
                            } else {
                                assert(visited@[cur as int]);
                            }
                        }
                    }
                }
            }
        }
        proof {
            assert(visited@[root as int]) by {
                if !visited@[root as int] {
                    assert(seq_has(work@, root as int));
                    let k = choose|k: int|
                        0 <= k < work@.len() && (#[trigger] work@[k]) as int == root as int;
                    assert(false);
                }
            }
            assert forall|m2: int, j2: int|
                0 <= m2 < n && 0 <= j2 < n && visited@[m2] && #[trigger] linked(
                pre.node(m2),
                j2,
            ) implies visited@[j2] by {
                if seq_has(work@, j2) {
                    let k = choose|k: int|
                        0 <= k < work@.len() && (#[trigger] work@[k]) as int == j2;
                    assert(false);
                }
            }
            assert forall|j: int|
                0 <= j < n && reaches(pre, root as int, j) implies visited@[j] by {
                let k = choose|k: nat| #[trigger] reaches_in(pre, root as int, j, k);
                lemma_mask_complete(pre, root as int, visited@, j, k);
            }
        }
    }
}

/// Foreign-key mirroring law: after a single-reference assignment
/// `a.field = b`, the foreign-key column of `a` equals the key of `b`;
/// after `a.field = None`, that column is NULL. The relation slot holds
/// exactly the new link.
pub proof fn lemma_fk_mirroring(pre: Graph, post: Graph, a: int, field: Seq<char>, b: Option<
    usize,
>)
    requires
        pointer_pre(pre, a, field, b),
        pointer_set(pre, post, a, field, b),
    ensures
        ({
            let m = pre.node(a).meta;
            let fkn = m.fields@[m.idx_of(field)].kind.spec_fk_field();
            &&& (match b {
                Some(bi) => post.node(a).scalar_of(fkn) == Some(pre.node(bi as int).key_value()),
                None => post.node(a).scalar_of(fkn) == Some(SqlValueV::Null),
            })
            &&& post.node(a).slot_of(field) == Some(FieldValueV::Entity(b))
        }),
{
    let m = pre.node(a).meta;
    let f = m.idx_of(field);
    let fkn = m.fields@[f].kind.spec_fk_field();
    let fk = m.idx_of(fkn);
    lemma_field_idx(m.fields@, field);
    lemma_field_idx(m.fields@, fkn);
    assert(f != fk);
    assert(post.node(a).fields[fk] == Some(FieldValueV::Scalar(match b {
        Some(bi) => pre.node(bi as int).key_value(),
        None => SqlValueV::Null,
    })));
    assert(post.node(a).fields[f] == Some(FieldValueV::Entity(b)));
}

/// One-to-one exclusivity law: after `a.field = Some(b)` when `a`
/// previously held a different node `c`, the back-reference of `c` is NULL
/// and the back-reference of `b` equals `a`'s key.
pub proof fn lemma_one_one_exclusivity(
    pre: Graph,
    post: Graph,
    a: int,
    field: Seq<char>,
    b: usize,
    c: usize,
)
    requires
        one_one_pre(pre, a, field, Some(b)),
        one_one_set(pre, post, a, field, Some(b)),
        ({
            let m = pre.node(a).meta;
            pre.node(a).fields[m.idx_of(field)] == Some(FieldValueV::Entity(Some(c)))
        }),
        b != c,
    ensures
        ({
            let m = pre.node(a).meta;
            let fkn = m.fields@[m.idx_of(field)].kind.spec_fk_field();
            &&& post.node(c as int).scalar_of(fkn) == Some(SqlValueV::Null)
            &&& post.node(b as int).scalar_of(fkn) == Some(pre.node(a).key_value())
            &&& post.node(a).slot_of(field) == Some(FieldValueV::Entity(Some(b)))
        }),
{
    let m = pre.node(a).meta;
    let f = m.idx_of(field);
    let fkn = m.fields@[f].kind.spec_fk_field();
    let cm = pre.node(c as int).meta;
    let bm = pre.node(b as int).meta;
    lemma_field_idx(m.fields@, field);
    lemma_field_idx(cm.fields@, fkn);
    lemma_field_idx(bm.fields@, fkn);
    assert(post.node(c as int).fields[cm.idx_of(fkn)] == Some(
        FieldValueV::Scalar(SqlValueV::Null),
    ));
    assert(post.node(b as int).fields[bm.idx_of(fkn)] == Some(
        FieldValueV::Scalar(pre.node(a).key_value()),
    ));
    assert(post.node(a).fields[f] == Some(FieldValueV::Entity(Some(b))));
}

/// One-to-many rebind law: after `a.field = ids` every arriving member's
/// back-reference equals `a`'s key, every departing member that does not
/// arrive again has a NULL back-reference, and `a` holds the new
/// collection.
pub proof fn lemma_one_many_rebind(
    pre: Graph,
    post: Graph,
    a: int,
    field: Seq<char>,
    ids: Seq<usize>,
)
    requires
        one_many_pre(pre, a, field, ids),
        one_many_set(pre, post, a, field, ids),
    ensures
        ({
            let m = pre.node(a).meta;
            let fkn = m.fields@[m.idx_of(field)].kind.spec_fk_field();
            let olds = match pre.node(a).fields[m.idx_of(field)] {
                Some(FieldValueV::Collection(s)) => s,
                _ => Seq::<usize>::empty(),
            };
            &&& forall|k: int|
                0 <= k < ids.len() ==> post.node(#[trigger] ids[k] as int).scalar_of(fkn) == Some(
                    pre.node(a).key_value(),
                )
            &&& forall|k: int|
                0 <= k < olds.len() && !seq_has(ids, olds[k] as int) ==> post.node(
                    #[trigger] olds[k] as int,
                ).scalar_of(fkn) == Some(SqlValueV::Null)
            &&& post.node(a).slot_of(field) == Some(FieldValueV::Collection(ids))
        }),
{
    let m = pre.node(a).meta;
    let f = m.idx_of(field);
    let fkn = m.fields@[f].kind.spec_fk_field();
    let akey = pre.node(a).key_value();
    let olds = match pre.node(a).fields[f] {
        Some(FieldValueV::Collection(s)) => s,
        _ => Seq::<usize>::empty(),
    };
    lemma_field_idx(m.fields@, field);
    assert forall|k: int| 0 <= k < ids.len() implies post.node(
        #[trigger] ids[k] as int,
    ).scalar_of(fkn) == Some(akey) by {
        let j = ids[k] as int;
        assert(seq_has(ids, j)) by {
            assert(ids[k] as int == j);
        }
        let jm = pre.node(j).meta;
        lemma_field_idx(jm.fields@, fkn);
        assert(post.node(j).fields[jm.idx_of(fkn)] == Some(FieldValueV::Scalar(akey)));
    }
    assert forall|k: int| 0 <= k < olds.len() && !seq_has(ids, olds[k] as int) implies post.node(
        #[trigger] olds[k] as int,
    ).scalar_of(fkn) == Some(SqlValueV::Null) by {
        let j = olds[k] as int;
        assert(seq_has(olds, j)) by {
            assert(olds[k] as int == j);
        }
        assert(node_refs_in(pre.node(a), pre.n_nodes()));
        assert(pre.node(a).fields[f] matches Some(v) && value_refs_in(v, pre.n_nodes()));
        assert(0 <= j < pre.n_nodes()) by {
            assert((olds[k] as int) < pre.n_nodes());
        }
        let jm = pre.node(j).meta;
        lemma_field_idx(jm.fields@, fkn);
        assert(post.node(j).fields[jm.idx_of(fkn)] == Some(FieldValueV::Scalar(SqlValueV::Null)));
    }
    assert(post.node(a).fields[f] == Some(FieldValueV::Collection(ids)));
}

/// Identity law: a node's address is its arena index, so two handles are
/// the same node exactly when their addresses agree — two distinct nodes
/// are unequal however equal their stored field values may be, and one
/// node reached through two handles is equal to itself.
pub proof fn lemma_identity(g: Graph, i: usize, j: usize)
    requires
        (i as int) < g.n_nodes(),
        (j as int) < g.n_nodes(),
    ensures
        (i as u64 == j as u64) <==> i == j,
{
}

/// The view of a row or parameter list: column names as character
/// sequences beside value shapes.
pub open spec fn params_view(v: Seq<(String, SqlValue)>) -> Seq<(Seq<char>, SqlValueV)> {
    v.map_values(|p: (String, SqlValue)| (p.0@, p.1@))
}

/// The scalar a column field contributes to a parameter list: its value,
/// or NULL when the field was never populated.
pub open spec fn field_scalar(n: NodeV, i: int) -> SqlValueV {
    match n.fields[i] {
        Some(FieldValueV::Scalar(v)) => v,
        _ => SqlValueV::Null,
    }
}

/// The (column, value) pairs contributed by the first `i` declared fields:
/// the plain non-key columns, in declaration order.
pub open spec fn spec_params_upto(n: NodeV, i: int) -> Seq<(Seq<char>, SqlValueV)>
    decreases i,
{
    if i <= 0 {
        Seq::empty()
    } else if n.meta.fields@[i - 1].kind.is_plain() {
        spec_params_upto(n, i - 1).push((n.meta.fields@[i - 1].field_name@, field_scalar(n, i - 1)))
    } else {
        spec_params_upto(n, i - 1)
    }
}

/// The full parameter list of a node: every plain non-key column with its
/// current value, in field order; never the key, never a relation.
pub open spec fn spec_params(n: NodeV) -> Seq<(Seq<char>, SqlValueV)> {
    spec_params_upto(n, n.meta.fields@.len() as int)
}

/// The index of the first row column called `name`, or -1.
pub open spec fn row_idx(row: Seq<(Seq<char>, SqlValueV)>, name: Seq<char>) -> int
    decreases row.len(),
{
    if row.len() == 0 {
        -1
    } else if row[0].0 == name {
        0
    } else {
        let r = row_idx(row.drop_first(), name);
        if r < 0 {
            -1
        } else {
            r + 1
        }
    }
}

/// What `row_idx` finds: a found index is in range, bears the name, and
/// nothing before it does; -1 means no column bears the name.
pub proof fn lemma_row_idx(row: Seq<(Seq<char>, SqlValueV)>, name: Seq<char>)
    ensures
        row_idx(row, name) >= 0 ==> {
            &&& row_idx(row, name) < row.len()
            &&& row[row_idx(row, name)].0 == name
            &&& forall|k: int| 0 <= k < row_idx(row, name) ==> row[k].0 != name
        },
        row_idx(row, name) < 0 ==> forall|k: int| 0 <= k < row.len() ==> row[k].0 != name,
    decreases row.len(),
{
    if row.len() > 0 && row[0].0 != name {
        lemma_row_idx(row.drop_first(), name);
        assert(forall|k: int| 1 <= k < row.len() ==> row[k] == row.drop_first()[k - 1]);
    }
}

/// Finds the row column called `name`, returning its index.
fn find_column(row: &Vec<(String, SqlValue)>, name: &str) -> (r: Option<usize>)
    ensures
        row_idx(params_view(row@), name@) >= 0 ==> (r matches Some(i) && i as int == row_idx(
            params_view(row@),
            name@,
        ) && i < row@.len()),
        row_idx(params_view(row@), name@) < 0 ==> r is None,
{
    proof {
        lemma_row_idx(params_view(row@), name@);
    }
    let n: usize = row.len();
    let mut i: usize = 0;
    while i < n
        invariant
            n == row@.len(),
            params_view(row@).len() == n,
            0 <= i <= n,
            forall|k: int| 0 <= k < i ==> params_view(row@)[k].0 != name@,
            row_idx(params_view(row@), name@) >= 0 ==> row_idx(params_view(row@), name@)
                < row@.len() && params_view(row@)[row_idx(params_view(row@), name@)].0 == name@,
            row_idx(params_view(row@), name@) < 0 ==> forall|k: int|
                0 <= k < row@.len() ==> params_view(row@)[k].0 != name@,
        decreases n - i,
    {
        if crate::meta::str_eq(row[i].0.as_str(), name) {
            proof {
                assert(params_view(row@)[i as int].0 == row@[i as int].0@);
                lemma_row_idx(params_view(row@), name@);
            }
            return Some(i);
        }
        proof {
            assert(params_view(row@)[i as int].0 == row@[i as int].0@);
        }
        i = i + 1;
    }
    None
}

impl EntityInner {
    /// Projects the plain non-key fields into an ordered (column, value)
    /// parameter list; an unpopulated column contributes NULL. The key and
    /// the relation fields never appear.
    pub fn get_params(&self) -> (r: Vec<(String, SqlValue)>)
        requires
            self@.wf(),
        ensures
            params_view(r@) == spec_params(self@),
    {
        let mut out: Vec<(String, SqlValue)> = Vec::new();
        let len: usize = self.meta.fields.len();
        let mut i: usize = 0;
        while i < len
            invariant
                self@.wf(),
                0 <= i <= len,
                len == self@.meta.fields@.len(),
                len == self.fields@.len(),
                params_view(out@) == spec_params_upto(self@, i as int),
            decreases len - i,
        {
            proof {
                assert(self@.fields[i as int] == slot_view(self.fields@[i as int]));
            }
            let plain: bool = matches!(&self.meta.fields[i].kind, FieldKind::Plain);
            if plain {
                let v: SqlValue = match &self.fields[i] {
                    Some(FieldValue::Scalar(v)) => v.dup(),
                    _ => SqlValue::Null,
                };
                let name = self.meta.fields[i].field_name.clone();
                out.push((name, v));
                proof {
                    assert(params_view(out@) =~= spec_params_upto(self@, i + 1 as int));
                }
            } else {
                proof {
                    assert(params_view(out@) =~= spec_params_upto(self@, i + 1 as int));
                }
            }
            i = i + 1;
        }
        out
    }

    /// Hydrates the column fields from a fetched row, keyed by column name:
    /// a found column is stored as its scalar, an unknown row column is
    /// ignored, a missing column leaves the field as it was. Relation
    /// fields are never touched.
    pub fn set_values(&mut self, row: &Vec<(String, SqlValue)>)
        requires
            old(self)@.wf(),
        ensures
            final(self)@.wf(),
            final(self)@.meta == old(self)@.meta,
            final(self)@.cascade == old(self)@.cascade,
            final(self)@.fields.len() == old(self)@.fields.len(),
            forall|i: int|
                0 <= i < old(self)@.fields.len() ==> {
                    let fm = old(self)@.meta.fields@[i];
                    let ri = row_idx(params_view(row@), fm.field_name@);
                    if fm.kind.has_column() && ri >= 0 {
                        (#[trigger] final(self)@.fields[i]) == Some(
                            FieldValueV::Scalar(params_view(row@)[ri].1),
                        )
                    } else {
                        final(self)@.fields[i] == old(self)@.fields[i]
                    }
                },
    {
        let len: usize = self.meta.fields.len();
        let mut i: usize = 0;
        while i < len
            invariant
                self@.wf(),
                0 <= i <= len,
                len == self@.meta.fields@.len(),
                len == self.fields@.len(),
                self@.meta == old(self)@.meta,
                self@.cascade == old(self)@.cascade,
                self@.fields.len() == old(self)@.fields.len(),
                forall|k: int|
                    0 <= k < i ==> {
                        let fm = old(self)@.meta.fields@[k];
                        let ri = row_idx(params_view(row@), fm.field_name@);
                        if fm.kind.has_column() && ri >= 0 {
                            (#[trigger] self@.fields[k]) == Some(
                                FieldValueV::Scalar(params_view(row@)[ri].1),
                            )
                        } else {
                            self@.fields[k] == old(self)@.fields[k]
                        }
                    },
                forall|k: int| i <= k < len ==> self@.fields[k] == old(self)@.fields[k],
            decreases len - i,
        {
            let has_col: bool = matches!(
                &self.meta.fields[i].kind,
                FieldKind::Key | FieldKind::Plain
            );
            if has_col {
                match find_column(row, self.meta.fields[i].field_name.as_str()) {
                    Some(j) => {
                        let ghost before = self@;
                        let v = row[j].1.dup();
                        self.fields[i] = Some(FieldValue::Scalar(v));
                        proof {
                            assert(params_view(row@)[j as int].1 == row@[j as int].1@);
                            assert(self@.fields =~= before.fields.update(
                                i as int,
                                Some(FieldValueV::Scalar(params_view(row@)[row_idx(
                                    params_view(row@),
                                    before.meta.fields@[i as int].field_name@,
                                )].1)),
                            ));
                        }
                    },
                    None => {},
                }
            }
            i = i + 1;
        }
    }
}

/// An entry that some plain field among the first `m` produced.
pub open spec fn entry_from(n: NodeV, m: int, e: (Seq<char>, SqlValueV)) -> bool {
    exists|j: int|
        0 <= j < m && (#[trigger] n.meta.fields@[j]).kind.is_plain() && e == (
            n.meta.fields@[j].field_name@,
            field_scalar(n, j),
        )
}

/// Every entry of the parameter list of the first `m` fields names a plain
/// field among them and carries that field's scalar.
pub proof fn lemma_params_entries(n: NodeV, m: int)
    requires
        n.wf(),
        0 <= m <= n.meta.fields@.len(),
    ensures
        forall|p: int|
            0 <= p < spec_params_upto(n, m).len() ==> entry_from(
                n,
                m,
                #[trigger] spec_params_upto(n, m)[p],
            ),
    decreases m,
{
    if m > 0 {
        lemma_params_entries(n, m - 1);
        assert forall|p: int| 0 <= p < spec_params_upto(n, m).len() implies entry_from(
            n,
            m,
            #[trigger] spec_params_upto(n, m)[p],
        ) by {
            if p < spec_params_upto(n, m - 1).len() {
                assert(spec_params_upto(n, m)[p] == spec_params_upto(n, m - 1)[p]);
                assert(entry_from(n, m - 1, spec_params_upto(n, m - 1)[p]));
                let j = choose|j: int|
                    0 <= j < m - 1 && (#[trigger] n.meta.fields@[j]).kind.is_plain()
                        && spec_params_upto(n, m - 1)[p] == (
                        n.meta.fields@[j].field_name@,
                        field_scalar(n, j),
                    );
                assert(n.meta.fields@[j].kind.is_plain());
                assert(entry_from(n, m, spec_params_upto(n, m)[p]));
            } else {
                assert(n.meta.fields@[m - 1].kind.is_plain());
                assert(spec_params_upto(n, m)[p] == (
                    n.meta.fields@[m - 1].field_name@,
                    field_scalar(n, m - 1),
                ));
                assert(entry_from(n, m, spec_params_upto(n, m)[p]));
            }
        }
    }
}

/// The parameter list of the first `m` fields carries an entry for every
/// plain field among them.
pub proof fn lemma_params_has(n: NodeV, i: int, m: int)
    requires
        n.wf(),
        0 <= i < m <= n.meta.fields@.len(),
        n.meta.fields@[i].kind.is_plain(),
    ensures
        exists|p: int|
            0 <= p < spec_params_upto(n, m).len() && (#[trigger] spec_params_upto(n, m)[p]) == (
                n.meta.fields@[i].field_name@,
                field_scalar(n, i),
            ),
    decreases m,
{
    if i == m - 1 {
        let p = spec_params_upto(n, m).len() - 1;
        assert(spec_params_upto(n, m)[p] == (n.meta.fields@[i].field_name@, field_scalar(n, i)));
    } else {
        lemma_params_has(n, i, m - 1);
        let p = choose|p: int|
            0 <= p < spec_params_upto(n, m - 1).len() && (#[trigger] spec_params_upto(
                n,
                m - 1,
            )[p]) == (n.meta.fields@[i].field_name@, field_scalar(n, i));
        assert(spec_params_upto(n, m)[p] == (n.meta.fields@[i].field_name@, field_scalar(n, i)));
    }
}

/// Looking a plain field's column up in the node's own parameter list
/// finds exactly that field's value.
pub proof fn lemma_params_lookup(n: NodeV, i: int)
    requires
        n.wf(),
        0 <= i < n.meta.fields@.len(),
        n.meta.fields@[i].kind.is_plain(),
    ensures
        ({
            let ps = spec_params(n);
            let ri = row_idx(ps, n.meta.fields@[i].field_name@);
            ri >= 0 && ps[ri].1 == field_scalar(n, i)
        }),
{
    let ps = spec_params(n);
    let name = n.meta.fields@[i].field_name@;
    let m = n.meta.fields@.len() as int;
    lemma_params_entries(n, m);
    lemma_params_has(n, i, m);
    lemma_row_idx(ps, name);
    let ri = row_idx(ps, name);
    if ri < 0 {
        let p = choose|p: int|
            0 <= p < ps.len() && (#[trigger] ps[p]) == (name, field_scalar(n, i));
        assert(ps[p].0 == name);
        assert(false);
    }
    assert(entry_from(n, m, ps[ri]));
    let j = choose|j: int|
        0 <= j < m && (#[trigger] n.meta.fields@[j]).kind.is_plain() && ps[ri] == (
            n.meta.fields@[j].field_name@,
            field_scalar(n, j),
        );
    assert(n.meta.fields@[j].field_name@ == name);
    assert(j == i);
}

/// Round-trip law: a fresh default node of the same type, hydrated from
/// the parameter list that `n` produced, holds for every plain field
/// exactly the value the parameters carried — `n`'s own value, or NULL
/// where `n` never populated the column.
pub proof fn lemma_round_trip(n: NodeV, d: NodeV)
    requires
        n.wf(),
        d.meta == n.meta,
        d.fields.len() == n.fields.len(),
        forall|i: int|
            0 <= i < d.fields.len() ==> {
                let fm = n.meta.fields@[i];
                let ri = row_idx(spec_params(n), fm.field_name@);
                if fm.kind.has_column() && ri >= 0 {
                    (#[trigger] d.fields[i]) == Some(FieldValueV::Scalar(spec_params(n)[ri].1))
                } else {
                    d.fields[i] == Some(spec_default_for(fm.kind))
                }
            },
    ensures
        forall|i: int|
            0 <= i < n.fields.len() && n.meta.fields@[i].kind.is_plain() ==> (
            #[trigger] d.fields[i]) == Some(FieldValueV::Scalar(field_scalar(n, i))),
{
    assert forall|i: int|
        0 <= i < n.fields.len() && n.meta.fields@[i].kind.is_plain() implies (
    #[trigger] d.fields[i]) == Some(FieldValueV::Scalar(field_scalar(n, i))) by {
        lemma_params_lookup(n, i);
    }
}

} // verus!
