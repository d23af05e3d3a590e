//! Persistence engine: cascading insert as a step machine, and the
//! statement builders and result folders for update, get, delete and
//! schema create/drop.
//!
//! The engine itself performs no I/O. It hands out statements to execute;
//! the caller runs each against the store and feeds the result back. A
//! cascade is driven by calling `step` until it asks for a statement,
//! executing it, feeding the store's assigned key through `feed`, and
//! repeating until `Done`. A store error simply stops the driving loop:
//! the cascade is abandoned and the error propagates to the caller.

use vstd::prelude::*;

use crate::entity::{
    params_view, row_idx, spec_params, Cascade, EntityInner, Graph, NodeV, OrmError,
};
use crate::meta::{find_field, find_key_field, EntityMeta, FieldKind, OrmMeta};
use crate::sql::{
    spec_create_table, spec_delete, spec_drop_table, spec_insert, spec_select, spec_update,
    key_name, sql_create_table, sql_delete, sql_drop_table, sql_insert, sql_select, sql_update,
};
use crate::value::{FieldValue, FieldValueV, SqlValue, SqlValueV};

verus! {

/// One statement to execute: its text and its named parameters.
pub struct Statement {
    pub sql: String,
    pub params: Vec<(String, SqlValue)>,
}

/// The UPDATE-by-key statement for a node: every non-key column with its
/// current value, then the key value for the predicate. No cascade.
pub fn update_statement(node: &EntityInner) -> (r: Statement)
    requires
        node@.wf(),
        node@.meta.has_key(),
    ensures
        r.sql@ == spec_update(node@.meta),
        params_view(r.params@) == spec_params(node@).push(
            (node@.meta.spec_key_name(), node@.key_value()),
        ),
{
    let sql = sql_update(&node.meta);
    let mut params = node.get_params();
    let key = key_name(&node.meta);
    let keyval = node.get_id_value();
    params.push((key, keyval));
    proof {
        assert(params_view(params@) =~= spec_params(node@).push(
            (node@.meta.spec_key_name(), node@.key_value()),
        ));
    }
    Statement { sql, params }
}

/// The SELECT-by-key statement for an entity type and a key.
pub fn get_statement(meta: &EntityMeta, key: u64) -> (r: Statement)
    requires
        meta.has_key(),
    ensures
        r.sql@ == spec_select(*meta),
        params_view(r.params@) =~= seq![(meta.spec_key_name(), SqlValueV::UInt(key))],
{
    let sql = sql_select(meta);
    let kname = key_name(meta);
    let mut params: Vec<(String, SqlValue)> = Vec::new();
    params.push((kname, SqlValue::UInt(key)));
    proof {
        assert(params_view(params@) =~= seq![(meta.spec_key_name(), SqlValueV::UInt(key))]);
    }
    Statement { sql, params }
}

/// The DELETE-by-key statement for a node. No cascade.
pub fn delete_statement(node: &EntityInner) -> (r: Statement)
    requires
        node@.wf(),
        node@.meta.has_key(),
    ensures
        r.sql@ == spec_delete(node@.meta),
        params_view(r.params@) =~= seq![(node@.meta.spec_key_name(), node@.key_value())],
{
    let sql = sql_delete(&node.meta);
    let kname = key_name(&node.meta);
    let keyval = node.get_id_value();
    let mut params: Vec<(String, SqlValue)> = Vec::new();
    params.push((kname, keyval));
    proof {
        assert(params_view(params@) =~= seq![(node@.meta.spec_key_name(), node@.key_value())]);
    }
    Statement { sql, params }
}

/// The shape of a node hydrated from a row: every column field holds the
/// row's value where the row names it, its schema default otherwise;
/// relation fields hold their defaults.
pub open spec fn hydrated(n: NodeV, meta: EntityMeta, row: Seq<(Seq<char>, SqlValueV)>) -> bool {
    &&& n.meta == meta
    &&& n.fields.len() == meta.fields@.len()
    &&& forall|i: int|
        0 <= i < n.fields.len() ==> {
            let fm = meta.fields@[i];
            let ri = row_idx(row, fm.field_name@);
            if fm.kind.has_column() && ri >= 0 {
                (#[trigger] n.fields[i]) == Some(FieldValueV::Scalar(row[ri].1))
            } else {
                n.fields[i] == Some(crate::value::spec_default_for(fm.kind))
            }
        }
}

/// Folds the rows a SELECT-by-key returned: zero rows is the distinguished
/// "not found" failure carrying the entity type and the requested key; one
/// or more rows hydrate a fresh default node from the first row.
pub fn fold_get(meta: EntityMeta, key: u64, rows: &Vec<Vec<(String, SqlValue)>>) -> (r: Result<
    EntityInner,
    OrmError,
>)
    requires
        meta.wf(),
    ensures
        rows@.len() == 0 ==> (r matches Err(e) && (e matches OrmError::NotFound {
            entity,
            key: k,
        } && entity@ == meta.entity@ && k == key)),
        rows@.len() > 0 ==> (r matches Ok(n) && n@.wf() && hydrated(
            n@,
            meta,
            params_view(rows@[0]@),
        )),
{
    if rows.len() == 0 {
        let entity = meta.entity.clone();
        Err(OrmError::NotFound { entity, key })
    } else {
        let mut node = EntityInner::default(meta);
        node.set_values(&rows[0]);
        Ok(node)
    }
}

/// The CREATE TABLE statements of every known entity type, one each, in
/// declaration order.
pub fn create_statements(orm: &OrmMeta) -> (r: Vec<String>)
    ensures
        r@.len() == orm.entities@.len(),
        forall|i: int|
            0 <= i < r@.len() ==> (#[trigger] r@[i])@ == spec_create_table(orm.entities@[i]),
{
    let mut out: Vec<String> = Vec::new();
    let len = orm.entities.len();
    let mut i: usize = 0;
    while i < len
        invariant
            0 <= i <= len,
            len == orm.entities@.len(),
            out@.len() == i,
            forall|k: int|
                0 <= k < i ==> (#[trigger] out@[k])@ == spec_create_table(orm.entities@[k]),
        decreases len - i,
    {
        out.push(sql_create_table(&orm.entities[i]));
        i = i + 1;
    }
    out
}

/// The DROP TABLE statements of every known entity type, one each, in
/// declaration order.
pub fn drop_statements(orm: &OrmMeta) -> (r: Vec<String>)
    ensures
        r@.len() == orm.entities@.len(),
        forall|i: int|
            0 <= i < r@.len() ==> (#[trigger] r@[i])@ == spec_drop_table(orm.entities@[i]),
{
    let mut out: Vec<String> = Vec::new();
    let len = orm.entities.len();
    let mut i: usize = 0;
    while i < len
        invariant
            0 <= i <= len,
            len == orm.entities@.len(),
            out@.len() == i,
            forall|k: int|
                0 <= k < i ==> (#[trigger] out@[k])@ == spec_drop_table(orm.entities@[k]),
        decreases len - i,
    {
        out.push(sql_drop_table(&orm.entities[i]));
        i = i + 1;
    }
    out
}

/// The sum of affected-row counts, saturating at the type's ceiling.
pub open spec fn spec_sum(s: Seq<u64>) -> int
    decreases s.len(),
{
    if s.len() == 0 {
        0
    } else {
        spec_sum(s.drop_last()) + s.last()
    }
}

/// Accumulates affected-row counts, as schema create/drop report them.
pub fn sum_affected(counts: &Vec<u64>) -> (r: u64)
    ensures
        r == if spec_sum(counts@) > u64::MAX {
            u64::MAX as int
        } else {
            spec_sum(counts@)
        },
{
    let mut acc: u64 = 0;
    let len = counts.len();
    let mut i: usize = 0;
    while i < len
        invariant
            0 <= i <= len,
            len == counts@.len(),
            acc == if spec_sum(counts@.take(i as int)) > u64::MAX {
                u64::MAX as int
            } else {
                spec_sum(counts@.take(i as int))
            },
            spec_sum(counts@.take(i as int)) >= 0,
        decreases len - i,
    {
        acc = acc.saturating_add(counts[i]);
        proof {
            assert(counts@.take(i + 1 as int).drop_last() =~= counts@.take(i as int));
            assert(counts@.take(i + 1 as int).last() == counts@[i as int]);
        }
        i = i + 1;
    }
    proof {
        assert(counts@.take(len as int) =~= counts@);
    }
    acc
}

/// One unit of pending cascade work. The engine's stack holds tasks in
/// reverse order: the next task to run is the last element.
#[derive(Clone, Copy, PartialEq, Eq, Structural, Debug)]
pub enum Task {
    /// Expand a node's cascade schedule, if it is still marked for insert.
    Visit(usize),
    /// Copy the freshly assigned key of `child` into the local foreign-key
    /// column of the SingleRef field `field` of `owner`.
    CopyFk { owner: usize, field: usize, child: usize },
    /// Execute the INSERT for the node itself.
    WriteSelf(usize),
    /// Set the dependent's back-reference column to `owner`'s now-known
    /// key, before the dependent itself is visited.
    LinkDep { dep: usize, field: usize, owner: usize },
}

/// What one engine step asks of its driver.
pub enum StepResult {
    /// Execute this statement against the store, then call `feed` with the
    /// key the store assigned.
    Ask(Statement),
    /// Internal work was done; call `step` again.
    Working,
    /// The cascade is complete.
    Done,
}

/// A task the graph can carry out: its node indices are in range and the
/// fields it names are declared with the kinds it assumes.
pub open spec fn task_wf(t: Task, g: Graph) -> bool {
    match t {
        Task::Visit(n) => (n as int) < g.n_nodes(),
        Task::WriteSelf(m) => (m as int) < g.n_nodes() && g.node(m as int).meta.has_key(),
        Task::CopyFk { owner, field, child } => {
            let m = g.node(owner as int).meta;
            let fk = m.idx_of(m.fields@[field as int].kind.spec_fk_field());
            &&& (owner as int) < g.n_nodes()
            &&& (child as int) < g.n_nodes()
            &&& (field as int) < m.fields@.len()
            &&& m.fields@[field as int].kind.is_single_ref()
            &&& fk >= 0
            &&& m.fields@[fk].kind.is_plain()
        },
        Task::LinkDep { dep, field, owner } => {
            let m = g.node(owner as int).meta;
            let dm = g.node(dep as int).meta;
            let fk = dm.idx_of(m.fields@[field as int].kind.spec_fk_field());
            &&& (owner as int) < g.n_nodes()
            &&& (dep as int) < g.n_nodes()
            &&& (field as int) < m.fields@.len()
            &&& m.fields@[field as int].kind.is_one_one()
            &&& fk >= 0
            &&& dm.fields@[fk].kind.is_plain()
        },
    }
}

/// A single-reference edge the cascade must resolve before the node's own
/// INSERT: cascade-enabled, with its foreign-key column declared plain,
/// linked to a target that still lacks a key.
pub open spec fn pre_edge(g: Graph, n: usize, i: int) -> bool {
    let m = g.node(n as int).meta;
    let fm = m.fields@[i];
    let fk = m.idx_of(fm.kind.spec_fk_field());
    &&& fm.kind.is_single_ref()
    &&& fm.kind.spec_cascade()
    &&& fk >= 0
    &&& m.fields@[fk].kind.is_plain()
    &&& match g.node(n as int).fields[i] {
        Some(FieldValueV::Entity(Some(b))) => g.node(b as int).keyless(),
        _ => false,
    }
}

pub open spec fn pre_target(g: Graph, n: usize, i: int) -> usize {
    match g.node(n as int).fields[i] {
        Some(FieldValueV::Entity(Some(b))) => b,
        _ => 0,
    }
}

/// A one-to-one edge the cascade must resolve after the node's own INSERT:
/// cascade-enabled, linked to a dependent whose type declares the
/// back-reference column as plain.
pub open spec fn post_edge(g: Graph, n: usize, i: int) -> bool {
    let m = g.node(n as int).meta;
    let fm = m.fields@[i];
    &&& fm.kind.is_one_one()
    &&& fm.kind.spec_cascade()
    &&& match g.node(n as int).fields[i] {
        Some(FieldValueV::Entity(Some(d))) => {
            let dm = g.node(d as int).meta;
            let fk = dm.idx_of(fm.kind.spec_fk_field());
            fk >= 0 && dm.fields@[fk].kind.is_plain()
        },
        _ => false,
    }
}

pub open spec fn post_target(g: Graph, n: usize, i: int) -> usize {
    match g.node(n as int).fields[i] {
        Some(FieldValueV::Entity(Some(d))) => d,
        _ => 0,
    }
}

/// The owning-reference work scheduled before the node's own INSERT, over
/// the first `i` fields: visit each qualifying target, then copy its key.
pub open spec fn pre_tasks(g: Graph, n: usize, i: int) -> Seq<Task>
    decreases i,
{
    if i <= 0 {
        Seq::empty()
    } else if pre_edge(g, n, i - 1) {
        pre_tasks(g, n, i - 1) + seq![
            Task::Visit(pre_target(g, n, i - 1)),
            Task::CopyFk { owner: n, field: (i - 1) as usize, child: pre_target(g, n, i - 1) },
        ]
    } else {
        pre_tasks(g, n, i - 1)
    }
}

/// The owned-dependent work scheduled after the node's own INSERT, over
/// the first `i` fields: link each qualifying dependent, then visit it.
pub open spec fn post_tasks(g: Graph, n: usize, i: int) -> Seq<Task>
    decreases i,
{
    if i <= 0 {
        Seq::empty()
    } else if post_edge(g, n, i - 1) {
        post_tasks(g, n, i - 1) + seq![
            Task::LinkDep { dep: post_target(g, n, i - 1), field: (i - 1) as usize, owner: n },
            Task::Visit(post_target(g, n, i - 1)),
        ]
    } else {
        post_tasks(g, n, i - 1)
    }
}

/// The cascade schedule of one node, in execution order: owning references
/// are resolved before self, owned dependents after self, because foreign
/// keys point from dependent to owner and an owner's key is only known
/// after its own row is written.
pub open spec fn expand_spec(g: Graph, n: usize) -> Seq<Task> {
    pre_tasks(g, n, g.node(n as int).meta.fields@.len() as int) + seq![Task::WriteSelf(n)]
        + post_tasks(g, n, g.node(n as int).meta.fields@.len() as int)
}

/// Computes the cascade schedule of node `n`.
fn expand(g: &Graph, n: usize) -> (r: Vec<Task>)
    requires
        g.wf(),
        (n as int) < g.n_nodes(),
        g.node(n as int).meta.has_key(),
    ensures
        r@ == expand_spec(*g, n),
        forall|k: int| 0 <= k < r@.len() ==> task_wf(#[trigger] r@[k], *g),
{
    let len = g.nodes[n].meta.fields.len();
    let mut pre: Vec<Task> = Vec::new();
    let mut post: Vec<Task> = Vec::new();
    let mut i: usize = 0;
    while i < len
        invariant
            g.wf(),
            (n as int) < g.n_nodes(),
            0 <= i <= len,
            len == g.node(n as int).meta.fields@.len(),
            len == g.node(n as int).fields.len(),
            pre@ == pre_tasks(*g, n, i as int),
            post@ == post_tasks(*g, n, i as int),
            forall|k: int| 0 <= k < pre@.len() ==> task_wf(#[trigger] pre@[k], *g),
            forall|k: int| 0 <= k < post@.len() ==> task_wf(#[trigger] post@[k], *g),
        decreases len - i,
    {
        proof {
            assert(g.node(n as int).fields[i as int] == crate::entity::slot_view(
                g.nodes@[n as int].fields@[i as int],
            ));
            assert(node_refs_in_engine_view(g, n, i as int));
        }
        match &g.nodes[n].meta.fields[i].kind {
            FieldKind::SingleRef { fk_field, cascade, .. } => {
                if *cascade {
                    match find_field(&g.nodes[n].meta, fk_field.as_str()) {
                        Some(fki) => {
                            let plain: bool = matches!(
                                &g.nodes[n].meta.fields[fki].kind,
                                FieldKind::Plain
                            );
                            if plain {
                                match &g.nodes[n].fields[i] {
                                    Some(FieldValue::Entity(Some(b))) => {
                                        let b = *b;
                                        proof {
                                            assert((b as int) < g.n_nodes());
                                            assert(g.node(b as int).wf());
                                        }
                                        if g.nodes[b].get_id_u64().is_none() {
                                            pre.push(Task::Visit(b));
                                            pre.push(
                                                Task::CopyFk { owner: n, field: i, child: b },
                                            );
                                            proof {
                                                assert(pre_edge(*g, n, i as int));
                                                assert(pre_target(*g, n, i as int) == b);
                                                assert(pre@ =~= pre_tasks(*g, n, i + 1 as int));
                                            }
                                        } else {
                                            proof {
                                                assert(!pre_edge(*g, n, i as int));
                                            }
                                        }
                                    },
                                    _ => {
                                        proof {
                                            assert(!pre_edge(*g, n, i as int));
                                        }
                                    },
                                }
                            } else {
                                proof {
                                    assert(!pre_edge(*g, n, i as int));
                                }
                            }
                        },
                        None => {
                            proof {
                                assert(!pre_edge(*g, n, i as int));
                            }
                        },
                    }
                } else {
                    proof {
                        assert(!pre_edge(*g, n, i as int));
                    }
                }
                proof {
                    assert(!post_edge(*g, n, i as int));
                    assert(post@ =~= post_tasks(*g, n, i + 1 as int));
                }
            },
            FieldKind::OneToOne { fk_field, cascade, .. } => {
                if *cascade {
                    match &g.nodes[n].fields[i] {
                        Some(FieldValue::Entity(Some(d))) => {
                            let d = *d;
                            proof {
                                assert((d as int) < g.n_nodes());
                                assert(g.node(d as int).wf());
                            }
                            match find_field(&g.nodes[d].meta, fk_field.as_str()) {
                                Some(fki) => {
                                    let plain: bool = matches!(
                                        &g.nodes[d].meta.fields[fki].kind,
                                        FieldKind::Plain
                                    );
                                    if plain {
                                        post.push(
                                            Task::LinkDep { dep: d, field: i, owner: n },
                                        );
                                        post.push(Task::Visit(d));
                                        proof {
                                            assert(post_edge(*g, n, i as int));
                                            assert(post_target(*g, n, i as int) == d);
                                            assert(post@ =~= post_tasks(*g, n, i + 1 as int));
                                        }
                                    } else {
                                        proof {
                                            assert(!post_edge(*g, n, i as int));
                                        }
                                    }
                                },
                                None => {
                                    proof {
                                        assert(!post_edge(*g, n, i as int));
                                    }
                                },
                            }
                        },
                        _ => {
                            proof {
                                assert(!post_edge(*g, n, i as int));
                            }
                        },
                    }
                } else {
                    proof {
                        assert(!post_edge(*g, n, i as int));
                    }
                }
                proof {
                    assert(!pre_edge(*g, n, i as int));
                    assert(pre@ =~= pre_tasks(*g, n, i + 1 as int));
                }
            },
            _ => {
                proof {
                    assert(!pre_edge(*g, n, i as int));
                    assert(!post_edge(*g, n, i as int));
                }
            },
        }
        i = i + 1;
    }
    let mut r = pre;
    let ghost pre_v = r@;
    r.push(Task::WriteSelf(n));
    let ghost post_v = post@;
    r.append(&mut post);
    proof {
        assert(r@ =~= expand_spec(*g, n));
    }
    r
}

/// The references that one slot of `n` holds are in range (a restatement
/// of graph well-formedness used while expanding).
pub open spec fn node_refs_in_engine_view(g: &Graph, n: usize, i: int) -> bool {
    match g.node(n as int).fields[i] {
        Some(v) => crate::entity::value_refs_in(v, g.n_nodes()),
        _ => true,
    }
}

/// The cascading-insert engine: a stack of pending tasks and, between
/// `Ask` and `feed`, the node whose INSERT is in flight.
pub struct InsertEngine {
    pub stack: Vec<Task>,
    pub awaiting: Option<usize>,
}

impl InsertEngine {
    /// Every pending task is one the graph can carry out.
    pub open spec fn wf_for(self, g: Graph) -> bool {
        &&& forall|k: int| 0 <= k < self.stack@.len() ==> task_wf(#[trigger] self.stack@[k], g)
        &&& match self.awaiting {
            Some(m) => (m as int) < g.n_nodes() && g.node(m as int).meta.has_key(),
            None => true,
        }
    }

    /// Starts a cascading insert at `root`.
    pub fn begin(root: usize, g: &Graph) -> (e: InsertEngine)
        requires
            g.wf(),
            (root as int) < g.n_nodes(),
        ensures
            e.wf_for(*g),
            e.stack@ =~= seq![Task::Visit(root)],
            e.awaiting is None,
    {
        let mut stack: Vec<Task> = Vec::new();
        stack.push(Task::Visit(root));
        InsertEngine { stack, awaiting: None }
    }
}

/// A task the graph could carry out can still be carried out by a graph of
/// the same size whose nodes kept their types.
pub proof fn lemma_task_wf_stable(t: Task, g1: Graph, g2: Graph)
    requires
        task_wf(t, g1),
        g2.n_nodes() == g1.n_nodes(),
        forall|j: int| 0 <= j < g1.n_nodes() ==> (#[trigger] g2.node(j)).meta == g1.node(j).meta,
    ensures
        task_wf(t, g2),
{
}

impl InsertEngine {
    /// Runs the next pending task. A `Visit` of a node still marked for
    /// cascading insert consumes the mark and schedules the node's cascade;
    /// `CopyFk` and `LinkDep` mirror freshly known keys into foreign-key
    /// columns; `WriteSelf` asks the driver to execute the node's INSERT.
    /// A step never assigns a key: keys enter the graph through `feed`
    /// alone, after the store has answered the INSERT.
    pub fn step(&mut self, g: &mut Graph) -> (r: StepResult)
        requires
            old(g).wf(),
            old(self).wf_for(*old(g)),
            old(self).awaiting is None,
        ensures
            final(g).wf(),
            final(self).wf_for(*final(g)),
            final(g).n_nodes() == old(g).n_nodes(),
            forall|j: int|
                0 <= j < old(g).n_nodes() ==> (#[trigger] final(g).node(j)).meta == old(g).node(
                    j,
                ).meta,
            forall|j: int|
                0 <= j < old(g).n_nodes() ==> (#[trigger] final(g).node(j)).key_value() == old(
                    g,
                ).node(j).key_value(),
            match r {
                StepResult::Done => {
                    &&& old(self).stack@.len() == 0
                    &&& *final(g) == *old(g)
                    &&& final(self).stack@.len() == 0
                    &&& final(self).awaiting is None
                },
                StepResult::Ask(stmt) => {
                    &&& old(self).stack@.len() > 0
                    &&& match old(self).stack@.last() {
                        Task::WriteSelf(m) => {
                            &&& final(self).awaiting == Some(m)
                            &&& *final(g) == *old(g)
                            &&& final(self).stack@ == old(self).stack@.drop_last()
                            &&& stmt.sql@ == spec_insert(old(g).node(m as int).meta)
                            &&& params_view(stmt.params@) == spec_params(old(g).node(m as int))
                        },
                        _ => false,
                    }
                },
                StepResult::Working => {
                    &&& old(self).stack@.len() > 0
                    &&& final(self).awaiting is None
                    &&& match old(self).stack@.last() {
                        Task::Visit(n) => {
                            if old(g).node(n as int).cascade == Some(Cascade::Insert) && old(
                                g,
                            ).node(n as int).meta.has_key() {
                                &&& final(self).stack@ == old(self).stack@.drop_last()
                                    + expand_spec(*old(g), n).reverse()
                                &&& final(g).node(n as int).cascade is None
                                &&& final(g).node(n as int).fields == old(g).node(n as int).fields
                                &&& forall|j: int|
                                    0 <= j < old(g).n_nodes() && j != n as int ==> final(g).node(
                                        j,
                                    ) == old(g).node(j)
                            } else if old(g).node(n as int).cascade == Some(Cascade::Insert) {
                                &&& final(self).stack@ == old(self).stack@.drop_last()
                                &&& final(g).node(n as int).cascade is None
                                &&& final(g).node(n as int).fields == old(g).node(n as int).fields
                                &&& forall|j: int|
                                    0 <= j < old(g).n_nodes() && j != n as int ==> final(g).node(
                                        j,
                                    ) == old(g).node(j)
                            } else {
                                &&& final(self).stack@ == old(self).stack@.drop_last()
                                &&& *final(g) == *old(g)
                            }
                        },
                        Task::CopyFk { owner, field, child } => {
                            let m = old(g).node(owner as int).meta;
                            let fk = m.idx_of(m.fields@[field as int].kind.spec_fk_field());
                            &&& final(self).stack@ == old(self).stack@.drop_last()
                            &&& final(g).node(owner as int).fields == old(g).node(
                                owner as int,
                            ).fields.update(
                                fk,
                                Some(
                                    FieldValueV::Scalar(old(g).node(child as int).key_value()),
                                ),
                            )
                            &&& final(g).node(owner as int).cascade == old(g).node(
                                owner as int,
                            ).cascade
                            &&& forall|j: int|
                                0 <= j < old(g).n_nodes() && j != owner as int ==> final(g).node(
                                    j,
                                ) == old(g).node(j)
                        },
                        Task::LinkDep { dep, field, owner } => {
                            let m = old(g).node(owner as int).meta;
                            let dm = old(g).node(dep as int).meta;
                            let fk = dm.idx_of(m.fields@[field as int].kind.spec_fk_field());
                            &&& final(self).stack@ == old(self).stack@.drop_last()
                            &&& final(g).node(dep as int).fields == old(g).node(
                                dep as int,
                            ).fields.update(
                                fk,
                                Some(
                                    FieldValueV::Scalar(old(g).node(owner as int).key_value()),
                                ),
                            )
                            &&& final(g).node(dep as int).cascade == old(g).node(dep as int).cascade
                            &&& forall|j: int|
                                0 <= j < old(g).n_nodes() && j != dep as int ==> final(g).node(
                                    j,
                                ) == old(g).node(j)
                        },
                        Task::WriteSelf(_) => false,
                    }
                },
            },
    {
        match self.stack.pop() {
            None => StepResult::Done,
            Some(task) => match task {
                Task::Visit(n) => {
                    let is_insert: bool = matches!(&g.nodes[n].cascade, Some(Cascade::Insert));
                    if is_insert {
                        let has_key: bool = match find_key_field(&g.nodes[n].meta) {
                            Some(_) => true,
                            None => false,
                        };
                        if has_key {
                            let tasks = expand(g, n);
                            g.nodes[n].cascade = None;
                            proof {
                                assert(g.node(n as int).fields =~= old(g).node(n as int).fields);
                                assert(g.node(n as int).wf());
                                crate::entity::lemma_wf_update_node(*old(g), *g, n as int);
                            }
                            let ghost base = self.stack@;
                            let tlen = tasks.len();
                            let mut k: usize = 0;
                            while k < tlen
                                invariant
                                    0 <= k <= tlen,
                                    tlen == tasks@.len(),
                                    self.awaiting is None,
                                    self.stack@ =~= base + tasks@.skip((tlen - k) as int).reverse(),
                                decreases tlen - k,
                            {
                                self.stack.push(tasks[tlen - 1 - k]);
                                proof {
                                    assert(self.stack@ =~= base + tasks@.skip(
                                        (tlen - k - 1) as int,
                                    ).reverse());
                                }
                                k = k + 1;
                            }
                            proof {
                                assert(tasks@.skip(0) =~= tasks@);
                                assert(self.stack@ =~= base + tasks@.reverse());
                                assert forall|q: int|
                                    0 <= q < self.stack@.len() implies task_wf(
                                    #[trigger] self.stack@[q],
                                    *g,
                                ) by {
                                    if q < base.len() {
                                        assert(self.stack@[q] == base[q]);
                                        assert(task_wf(base[q], *old(g)));
                                    } else {
                                        let p = tasks@.len() - 1 - (q - base.len());
                                        assert(tasks@.reverse()[q - base.len()] == tasks@[p]);
                                        assert(task_wf(tasks@[p], *old(g)));
                                    }
                                    lemma_task_wf_stable(self.stack@[q], *old(g), *g);
                                }
                            }
                            StepResult::Working
                        } else {
                            g.nodes[n].cascade = None;
                            proof {
                                assert(g.node(n as int).fields =~= old(g).node(n as int).fields);
                                assert(g.node(n as int).wf());
                                crate::entity::lemma_wf_update_node(*old(g), *g, n as int);
                                assert forall|q: int|
                                    0 <= q < self.stack@.len() implies task_wf(
                                    #[trigger] self.stack@[q],
                                    *g,
                                ) by {
                                    assert(task_wf(old(self).stack@[q], *old(g)));
                                    lemma_task_wf_stable(self.stack@[q], *old(g), *g);
                                }
                            }
                            StepResult::Working
                        }
                    } else {
                        StepResult::Working
                    }
                },
                Task::CopyFk { owner, field, child } => {
                    let fk_name: String = match &g.nodes[owner].meta.fields[field].kind {
                        FieldKind::SingleRef { fk_field, .. } => fk_field.clone(),
                        _ => {
                            proof {
                                assert(false);
                            }
                            String::new()
                        },
                    };
                    let fk: usize = match find_field(&g.nodes[owner].meta, fk_name.as_str()) {
                        Some(i) => i,
                        None => {
                            proof {
                                assert(false);
                            }
                            0
                        },
                    };
                    let keyval: SqlValue = g.nodes[child].get_id_value();
                    g.nodes[owner].fields[fk] = Some(FieldValue::Scalar(keyval));
                    proof {
                        assert(g.node(owner as int).fields =~= old(g).node(
                            owner as int,
                        ).fields.update(
                            fk as int,
                            Some(FieldValueV::Scalar(old(g).node(child as int).key_value())),
                        ));
                        assert forall|i: int|
                            0 <= i < g.node(owner as int).fields.len() implies match #[trigger] g
                            .node(owner as int).fields[i] {
                            Some(v) => crate::value::variant_matches(
                                g.node(owner as int).meta.fields@[i].kind,
                                v,
                            ) && crate::entity::value_refs_in(v, g.n_nodes()),
                            None => true,
                        } by {
                            assert(old(g).node(owner as int).wf());
                            assert(crate::entity::node_refs_in(
                                old(g).node(owner as int),
                                old(g).n_nodes(),
                            ));
                        }
                        crate::entity::lemma_wf_update_node(*old(g), *g, owner as int);
                        assert forall|j: int|
                            0 <= j < old(g).n_nodes() implies (#[trigger] g.node(
                            j,
                        )).key_value() == old(g).node(j).key_value() by {
                            if j == owner as int {
                                let m = old(g).node(owner as int).meta;
                                crate::meta::lemma_key_idx(m.fields@);
                                if m.has_key() {
                                    assert(m.fields@[m.spec_key_idx()].kind.is_key());
                                    assert(m.fields@[fk as int].kind.is_plain());
                                    assert(fk as int != m.spec_key_idx());
                                }
                            }
                        }
                        assert forall|q: int|
                            0 <= q < self.stack@.len() implies task_wf(
                            #[trigger] self.stack@[q],
                            *g,
                        ) by {
                            assert(task_wf(old(self).stack@[q], *old(g)));
                            lemma_task_wf_stable(self.stack@[q], *old(g), *g);
                        }
                    }
                    StepResult::Working
                },
                Task::LinkDep { dep, field, owner } => {
                    let fk_name: String = match &g.nodes[owner].meta.fields[field].kind {
                        FieldKind::OneToOne { fk_field, .. } => fk_field.clone(),
                        _ => {
                            proof {
                                assert(false);
                            }
                            String::new()
                        },
                    };
                    let fk: usize = match find_field(&g.nodes[dep].meta, fk_name.as_str()) {
                        Some(i) => i,
                        None => {
                            proof {
                                assert(false);
                            }
                            0
                        },
                    };
                    let keyval: SqlValue = g.nodes[owner].get_id_value();
                    g.nodes[dep].fields[fk] = Some(FieldValue::Scalar(keyval));
                    proof {
                        assert(g.node(dep as int).fields =~= old(g).node(dep as int).fields.update(
                            fk as int,
                            Some(FieldValueV::Scalar(old(g).node(owner as int).key_value())),
                        ));
                        assert forall|i: int|
                            0 <= i < g.node(dep as int).fields.len() implies match #[trigger] g
                            .node(dep as int).fields[i] {
                            Some(v) => crate::value::variant_matches(
                                g.node(dep as int).meta.fields@[i].kind,
                                v,
                            ) && crate::entity::value_refs_in(v, g.n_nodes()),
                            None => true,
                        } by {
                            assert(old(g).node(dep as int).wf());
                            assert(crate::entity::node_refs_in(
                                old(g).node(dep as int),
                                old(g).n_nodes(),
                            ));
                        }
                        crate::entity::lemma_wf_update_node(*old(g), *g, dep as int);
                        assert forall|j: int|
                            0 <= j < old(g).n_nodes() implies (#[trigger] g.node(
                            j,
                        )).key_value() == old(g).node(j).key_value() by {
                            if j == dep as int {
                                let dm = old(g).node(dep as int).meta;
                                crate::meta::lemma_key_idx(dm.fields@);
                                if dm.has_key() {
                                    assert(dm.fields@[dm.spec_key_idx()].kind.is_key());
                                    assert(dm.fields@[fk as int].kind.is_plain());
                                    assert(fk as int != dm.spec_key_idx());
                                }
                            }
                        }
                        assert forall|q: int|
                            0 <= q < self.stack@.len() implies task_wf(
                            #[trigger] self.stack@[q],
                            *g,
                        ) by {
                            assert(task_wf(old(self).stack@[q], *old(g)));
                            lemma_task_wf_stable(self.stack@[q], *old(g), *g);
                        }
                    }
                    StepResult::Working
                },
                Task::WriteSelf(m) => {
                    proof {
                        assert(task_wf(
                            old(self).stack@[old(self).stack@.len() - 1],
                            *old(g),
                        ));
                    }
                    let sql = sql_insert(&g.nodes[m].meta);
                    let params = g.nodes[m].get_params();
                    self.awaiting = Some(m);
                    StepResult::Ask(Statement { sql, params })
                },
            },
        }
    }

    /// Folds the store's answer to the INSERT the engine asked for: the
    /// store-assigned key is written into the awaited node's key field.
    pub fn feed(&mut self, g: &mut Graph, last_insert_id: u64)
        requires
            old(g).wf(),
            old(self).wf_for(*old(g)),
            old(self).awaiting is Some,
        ensures
            final(g).wf(),
            final(self).wf_for(*final(g)),
            final(self).awaiting is None,
            final(self).stack@ == old(self).stack@,
            final(g).n_nodes() == old(g).n_nodes(),
            match old(self).awaiting {
                Some(m) => {
                    let ki = old(g).node(m as int).meta.spec_key_idx();
                    &&& final(g).node(m as int).fields == old(g).node(m as int).fields.update(
                        ki,
                        Some(FieldValueV::Scalar(SqlValueV::UInt(last_insert_id))),
                    )
                    &&& final(g).node(m as int).meta == old(g).node(m as int).meta
                    &&& final(g).node(m as int).cascade == old(g).node(m as int).cascade
                    &&& final(g).node(m as int).spec_id_u64() == Some(last_insert_id)
                    &&& forall|j: int|
                        0 <= j < old(g).n_nodes() && j != m as int ==> final(g).node(j) == old(
                            g,
                        ).node(j)
                },
                None => false,
            },
    {
        let m: usize = match self.awaiting {
            Some(m) => m,
            None => {
                proof {
                    assert(false);
                }
                0
            },
        };
        let ki: usize = match find_key_field(&g.nodes[m].meta) {
            Some(i) => i,
            None => {
                proof {
                    assert(false);
                }
                0
            },
        };
        g.nodes[m].fields[ki] = Some(FieldValue::Scalar(SqlValue::UInt(last_insert_id)));
        self.awaiting = None;
        proof {
            assert(g.node(m as int).fields =~= old(g).node(m as int).fields.update(
                ki as int,
                Some(FieldValueV::Scalar(SqlValueV::UInt(last_insert_id))),
            ));
            assert forall|i: int|
                0 <= i < g.node(m as int).fields.len() implies match #[trigger] g.node(
                m as int,
            ).fields[i] {
                Some(v) => crate::value::variant_matches(g.node(m as int).meta.fields@[i].kind, v)
                    && crate::entity::value_refs_in(v, g.n_nodes()),
                None => true,
            } by {
                assert(old(g).node(m as int).wf());
                assert(crate::entity::node_refs_in(old(g).node(m as int), old(g).n_nodes()));
            }
            crate::entity::lemma_wf_update_node(*old(g), *g, m as int);
            assert forall|q: int|
                0 <= q < self.stack@.len() implies task_wf(#[trigger] self.stack@[q], *g) by {
                assert(task_wf(old(self).stack@[q], *old(g)));
                lemma_task_wf_stable(self.stack@[q], *old(g), *g);
            }
        }
    }
}

/// A qualifying single-reference edge contributes its visit-then-copy pair
/// to the owning-reference schedule of the first `m` fields.
proof fn lemma_pre_tasks_has(g: Graph, n: usize, f: int, m: int)
    requires
        pre_edge(g, n, f),
        0 <= f < m,
    ensures
        exists|p: int|
            0 <= p && p + 1 < pre_tasks(g, n, m).len() && #[trigger] pre_tasks(g, n, m)[p]
                == Task::Visit(pre_target(g, n, f)) && pre_tasks(g, n, m)[p + 1] == (Task::CopyFk {
                owner: n,
                field: f as usize,
                child: pre_target(g, n, f),
            }),
    decreases m,
{
    if f == m - 1 {
        let p = pre_tasks(g, n, m - 1).len() as int;
        assert(pre_tasks(g, n, m)[p] == Task::Visit(pre_target(g, n, f)));
        assert(pre_tasks(g, n, m)[p + 1] == (Task::CopyFk {
            owner: n,
            field: f as usize,
            child: pre_target(g, n, f),
        }));
    } else {
        lemma_pre_tasks_has(g, n, f, m - 1);
        let p = choose|p: int|
            0 <= p && p + 1 < pre_tasks(g, n, m - 1).len() && #[trigger] pre_tasks(
                g,
                n,
                m - 1,
            )[p] == Task::Visit(pre_target(g, n, f)) && pre_tasks(g, n, m - 1)[p + 1]
                == (Task::CopyFk { owner: n, field: f as usize, child: pre_target(g, n, f) });
        assert(pre_tasks(g, n, m)[p] == Task::Visit(pre_target(g, n, f)));
        assert(pre_tasks(g, n, m)[p + 1] == (Task::CopyFk {
            owner: n,
            field: f as usize,
            child: pre_target(g, n, f),
        }));
    }
}

/// A qualifying one-to-one edge contributes its link-then-visit pair to
/// the owned-dependent schedule of the first `m` fields.
proof fn lemma_post_tasks_has(g: Graph, n: usize, f: int, m: int)
    requires
        post_edge(g, n, f),
        0 <= f < m,
    ensures
        exists|q: int|
            0 <= q && q + 1 < post_tasks(g, n, m).len() && #[trigger] post_tasks(g, n, m)[q]
                == (Task::LinkDep { dep: post_target(g, n, f), field: f as usize, owner: n })
                && post_tasks(g, n, m)[q + 1] == Task::Visit(post_target(g, n, f)),
    decreases m,
{
    if f == m - 1 {
        let q = post_tasks(g, n, m - 1).len() as int;
        assert(post_tasks(g, n, m)[q] == (Task::LinkDep {
            dep: post_target(g, n, f),
            field: f as usize,
            owner: n,
        }));
        assert(post_tasks(g, n, m)[q + 1] == Task::Visit(post_target(g, n, f)));
    } else {
        lemma_post_tasks_has(g, n, f, m - 1);
        let q = choose|q: int|
            0 <= q && q + 1 < post_tasks(g, n, m - 1).len() && #[trigger] post_tasks(
                g,
                n,
                m - 1,
            )[q] == (Task::LinkDep { dep: post_target(g, n, f), field: f as usize, owner: n })
                && post_tasks(g, n, m - 1)[q + 1] == Task::Visit(post_target(g, n, f));
        assert(post_tasks(g, n, m)[q] == (Task::LinkDep {
            dep: post_target(g, n, f),
            field: f as usize,
            owner: n,
        }));
        assert(post_tasks(g, n, m)[q + 1] == Task::Visit(post_target(g, n, f)));
    }
}

/// Insert ordering law. The engine runs a node's cascade schedule front to
/// back (tasks are stacked in reverse, so the last stacked runs first),
/// and a key enters the graph only through `feed`, after the store
/// answered that node's INSERT. In the schedule of node `n`:
/// a cascade-enabled single-reference target that still lacks a key is
/// visited — hence written and keyed — strictly before `n`'s own INSERT,
/// and its key is copied into `n`'s foreign-key column before that INSERT
/// as well; a cascade-enabled one-to-one dependent takes `n`'s key into
/// its back-reference column and is visited strictly after `n`'s INSERT.
pub proof fn lemma_insert_ordering(g: Graph, n: usize, f: int)
    requires
        g.wf(),
        (n as int) < g.n_nodes(),
        0 <= f < g.node(n as int).meta.fields@.len(),
    ensures
        ({
            let plan = expand_spec(g, n);
            let sidx = pre_tasks(g, n, g.node(n as int).meta.fields@.len() as int).len() as int;
            &&& 0 <= sidx < plan.len()
            &&& plan[sidx] == Task::WriteSelf(n)
            &&& (pre_edge(g, n, f) ==> exists|p: int|
                0 <= p && p + 1 < sidx && #[trigger] plan[p] == Task::Visit(pre_target(g, n, f))
                    && plan[p + 1] == (Task::CopyFk {
                    owner: n,
                    field: f as usize,
                    child: pre_target(g, n, f),
                }))
            &&& (post_edge(g, n, f) ==> exists|q: int|
                sidx < q && q + 1 < plan.len() && #[trigger] plan[q] == (Task::LinkDep {
                    dep: post_target(g, n, f),
                    field: f as usize,
                    owner: n,
                }) && plan[q + 1] == Task::Visit(post_target(g, n, f)))
        }),
{
    let len = g.node(n as int).meta.fields@.len() as int;
    let plan = expand_spec(g, n);
    let pre = pre_tasks(g, n, len);
    let post = post_tasks(g, n, len);
    let sidx = pre.len() as int;
    assert(plan[sidx] == Task::WriteSelf(n));
    if pre_edge(g, n, f) {
        lemma_pre_tasks_has(g, n, f, len);
        let p = choose|p: int|
            0 <= p && p + 1 < pre.len() && #[trigger] pre[p] == Task::Visit(
                pre_target(g, n, f),
            ) && pre[p + 1] == (Task::CopyFk {
                owner: n,
                field: f as usize,
                child: pre_target(g, n, f),
            });
        assert(plan[p] == pre[p]);
        assert(plan[p + 1] == pre[p + 1]);
    }
    if post_edge(g, n, f) {
        lemma_post_tasks_has(g, n, f, len);
        let q0 = choose|q: int|
            0 <= q && q + 1 < post.len() && #[trigger] post[q] == (Task::LinkDep {
                dep: post_target(g, n, f),
                field: f as usize,
                owner: n,
            }) && post[q + 1] == Task::Visit(post_target(g, n, f));
        let q = sidx + 1 + q0;
        assert(plan[q] == post[q0]);
        assert(plan[q + 1] == post[q0 + 1]);
        assert(sidx < q && q + 1 < plan.len());
    }
}

} // verus!
