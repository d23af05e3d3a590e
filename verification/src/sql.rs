//! SQL text builder: pure functions from schema metadata to statement
//! text. Parameter binding is the connection's concern; these functions
//! only render the statement shape, with named placeholders.

use vstd::prelude::*;

use crate::meta::{EntityMeta, FieldKind};

verus! {

/// Join of pieces with a separator between each two.
pub open spec fn seq_join(list: Seq<Seq<char>>, sep: Seq<char>) -> Seq<char>
    decreases list.len(),
{
    if list.len() == 0 {
        Seq::empty()
    } else if list.len() == 1 {
        list[0]
    } else {
        seq_join(list.drop_last(), sep) + sep + list.last()
    }
}

/// Joins strings with a separator.
pub fn join_strings(list: &Vec<String>, sep: &str) -> (r: String)
    ensures
        r@ == seq_join(list@.map_values(|v: String| v@), sep@),
{
    let ghost deep = list@.map_values(|v: String| v@);
    let mut res = String::new();
    let len = list.len();
    let mut i: usize = 0;
    while i < len
        invariant
            0 <= i <= len,
            len == list@.len(),
            deep == list@.map_values(|v: String| v@),
            deep.len() == len,
            res@ == seq_join(deep.take(i as int), sep@),
        decreases len - i,
    {
        if i != 0 {
            res.append(sep);
        }
        res.append(list[i].as_str());
        proof {
            assert(deep[i as int] == list@[i as int]@);
            assert(deep.take(i + 1 as int).drop_last() =~= deep.take(i as int));
            assert(deep.take(i + 1 as int).last() == deep[i as int]);
        }
        i = i + 1;
    }
    proof {
        assert(deep.take(len as int) =~= deep);
    }
    res
}

/// The names of the non-key data columns among the first `i` fields.
pub open spec fn spec_columns_upto(meta: EntityMeta, i: int) -> Seq<Seq<char>>
    decreases i,
{
    if i <= 0 {
        Seq::empty()
    } else if meta.fields@[i - 1].kind.is_plain() {
        spec_columns_upto(meta, i - 1).push(meta.fields@[i - 1].field_name@)
    } else {
        spec_columns_upto(meta, i - 1)
    }
}

/// The names of the non-key data columns, in field order.
pub open spec fn spec_columns(meta: EntityMeta) -> Seq<Seq<char>> {
    spec_columns_upto(meta, meta.fields@.len() as int)
}

/// The column definitions of every field that owns a column (the key
/// included), in field order.
pub open spec fn spec_col_defs_upto(meta: EntityMeta, i: int) -> Seq<Seq<char>>
    decreases i,
{
    if i <= 0 {
        Seq::empty()
    } else if meta.fields@[i - 1].kind.has_column() {
        spec_col_defs_upto(meta, i - 1).push(meta.fields@[i - 1].db_ty@)
    } else {
        spec_col_defs_upto(meta, i - 1)
    }
}

pub open spec fn spec_col_defs(meta: EntityMeta) -> Seq<Seq<char>> {
    spec_col_defs_upto(meta, meta.fields@.len() as int)
}

/// The names of every field that owns a column (the key included).
pub open spec fn spec_all_columns_upto(meta: EntityMeta, i: int) -> Seq<Seq<char>>
    decreases i,
{
    if i <= 0 {
        Seq::empty()
    } else if meta.fields@[i - 1].kind.has_column() {
        spec_all_columns_upto(meta, i - 1).push(meta.fields@[i - 1].field_name@)
    } else {
        spec_all_columns_upto(meta, i - 1)
    }
}

pub open spec fn spec_all_columns(meta: EntityMeta) -> Seq<Seq<char>> {
    spec_all_columns_upto(meta, meta.fields@.len() as int)
}

/// The names of the non-key data columns of the entity type, in field
/// order: what INSERT and UPDATE statements carry.
pub fn entity_get_columns(meta: &EntityMeta) -> (r: Vec<String>)
    ensures
        r@.map_values(|v: String| v@) == spec_columns(*meta),
{
    let mut out: Vec<String> = Vec::new();
    let len = meta.fields.len();
    let mut i: usize = 0;
    while i < len
        invariant
            0 <= i <= len,
            len == meta.fields@.len(),
            out@.map_values(|v: String| v@) == spec_columns_upto(*meta, i as int),
        decreases len - i,
    {
        let plain: bool = matches!(&meta.fields[i].kind, FieldKind::Plain);
        if plain {
            out.push(meta.fields[i].field_name.clone());
        }
        proof {
            assert(out@.map_values(|v: String| v@) =~= spec_columns_upto(*meta, i + 1 as int));
        }
        i = i + 1;
    }
    out
}

/// The column definitions for CREATE TABLE, in field order.
fn entity_get_col_defs(meta: &EntityMeta) -> (r: Vec<String>)
    ensures
        r@.map_values(|v: String| v@) == spec_col_defs(*meta),
{
    let mut out: Vec<String> = Vec::new();
    let len = meta.fields.len();
    let mut i: usize = 0;
    while i < len
        invariant
            0 <= i <= len,
            len == meta.fields@.len(),
            out@.map_values(|v: String| v@) == spec_col_defs_upto(*meta, i as int),
        decreases len - i,
    {
        let col: bool = matches!(&meta.fields[i].kind, FieldKind::Key | FieldKind::Plain);
        if col {
            out.push(meta.fields[i].db_ty.clone());
        }
        proof {
            assert(out@.map_values(|v: String| v@) =~= spec_col_defs_upto(*meta, i + 1 as int));
        }
        i = i + 1;
    }
    out
}

/// The names of every column field, the key included, in field order:
/// what SELECT statements fetch.
pub fn entity_get_all_columns(meta: &EntityMeta) -> (r: Vec<String>)
    ensures
        r@.map_values(|v: String| v@) == spec_all_columns(*meta),
{
    let mut out: Vec<String> = Vec::new();
    let len = meta.fields.len();
    let mut i: usize = 0;
    while i < len
        invariant
            0 <= i <= len,
            len == meta.fields@.len(),
            out@.map_values(|v: String| v@) == spec_all_columns_upto(*meta, i as int),
        decreases len - i,
    {
        let col: bool = matches!(&meta.fields[i].kind, FieldKind::Key | FieldKind::Plain);
        if col {
            out.push(meta.fields[i].field_name.clone());
        }
        proof {
            assert(out@.map_values(|v: String| v@) =~= spec_all_columns_upto(*meta, i + 1 as int));
        }
        i = i + 1;
    }
    out
}

/// The text of the CREATE TABLE statement of the entity type.
pub open spec fn spec_create_table(meta: EntityMeta) -> Seq<char> {
    "CREATE TABLE IF NOT EXISTS `"@ + meta.table_name@ + "`("@ + seq_join(
        spec_col_defs(meta),
        ", "@,
    ) + ")"@
}

pub fn sql_create_table(meta: &EntityMeta) -> (r: String)
    ensures
        r@ == spec_create_table(*meta),
{
    let defs = entity_get_col_defs(meta);
    let joined = join_strings(&defs, ", ");
    let mut s = String::new();
    s.append("CREATE TABLE IF NOT EXISTS `");
    s.append(meta.table_name.as_str());
    s.append("`(");
    s.append(joined.as_str());
    s.append(")");
    proof {
        assert(s@ =~= spec_create_table(*meta));
    }
    s
}

/// The text of the DROP TABLE statement of the entity type.
pub open spec fn spec_drop_table(meta: EntityMeta) -> Seq<char> {
    "DROP TABLE IF EXISTS `"@ + meta.table_name@ + "`"@
}

pub fn sql_drop_table(meta: &EntityMeta) -> (r: String)
    ensures
        r@ == spec_drop_table(*meta),
{
    let mut s = String::new();
    s.append("DROP TABLE IF EXISTS `");
    s.append(meta.table_name.as_str());
    s.append("`");
    proof {
        assert(s@ =~= spec_drop_table(*meta));
    }
    s
}

/// A named placeholder for each column.
pub open spec fn spec_placeholders(cols: Seq<Seq<char>>) -> Seq<Seq<char>> {
    cols.map_values(|c: Seq<char>| ":"@ + c)
}

/// The text of the INSERT statement: every non-key column, with a named
/// placeholder for each.
pub open spec fn spec_insert(meta: EntityMeta) -> Seq<char> {
    "INSERT INTO `"@ + meta.table_name@ + "`("@ + seq_join(spec_columns(meta), ", "@)
        + ") VALUES ("@ + seq_join(spec_placeholders(spec_columns(meta)), ", "@) + ")"@
}

pub fn sql_insert(meta: &EntityMeta) -> (r: String)
    ensures
        r@ == spec_insert(*meta),
{
    let cols = entity_get_columns(meta);
    let fields = join_strings(&cols, ", ");
    let mut places: Vec<String> = Vec::new();
    let len = cols.len();
    let mut i: usize = 0;
    while i < len
        invariant
            0 <= i <= len,
            len == cols@.len(),
            cols@.map_values(|v: String| v@) == spec_columns(*meta),
            places@.map_values(|v: String| v@) =~= spec_placeholders(
                spec_columns(*meta),
            ).take(i as int),
        decreases len - i,
    {
        let mut p = String::new();
        p.append(":");
        p.append(cols[i].as_str());
        let ghost prev = places@;
        places.push(p);
        proof {
            assert(spec_columns(*meta)[i as int] == cols@[i as int]@) by {
                assert(cols@.map_values(|v: String| v@)[i as int] == cols@[i as int]@);
            }
            assert(spec_placeholders(spec_columns(*meta))[i as int] == ":"@ + spec_columns(
                *meta,
            )[i as int]);
            assert(p@ =~= ":"@ + cols@[i as int]@);
            assert(cols@.map_values(|v: String| v@).len() == cols@.len());
            assert(spec_placeholders(spec_columns(*meta)).len() == spec_columns(*meta).len());
            assert(prev.map_values(|v: String| v@).len() == prev.len());
            assert(prev.len() == i);
            assert(places@.len() == i + 1);
            let ghost target = spec_placeholders(spec_columns(*meta)).take(i + 1 as int);
            assert forall|k: int| 0 <= k < i + 1 implies places@.map_values(|v: String| v@)[k]
                == target[k] by {
                assert(places@.map_values(|v: String| v@)[k] == places@[k]@);
                assert(target[k] == spec_placeholders(spec_columns(*meta))[k]);
                if k < i {
                    assert(places@[k] == prev[k]);
                    assert(prev.map_values(|v: String| v@)[k] == prev[k]@);
                    assert(prev.map_values(|v: String| v@)[k] == spec_placeholders(
                        spec_columns(*meta),
                    ).take(i as int)[k]);
                } else {
                    assert(places@[k] == p);
                }
            }
            assert(places@.map_values(|v: String| v@) =~= target);
        }
        i = i + 1;
    }
    proof {
        assert(spec_placeholders(spec_columns(*meta)).take(len as int) =~= spec_placeholders(
            spec_columns(*meta),
        ));
    }
    let values = join_strings(&places, ", ");
    let mut s = String::new();
    s.append("INSERT INTO `");
    s.append(meta.table_name.as_str());
    s.append("`(");
    s.append(fields.as_str());
    s.append(") VALUES (");
    s.append(values.as_str());
    s.append(")");
    proof {
        assert(s@ =~= spec_insert(*meta));
    }
    s
}

/// `column = :column` assignments for each non-key column.
pub open spec fn spec_assignments(cols: Seq<Seq<char>>) -> Seq<Seq<char>> {
    cols.map_values(|c: Seq<char>| c + " = :"@ + c)
}

/// The text of the UPDATE-by-key statement: every non-key column assigned
/// its named placeholder, keyed on the key column.
pub open spec fn spec_update(meta: EntityMeta) -> Seq<char> {
    "UPDATE `"@ + meta.table_name@ + "` SET "@ + seq_join(
        spec_assignments(spec_columns(meta)),
        ", "@,
    ) + " WHERE "@ + meta.spec_key_name() + " = :"@ + meta.spec_key_name()
}

pub fn sql_update(meta: &EntityMeta) -> (r: String)
    requires
        meta.has_key(),
    ensures
        r@ == spec_update(*meta),
{
    let cols = entity_get_columns(meta);
    let mut sets: Vec<String> = Vec::new();
    let len = cols.len();
    let mut i: usize = 0;
    while i < len
        invariant
            0 <= i <= len,
            len == cols@.len(),
            cols@.map_values(|v: String| v@) == spec_columns(*meta),
            sets@.map_values(|v: String| v@) =~= spec_assignments(spec_columns(*meta)).take(
                i as int,
            ),
        decreases len - i,
    {
        let mut p = String::new();
        p.append(cols[i].as_str());
        p.append(" = :");
        p.append(cols[i].as_str());
        proof {
            places_step_proof(cols@.map_values(|v: String| v@), i);
        }
        let ghost prev = sets@;
        sets.push(p);
        proof {
            assert(spec_columns(*meta)[i as int] == cols@[i as int]@) by {
                assert(cols@.map_values(|v: String| v@)[i as int] == cols@[i as int]@);
            }
            assert(p@ =~= cols@[i as int]@ + " = :"@ + cols@[i as int]@);
            assert(cols@.map_values(|v: String| v@).len() == cols@.len());
            assert(spec_assignments(spec_columns(*meta)).len() == spec_columns(*meta).len());
            assert(prev.map_values(|v: String| v@).len() == prev.len());
            assert(prev.len() == i);
            assert(sets@.len() == i + 1);
            let ghost target = spec_assignments(spec_columns(*meta)).take(i + 1 as int);
            assert forall|k: int| 0 <= k < i + 1 implies sets@.map_values(|v: String| v@)[k]
                == target[k] by {
                assert(sets@.map_values(|v: String| v@)[k] == sets@[k]@);
                assert(target[k] == spec_assignments(spec_columns(*meta))[k]);
                if k < i {
                    assert(sets@[k] == prev[k]);
                    assert(prev.map_values(|v: String| v@)[k] == prev[k]@);
                    assert(prev.map_values(|v: String| v@)[k] == spec_assignments(
                        spec_columns(*meta),
                    ).take(i as int)[k]);
                } else {
                    assert(sets@[k] == p);
                }
            }
            assert(sets@.map_values(|v: String| v@) =~= target);
        }
        i = i + 1;
    }
    proof {
        assert(spec_assignments(spec_columns(*meta)).take(len as int) =~= spec_assignments(
            spec_columns(*meta),
        ));
    }
    let assigns = join_strings(&sets, ", ");
    let key = key_name(meta);
    let mut s = String::new();
    s.append("UPDATE `");
    s.append(meta.table_name.as_str());
    s.append("` SET ");
    s.append(assigns.as_str());
    s.append(" WHERE ");
    s.append(key.as_str());
    s.append(" = :");
    s.append(key.as_str());
    proof {
        assert(s@ =~= spec_update(*meta));
    }
    s
}

/// The `column = :column` shape of one assignment.
proof fn places_step_proof(cols: Seq<Seq<char>>, i: usize)
    requires
        (i as int) < cols.len(),
    ensures
        spec_assignments(cols)[i as int] == cols[i as int] + " = :"@ + cols[i as int],
{
}

/// The name of the key column.
pub fn key_name(meta: &EntityMeta) -> (r: String)
    requires
        meta.has_key(),
    ensures
        r@ == meta.spec_key_name(),
{
    match crate::meta::find_key_field(meta) {
        Some(i) => meta.fields[i].field_name.clone(),
        None => {
            proof {
                assert(false);
            }
            String::new()
        },
    }
}

/// The text of the SELECT-by-key statement: every column field (the key
/// included), keyed on the key column.
pub open spec fn spec_select(meta: EntityMeta) -> Seq<char> {
    "SELECT "@ + seq_join(spec_all_columns(meta), ", "@) + " FROM `"@ + meta.table_name@
        + "` WHERE "@ + meta.spec_key_name() + " = :"@ + meta.spec_key_name()
}

pub fn sql_select(meta: &EntityMeta) -> (r: String)
    requires
        meta.has_key(),
    ensures
        r@ == spec_select(*meta),
{
    let cols = entity_get_all_columns(meta);
    let joined = join_strings(&cols, ", ");
    let key = key_name(meta);
    let mut s = String::new();
    s.append("SELECT ");
    s.append(joined.as_str());
    s.append(" FROM `");
    s.append(meta.table_name.as_str());
    s.append("` WHERE ");
    s.append(key.as_str());
    s.append(" = :");
    s.append(key.as_str());
    proof {
        assert(s@ =~= spec_select(*meta));
    }
    s
}

/// The text of the DELETE-by-key statement.
pub open spec fn spec_delete(meta: EntityMeta) -> Seq<char> {
    "DELETE FROM `"@ + meta.table_name@ + "` WHERE "@ + meta.spec_key_name() + " = :"@
        + meta.spec_key_name()
}

pub fn sql_delete(meta: &EntityMeta) -> (r: String)
    requires
        meta.has_key(),
    ensures
        r@ == spec_delete(*meta),
{
    let key = key_name(meta);
    let mut s = String::new();
    s.append("DELETE FROM `");
    s.append(meta.table_name.as_str());
    s.append("` WHERE ");
    s.append(key.as_str());
    s.append(" = :");
    s.append(key.as_str());
    proof {
        assert(s@ =~= spec_delete(*meta));
    }
    s
}

} // verus!
