//! Text rendering of a node: a JSON-like `{field: value, ...}` line over
//! the populated fields, used for diagnostics in place of a derived
//! formatter. Entity references render as their node identities.

use vstd::prelude::*;

use crate::entity::{slot_view, EntityInner, NodeV};
use crate::sql::seq_join;
use crate::value::{FieldValue, FieldValueV, SqlValue};

verus! {

/// The character of one decimal digit.
pub open spec fn digit_char(d: nat) -> char {
    ((d + 48) as u8) as char
}

/// The decimal digits of `n`, most significant first.
pub open spec fn dec_digits(n: nat) -> Seq<char>
    decreases n,
{
    if n < 10 {
        seq![digit_char(n)]
    } else {
        dec_digits(n / 10).push(digit_char(n % 10))
    }
}

/// The decimal rendering of a signed value.
pub open spec fn dec_int(i: int) -> Seq<char> {
    if i < 0 {
        "-"@ + dec_digits((-i) as nat)
    } else {
        dec_digits(i as nat)
    }
}

/// One decimal digit as text.
fn digit_str(d: u64) -> (r: &'static str)
    requires
        d < 10,
    ensures
        r@ == seq![digit_char(d as nat)],
{
    proof {
        reveal_strlit("0");
        reveal_strlit("1");
        reveal_strlit("2");
        reveal_strlit("3");
        reveal_strlit("4");
        reveal_strlit("5");
        reveal_strlit("6");
        reveal_strlit("7");
        reveal_strlit("8");
        reveal_strlit("9");
    }
    match d {
        0 => "0",
        1 => "1",
        2 => "2",
        3 => "3",
        4 => "4",
        5 => "5",
        6 => "6",
        7 => "7",
        8 => "8",
        _ => "9",
    }
}

/// The decimal text of an unsigned value.
pub fn u64_to_string(n: u64) -> (r: String)
    ensures
        r@ == dec_digits(n as nat),
    decreases n,
{
    if n < 10 {
        let s = digit_str(n);
        s.to_owned()
    } else {
        let mut r = u64_to_string(n / 10);
        let d = digit_str(n % 10);
        r.append(d);
        r
    }
}

/// The decimal text of a signed value.
pub fn i64_to_string(i: i64) -> (r: String)
    ensures
        r@ == dec_int(i as int),
{
    if i >= 0 {
        u64_to_string(i as u64)
    } else {
        let m: u64 = ((-(i + 1)) as u64) + 1;
        proof {
            assert(m as int == -(i as int));
        }
        let mut s = String::new();
        s.append("-");
        let digits = u64_to_string(m);
        s.append(digits.as_str());
        proof {
            assert(s@ =~= dec_int(i as int));
        }
        s
    }
}

/// How one field value renders: NULL and an absent reference as `null`,
/// numbers as decimal text, text quoted verbatim, a reference as its node
/// identity, a collection as a bracketed identity list.
pub open spec fn json_of_value(v: FieldValueV) -> Seq<char> {
    match v {
        FieldValueV::Scalar(sv) => match sv {
            crate::value::SqlValueV::Null => "null"@,
            crate::value::SqlValueV::Int(i) => dec_int(i as int),
            crate::value::SqlValueV::UInt(u) => dec_digits(u as nat),
            crate::value::SqlValueV::Text(s) => "\""@ + s + "\""@,
        },
        FieldValueV::Entity(o) => match o {
            Some(j) => dec_digits(j as nat),
            None => "null"@,
        },
        FieldValueV::Collection(s) => "["@ + seq_join(
            s.map_values(|j: usize| dec_digits(j as nat)),
            ", "@,
        ) + "]"@,
    }
}

/// Renders one field value.
fn value_json(v: &FieldValue) -> (r: String)
    ensures
        r@ == json_of_value(v@),
{
    match v {
        FieldValue::Scalar(sv) => match sv {
            SqlValue::Null => {
                let mut s = String::new();
                s.append("null");
                s
            },
            SqlValue::Int(i) => i64_to_string(*i),
            SqlValue::UInt(u) => u64_to_string(*u),
            SqlValue::Text(t) => {
                let mut s = String::new();
                s.append("\"");
                s.append(t.as_str());
                s.append("\"");
                proof {
                    assert(s@ =~= "\""@ + t@ + "\""@);
                }
                s
            },
        },
        FieldValue::Entity(o) => match o {
            Some(j) => {
                let r = u64_to_string(*j as u64);
                proof {
                    assert((*j as u64) as nat == *j as nat);
                }
                r
            },
            None => {
                let mut s = String::new();
                s.append("null");
                s
            },
        },
        FieldValue::Collection(ids) => {
            let ghost target = ids@.map_values(|j: usize| dec_digits(j as nat));
            let mut parts: Vec<String> = Vec::new();
            let len = ids.len();
            let mut k: usize = 0;
            while k < len
                invariant
                    0 <= k <= len,
                    len == ids@.len(),
                    target == ids@.map_values(|j: usize| dec_digits(j as nat)),
                    target.len() == len,
                    parts@.map_values(|p: String| p@) =~= target.take(k as int),
                decreases len - k,
            {
                let ghost prev = parts@;
                let p = u64_to_string(ids[k] as u64);
                parts.push(p);
                proof {
                    assert((ids@[k as int] as u64) as nat == ids@[k as int] as nat);
                    assert(target[k as int] == dec_digits(ids@[k as int] as nat));
                    assert(prev.map_values(|p: String| p@).len() == prev.len());
                    assert(parts@.len() == k + 1);
                    let ghost mapped = parts@.map_values(|p: String| p@);
                    assert forall|q: int|
                        0 <= q < k + 1 implies #[trigger] mapped[q] == target.take(
                        k + 1 as int,
                    )[q] by {
                        assert(mapped[q] == parts@[q]@);
                        if q < k {
                            assert(parts@[q] == prev[q]);
                            assert(prev.map_values(|p: String| p@)[q] == prev[q]@);
                            assert(prev.map_values(|p: String| p@)[q] == target.take(k as int)[q]);
                        }
                    }
                    assert(mapped =~= target.take(k + 1 as int));
                }
                k = k + 1;
            }
            proof {
                assert(target.take(len as int) =~= target);
            }
            let joined = crate::sql::join_strings(&parts, ", ");
            let mut s = String::new();
            s.append("[");
            s.append(joined.as_str());
            s.append("]");
            proof {
                assert(s@ =~= json_of_value(v@));
            }
            s
        },
    }
}

/// The rendered `name: value` entries of the first `i` fields, populated
/// fields only, in field order.
pub open spec fn json_entries(n: NodeV, i: int) -> Seq<Seq<char>>
    decreases i,
{
    if i <= 0 {
        Seq::empty()
    } else {
        match n.fields[i - 1] {
            Some(v) => json_entries(n, i - 1).push(
                n.meta.fields@[i - 1].field_name@ + ": "@ + json_of_value(v),
            ),
            None => json_entries(n, i - 1),
        }
    }
}

/// The whole node, rendered as `{entry, entry, ...}`.
pub open spec fn json_of_node(n: NodeV) -> Seq<char> {
    "{"@ + seq_join(json_entries(n, n.fields.len() as int), ", "@) + "}"@
}

impl EntityInner {
    /// Renders the populated fields, in field order, as one line of text.
    pub fn to_json(&self) -> (r: String)
        requires
            self@.wf(),
        ensures
            r@ == json_of_node(self@),
    {
        let mut entries: Vec<String> = Vec::new();
        let len = self.meta.fields.len();
        let mut i: usize = 0;
        while i < len
            invariant
                self@.wf(),
                0 <= i <= len,
                len == self@.meta.fields@.len(),
                len == self.fields@.len(),
                len == self@.fields.len(),
                entries@.map_values(|p: String| p@) =~= json_entries(self@, i as int),
            decreases len - i,
        {
            proof {
                assert(self@.fields[i as int] == slot_view(self.fields@[i as int]));
            }
            let ghost prev = entries@;
            match &self.fields[i] {
                Some(v) => {
                    let mut entry = self.meta.fields[i].field_name.clone();
                    entry.append(": ");
                    let rendered = value_json(v);
                    entry.append(rendered.as_str());
                    entries.push(entry);
                    proof {
                        assert(entry@ == self@.meta.fields@[i as int].field_name@ + ": "@
                            + json_of_value(self.fields@[i as int]->Some_0@));
                        assert(prev.map_values(|p: String| p@).len() == prev.len());
                        let ghost mapped = entries@.map_values(|p: String| p@);
                        assert forall|q: int|
                            0 <= q < prev.len() + 1 implies #[trigger] mapped[q] == json_entries(
                            self@,
                            i + 1 as int,
                        )[q] by {
                            assert(mapped[q] == entries@[q]@);
                            if q < prev.len() {
                                assert(entries@[q] == prev[q]);
                                assert(prev.map_values(|p: String| p@)[q] == prev[q]@);
                                assert(prev.map_values(|p: String| p@)[q] == json_entries(
                                    self@,
                                    i as int,
                                )[q]);
                            }
                        }
                        assert(mapped =~= json_entries(self@, i + 1 as int));
                    }
                },
                None => {
                    proof {
                        assert(entries@.map_values(|p: String| p@) =~= json_entries(
                            self@,
                            i + 1 as int,
                        ));
                    }
                },
            }
            i = i + 1;
        }
        let joined = crate::sql::join_strings(&entries, ", ");
        let mut s = String::new();
        s.append("{");
        s.append(joined.as_str());
        s.append("}");
        proof {
            assert(json_entries(self@, len as int) =~= json_entries(
                self@,
                self@.fields.len() as int,
            ));
            assert(s@ =~= json_of_node(self@));
        }
        s
    }
}

} // verus!
