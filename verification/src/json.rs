//! JSON-shaped data and C0DATA: the intermediate [`Value`] tree, built from
//! C0DATA bytes by [`to_value`] and written back by [`from_value`].

use vstd::prelude::*;

use std::borrow::Cow;

use vstd::string::StringSliceAdditionalSpecFns;
use vstd::utf8::encode_utf8;

use crate::builder::{escape, escaped_all, group_bytes, is_name, joined, lemma_escape_step, lemma_joined_step};
use crate::properties::{lemma_records_bytes_push, records_bytes, table_fields_read_back, table_reads_back};
use crate::document::{document_of, group_name_of, Document};
use crate::scan::{clamp, lemma_nested_end, nested_end, skip_nested};
use crate::table::{field_of, fields_of, table_at, Table, TableView};
use crate::text::{bytes_to_string, utf8_lossy};
use serde_json::{Error as SerdeError, Value as SerdeValue};
use crate::{unescape, unescaped, DLE, ETX, FS, GS, RS, SOH, STX, US};

verus! {

/// An intermediate data tree. All scalars are strings; objects keep their
/// insertion order.
#[derive(Debug, PartialEq, Eq)]
pub enum Value {
    Str(String),
    Array(Vec<Value>),
    Object(Vec<(String, Value)>),
}

impl Clone for Value {
    fn clone(&self) -> (r: Self)
        ensures
            value_view(r) == value_view(*self),
        decreases self,
    {
        match self {
            Value::Str(s) => Value::Str(s.clone()),
            Value::Array(a) => {
                let n = a.len();
                let mut items: Vec<Value> = Vec::new();
                for i in 0..n
                    invariant
                        n == a@.len(),
                        *self == Value::Array(*a),
                        items@.len() == i,
                        forall|k: int| 0 <= k < i ==> value_view(#[trigger] items@[k]) == value_view(a@[k]),
                {
                    proof {
                        assert(decreases_to!(*self => (*self)->Array_0));
                        vstd::std_specs::vec::axiom_vec_index_decreases(*a, i as int);
                    }
                    let x = a[i].clone();
                    items.push(x);
                }
                proof {
                    lemma_array_view(items);
                    lemma_array_view(*a);
                    assert(items_view(items@) =~= items_view(a@));
                }
                Value::Array(items)
            },
            Value::Object(p) => {
                let n = p.len();
                let mut pairs: Vec<(String, Value)> = Vec::new();
                for i in 0..n
                    invariant
                        n == p@.len(),
                        *self == Value::Object(*p),
                        pairs@.len() == i,
                        forall|k: int|
                            0 <= k < i ==> (#[trigger] pairs@[k]).0@ == p@[k].0@ && value_view(pairs@[k].1)
                                == value_view(p@[k].1),
                {
                    proof {
                        assert(decreases_to!(*self => (*self)->Object_0));
                        vstd::std_specs::vec::axiom_vec_index_decreases(*p, i as int);
                        assert(decreases_to!(p@[i as int] => p@[i as int].1));
                    }
                    let x = p[i].1.clone();
                    let k = p[i].0.clone();
                    pairs.push((k, x));
                }
                proof {
                    lemma_object_view(pairs);
                    lemma_object_view(*p);
                    assert(pairs_view(pairs@) =~= pairs_view(p@));
                }
                Value::Object(pairs)
            },
        }
    }
}

/// A value tree as text.
#[verifier::ext_equal]
pub enum ValueView {
    Str(Seq<char>),
    Array(Seq<ValueView>),
    Object(Seq<(Seq<char>, ValueView)>),
}

/// The text of a value tree.
pub open spec fn value_view(v: Value) -> ValueView
    decreases v,
{
    match v {
        Value::Str(s) => ValueView::Str(s@),
        Value::Array(a) => ValueView::Array(
            Seq::new(
                a@.len(),
                |i: int|
                    if 0 <= i < a@.len() {
                        value_view(a@[i])
                    } else {
                        ValueView::Str(Seq::empty())
                    },
            ),
        ),
        Value::Object(p) => ValueView::Object(
            Seq::new(
                p@.len(),
                |i: int|
                    if 0 <= i < p@.len() {
                        (p@[i].0@, value_view(p@[i].1))
                    } else {
                        (Seq::empty(), ValueView::Str(Seq::empty()))
                    },
            ),
        ),
    }
}

// ---- export: C0DATA to values ----

/// Whether an RS occurs at the top level of `f[p..stop]` (nested scopes and
/// escaped bytes are skipped).
pub open spec fn has_rs_from(f: Seq<u8>, p: int, stop: int) -> bool
    decreases stop - p,
{
    if p < 0 || p >= stop || stop > f.len() {
        false
    } else if f[p] == RS {
        true
    } else if f[p] == STX {
        let q = nested_end(f, p + 1, 1, stop);
        if q <= p || q > stop {
            false
        } else {
            has_rs_from(f, q, stop)
        }
    } else if f[p] == DLE {
        has_rs_from(f, clamp(p + 2, stop), stop)
    } else {
        has_rs_from(f, p + 1, stop)
    }
}

/// The end of a key inside a nested key-value field: the next US, skipping
/// escaped bytes.
pub open spec fn key_end(f: Seq<u8>, p: int, stop: int) -> int
    decreases stop - p,
{
    if p < 0 || p >= stop || stop > f.len() || f[p] == US {
        p
    } else if f[p] == DLE {
        key_end(f, clamp(p + 2, stop), stop)
    } else {
        key_end(f, p + 1, stop)
    }
}

/// The end of a nested item: the next top-level `sep`, skipping nested
/// scopes and escaped bytes.
pub open spec fn item_end(f: Seq<u8>, p: int, stop: int, sep: u8) -> int
    decreases stop - p,
{
    if p < 0 || p >= stop || stop > f.len() || f[p] == sep {
        p
    } else if f[p] == STX {
        let q = nested_end(f, p + 1, 1, stop);
        if q <= p || q > stop {
            p
        } else {
            item_end(f, q, stop, sep)
        }
    } else if f[p] == DLE {
        item_end(f, clamp(p + 2, stop), stop, sep)
    } else {
        item_end(f, p + 1, stop, sep)
    }
}

/// The text of an escaped value.
pub open spec fn value_text(f: Seq<u8>) -> Seq<char> {
    utf8_lossy(unescaped(f))
}

/// The value of a record field: a field that opens with STX is a nested
/// structure, any other field a string.
pub open spec fn field_value(f: Seq<u8>) -> ValueView
    decreases f.len(), 3int, 0int,
{
    if f.len() > 0 && f[0] == STX {
        nested_value(f)
    } else {
        ValueView::Str(value_text(f))
    }
}

/// Where the content of a nested field ends: before a closing ETX.
pub open spec fn nested_stop(f: Seq<u8>) -> int {
    if f.len() > 0 && f.last() == ETX {
        f.len() - 1
    } else {
        f.len() as int
    }
}

/// A nested field (STX ... ETX): with an RS inside it is a key-value object,
/// else an array.
pub open spec fn nested_value(f: Seq<u8>) -> ValueView
    decreases f.len(), 2int, 0int,
{
    let stop = nested_stop(f);
    let start = if f.len() > 0 {
        1int
    } else {
        0int
    };
    if has_rs_from(f, start, stop) {
        ValueView::Object(nested_pairs(f, start, stop))
    } else {
        ValueView::Array(nested_items(f, start, stop))
    }
}

/// The pairs of a nested key-value field from `p` on: each RS opens a key,
/// and a US after the key opens its value.
pub open spec fn nested_pairs(f: Seq<u8>, p: int, stop: int) -> Seq<(Seq<char>, ValueView)>
    decreases f.len(), 1int, stop - p,
{
    if p < 1 || p >= stop || stop > f.len() {
        Seq::empty()
    } else if f[p] == RS {
        let ke = key_end(f, p + 1, stop);
        let key = value_text(f.subrange(p + 1, clamp(ke, stop)));
        if ke <= p || ke > stop {
            Seq::empty()
        } else if ke < stop && f[ke] == US {
            let ve = item_end(f, ke + 1, stop, RS);
            if ve < ke + 1 || ve > stop {
                Seq::empty()
            } else {
                seq![(key, field_value(f.subrange(ke + 1, ve)))] + nested_pairs(f, ve, stop)
            }
        } else {
            seq![(key, ValueView::Str(Seq::empty()))] + nested_pairs(f, ke, stop)
        }
    } else {
        nested_pairs(f, p + 1, stop)
    }
}

/// The items of a nested array field from `p` on: each US opens an item.
pub open spec fn nested_items(f: Seq<u8>, p: int, stop: int) -> Seq<ValueView>
    decreases f.len(), 1int, stop - p,
{
    if p < 1 || p >= stop || stop > f.len() {
        Seq::empty()
    } else if f[p] == US {
        let ie = item_end(f, p + 1, stop, US);
        if ie < p + 1 || ie > stop {
            Seq::empty()
        } else {
            seq![field_value(f.subrange(p + 1, ie))] + nested_items(f, ie, stop)
        }
    } else {
        nested_items(f, p + 1, stop)
    }
}

proof fn lemma_key_end(f: Seq<u8>, p: int, stop: int)
    requires
        0 <= p <= stop <= f.len(),
    ensures
        p <= key_end(f, p, stop) <= stop,
        key_end(f, p, stop) < stop ==> f[key_end(f, p, stop)] == US,
    decreases stop - p,
{
    if p < stop && f[p] != US {
        if f[p] == DLE {
            lemma_key_end(f, clamp(p + 2, stop), stop);
        } else {
            lemma_key_end(f, p + 1, stop);
        }
    }
}

proof fn lemma_item_end(f: Seq<u8>, p: int, stop: int, sep: u8)
    requires
        0 <= p <= stop <= f.len(),
    ensures
        p <= item_end(f, p, stop, sep) <= stop,
    decreases stop - p,
{
    if p < stop && f[p] != sep {
        if f[p] == STX {
            lemma_nested_end(f, p + 1, 1, stop);
            let q = nested_end(f, p + 1, 1, stop);
            if q > p && q <= stop {
                lemma_item_end(f, q, stop, sep);
            }
        } else if f[p] == DLE {
            lemma_item_end(f, clamp(p + 2, stop), stop, sep);
        } else {
            lemma_item_end(f, p + 1, stop, sep);
        }
    }
}

fn scan_key_end(f: &[u8], pos: usize, stop: usize) -> (r: usize)
    requires
        pos <= stop <= f@.len(),
    ensures
        r == key_end(f@, pos as int, stop as int),
{
    let mut p = pos;
    proof {
        lemma_key_end(f@, pos as int, stop as int);
    }
    while p < stop && f[p] != US
        invariant
            pos <= p <= stop <= f@.len(),
            key_end(f@, p as int, stop as int) == key_end(f@, pos as int, stop as int),
        decreases stop - p,
    {
        if f[p] == DLE {
            if stop - p < 2 {
                p = stop;
            } else {
                p = p + 2;
            }
        } else {
            p = p + 1;
        }
    }
    p
}

fn scan_item_end(f: &[u8], pos: usize, stop: usize, sep: u8) -> (r: usize)
    requires
        pos <= stop <= f@.len(),
    ensures
        r == item_end(f@, pos as int, stop as int, sep),
{
    let mut p = pos;
    proof {
        lemma_item_end(f@, pos as int, stop as int, sep);
    }
    while p < stop && f[p] != sep
        invariant
            pos <= p <= stop <= f@.len(),
            item_end(f@, p as int, stop as int, sep) == item_end(f@, pos as int, stop as int, sep),
        decreases stop - p,
    {
        if f[p] == STX {
            p = skip_nested(f, p, stop);
        } else if f[p] == DLE {
            if stop - p < 2 {
                p = stop;
            } else {
                p = p + 2;
            }
        } else {
            p = p + 1;
        }
    }
    p
}

fn scan_has_rs(f: &[u8], pos: usize, stop: usize) -> (r: bool)
    requires
        pos <= stop <= f@.len(),
    ensures
        r == has_rs_from(f@, pos as int, stop as int),
{
    let mut p = pos;
    while p < stop
        invariant
            pos <= p <= stop <= f@.len(),
            has_rs_from(f@, p as int, stop as int) == has_rs_from(f@, pos as int, stop as int),
        decreases stop - p,
    {
        if f[p] == RS {
            return true;
        } else if f[p] == STX {
            p = skip_nested(f, p, stop);
        } else if f[p] == DLE {
            if stop - p < 2 {
                p = stop;
            } else {
                p = p + 2;
            }
        } else {
            p = p + 1;
        }
    }
    false
}

fn unescape_string(b: &[u8]) -> (r: String)
    ensures
        r@ == value_text(b@),
{
    match unescape(b) {
        Cow::Borrowed(x) => bytes_to_string(x),
        Cow::Owned(v) => bytes_to_string(v.as_slice()),
    }
}

/// The text of each pair and the value tree of each value.
pub open spec fn pairs_view(v: Seq<(String, Value)>) -> Seq<(Seq<char>, ValueView)> {
    Seq::new(v.len(), |i: int| (v[i].0@, value_view(v[i].1)))
}

/// The value tree of each item.
pub open spec fn items_view(v: Seq<Value>) -> Seq<ValueView> {
    Seq::new(v.len(), |i: int| value_view(v[i]))
}

proof fn lemma_object_view(v: Vec<(String, Value)>)
    ensures
        value_view(Value::Object(v)) == ValueView::Object(pairs_view(v@)),
{
    match value_view(Value::Object(v)) {
        ValueView::Object(x) => {
            assert(x.len() == v@.len());
            assert(x =~= pairs_view(v@));
        },
        _ => {
            assert(false);
        },
    }
}

proof fn lemma_array_view(v: Vec<Value>)
    ensures
        value_view(Value::Array(v)) == ValueView::Array(items_view(v@)),
{
    match value_view(Value::Array(v)) {
        ValueView::Array(x) => {
            assert(x.len() == v@.len());
            assert(x =~= items_view(v@));
        },
        _ => {
            assert(false);
        },
    }
}

// A field's bytes as a value. A field opening with STX is a nested structure.
fn field_to_value(field: &[u8]) -> (r: Value)
    ensures
        value_view(r) == field_value(field@),
    decreases field@.len(), 3int, 0int,
{
    if field.len() > 0 && field[0] == STX {
        parse_nested_field(field)
    } else {
        Value::Str(unescape_string(field))
    }
}

// A nested field (STX ... ETX): RS inside makes a key-value object, else an
// array.
fn parse_nested_field(field: &[u8]) -> (r: Value)
    ensures
        value_view(r) == nested_value(field@),
    decreases field@.len(), 2int, 0int,
{
    let len = field.len();
    let stop = if len > 0 && field[len - 1] == ETX {
        len - 1
    } else {
        len
    };
    let start: usize = if len > 0 {
        1
    } else {
        0
    };
    if start > stop {
        let empty: Vec<Value> = Vec::new();
        proof {
            assert(!has_rs_from(field@, start as int, stop as int));
            assert(nested_items(field@, start as int, stop as int) == Seq::<ValueView>::empty());
            lemma_array_view(empty);
            assert(items_view(empty@) =~= Seq::<ValueView>::empty());
        }
        return Value::Array(empty);
    }
    if scan_has_rs(field, start, stop) {
        parse_nested_kv(field, start, stop)
    } else {
        parse_nested_array(field, start, stop)
    }
}

fn parse_nested_kv(field: &[u8], start: usize, stop: usize) -> (r: Value)
    requires
        start <= stop <= field@.len(),
    ensures
        value_view(r) == ValueView::Object(nested_pairs(field@, start as int, stop as int)),
    decreases field@.len(), 1int, 0int,
{
    let mut obj: Vec<(String, Value)> = Vec::new();
    let mut pos = start;
    let ghost f = field@;
    proof {
        assert(pairs_view(obj@) =~= Seq::<(Seq<char>, ValueView)>::empty());
    }
    while pos < stop
        invariant
            f == field@,
            start <= pos <= stop <= f.len(),
            nested_pairs(f, start as int, stop as int) == pairs_view(obj@) + nested_pairs(
                f,
                pos as int,
                stop as int,
            ),
        decreases stop - pos,
    {
        if pos < 1 {
            proof {
                assert(nested_pairs(f, pos as int, stop as int) == Seq::<(Seq<char>, ValueView)>::empty());
                assert(pairs_view(obj@) + Seq::<(Seq<char>, ValueView)>::empty() =~= pairs_view(obj@));
            }
            pos = stop;
        } else if field[pos] == RS {
            let ke = scan_key_end(field, pos + 1, stop);
            proof {
                lemma_key_end(f, pos + 1, stop as int);
            }
            let key = unescape_string(vstd::slice::slice_subrange(field, pos + 1, ke));
            let ghost before = pairs_view(obj@);
            if ke < stop && field[ke] == US {
                let ve = scan_item_end(field, ke + 1, stop, RS);
                proof {
                    lemma_item_end(f, ke + 1, stop as int, RS);
                }
                let v = field_to_value(vstd::slice::slice_subrange(field, ke + 1, ve));
                obj.push((key, v));
                proof {
                    let rest = nested_pairs(f, ve as int, stop as int);
                    assert(pairs_view(obj@) =~= before.push((key@, value_view(v))));
                    assert(before + (seq![(key@, value_view(v))] + rest) =~= before.push(
                        (key@, value_view(v)),
                    ) + rest);
                }
                pos = ve;
            } else {
                let empty = Value::Str(String::new());
                obj.push((key, empty));
                proof {
                    let rest = nested_pairs(f, ke as int, stop as int);
                    assert(value_view(empty) == ValueView::Str(Seq::<char>::empty()));
                    assert(pairs_view(obj@) =~= before.push((key@, ValueView::Str(Seq::empty()))));
                    assert(before + (seq![(key@, ValueView::Str(Seq::empty()))] + rest) =~= before.push(
                        (key@, ValueView::Str(Seq::empty())),
                    ) + rest);
                }
                pos = ke;
            }
        } else {
            pos = pos + 1;
        }
    }
    proof {
        assert(pairs_view(obj@) + Seq::<(Seq<char>, ValueView)>::empty() =~= pairs_view(obj@));
        lemma_object_view(obj);
    }
    Value::Object(obj)
}

fn parse_nested_array(field: &[u8], start: usize, stop: usize) -> (r: Value)
    requires
        start <= stop <= field@.len(),
    ensures
        value_view(r) == ValueView::Array(nested_items(field@, start as int, stop as int)),
    decreases field@.len(), 1int, 0int,
{
    let mut items: Vec<Value> = Vec::new();
    let mut pos = start;
    let ghost f = field@;
    proof {
        assert(items_view(items@) =~= Seq::<ValueView>::empty());
    }
    while pos < stop
        invariant
            f == field@,
            start <= pos <= stop <= f.len(),
            nested_items(f, start as int, stop as int) == items_view(items@) + nested_items(
                f,
                pos as int,
                stop as int,
            ),
        decreases stop - pos,
    {
        if pos < 1 {
            proof {
                assert(nested_items(f, pos as int, stop as int) == Seq::<ValueView>::empty());
                assert(items_view(items@) + Seq::<ValueView>::empty() =~= items_view(items@));
            }
            pos = stop;
        } else if field[pos] == US {
            let ie = scan_item_end(field, pos + 1, stop, US);
            proof {
                lemma_item_end(f, pos + 1, stop as int, US);
            }
            let ghost before = items_view(items@);
            let v = field_to_value(vstd::slice::slice_subrange(field, pos + 1, ie));
            items.push(v);
            proof {
                let rest = nested_items(f, ie as int, stop as int);
                assert(items_view(items@) =~= before.push(value_view(v)));
                assert(before + (seq![value_view(v)] + rest) =~= before.push(value_view(v)) + rest);
            }
            pos = ie;
        } else {
            pos = pos + 1;
        }
    }
    proof {
        assert(items_view(items@) + Seq::<ValueView>::empty() =~= items_view(items@));
        lemma_array_view(items);
    }
    Value::Array(items)
}

/// Record `i` of a tabular group: its fields keyed by the header names.
pub open spec fn table_row_pairs(t: TableView, i: int) -> Seq<(Seq<char>, ValueView)> {
    Seq::new(
        t.headers.len(),
        |j: int| (utf8_lossy(t.headers[j]), field_value(field_of(t.records[i], j))),
    )
}

/// A tabular group: an array of objects keyed by the header names.
pub open spec fn table_rows_value(t: TableView) -> ValueView {
    ValueView::Array(
        Seq::new(t.records.len(), |i: int| ValueView::Object(table_row_pairs(t, i))),
    )
}

/// A key-value group: one pair per record.
pub open spec fn kv_rows_value(t: TableView) -> ValueView {
    ValueView::Object(
        Seq::new(
            t.records.len(),
            |i: int|
                (value_text(field_of(t.records[i], 0)), field_value(field_of(t.records[i], 1))),
        ),
    )
}

/// The field values of a raw record.
pub open spec fn record_items(r: Seq<u8>) -> Seq<ValueView> {
    Seq::new(fields_of(r).len(), |j: int| field_value(fields_of(r)[j]))
}

/// Raw records: an array of arrays of field values.
pub open spec fn raw_rows_value(t: TableView) -> ValueView {
    ValueView::Array(
        Seq::new(t.records.len(), |i: int| ValueView::Array(record_items(t.records[i]))),
    )
}

/// The value of a group's data: tabular with a header; key-value when
/// the first record has exactly two fields; raw records otherwise; an
/// empty array without records.
pub open spec fn group_value(t: TableView) -> ValueView {
    if t.headers.len() > 0 {
        table_rows_value(t)
    } else if t.records.len() > 0 && fields_of(t.records[0]).len() == 2 {
        kv_rows_value(t)
    } else if t.records.len() > 0 {
        raw_rows_value(t)
    } else {
        ValueView::Array(Seq::empty())
    }
}

/// The value tree of C0DATA bytes: a document maps its file name (if any)
/// to its groups, a bare group maps its name to its data, and anything else
/// is an empty object.
pub open spec fn value_of(s: Seq<u8>) -> ValueView {
    if s.len() > 0 && s[0] == FS {
        let d = document_of(s);
        let groups = Seq::new(
            d.groups.len(),
            |i: int|
                (
                    utf8_lossy(group_name_of(s, d.groups[i].0, d.groups[i].1)),
                    group_value(table_at(s, d.groups[i].0)),
                ),
        );
        let name = utf8_lossy(d.name);
        if name.len() == 0 {
            ValueView::Object(groups)
        } else {
            ValueView::Object(seq![(name, ValueView::Object(groups))])
        }
    } else if s.len() > 0 && s[0] == GS {
        let t = table_at(s, 0);
        ValueView::Object(seq![(utf8_lossy(t.name), group_value(t))])
    } else {
        ValueView::Object(Seq::empty())
    }
}

/// An object keyed, in order, by the names of a document's groups.
pub open spec fn keyed_by_groups(s: Seq<u8>, g: Seq<(Seq<char>, ValueView)>) -> bool {
    let d = document_of(s);
    &&& g.len() == d.groups.len()
    &&& forall|i: int|
        0 <= i < g.len() ==> (#[trigger] g[i]).0 == utf8_lossy(
            group_name_of(s, d.groups[i].0, d.groups[i].1),
        )
}

/// A document converts to an object. With a file name it has exactly one
/// key, the file name, and its value is the object of the document's groups
/// (whether or not there are any); without one it is that object itself.
/// Either way the groups' object has one key per group, its name, in order.
pub proof fn document_value_shape(s: Seq<u8>)
    requires
        s.len() > 0,
        s[0] == FS,
    ensures
        utf8_lossy(document_of(s).name).len() > 0 ==> (value_of(s) matches ValueView::Object(o) && o.len()
            == 1 && o[0].0 == utf8_lossy(document_of(s).name) && (o[0].1 matches ValueView::Object(g)
            && keyed_by_groups(s, g))),
        utf8_lossy(document_of(s).name).len() == 0 ==> (value_of(s) matches ValueView::Object(g)
            && keyed_by_groups(s, g)),
{
}

// Tabular: array of objects with header keys.
fn export_table(t: &Table) -> (r: Value)
    ensures
        value_view(r) == table_rows_value(t.view()),
{
    let nh = t.header_count();
    let mut headers: Vec<String> = Vec::new();
    for i in 0..nh
        invariant
            nh == t.view().headers.len(),
            headers@.len() == i,
            forall|k: int| 0 <= k < i ==> (#[trigger] headers@[k])@ == utf8_lossy(t.view().headers[k]),
    {
        headers.push(bytes_to_string(t.header(i)));
    }
    let recs = t.records();
    let nr = recs.len();
    let mut rows: Vec<Value> = Vec::new();
    let ghost want = match table_rows_value(t.view()) {
        ValueView::Array(x) => x,
        _ => Seq::empty(),
    };
    for i in 0..nr
        invariant
            nh == t.view().headers.len() == headers@.len(),
            nr == recs@.len() == t.view().records.len(),
            forall|k: int| 0 <= k < recs@.len() ==> (#[trigger] recs@[k]).view() == t.view().records[k],
            forall|k: int| 0 <= k < nh ==> (#[trigger] headers@[k])@ == utf8_lossy(t.view().headers[k]),
            want == match table_rows_value(t.view()) {
                ValueView::Array(x) => x,
                _ => Seq::empty(),
            },
            items_view(rows@) == want.take(i as int),
    {
        let rec = &recs[i];
        let mut row: Vec<(String, Value)> = Vec::new();
        for j in 0..nh
            invariant
                nh == headers@.len() == t.view().headers.len(),
                forall|k: int| 0 <= k < nh ==> (#[trigger] headers@[k])@ == utf8_lossy(t.view().headers[k]),
                rec.view() == t.view().records[i as int],
                0 <= i < t.view().records.len(),
                pairs_view(row@) == table_row_pairs(t.view(), i as int).take(j as int),
        {
            let key = headers[j].clone();
            let f = rec.field(j);
            let v = field_to_value(f);
            let ghost before = pairs_view(row@);
            row.push((key, v));
            proof {
                assert(key@ == utf8_lossy(t.view().headers[j as int]));
                assert(value_view(v) == field_value(field_of(t.view().records[i as int], j as int)));
                assert(pairs_view(row@) =~= before.push((key@, value_view(v))));
                assert(table_row_pairs(t.view(), i as int).take(j + 1) =~= table_row_pairs(
                    t.view(),
                    i as int,
                ).take(j as int).push(table_row_pairs(t.view(), i as int)[j as int]));
            }
        }
        proof {
            lemma_object_view(row);
            assert(table_row_pairs(t.view(), i as int).take(nh as int) =~= table_row_pairs(
                t.view(),
                i as int,
            ));
            assert(want[i as int] == ValueView::Object(table_row_pairs(t.view(), i as int)));
        }
        let ghost before_rows = items_view(rows@);
        let row_value = Value::Object(row);
        rows.push(row_value);
        proof {
            assert(items_view(rows@) =~= before_rows.push(value_view(row_value)));
            assert(want.take(i + 1) =~= want.take(i as int).push(want[i as int]));
        }
    }
    proof {
        lemma_array_view(rows);
        assert(want.take(nr as int) =~= want);
    }
    Value::Array(rows)
}

// Key-value: flat object (records of exactly two fields).
fn export_kv(t: &Table) -> (r: Value)
    ensures
        value_view(r) == kv_rows_value(t.view()),
{
    let recs = t.records();
    let nr = recs.len();
    let mut obj: Vec<(String, Value)> = Vec::new();
    let ghost want = match kv_rows_value(t.view()) {
        ValueView::Object(x) => x,
        _ => Seq::empty(),
    };
    for i in 0..nr
        invariant
            nr == recs@.len() == t.view().records.len(),
            forall|k: int| 0 <= k < recs@.len() ==> (#[trigger] recs@[k]).view() == t.view().records[k],
            want == match kv_rows_value(t.view()) {
                ValueView::Object(x) => x,
                _ => Seq::empty(),
            },
            pairs_view(obj@) == want.take(i as int),
    {
        let rec = &recs[i];
        let key = unescape_string(rec.field(0));
        let v = field_to_value(rec.field(1));
        let ghost before = pairs_view(obj@);
        obj.push((key, v));
        proof {
            assert(rec.view() == t.view().records[i as int]);
            assert(want[i as int] == (key@, value_view(v)));
            assert(pairs_view(obj@) =~= before.push((key@, value_view(v))));
            assert(want.take(i + 1) =~= want.take(i as int).push(want[i as int]));
        }
    }
    proof {
        lemma_object_view(obj);
        assert(want.take(nr as int) =~= want);
    }
    Value::Object(obj)
}

// Raw records: array of arrays.
fn export_records(t: &Table) -> (r: Value)
    ensures
        value_view(r) == raw_rows_value(t.view()),
{
    let recs = t.records();
    let nr = recs.len();
    let mut rows: Vec<Value> = Vec::new();
    let ghost want = match raw_rows_value(t.view()) {
        ValueView::Array(x) => x,
        _ => Seq::empty(),
    };
    for i in 0..nr
        invariant
            nr == recs@.len() == t.view().records.len(),
            forall|k: int| 0 <= k < recs@.len() ==> (#[trigger] recs@[k]).view() == t.view().records[k],
            want == match raw_rows_value(t.view()) {
                ValueView::Array(x) => x,
                _ => Seq::empty(),
            },
            items_view(rows@) == want.take(i as int),
    {
        let rec = &recs[i];
        let nf = rec.field_count();
        let mut fields: Vec<Value> = Vec::new();
        for j in 0..nf
            invariant
                nf == fields_of(rec.view()).len(),
                rec.view() == t.view().records[i as int],
                items_view(fields@) == record_items(rec.view()).take(j as int),
        {
            let v = field_to_value(rec.field(j));
            let ghost before = items_view(fields@);
            fields.push(v);
            proof {
                assert(items_view(fields@) =~= before.push(value_view(v)));
                assert(record_items(rec.view()).take(j + 1) =~= record_items(rec.view()).take(
                    j as int,
                ).push(record_items(rec.view())[j as int]));
            }
        }
        proof {
            lemma_array_view(fields);
            assert(record_items(rec.view()).take(nf as int) =~= record_items(rec.view()));
            assert(want[i as int] == ValueView::Array(record_items(t.view().records[i as int])));
        }
        let ghost before_rows = items_view(rows@);
        let row_value = Value::Array(fields);
        rows.push(row_value);
        proof {
            assert(items_view(rows@) =~= before_rows.push(value_view(row_value)));
            assert(want.take(i + 1) =~= want.take(i as int).push(want[i as int]));
        }
    }
    proof {
        lemma_array_view(rows);
        assert(want.take(nr as int) =~= want);
    }
    Value::Array(rows)
}

fn export_group_data(t: &Table) -> (r: Value)
    ensures
        value_view(r) == group_value(t.view()),
{
    if t.header_count() > 0 {
        export_table(t)
    } else if t.record_count() > 0 && t.record(0).field_count() == 2 {
        export_kv(t)
    } else if t.record_count() > 0 {
        export_records(t)
    } else {
        let empty: Vec<Value> = Vec::new();
        proof {
            lemma_array_view(empty);
            assert(items_view(empty@) =~= Seq::<ValueView>::empty());
        }
        Value::Array(empty)
    }
}

fn export_document(doc: &Document) -> (r: Value)
    requires
        doc.source().len() > 0 && doc.source()[0] == FS,
    ensures
        value_view(r) == value_of(doc.source()),
{
    proof {
        doc.lemma_view();
    }
    let name = bytes_to_string(doc.name());
    let gs = doc.groups();
    let n = gs.len();
    let ghost s = doc.source();
    let ghost d = document_of(s);
    let mut groups: Vec<(String, Value)> = Vec::new();
    for i in 0..n
        invariant
            n == gs@.len() == d.groups.len(),
            s == doc.source(),
            d == document_of(s),
            doc.view() == d,
            forall|k: int|
                0 <= k < gs@.len() ==> (#[trigger] gs@[k]).source() == s && (
                gs@[k].start(),
                gs@[k].end(),
            ) == d.groups[k],
            pairs_view(groups@) == Seq::new(
                i as nat,
                |k: int|
                    (
                        utf8_lossy(group_name_of(s, d.groups[k].0, d.groups[k].1)),
                        group_value(table_at(s, d.groups[k].0)),
                    ),
            ),
    {
        let g = &gs[i];
        let gname = bytes_to_string(g.name());
        let t = g.table();
        let v = export_group_data(&t);
        let ghost before = pairs_view(groups@);
        groups.push((gname, v));
        assert(pairs_view(groups@) =~= before.push((gname@, value_view(v))));
        assert(pairs_view(groups@) =~= Seq::new(
            (i + 1) as nat,
            |k: int|
                (
                    utf8_lossy(group_name_of(s, d.groups[k].0, d.groups[k].1)),
                    group_value(table_at(s, d.groups[k].0)),
                ),
        ));
    }
    proof {
        lemma_object_view(groups);
    }
    if name.as_str().is_empty() {
        Value::Object(groups)
    } else {
        let inner = Value::Object(groups);
        let mut top: Vec<(String, Value)> = Vec::new();
        top.push((name, inner));
        proof {
            lemma_object_view(top);
            assert(pairs_view(top@) =~= seq![(name@, value_view(inner))]);
        }
        Value::Object(top)
    }
}

/// Build an intermediate [`Value`] tree from C0DATA bytes, detecting whether
/// the data is tabular, key-value, nested, or document-shaped.
pub fn to_value(buf: &[u8]) -> (r: Value)
    ensures
        value_view(r) == value_of(buf@),
{
    if buf.len() > 0 && buf[0] == FS {
        let doc = Document::new(buf);
        export_document(&doc)
    } else if buf.len() > 0 && buf[0] == GS {
        let t = Table::new(buf);
        let name = bytes_to_string(t.name());
        let v = export_group_data(&t);
        let mut top: Vec<(String, Value)> = Vec::new();
        top.push((name, v));
        proof {
            lemma_object_view(top);
            assert(pairs_view(top@) =~= seq![(name@, value_view(v))]);
        }
        Value::Object(top)
    } else {
        let empty: Vec<(String, Value)> = Vec::new();
        proof {
            lemma_object_view(empty);
            assert(pairs_view(empty@) =~= Seq::<(Seq<char>, ValueView)>::empty());
        }
        Value::Object(empty)
    }
}

// ---- import: values to C0DATA ----

/// Text as escaped bytes.
pub open spec fn esc_text(t: Seq<char>) -> Seq<u8> {
    escape(encode_utf8(t))
}

/// A scalar's text; nothing for a nested value.
pub open spec fn scalar_text(v: ValueView) -> Seq<char> {
    match v {
        ValueView::Str(s) => s,
        _ => Seq::empty(),
    }
}

/// Every value of the pairs is a scalar.
pub open spec fn all_scalar(pairs: Seq<(Seq<char>, ValueView)>) -> bool {
    forall|i: int| 0 <= i < pairs.len() ==> (#[trigger] pairs[i]).1 is Str
}

/// Every value of the pairs is an object or an array.
pub open spec fn all_groupable(pairs: Seq<(Seq<char>, ValueView)>) -> bool {
    forall|i: int| 0 <= i < pairs.len() ==> !((#[trigger] pairs[i]).1 is Str)
}

/// The keys of pairs.
pub open spec fn keys_of(pairs: Seq<(Seq<char>, ValueView)>) -> Seq<Seq<char>> {
    Seq::new(pairs.len(), |i: int| pairs[i].0)
}

/// The pairs of an object value; nothing for other values.
pub open spec fn object_pairs(v: ValueView) -> Seq<(Seq<char>, ValueView)> {
    match v {
        ValueView::Object(p) => p,
        _ => Seq::empty(),
    }
}

/// An array is tabular when it is a non-empty array of objects that all
/// have the keys of the first, in the same order.
pub open spec fn is_tabular(arr: Seq<ValueView>) -> bool {
    &&& arr.len() > 0
    &&& forall|i: int| 0 <= i < arr.len() ==> (#[trigger] arr[i]) is Object
    &&& forall|i: int|
        0 <= i < arr.len() ==> keys_of(object_pairs(#[trigger] arr[i])) == keys_of(object_pairs(arr[0]))
}

/// A value written as a record field: scalars escaped; nested values in
/// STX/ETX, objects as RS key US value, arrays as US item.
pub open spec fn field_bytes(v: ValueView) -> Seq<u8>
    decreases v,
{
    match v {
        ValueView::Str(s) => esc_text(s),
        ValueView::Object(p) => seq![STX] + pair_fields_bytes(p) + seq![ETX],
        ValueView::Array(a) => seq![STX] + item_fields_bytes(a) + seq![ETX],
    }
}

/// Pairs written inside a nested field.
pub open spec fn pair_fields_bytes(p: Seq<(Seq<char>, ValueView)>) -> Seq<u8>
    decreases p,
{
    if p.len() == 0 {
        Seq::empty()
    } else {
        pair_fields_bytes(p.subrange(0, p.len() - 1)) + seq![RS] + esc_text(p[p.len() - 1].0)
            + seq![US] + field_bytes(p[p.len() - 1].1)
    }
}

/// Items written inside a nested field.
pub open spec fn item_fields_bytes(a: Seq<ValueView>) -> Seq<u8>
    decreases a,
{
    if a.len() == 0 {
        Seq::empty()
    } else {
        item_fields_bytes(a.subrange(0, a.len() - 1)) + seq![US] + field_bytes(a[a.len() - 1])
    }
}

/// A group opening: GS and the name.
pub open spec fn group_open(name: Seq<u8>) -> Seq<u8> {
    seq![GS] + name
}

/// Records of key-value pairs: RS key US value, with scalar values written
/// as text when `scalar` holds and as fields otherwise.
pub open spec fn kv_records(p: Seq<(Seq<char>, ValueView)>, scalar: bool) -> Seq<u8>
    decreases p.len(),
{
    if p.len() == 0 {
        Seq::empty()
    } else {
        let last = p.last();
        kv_records(p.drop_last(), scalar) + seq![RS] + esc_text(last.0) + seq![US] + (if scalar {
            esc_text(scalar_text(last.1))
        } else {
            field_bytes(last.1)
        })
    }
}

/// The first pair with key `k` from index `i` on, or -1.
pub open spec fn find_key(p: Seq<(Seq<char>, ValueView)>, k: Seq<char>, i: int) -> int
    decreases p.len() - i,
{
    if i < 0 || i >= p.len() {
        -1
    } else if p[i].0 == k {
        i
    } else {
        find_key(p, k, i + 1)
    }
}

/// One row of a tabular array: the value of each header key, US between.
pub open spec fn tabular_row(p: Seq<(Seq<char>, ValueView)>, keys: Seq<Seq<char>>) -> Seq<u8>
    decreases keys.len(),
{
    if keys.len() == 0 {
        Seq::empty()
    } else {
        let k = keys.last();
        let i = find_key(p, k, 0);
        tabular_row(p, keys.drop_last()) + (if keys.len() > 1 {
            seq![US]
        } else {
            Seq::empty()
        }) + (if i >= 0 {
            field_bytes(p[i].1)
        } else {
            Seq::empty()
        })
    }
}

/// The rows of a tabular array.
pub open spec fn tabular_rows(arr: Seq<ValueView>, keys: Seq<Seq<char>>) -> Seq<u8>
    decreases arr.len(),
{
    if arr.len() == 0 {
        Seq::empty()
    } else {
        tabular_rows(arr.drop_last(), keys) + seq![RS] + tabular_row(object_pairs(arr.last()), keys)
    }
}

/// One item of a non-tabular array, as records.
pub open spec fn item_records(v: ValueView) -> Seq<u8> {
    match v {
        ValueView::Str(s) => seq![RS] + esc_text(s),
        ValueView::Array(a) => seq![RS] + joined(Seq::new(a.len(), |j: int| field_bytes(a[j]))),
        ValueView::Object(p) => kv_records(p, false),
    }
}

/// The items of a non-tabular array, as records.
pub open spec fn items_records(arr: Seq<ValueView>) -> Seq<u8>
    decreases arr.len(),
{
    if arr.len() == 0 {
        Seq::empty()
    } else {
        items_records(arr.drop_last()) + item_records(arr.last())
    }
}

/// The text of each key, as bytes.
pub open spec fn keys_bytes(keys: Seq<Seq<char>>) -> Seq<Seq<u8>> {
    Seq::new(keys.len(), |i: int| encode_utf8(keys[i]))
}

/// An array as a group: a header and one record per object when tabular,
/// else one or more records per item.
pub open spec fn array_group(arr: Seq<ValueView>, name: Seq<u8>) -> Seq<u8> {
    if is_tabular(arr) {
        let keys = keys_of(object_pairs(arr[0]));
        group_open(name) + seq![SOH] + joined(keys_bytes(keys)) + tabular_rows(arr, keys)
    } else {
        group_open(name) + items_records(arr)
    }
}

/// One named value as a group.
pub open spec fn named_group(name: Seq<char>, v: ValueView) -> Seq<u8> {
    match v {
        ValueView::Object(inner) => group_open(encode_utf8(name)) + kv_records(inner, all_scalar(inner)),
        ValueView::Array(arr) => array_group(arr, encode_utf8(name)),
        ValueView::Str(s) => group_open(encode_utf8(name)) + seq![RS] + esc_text(s),
    }
}

/// Each pair of an object as a group.
pub open spec fn hash_groups(pairs: Seq<(Seq<char>, ValueView)>) -> Seq<u8>
    decreases pairs.len(),
{
    if pairs.len() == 0 {
        Seq::empty()
    } else {
        hash_groups(pairs.drop_last()) + named_group(pairs.last().0, pairs.last().1)
    }
}

/// The C0DATA bytes of a value tree: an all-scalar object is one key-value
/// group; an object with a single object of groups under one key is a
/// document with that file name; any other object is one group per pair; an
/// array is one group; a string is one record.
pub open spec fn root_bytes(v: ValueView, group_name: Seq<u8>) -> Seq<u8> {
    match v {
        ValueView::Object(pairs) => if all_scalar(pairs) {
            group_open(group_name) + kv_records(pairs, true)
        } else if pairs.len() == 1 && pairs[0].1 is Object && all_groupable(object_pairs(pairs[0].1)) {
            seq![FS] + encode_utf8(pairs[0].0) + hash_groups(object_pairs(pairs[0].1))
        } else {
            hash_groups(pairs)
        },
        ValueView::Array(items) => array_group(items, group_name),
        ValueView::Str(s) => group_open(group_name) + seq![RS] + esc_text(s),
    }
}


fn write_escaped(s: &str, out: &mut Vec<u8>)
    ensures
        final(out)@ == old(out)@ + esc_text(s@),
{
    let bytes = s.as_bytes();
    let ghost start = out@;
    let n = bytes.len();
    for i in 0..n
        invariant
            n == bytes@.len(),
            bytes@ == encode_utf8(s@),
            out@ == start + escape(bytes@.take(i as int)),
    {
        let byte = bytes[i];
        if byte < 0x20 {
            out.push(DLE);
        }
        out.push(byte);
        proof {
            lemma_escape_step(bytes@, i as int);
        }
    }
    proof {
        assert(bytes@.take(n as int) =~= bytes@);
    }
}

fn write_raw(s: &str, out: &mut Vec<u8>)
    ensures
        final(out)@ == old(out)@ + encode_utf8(s@),
{
    let ghost start = out@;
    out.extend_from_slice(s.as_bytes());
    assert(out@ =~= start + encode_utf8(s@));
}

fn write_group(name: &str, out: &mut Vec<u8>)
    ensures
        final(out)@ == old(out)@ + group_open(encode_utf8(name@)),
{
    let ghost start = out@;
    out.push(GS);
    write_raw(name, out);
    assert(out@ =~= start + group_open(encode_utf8(name@)));
}

// A value as a record field: scalars directly, nested values in STX/ETX.
fn emit_field_value(value: &Value, out: &mut Vec<u8>)
    ensures
        final(out)@ == old(out)@ + field_bytes(value_view(*value)),
    decreases value,
{
    let ghost start = out@;
    match value {
        Value::Str(s) => write_escaped(s.as_str(), out),
        Value::Object(p) => {
            proof {
                lemma_object_view(*p);
            }
            let ghost pv = pairs_view(p@);
            out.push(STX);
            let n = p.len();
            for i in 0..n
                invariant
                    n == p@.len() == pv.len(),
                    pv == pairs_view(p@),
                    *value == Value::Object(*p),
                    out@ == start + seq![STX] + pair_fields_bytes(pv.take(i as int)),
            {
                let ghost mid = out@;
                out.push(RS);
                write_escaped(p[i].0.as_str(), out);
                out.push(US);
                proof {
                    assert(decreases_to!(*value => (*value)->Object_0));
                    vstd::std_specs::vec::axiom_vec_index_decreases(*p, i as int);
                    assert(decreases_to!(p@[i as int] => p@[i as int].1));
                }
                emit_field_value(&p[i].1, out);
                proof {
                    let t = pv.take(i + 1);
                    assert(t.subrange(0, t.len() - 1) =~= pv.take(i as int));
                    assert(out@ =~= start + seq![STX] + pair_fields_bytes(t));
                }
            }
            out.push(ETX);
            proof {
                assert(pv.take(n as int) =~= pv);
                assert(out@ =~= start + field_bytes(value_view(*value)));
            }
        },
        Value::Array(a) => {
            proof {
                lemma_array_view(*a);
            }
            let ghost av = items_view(a@);
            out.push(STX);
            let n = a.len();
            for i in 0..n
                invariant
                    n == a@.len() == av.len(),
                    av == items_view(a@),
                    *value == Value::Array(*a),
                    out@ == start + seq![STX] + item_fields_bytes(av.take(i as int)),
            {
                out.push(US);
                proof {
                    assert(decreases_to!(*value => (*value)->Array_0));
                    vstd::std_specs::vec::axiom_vec_index_decreases(*a, i as int);
                }
                emit_field_value(&a[i], out);
                proof {
                    let t = av.take(i + 1);
                    assert(t.subrange(0, t.len() - 1) =~= av.take(i as int));
                    assert(out@ =~= start + seq![STX] + item_fields_bytes(t));
                }
            }
            out.push(ETX);
            proof {
                assert(av.take(n as int) =~= av);
                assert(out@ =~= start + field_bytes(value_view(*value)));
            }
        },
    }
}


// Records of key-value pairs (RS key US value); with `scalar` each value is
// written as its text, otherwise as a field.
fn emit_kv_records(p: &Vec<(String, Value)>, scalar: bool, out: &mut Vec<u8>)
    ensures
        final(out)@ == old(out)@ + kv_records(pairs_view(p@), scalar),
{
    let ghost start = out@;
    let ghost pv = pairs_view(p@);
    let n = p.len();
    for i in 0..n
        invariant
            n == p@.len() == pv.len(),
            pv == pairs_view(p@),
            out@ == start + kv_records(pv.take(i as int), scalar),
    {
        out.push(RS);
        write_escaped(p[i].0.as_str(), out);
        out.push(US);
        if scalar {
            match &p[i].1 {
                Value::Str(v) => write_escaped(v.as_str(), out),
                _ => {},
            }
        } else {
            emit_field_value(&p[i].1, out);
        }
        proof {
            let t = pv.take(i + 1);
            assert(t.drop_last() =~= pv.take(i as int));
            assert(out@ =~= start + kv_records(t, scalar));
        }
    }
    proof {
        assert(pv.take(n as int) =~= pv);
    }
}

// Whether every value of the pairs is a string.
fn every_scalar(pairs: &Vec<(String, Value)>) -> (r: bool)
    ensures
        r == all_scalar(pairs_view(pairs@)),
{
    let n = pairs.len();
    for i in 0..n
        invariant
            n == pairs@.len(),
            forall|k: int| 0 <= k < i ==> (#[trigger] pairs_view(pairs@)[k]).1 is Str,
    {
        match &pairs[i].1 {
            Value::Str(_) => {},
            _ => {
                assert(!(pairs_view(pairs@)[i as int].1 is Str));
                return false;
            },
        }
    }
    true
}

// Whether every value of the pairs is an object or an array.
fn every_groupable(pairs: &Vec<(String, Value)>) -> (r: bool)
    ensures
        r == all_groupable(pairs_view(pairs@)),
{
    let n = pairs.len();
    for i in 0..n
        invariant
            n == pairs@.len(),
            forall|k: int| 0 <= k < i ==> !((#[trigger] pairs_view(pairs@)[k]).1 is Str),
    {
        match &pairs[i].1 {
            Value::Str(_) => {
                assert(pairs_view(pairs@)[i as int].1 is Str);
                return false;
            },
            _ => {},
        }
    }
    true
}

// Whether two objects have the same keys in the same order.
fn same_keys(p: &Vec<(String, Value)>, q: &Vec<(String, Value)>) -> (r: bool)
    ensures
        r == (keys_of(pairs_view(p@)) == keys_of(pairs_view(q@))),
{
    if p.len() != q.len() {
        assert(keys_of(pairs_view(p@)).len() != keys_of(pairs_view(q@)).len());
        return false;
    }
    let n = p.len();
    for i in 0..n
        invariant
            n == p@.len() == q@.len(),
            forall|k: int| 0 <= k < i ==> p@[k].0@ == q@[k].0@,
    {
        if p[i].0 != q[i].0 {
            assert(keys_of(pairs_view(p@))[i as int] != keys_of(pairs_view(q@))[i as int]);
            return false;
        }
    }
    assert(keys_of(pairs_view(p@)) =~= keys_of(pairs_view(q@)));
    true
}

// Whether an array is a non-empty list of objects with the keys of the
// first, in the same order.
fn tabular(arr: &Vec<Value>) -> (r: bool)
    ensures
        r == is_tabular(items_view(arr@)),
{
    let ghost av = items_view(arr@);
    if arr.len() == 0 {
        return false;
    }
    match &arr[0] {
        Value::Object(first) => {
            proof {
                lemma_object_view(*first);
            }
            let n = arr.len();
            for i in 0..n
                invariant
                    n == arr@.len() == av.len(),
                    av == items_view(arr@),
                    av[0] == ValueView::Object(pairs_view(first@)),
                    forall|k: int| 0 <= k < i ==> (#[trigger] av[k]) is Object,
                    forall|k: int|
                        0 <= k < i ==> keys_of(object_pairs(#[trigger] av[k])) == keys_of(
                            pairs_view(first@),
                        ),
            {
                match &arr[i] {
                    Value::Object(p) => {
                        proof {
                            lemma_object_view(*p);
                        }
                        if !same_keys(p, first) {
                            assert(keys_of(object_pairs(av[i as int])) != keys_of(
                                object_pairs(av[0]),
                            ));
                            return false;
                        }
                    },
                    _ => {
                        assert(!(av[i as int] is Object));
                        return false;
                    },
                }
            }
            true
        },
        _ => {
            assert(!(av[0] is Object));
            false
        },
    }
}

// The index of the first pair with key `key`, or the length if none.
fn find_pair(p: &Vec<(String, Value)>, key: &String) -> (j: usize)
    ensures
        j <= p@.len(),
        j < p@.len() <==> find_key(pairs_view(p@), key@, 0) >= 0,
        j < p@.len() ==> find_key(pairs_view(p@), key@, 0) == j,
{
    let ghost pv = pairs_view(p@);
    let n = p.len();
    let mut j: usize = 0;
    while j < n
        invariant
            n == p@.len() == pv.len(),
            pv == pairs_view(p@),
            j <= n,
            find_key(pv, key@, 0) == find_key(pv, key@, j as int),
        decreases n - j,
    {
        if p[j].0 == *key {
            return j;
        }
        j = j + 1;
    }
    j
}

// One row of a tabular array: the value of each header key, US between.
fn emit_tabular_row(p: &Vec<(String, Value)>, headers: &Vec<(String, Value)>, out: &mut Vec<u8>)
    ensures
        final(out)@ == old(out)@ + tabular_row(pairs_view(p@), keys_of(pairs_view(headers@))),
{
    let ghost start = out@;
    let ghost pv = pairs_view(p@);
    let ghost keys = keys_of(pairs_view(headers@));
    let n = headers.len();
    for i in 0..n
        invariant
            n == headers@.len() == keys.len(),
            pv == pairs_view(p@),
            keys == keys_of(pairs_view(headers@)),
            out@ == start + tabular_row(pv, keys.take(i as int)),
    {
        let ghost mid = out@;
        if i > 0 {
            out.push(US);
        }
        let j = find_pair(p, &headers[i].0);
        if j < p.len() {
            emit_field_value(&p[j].1, out);
        }
        proof {
            let t = keys.take(i + 1);
            assert(t.drop_last() =~= keys.take(i as int));
            assert(t.last() == headers@[i as int].0@);
            assert(out@ =~= start + tabular_row(pv, t));
        }
    }
    proof {
        assert(keys.take(n as int) =~= keys);
    }
}


// One item of a non-tabular array as records.
fn emit_item_records(item: &Value, out: &mut Vec<u8>)
    ensures
        final(out)@ == old(out)@ + item_records(value_view(*item)),
{
    let ghost start = out@;
    match item {
        Value::Str(s) => {
            out.push(RS);
            write_escaped(s.as_str(), out);
        },
        Value::Array(a) => {
            proof {
                lemma_array_view(*a);
            }
            let ghost av = items_view(a@);
            let ghost parts = Seq::new(av.len(), |j: int| field_bytes(av[j]));
            out.push(RS);
            let n = a.len();
            for i in 0..n
                invariant
                    n == a@.len() == av.len() == parts.len(),
                    av == items_view(a@),
                    parts == Seq::new(av.len(), |j: int| field_bytes(av[j])),
                    out@ == start + seq![RS] + joined(parts.take(i as int)),
            {
                let ghost mid = out@;
                if i > 0 {
                    out.push(US);
                }
                emit_field_value(&a[i], out);
                proof {
                    if i > 0 {
                        lemma_joined_step(parts, i as int);
                    } else {
                        assert(parts.take(1) =~= seq![parts[0]]);
                        assert(parts.take(0) =~= Seq::<Seq<u8>>::empty());
                    }
                    assert(out@ =~= start + seq![RS] + joined(parts.take(i + 1)));
                }
            }
            proof {
                assert(parts.take(n as int) =~= parts);
            }
        },
        Value::Object(p) => {
            proof {
                lemma_object_view(*p);
            }
            emit_kv_records(p, false, out);
        },
    }
}

// An array as a group: a header and one record per object when tabular,
// else one or more records per item.
fn emit_array_as_group(arr: &Vec<Value>, name: &str, out: &mut Vec<u8>)
    ensures
        final(out)@ == old(out)@ + array_group(items_view(arr@), encode_utf8(name@)),
{
    let ghost start = out@;
    let ghost av = items_view(arr@);
    if tabular(arr) {
        match &arr[0] {
            Value::Object(first) => {
                proof {
                    lemma_object_view(*first);
                }
                let ghost keys = keys_of(pairs_view(first@));
                let ghost kb = keys_bytes(keys);
                write_group(name, out);
                out.push(SOH);
                let ghost head = out@;
                let nh = first.len();
                for i in 0..nh
                    invariant
                        nh == first@.len() == keys.len() == kb.len(),
                        keys == keys_of(pairs_view(first@)),
                        kb == keys_bytes(keys),
                        out@ == head + joined(kb.take(i as int)),
                {
                    let ghost mid = out@;
                    if i > 0 {
                        out.push(US);
                    }
                    write_raw(first[i].0.as_str(), out);
                    proof {
                        if i > 0 {
                            lemma_joined_step(kb, i as int);
                        } else {
                            assert(kb.take(1) =~= seq![kb[0]]);
                            assert(kb.take(0) =~= Seq::<Seq<u8>>::empty());
                        }
                        assert(out@ =~= head + joined(kb.take(i + 1)));
                    }
                }
                proof {
                    assert(kb.take(nh as int) =~= kb);
                }
                let ghost body = out@;
                let n = arr.len();
                for r in 0..n
                    invariant
                        n == arr@.len() == av.len(),
                        av == items_view(arr@),
                        is_tabular(av),
                        keys == keys_of(pairs_view(first@)),
                        out@ == body + tabular_rows(av.take(r as int), keys),
                {
                    match &arr[r] {
                        Value::Object(p) => {
                            proof {
                                lemma_object_view(*p);
                            }
                            out.push(RS);
                            emit_tabular_row(p, first, out);
                            proof {
                                let t = av.take(r + 1);
                                assert(t.drop_last() =~= av.take(r as int));
                                assert(t.last() == ValueView::Object(pairs_view(p@)));
                                assert(out@ =~= body + tabular_rows(t, keys));
                            }
                        },
                        _ => {
                            assert(av[r as int] is Object);
                        },
                    }
                }
                proof {
                    assert(av.take(n as int) =~= av);
                    assert(av[0] == ValueView::Object(pairs_view(first@)));
                    assert(out@ =~= start + array_group(av, encode_utf8(name@)));
                }
            },
            _ => {
                assert(av[0] is Object);
            },
        }
    } else {
        write_group(name, out);
        let ghost body = out@;
        let n = arr.len();
        for r in 0..n
            invariant
                n == arr@.len() == av.len(),
                av == items_view(arr@),
                out@ == body + items_records(av.take(r as int)),
        {
            emit_item_records(&arr[r], out);
            proof {
                let t = av.take(r + 1);
                assert(t.drop_last() =~= av.take(r as int));
                assert(out@ =~= body + items_records(t));
            }
        }
        proof {
            assert(av.take(n as int) =~= av);
        }
    }
}

// Each pair of an object as a group.
fn emit_hash_as_groups(pairs: &Vec<(String, Value)>, out: &mut Vec<u8>)
    ensures
        final(out)@ == old(out)@ + hash_groups(pairs_view(pairs@)),
{
    let ghost start = out@;
    let ghost pv = pairs_view(pairs@);
    let n = pairs.len();
    for i in 0..n
        invariant
            n == pairs@.len() == pv.len(),
            pv == pairs_view(pairs@),
            out@ == start + hash_groups(pv.take(i as int)),
    {
        let ghost mid = out@;
        let name = pairs[i].0.as_str();
        match &pairs[i].1 {
            Value::Object(inner) => {
                proof {
                    lemma_object_view(*inner);
                }
                write_group(name, out);
                let scalar = every_scalar(inner);
                emit_kv_records(inner, scalar, out);
            },
            Value::Array(arr) => {
                proof {
                    lemma_array_view(*arr);
                }
                emit_array_as_group(arr, name, out);
            },
            Value::Str(s) => {
                write_group(name, out);
                out.push(RS);
                write_escaped(s.as_str(), out);
            },
        }
        proof {
            let t = pv.take(i + 1);
            assert(t.drop_last() =~= pv.take(i as int));
            assert(out@ =~= mid + named_group(t.last().0, t.last().1));
            assert(out@ =~= start + hash_groups(t));
        }
    }
    proof {
        assert(pv.take(n as int) =~= pv);
    }
}

fn emit_root(value: &Value, group_name: &str, out: &mut Vec<u8>)
    ensures
        final(out)@ == old(out)@ + root_bytes(value_view(*value), encode_utf8(group_name@)),
{
    let ghost start = out@;
    match value {
        Value::Object(pairs) => {
            proof {
                lemma_object_view(*pairs);
            }
            if every_scalar(pairs) {
                write_group(group_name, out);
                emit_kv_records(pairs, true, out);
            } else if pairs.len() == 1 {
                match &pairs[0].1 {
                    Value::Object(ip) => {
                        proof {
                            lemma_object_view(*ip);
                        }
                        if every_groupable(ip) {
                            out.push(FS);
                            write_raw(pairs[0].0.as_str(), out);
                            emit_hash_as_groups(ip, out);
                            assert(out@ =~= start + root_bytes(
                                value_view(*value),
                                encode_utf8(group_name@),
                            ));
                        } else {
                            emit_hash_as_groups(pairs, out);
                        }
                    },
                    _ => emit_hash_as_groups(pairs, out),
                }
            } else {
                emit_hash_as_groups(pairs, out);
            }
        },
        Value::Array(items) => {
            proof {
                lemma_array_view(*items);
            }
            emit_array_as_group(items, group_name, out);
        },
        Value::Str(s) => {
            write_group(group_name, out);
            out.push(RS);
            write_escaped(s.as_str(), out);
            assert(out@ =~= start + root_bytes(value_view(*value), encode_utf8(group_name@)));
        },
    }
}

/// Write a [`Value`] tree as C0DATA compact bytes; `group_name` names the
/// group of a top-level array, string or all-scalar object.
pub fn from_value(value: &Value, group_name: &str) -> (r: Vec<u8>)
    ensures
        r@ == root_bytes(value_view(*value), group_name.spec_bytes()),
{
    let mut out: Vec<u8> = Vec::new();
    emit_root(value, group_name, &mut out);
    assert(out@ =~= root_bytes(value_view(*value), group_name.spec_bytes()));
    out
}


// ---- reading written arrays back ----

/// The text of each header key's value in an object, as bytes.
pub open spec fn row_texts(p: Seq<(Seq<char>, ValueView)>, keys: Seq<Seq<char>>) -> Seq<Seq<u8>> {
    Seq::new(keys.len(), |j: int| encode_utf8(scalar_text(p[find_key(p, keys[j], 0)].1)))
}

/// The texts of every object of a tabular array, row by row.
pub open spec fn tabular_texts(arr: Seq<ValueView>, keys: Seq<Seq<char>>) -> Seq<Seq<Seq<u8>>> {
    Seq::new(arr.len(), |i: int| row_texts(object_pairs(arr[i]), keys))
}

proof fn lemma_find_key(p: Seq<(Seq<char>, ValueView)>, k: Seq<char>, i: int, m: int)
    requires
        0 <= i <= m < p.len(),
        p[m].0 == k,
    ensures
        i <= find_key(p, k, i) <= m,
        p[find_key(p, k, i)].0 == k,
    decreases m - i,
{
    if p[i].0 != k {
        lemma_find_key(p, k, i + 1, m);
    }
}

proof fn lemma_tabular_row(p: Seq<(Seq<char>, ValueView)>, keys: Seq<Seq<char>>)
    requires
        forall|m: int| 0 <= m < p.len() ==> (#[trigger] p[m]).1 is Str,
        forall|j: int| 0 <= j < keys.len() ==> find_key(p, #[trigger] keys[j], 0) >= 0,
        forall|j: int| 0 <= j < keys.len() ==> find_key(p, #[trigger] keys[j], 0) < p.len(),
    ensures
        tabular_row(p, keys) == joined(escaped_all(row_texts(p, keys))),
    decreases keys.len(),
{
    let parts = escaped_all(row_texts(p, keys));
    if keys.len() > 0 {
        let init = keys.drop_last();
        assert forall|j: int| 0 <= j < init.len() implies find_key(p, #[trigger] init[j], 0) >= 0
            && find_key(p, init[j], 0) < p.len() by {
            assert(init[j] == keys[j]);
        }
        lemma_tabular_row(p, init);
        assert(escaped_all(row_texts(p, init)) =~= parts.drop_last());
        let n = keys.len() - 1;
        let idx = find_key(p, keys[n], 0);
        assert(keys.last() == keys[n]);
        assert(find_key(p, keys[n], 0) >= 0);
        assert(p[idx].1 is Str);
        assert(field_bytes(p[idx].1) == parts.last());
        if keys.len() == 1 {
            assert(parts.drop_last() =~= Seq::<Seq<u8>>::empty());
            assert(tabular_row(p, init) == Seq::<u8>::empty());
            assert(tabular_row(p, keys) =~= parts[0]);
        }
    }
}

proof fn lemma_tabular_rows(arr: Seq<ValueView>, keys: Seq<Seq<char>>)
    requires
        forall|i: int| 0 <= i < arr.len() ==> (#[trigger] arr[i]) is Object,
        forall|i: int| 0 <= i < arr.len() ==> keys_of(object_pairs(#[trigger] arr[i])) == keys,
        forall|i: int, m: int|
            0 <= i < arr.len() && 0 <= m < object_pairs(arr[i]).len() ==> (#[trigger] object_pairs(
                arr[i],
            )[m]).1 is Str,
    ensures
        tabular_rows(arr, keys) == records_bytes(tabular_texts(arr, keys)),
    decreases arr.len(),
{
    if arr.len() == 0 {
        assert(tabular_texts(arr, keys) =~= Seq::<Seq<Seq<u8>>>::empty());
    } else {
        let init = arr.drop_last();
        assert forall|i: int| 0 <= i < init.len() implies (#[trigger] init[i]) is Object && keys_of(
            object_pairs(init[i]),
        ) == keys by {
            assert(init[i] == arr[i]);
        }
        assert forall|i: int, m: int|
            0 <= i < init.len() && 0 <= m < object_pairs(init[i]).len() implies (#[trigger] object_pairs(
            init[i],
        )[m]).1 is Str by {
            assert(init[i] == arr[i]);
        }
        lemma_tabular_rows(init, keys);
        let n = arr.len() - 1;
        let p = object_pairs(arr[n]);
        assert(arr.last() == arr[n]);
        assert forall|m: int| 0 <= m < p.len() implies (#[trigger] p[m]).1 is Str by {
            assert(object_pairs(arr[n])[m] == p[m]);
        }
        assert forall|j: int| 0 <= j < keys.len() implies find_key(p, #[trigger] keys[j], 0) >= 0
            && find_key(p, keys[j], 0) < p.len() by {
            assert(keys_of(p)[j] == keys[j]);
            lemma_find_key(p, keys[j], 0, j);
        }
        lemma_tabular_row(p, keys);
        assert(tabular_texts(arr, keys) =~= tabular_texts(init, keys).push(row_texts(p, keys)));
        lemma_records_bytes_push(tabular_texts(init, keys), row_texts(p, keys));
    }
}

/// A tabular array of objects with string values, written by `from_value`,
/// reads back as a table: named after the group, the first object's keys as
/// its header, and each record holding, field by field, the text of each
/// object's value for each key.
pub proof fn tabular_array_reads_back(arr: Seq<ValueView>, name: Seq<u8>, i: int, j: int)
    requires
        is_tabular(arr),
        is_name(name),
        object_pairs(arr[0]).len() > 0,
        forall|k: int|
            0 <= k < object_pairs(arr[0]).len() ==> is_name(
                #[trigger] encode_utf8(object_pairs(arr[0])[k].0),
            ),
        forall|a: int, m: int|
            0 <= a < arr.len() && 0 <= m < object_pairs(arr[a]).len() ==> (#[trigger] object_pairs(
                arr[a],
            )[m]).1 is Str,
        0 <= i < arr.len(),
        0 <= j < object_pairs(arr[0]).len(),
    ensures
        ({
            let keys = keys_of(object_pairs(arr[0]));
            let t = crate::table::table_at(array_group(arr, name), 0);
            &&& t.name == name
            &&& t.headers == keys_bytes(keys)
            &&& t.records.len() == arr.len()
            &&& crate::table::fields_of(t.records[i]).len() == keys.len()
            &&& crate::unescaped(crate::table::field_of(t.records[i], j)) == encode_utf8(
                scalar_text(object_pairs(arr[i])[find_key(object_pairs(arr[i]), keys[j], 0)].1),
            )
        }),
{
    let keys = keys_of(object_pairs(arr[0]));
    let h = keys_bytes(keys);
    let rows = tabular_texts(arr, keys);
    assert forall|a: int| 0 <= a < arr.len() implies keys_of(object_pairs(#[trigger] arr[a])) == keys
        by {
        assert(keys_of(object_pairs(arr[a])) == keys_of(object_pairs(arr[0])));
    }
    lemma_tabular_rows(arr, keys);
    assert(array_group(arr, name) =~= group_bytes(name, Some(h)) + records_bytes(rows));
    assert forall|k: int| 0 <= k < h.len() implies is_name(#[trigger] h[k]) by {
        assert(h[k] == encode_utf8(object_pairs(arr[0])[k].0));
    }
    table_reads_back(name, Some(h), rows);
    assert(rows[i].len() == keys.len());
    table_fields_read_back(name, Some(h), rows, i, j);
}


// ---- JSON text ----

/// A JSON value as `serde_json` reads it: numbers keep their text, objects
/// their order.
#[derive(Debug, PartialEq, Eq)]
pub enum JsonValue {
    Null,
    Bool(bool),
    Number(String),
    Str(String),
    Array(Vec<JsonValue>),
    Object(Vec<(String, JsonValue)>),
}

/// A JSON value as text.
#[verifier::ext_equal]
pub enum JsonValueView {
    Null,
    Bool(bool),
    Number(Seq<char>),
    Str(Seq<char>),
    Array(Seq<JsonValueView>),
    Object(Seq<(Seq<char>, JsonValueView)>),
}

/// The text of a JSON value.
pub open spec fn json_view(v: JsonValue) -> JsonValueView
    decreases v,
{
    match v {
        JsonValue::Null => JsonValueView::Null,
        JsonValue::Bool(b) => JsonValueView::Bool(b),
        JsonValue::Number(n) => JsonValueView::Number(n@),
        JsonValue::Str(s) => JsonValueView::Str(s@),
        JsonValue::Array(a) => JsonValueView::Array(
            Seq::new(
                a@.len(),
                |i: int|
                    if 0 <= i < a@.len() {
                        json_view(a@[i])
                    } else {
                        JsonValueView::Null
                    },
            ),
        ),
        JsonValue::Object(p) => JsonValueView::Object(
            Seq::new(
                p@.len(),
                |i: int|
                    if 0 <= i < p@.len() {
                        (p@[i].0@, json_view(p@[i].1))
                    } else {
                        (Seq::empty(), JsonValueView::Null)
                    },
            ),
        ),
    }
}

impl View for JsonValue {
    type V = JsonValueView;

    open spec fn view(&self) -> JsonValueView {
        json_view(*self)
    }
}

/// A value tree as JSON: every scalar a string.
pub open spec fn value_to_json(v: ValueView) -> JsonValueView
    decreases v,
{
    match v {
        ValueView::Str(s) => JsonValueView::Str(s),
        ValueView::Array(a) => JsonValueView::Array(
            Seq::new(
                a.len(),
                |i: int|
                    if 0 <= i < a.len() {
                        value_to_json(a[i])
                    } else {
                        JsonValueView::Null
                    },
            ),
        ),
        ValueView::Object(p) => JsonValueView::Object(
            Seq::new(
                p.len(),
                |i: int|
                    if 0 <= i < p.len() {
                        (p[i].0, value_to_json(p[i].1))
                    } else {
                        (Seq::empty(), JsonValueView::Null)
                    },
            ),
        ),
    }
}

/// A JSON value as a value tree: null becomes the empty string, a boolean
/// and a number their text.
pub open spec fn json_to_value(j: JsonValueView) -> ValueView
    decreases j,
{
    match j {
        JsonValueView::Null => ValueView::Str(Seq::empty()),
        JsonValueView::Bool(b) => ValueView::Str(
            if b {
                "true"@
            } else {
                "false"@
            },
        ),
        JsonValueView::Number(n) => ValueView::Str(n),
        JsonValueView::Str(s) => ValueView::Str(s),
        JsonValueView::Array(a) => ValueView::Array(
            Seq::new(
                a.len(),
                |i: int|
                    if 0 <= i < a.len() {
                        json_to_value(a[i])
                    } else {
                        ValueView::Str(Seq::empty())
                    },
            ),
        ),
        JsonValueView::Object(p) => ValueView::Object(
            Seq::new(
                p.len(),
                |i: int|
                    if 0 <= i < p.len() {
                        (p[i].0, json_to_value(p[i].1))
                    } else {
                        (Seq::empty(), ValueView::Str(Seq::empty()))
                    },
            ),
        ),
    }
}

#[verifier::external_type_specification]
#[verifier::external_body]
pub struct ExSerdeJsonValue(SerdeValue);

#[verifier::external_type_specification]
#[verifier::external_body]
pub struct ExSerdeJsonError(SerdeError);

/// Why a JSON text could not be read: the error `serde_json` reported.
#[derive(Debug)]
pub struct JsonError {
    pub error: SerdeError,
}

/// The JSON value `serde_json::from_str` reads from a text, or none when it
/// rejects the text.
pub uninterp spec fn json_parsed(text: Seq<char>) -> Option<JsonValueView>;

/// The text `serde_json::to_string_pretty` writes for a JSON value.
pub uninterp spec fn json_pretty(v: JsonValueView) -> Seq<char>;

/// A `serde_json::Value` as a [`JsonValue`], variant by variant; a number
/// becomes its text. Nothing is claimed: it is the conversion of the
/// result of `parse_json`.
#[verifier::external_body]
fn json_from_serde(v: &SerdeValue) -> JsonValue {
    match v {
        SerdeValue::Null => JsonValue::Null,
        SerdeValue::Bool(b) => JsonValue::Bool(*b),
        SerdeValue::Number(n) => JsonValue::Number(n.to_string()),
        SerdeValue::String(s) => JsonValue::Str(s.clone()),
        SerdeValue::Array(a) => JsonValue::Array(a.iter().map(json_from_serde).collect()),
        SerdeValue::Object(m) => JsonValue::Object(
            m.iter().map(|(k, x)| (k.clone(), json_from_serde(x))).collect(),
        ),
    }
}

/// A [`JsonValue`] as a `serde_json::Value`, variant by variant; a number's
/// text is read back as a number. Nothing is claimed: it is the conversion
/// of the argument of `json_text`.
#[verifier::external_body]
fn json_to_serde(v: &JsonValue) -> SerdeValue {
    match v {
        JsonValue::Null => SerdeValue::Null,
        JsonValue::Bool(b) => SerdeValue::Bool(*b),
        JsonValue::Number(n) => serde_json::from_str(n).unwrap_or(SerdeValue::Null),
        JsonValue::Str(s) => SerdeValue::String(s.clone()),
        JsonValue::Array(a) => SerdeValue::Array(a.iter().map(json_to_serde).collect()),
        JsonValue::Object(p) => SerdeValue::Object(
            p.iter().map(|(k, x)| (k.clone(), json_to_serde(x))).collect(),
        ),
    }
}

/// Reads a JSON text with `serde_json::from_str` into a `serde_json::Value`,
/// handed back as a [`JsonValue`]. The value read is named `json_parsed`:
/// the parser succeeds exactly when that name gives a value, and then gives
/// that value; which texts it accepts is only named.
#[verifier::external_body]
fn parse_json(input: &str) -> (r: Result<JsonValue, SerdeError>)
    ensures
        (r is Ok) == (json_parsed(input@) is Some),
        r matches Ok(v) ==> json_parsed(input@) == Some(v@),
{
    serde_json::from_str::<SerdeValue>(input).map(|v| json_from_serde(&v))
}

/// Writes a JSON value with `serde_json::to_string_pretty`; the text is
/// named `json_pretty`. Serializing a `serde_json::Value` cannot fail: its
/// object keys are strings.
#[verifier::external_body]
fn json_text(v: &JsonValue) -> (r: String)
    ensures
        r@ == json_pretty(v@),
{
    serde_json::to_string_pretty(&json_to_serde(v)).unwrap()
}

proof fn lemma_json_array_view(v: Vec<JsonValue>)
    ensures
        json_view(JsonValue::Array(v)) == JsonValueView::Array(
            Seq::new(v@.len(), |i: int| json_view(v@[i])),
        ),
{
    match json_view(JsonValue::Array(v)) {
        JsonValueView::Array(x) => {
            assert(x =~= Seq::new(v@.len(), |i: int| json_view(v@[i])));
        },
        _ => {
            assert(false);
        },
    }
}

proof fn lemma_json_object_view(v: Vec<(String, JsonValue)>)
    ensures
        json_view(JsonValue::Object(v)) == JsonValueView::Object(
            Seq::new(v@.len(), |i: int| (v@[i].0@, json_view(v@[i].1))),
        ),
{
    match json_view(JsonValue::Object(v)) {
        JsonValueView::Object(x) => {
            assert(x =~= Seq::new(v@.len(), |i: int| (v@[i].0@, json_view(v@[i].1))));
        },
        _ => {
            assert(false);
        },
    }
}

/// A JSON value as a value tree: null becomes the empty string, a boolean
/// and a number their text.
pub fn from_json_value(v: &JsonValue) -> (r: Value)
    ensures
        value_view(r) == json_to_value(v@),
    decreases v,
{
    match v {
        JsonValue::Null => Value::Str(String::new()),
        JsonValue::Bool(b) => {
            if *b {
                Value::Str("true".to_owned())
            } else {
                Value::Str("false".to_owned())
            }
        },
        JsonValue::Number(n) => Value::Str(n.clone()),
        JsonValue::Str(s) => Value::Str(s.clone()),
        JsonValue::Array(a) => {
            proof {
                lemma_json_array_view(*a);
            }
            let ghost jv = Seq::new(a@.len(), |i: int| json_view(a@[i]));
            let ghost want = Seq::new(jv.len(), |i: int| json_to_value(jv[i]));
            let n = a.len();
            let mut items: Vec<Value> = Vec::new();
            for i in 0..n
                invariant
                    n == a@.len() == jv.len() == want.len(),
                    jv == Seq::new(a@.len(), |i: int| json_view(a@[i])),
                    want == Seq::new(jv.len(), |i: int| json_to_value(jv[i])),
                    *v == JsonValue::Array(*a),
                    items_view(items@) == want.take(i as int),
            {
                proof {
                    assert(decreases_to!(*v => (*v)->Array_0));
                    vstd::std_specs::vec::axiom_vec_index_decreases(*a, i as int);
                }
                let x = from_json_value(&a[i]);
                let ghost before = items_view(items@);
                items.push(x);
                assert(items_view(items@) =~= before.push(value_view(x)));
                assert(want.take(i + 1) =~= want.take(i as int).push(want[i as int]));
            }
            proof {
                lemma_array_view(items);
                assert(want.take(n as int) =~= want);
                assert(v@ == JsonValueView::Array(jv));
                match json_to_value(JsonValueView::Array(jv)) {
                    ValueView::Array(x) => {
                        assert(x =~= want);
                    },
                    _ => {
                        assert(false);
                    },
                }
            }
            Value::Array(items)
        },
        JsonValue::Object(p) => {
            proof {
                lemma_json_object_view(*p);
            }
            let ghost jv = Seq::new(p@.len(), |i: int| (p@[i].0@, json_view(p@[i].1)));
            let ghost want = Seq::new(jv.len(), |i: int| (jv[i].0, json_to_value(jv[i].1)));
            let n = p.len();
            let mut pairs: Vec<(String, Value)> = Vec::new();
            for i in 0..n
                invariant
                    n == p@.len() == jv.len() == want.len(),
                    jv == Seq::new(p@.len(), |i: int| (p@[i].0@, json_view(p@[i].1))),
                    want == Seq::new(jv.len(), |i: int| (jv[i].0, json_to_value(jv[i].1))),
                    *v == JsonValue::Object(*p),
                    pairs_view(pairs@) == want.take(i as int),
            {
                proof {
                    assert(decreases_to!(*v => (*v)->Object_0));
                    vstd::std_specs::vec::axiom_vec_index_decreases(*p, i as int);
                    assert(decreases_to!(p@[i as int] => p@[i as int].1));
                }
                let x = from_json_value(&p[i].1);
                let k = p[i].0.clone();
                let ghost before = pairs_view(pairs@);
                pairs.push((k, x));
                assert(pairs_view(pairs@) =~= before.push((k@, value_view(x))));
                assert(want.take(i + 1) =~= want.take(i as int).push(want[i as int]));
            }
            proof {
                lemma_object_view(pairs);
                assert(want.take(n as int) =~= want);
                assert(v@ == JsonValueView::Object(jv));
                match json_to_value(JsonValueView::Object(jv)) {
                    ValueView::Object(x) => {
                        assert(x =~= want);
                    },
                    _ => {
                        assert(false);
                    },
                }
            }
            Value::Object(pairs)
        },
    }
}


/// A value tree as a JSON value: every scalar a string.
pub fn to_json_value(v: &Value) -> (r: JsonValue)
    ensures
        r@ == value_to_json(value_view(*v)),
    decreases v,
{
    match v {
        Value::Str(s) => JsonValue::Str(s.clone()),
        Value::Array(a) => {
            proof {
                lemma_array_view(*a);
            }
            let ghost av = items_view(a@);
            let ghost want = Seq::new(av.len(), |i: int| value_to_json(av[i]));
            let n = a.len();
            let mut items: Vec<JsonValue> = Vec::new();
            for i in 0..n
                invariant
                    n == a@.len() == av.len() == want.len(),
                    av == items_view(a@),
                    want == Seq::new(av.len(), |i: int| value_to_json(av[i])),
                    *v == Value::Array(*a),
                    items@.len() == i,
                    Seq::new(items@.len(), |k: int| json_view(items@[k])) == want.take(i as int),
            {
                proof {
                    assert(decreases_to!(*v => (*v)->Array_0));
                    vstd::std_specs::vec::axiom_vec_index_decreases(*a, i as int);
                }
                let x = to_json_value(&a[i]);
                let ghost before = items@;
                items.push(x);
                assert(Seq::new(items@.len(), |k: int| json_view(items@[k])) =~= want.take(i + 1)) by {
                    let old_view = Seq::new(before.len(), |k: int| json_view(before[k]));
                    let new_view = Seq::new(items@.len(), |k: int| json_view(items@[k]));
                    assert forall|k: int| 0 <= k < i + 1 implies #[trigger] new_view[k] == want.take(
                        i + 1,
                    )[k] by {
                        if k < i {
                            assert(items@[k] == before[k]);
                            assert(old_view[k] == want.take(i as int)[k]);
                        }
                    }
                }
            }
            let r = JsonValue::Array(items);
            proof {
                lemma_json_array_view(items);
                match value_to_json(value_view(*v)) {
                    JsonValueView::Array(x) => {
                        assert(x =~= want);
                    },
                    _ => {
                        assert(false);
                    },
                }
                assert(want.take(n as int) =~= want);
            }
            r
        },
        Value::Object(p) => {
            proof {
                lemma_object_view(*p);
            }
            let ghost pv = pairs_view(p@);
            let ghost want = Seq::new(pv.len(), |i: int| (pv[i].0, value_to_json(pv[i].1)));
            let n = p.len();
            let mut pairs: Vec<(String, JsonValue)> = Vec::new();
            for i in 0..n
                invariant
                    n == p@.len() == pv.len() == want.len(),
                    pv == pairs_view(p@),
                    want == Seq::new(pv.len(), |i: int| (pv[i].0, value_to_json(pv[i].1))),
                    *v == Value::Object(*p),
                    pairs@.len() == i,
                    Seq::new(pairs@.len(), |k: int| (pairs@[k].0@, json_view(pairs@[k].1)))
                        == want.take(i as int),
            {
                proof {
                    assert(decreases_to!(*v => (*v)->Object_0));
                    vstd::std_specs::vec::axiom_vec_index_decreases(*p, i as int);
                    assert(decreases_to!(p@[i as int] => p@[i as int].1));
                }
                let x = to_json_value(&p[i].1);
                let k = p[i].0.clone();
                let ghost before = pairs@;
                pairs.push((k, x));
                assert(Seq::new(pairs@.len(), |m: int| (pairs@[m].0@, json_view(pairs@[m].1)))
                    =~= want.take(i + 1)) by {
                    let old_view = Seq::new(
                        before.len(),
                        |m: int| (before[m].0@, json_view(before[m].1)),
                    );
                    let new_view = Seq::new(
                        pairs@.len(),
                        |m: int| (pairs@[m].0@, json_view(pairs@[m].1)),
                    );
                    assert forall|m: int| 0 <= m < i + 1 implies #[trigger] new_view[m] == want.take(
                        i + 1,
                    )[m] by {
                        if m < i {
                            assert(pairs@[m] == before[m]);
                            assert(old_view[m] == want.take(i as int)[m]);
                        }
                    }
                }
            }
            let r = JsonValue::Object(pairs);
            proof {
                lemma_json_object_view(pairs);
                match value_to_json(value_view(*v)) {
                    JsonValueView::Object(x) => {
                        assert(x =~= want);
                    },
                    _ => {
                        assert(false);
                    },
                }
                assert(want.take(n as int) =~= want);
            }
            r
        },
    }
}

/// Convert C0DATA bytes to a pretty JSON string: the value tree of the
/// bytes, every scalar a string, written by `serde_json`.
pub fn to_json(buf: &[u8]) -> (r: String)
    ensures
        r@ == json_pretty(value_to_json(value_of(buf@))),
{
    let v = to_value(buf);
    let j = to_json_value(&v);
    json_text(&j)
}

/// Convert a JSON string to C0DATA compact bytes: the text is read by
/// `serde_json` (null becomes the empty string, booleans and numbers their
/// text), then written as [`from_value`] writes it. A text `serde_json`
/// rejects gives its error.
pub fn from_json(input: &str, group_name: &str) -> (r: Result<Vec<u8>, JsonError>)
    ensures
        (r is Ok) == (json_parsed(input@) is Some),
        r matches Ok(b) ==> (json_parsed(input@) matches Some(j) && b@ == root_bytes(
            json_to_value(j),
            group_name.spec_bytes(),
        )),
{
    match parse_json(input) {
        Ok(j) => {
            let v = from_json_value(&j);
            Ok(from_value(&v, group_name))
        },
        Err(e) => Err(JsonError { error: e }),
    }
}

} // verus!
