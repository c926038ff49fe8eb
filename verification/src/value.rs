//! The parsed value tree and its mathematical model.

use vstd::prelude::*;

verus! {

broadcast use {
    vstd::seq::axiom_seq_index_decreases,
    vstd::seq::axiom_seq_subrange_decreases,
    vstd::std_specs::vec::axiom_vec_decreases_to_view,
};

/// A parsed value: a finite tree whose textual leaves borrow from the
/// source buffer, which must outlive the tree.
///
/// An `AttrSet` holds its bindings in encounter order with unique keys;
/// its model is a map, so key order does not matter and a repeated key
/// overwrites the earlier binding. `String` and `LetIn` are part of the
/// data model but no grammar production builds them.
#[derive(Debug, PartialEq)]
pub enum Value<'a> {
    Null,
    Bool(bool),
    Integer(i64),
    Float(&'a str),
    String(&'a str),
    List(Vec<Value<'a>>),
    AttrSet(Vec<(&'a str, Value<'a>)>),
    LetIn(Vec<(&'a str, Value<'a>)>, Box<Value<'a>>),
}

/// The mathematical model of a [`Value`]: text as character sequences,
/// lists as sequences, attribute sets as maps from key to model.
pub enum ValueModel {
    Null,
    Bool(bool),
    Integer(int),
    Float(Seq<char>),
    Text(Seq<char>),
    List(Seq<ValueModel>),
    AttrSet(Map<Seq<char>, ValueModel>),
    LetIn(Map<Seq<char>, ValueModel>, Box<ValueModel>),
}

/// The model of a value tree.
pub open spec fn value_model<'a>(v: Value<'a>) -> ValueModel
    decreases v,
{
    match v {
        Value::Null => ValueModel::Null,
        Value::Bool(b) => ValueModel::Bool(b),
        Value::Integer(n) => ValueModel::Integer(n as int),
        Value::Float(t) => ValueModel::Float(t@),
        Value::String(t) => ValueModel::Text(t@),
        Value::List(vs) => ValueModel::List(list_model(vs@)),
        Value::AttrSet(es) => ValueModel::AttrSet(entries_model(es@)),
        Value::LetIn(es, b) => ValueModel::LetIn(entries_model(es@), Box::new(value_model(*b))),
    }
}

/// The models of the elements of a list, in order.
pub open spec fn list_model<'a>(s: Seq<Value<'a>>) -> Seq<ValueModel>
    decreases s,
{
    if s.len() == 0 {
        Seq::empty()
    } else {
        list_model(s.drop_last()).push(value_model(s.last()))
    }
}

/// The map a sequence of bindings denotes: bindings are added in order, so
/// on a repeated key the last write wins.
pub open spec fn entries_model<'a>(s: Seq<(&'a str, Value<'a>)>) -> Map<Seq<char>, ValueModel>
    decreases s,
{
    if s.len() == 0 {
        Map::empty()
    } else {
        entries_model(s.drop_last()).insert(s.last().0@, value_model(s.last().1))
    }
}

/// No two bindings share a key.
pub open spec fn keys_unique<'a>(s: Seq<(&'a str, Value<'a>)>) -> bool {
    forall|i: int, j: int| 0 <= i < j < s.len() ==> s[i].0@ != s[j].0@
}

pub proof fn lemma_list_model_push<'a>(s: Seq<Value<'a>>, v: Value<'a>)
    ensures
        list_model(s.push(v)) == list_model(s).push(value_model(v)),
{
    assert(s.push(v).drop_last() =~= s);
    assert(s.push(v).last() == v);
}

/// Replacing the binding at `i`, whose key is `k`, denotes the same map as
/// inserting `k` into the old map, provided keys are unique.
pub proof fn lemma_entries_update<'a>(
    s: Seq<(&'a str, Value<'a>)>,
    i: int,
    k: &'a str,
    v: Value<'a>,
)
    requires
        keys_unique(s),
        0 <= i < s.len(),
        s[i].0@ == k@,
    ensures
        entries_model(s.update(i, (k, v))) =~= entries_model(s).insert(k@, value_model(v)),
    decreases s.len(),
{
    let u = s.update(i, (k, v));
    if i == s.len() - 1 {
        assert(u.drop_last() =~= s.drop_last());
        assert(u.last() == (k, v));
    } else {
        assert(u.drop_last() =~= s.drop_last().update(i, (k, v)));
        assert(u.last() == s.last());
        lemma_entries_update(s.drop_last(), i, k, v);
        assert(s.last().0@ != k@);
        assert(entries_model(u) =~= entries_model(s).insert(k@, value_model(v)));
    }
}

/// Appending a binding with a fresh key denotes insertion into the map.
pub proof fn lemma_entries_push<'a>(s: Seq<(&'a str, Value<'a>)>, k: &'a str, v: Value<'a>)
    ensures
        entries_model(s.push((k, v))) == entries_model(s).insert(k@, value_model(v)),
{
    assert(s.push((k, v)).drop_last() =~= s);
    assert(s.push((k, v)).last() == (k, v));
}

/// Whether two strings hold the same characters.
pub fn str_eq(a: &str, b: &str) -> (r: bool)
    ensures
        r == (a@ == b@),
{
    let n = a.unicode_len();
    let m = b.unicode_len();
    if n != m {
        return false;
    }
    let mut i: usize = 0;
    while i < n
        invariant
            i <= n,
            n == a@.len(),
            n == b@.len(),
            forall|j: int| 0 <= j < i ==> a@[j] == b@[j],
        decreases n - i,
    {
        if a.get_char(i) != b.get_char(i) {
            return false;
        }
        i = i + 1;
    }
    proof {
        assert(a@ =~= b@);
    }
    true
}

/// Adds the binding `key = val`: overwrites the binding with the same key
/// if there is one, appends otherwise, so the last write wins.
pub fn insert_entry<'a>(entries: &mut Vec<(&'a str, Value<'a>)>, key: &'a str, val: Value<'a>)
    requires
        keys_unique(old(entries)@),
    ensures
        keys_unique(final(entries)@),
        entries_model(final(entries)@) == entries_model(old(entries)@).insert(
            key@,
            value_model(val),
        ),
{
    let n = entries.len();
    let mut i: usize = 0;
    while i < n
        invariant
            i <= n,
            n == entries@.len(),
            entries@ == old(entries)@,
            keys_unique(entries@),
            forall|j: int| 0 <= j < i ==> entries@[j].0@ != key@,
        decreases n - i,
    {
        if str_eq(entries[i].0, key) {
            proof {
                lemma_entries_update(entries@, i as int, key, val);
            }
            entries.set(i, (key, val));
            return ;
        }
        i = i + 1;
    }
    proof {
        lemma_entries_push(entries@, key, val);
    }
    entries.push((key, val));
}

} // verus!
