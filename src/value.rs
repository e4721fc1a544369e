use vstd::prelude::*;

use indexmap::IndexMap;

use crate::ast::{Num, OrbitNumber};

verus! {

/// An evaluated value: the syntax tree's value without spans.
#[derive(Debug, PartialEq)]
pub enum OrbitValue {
    String(String),
    Number(OrbitNumber),
    Bool(bool),
    List(Vec<OrbitValue>),
    Object(ObjectMap),
}

/// An insertion-ordered mapping from keys to values, with unique keys.
///
/// It holds an `indexmap::IndexMap`; what it holds is `object_entries`, and
/// each method below states what the corresponding `IndexMap` method does
/// to it.
#[verifier::external_body]
#[derive(Debug, PartialEq)]
pub struct ObjectMap {
    map: IndexMap<String, OrbitValue>,
}

/// A value as a mathematical tree.
pub enum Val {
    Str(Seq<char>),
    Num(Num),
    Bool(bool),
    List(Seq<Val>),
    Object(Seq<(Seq<char>, Val)>),
}

/// The members of a mapping, in insertion order.
pub uninterp spec fn object_entries(m: ObjectMap) -> Seq<(Seq<char>, Val)>;

impl View for ObjectMap {
    type V = Seq<(Seq<char>, Val)>;

    open spec fn view(&self) -> Seq<(Seq<char>, Val)> {
        object_entries(*self)
    }
}

pub open spec fn value_view(v: &OrbitValue) -> Val
    decreases v,
{
    match v {
        OrbitValue::String(s) => Val::Str(s@),
        OrbitValue::Number(n) => Val::Num(n@),
        OrbitValue::Bool(b) => Val::Bool(*b),
        OrbitValue::List(items) => Val::List(
            Seq::new(
                items.len() as nat,
                |i: int|
                    if 0 <= i < items.len() {
                        value_view(&items[i])
                    } else {
                        Val::Bool(false)
                    },
            ),
        ),
        OrbitValue::Object(m) => Val::Object(object_entries(*m)),
    }
}

impl View for OrbitValue {
    type V = Val;

    open spec fn view(&self) -> Val {
        value_view(self)
    }
}

pub open spec fn vals_view(vs: Seq<OrbitValue>) -> Seq<Val> {
    vs.map_values(|v: OrbitValue| value_view(&v))
}

pub proof fn lemma_value_list_view(items: Vec<OrbitValue>)
    ensures
        (OrbitValue::List(items))@ == Val::List(vals_view(items@)),
{
    let t = value_view(&OrbitValue::List(items));
    assert(t->List_0 =~= vals_view(items@));
}

pub proof fn lemma_vals_push(vs: Seq<OrbitValue>, v: OrbitValue)
    ensures
        vals_view(vs.push(v)) == vals_view(vs).push(v@),
{
    assert(vals_view(vs.push(v)) =~= vals_view(vs).push(v@));
}

/// Whether some member of `es` has key `k`.
pub open spec fn has_key(es: Seq<(Seq<char>, Val)>, k: Seq<char>) -> bool {
    exists|i: int| 0 <= i < es.len() && (#[trigger] es[i]).0 == k
}

impl ObjectMap {
    /// Relies on `IndexMap::new`: an empty map.
    #[verifier::external_body]
    pub fn new() -> (r: ObjectMap)
        ensures
            object_entries(r) == Seq::<(Seq<char>, Val)>::empty(),
    {
        ObjectMap { map: IndexMap::new() }
    }

    /// Relies on `IndexMap::insert`: a new key is appended at the end; an
    /// existing key keeps its place, takes the new value, and its old value
    /// is handed back.
    #[verifier::external_body]
    pub fn insert(&mut self, key: String, value: OrbitValue) -> (r: Option<OrbitValue>)
        ensures
            r is Some <==> has_key(object_entries(*old(self)), key@),
            !has_key(object_entries(*old(self)), key@) ==> object_entries(*final(self)) == object_entries(*old(self)).push((key@, value@)),
            forall|i: int|
                0 <= i < object_entries(*old(self)).len() && (#[trigger] object_entries(*old(self))[i]).0 == key@ ==> object_entries(*final(self))
                    == object_entries(*old(self)).update(i, (key@, value@)) && r->Some_0@ == object_entries(*old(self))[i].1,
    {
        self.map.insert(key, value)
    }

    /// Relies on `IndexMap::len`: the number of members.
    #[verifier::external_body]
    pub fn len(&self) -> (r: usize)
        ensures
            r == object_entries(*self).len(),
    {
        self.map.len()
    }

    /// Relies on `IndexMap::get_index`: the member at position `index`.
    #[verifier::external_body]
    pub fn get_index(&self, index: usize) -> (r: Option<(&String, &OrbitValue)>)
        ensures
            index < object_entries(*self).len() ==> r is Some && r->Some_0.0@ == object_entries(*self)[index as int].0
                && r->Some_0.1@ == object_entries(*self)[index as int].1,
            index >= object_entries(*self).len() ==> r is None,
    {
        self.map.get_index(index)
    }

    /// Relies on `IndexMap::get`: the value under `key`.
    #[verifier::external_body]
    pub fn get(&self, key: &str) -> (r: Option<&OrbitValue>)
        ensures
            r is Some <==> has_key(object_entries(*self), key@),
            forall|i: int|
                0 <= i < object_entries(*self).len() && (#[trigger] object_entries(*self)[i]).0 == key@ ==> r->Some_0@
                    == object_entries(*self)[i].1,
    {
        self.map.get(key)
    }

    /// Relies on `IndexMap::shift_remove_index`: takes out the member at
    /// `index`, keeping the order of the rest.
    #[verifier::external_body]
    pub fn shift_remove_index(&mut self, index: usize) -> (r: Option<(String, OrbitValue)>)
        ensures
            index < object_entries(*old(self)).len() ==> r is Some && r->Some_0.0@ == object_entries(*old(self))[index as int].0
                && r->Some_0.1@ == object_entries(*old(self))[index as int].1 && object_entries(*final(self)) == object_entries(*old(self)).remove(
                index as int,
            ),
            index >= object_entries(*old(self)).len() ==> r is None && object_entries(*final(self)) == object_entries(*old(self)),
    {
        self.map.shift_remove_index(index)
    }
}


/// The value of some member of `es` with key `k`.
pub open spec fn member_value(es: Seq<(Seq<char>, Val)>, k: Seq<char>) -> Val {
    es[choose|i: int| 0 <= i < es.len() && (#[trigger] es[i]).0 == k].1
}

/// What the first `n` steps of `path` reach from `v`, descending through mappings.
pub open spec fn path_value(v: Val, path: Seq<Seq<char>>, n: int) -> Option<Val>
    decreases n,
{
    if n <= 0 {
        Some(v)
    } else {
        match path_value(v, path, n - 1) {
            Some(Val::Object(es)) => if has_key(es, path[n - 1]) {
                Some(member_value(es, path[n - 1]))
            } else {
                None
            },
            _ => None,
        }
    }
}

pub open spec fn path_view(path: Seq<&str>) -> Seq<Seq<char>> {
    path.map_values(|s: &str| s@)
}

impl OrbitValue {
    pub fn as_object(&self) -> (r: Option<&ObjectMap>)
        ensures
            match self {
                OrbitValue::Object(m) => r == Some(m),
                _ => r is None,
            },
    {
        match self {
            OrbitValue::Object(map) => Some(map),
            _ => None,
        }
    }

    pub fn as_list(&self) -> (r: Option<&Vec<OrbitValue>>)
        ensures
            match self {
                OrbitValue::List(items) => r == Some(items),
                _ => r is None,
            },
    {
        match self {
            OrbitValue::List(values) => Some(values),
            _ => None,
        }
    }

    /// Follows `path` through nested mappings, one key per step.
    pub fn get_path<'a>(&'a self, path: &[&str]) -> (r: Option<&'a OrbitValue>)
        ensures
            match path_value(self@, path_view(path@), path@.len() as int) {
                Some(v) => r is Some && r->Some_0@ == v,
                None => r is None,
            },
    {
        let mut current = self;
        let mut i: usize = 0;
        while i < path.len()
            invariant
                i <= path@.len(),
                path_value(self@, path_view(path@), i as int) == Some(current@),
            decreases path.len() - i,
        {
            let part = path[i];
            proof {
                assert(path_view(path@)[i as int] == part@);
            }
            current = match current {
                OrbitValue::Object(map) => match map.get(part) {
                    Some(next) => {
                        proof {
                            let es = object_entries(*map);
                            let j = choose|j: int| 0 <= j < es.len() && (#[trigger] es[j]).0 == part@;
                            assert(next@ == es[j].1);
                        }
                        next
                    },
                    None => {
                        proof {
                            lemma_path_none(self@, path_view(path@), i + 1, path@.len() as int);
                        }
                        return None;
                    },
                },
                _ => {
                    proof {
                        lemma_path_none(self@, path_view(path@), i + 1, path@.len() as int);
                    }
                    return None;
                },
            };
            i = i + 1;
        }
        Some(current)
    }
}

proof fn lemma_path_none(v: Val, path: Seq<Seq<char>>, n: int, m: int)
    requires
        0 <= n <= m,
        path_value(v, path, n) is None,
    ensures
        path_value(v, path, m) is None,
    decreases m - n,
{
    if n < m {
        lemma_path_none(v, path, n, m - 1);
    }
}

/// The working mapping of one evaluation scope: insertion-ordered, reporting
/// any value that an insert displaced.
pub struct Environment {
    values: ObjectMap,
}

impl View for Environment {
    type V = Seq<(Seq<char>, Val)>;

    closed spec fn view(&self) -> Seq<(Seq<char>, Val)> {
        self.values@
    }
}

impl Environment {
    pub fn new() -> (r: Environment)
        ensures
            r@ == Seq::<(Seq<char>, Val)>::empty(),
    {
        Environment { values: ObjectMap::new() }
    }

    /// Binds `key`; a new key goes last, and a bound key keeps its place,
    /// takes the new value and hands back the previous one.
    pub fn insert(&mut self, key: String, value: OrbitValue) -> (r: Option<OrbitValue>)
        ensures
            r is Some <==> has_key(old(self)@, key@),
            !has_key(old(self)@, key@) ==> final(self)@ == old(self)@.push((key@, value@)),
            forall|i: int|
                0 <= i < old(self)@.len() && (#[trigger] old(self)@[i]).0 == key@ ==> final(self)@
                    == old(self)@.update(i, (key@, value@)) && r->Some_0@ == old(self)@[i].1,
    {
        self.values.insert(key, value)
    }

    pub fn get(&self, key: &str) -> (r: Option<&OrbitValue>)
        ensures
            r is Some <==> has_key(self@, key@),
            has_key(self@, key@) ==> r->Some_0@ == member_value(self@, key@),
    {
        let r = self.values.get(key);
        proof {
            if has_key(self@, key@) {
                let es = self@;
                let j = choose|j: int| 0 <= j < es.len() && (#[trigger] es[j]).0 == key@;
                assert(r->Some_0@ == es[j].1);
            }
        }
        r
    }

    /// The mapping as an object value.
    pub fn into_value(self) -> (r: OrbitValue)
        ensures
            r@ == Val::Object(self@),
    {
        OrbitValue::Object(self.values)
    }

    /// The mapping itself.
    pub fn into_map(self) -> (r: ObjectMap)
        ensures
            r@ == self@,
    {
        self.values
    }
}

} // verus!
