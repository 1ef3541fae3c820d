//! A JSON document modeled as a tree of plain values, with the recursive
//! structural search the assembler uses to locate nodes by key.
//!
//! Numbers hold integer time units; object fields keep document order, and a
//! lookup returns the first binding of a key.

use vstd::prelude::*;

verus! {

/// A tree-shaped JSON value.
#[derive(Debug)]
pub enum Json {
    Null,
    Bool(bool),
    Num(u64),
    Str(String),
    Arr(Vec<Json>),
    Obj(Vec<(String, Json)>),
}

/// First binding of `key` among `fields`, if any.
pub open spec fn obj_get(fields: Seq<(String, Json)>, key: Seq<char>) -> Option<Json>
    decreases fields.len(),
{
    if fields.len() == 0 {
        None
    } else if fields[0].0@ == key {
        Some(fields[0].1)
    } else {
        obj_get(fields.subrange(1, fields.len() as int), key)
    }
}

/// Lookup of `key` in `j`, when `j` is an object.
pub open spec fn json_get(j: Json, key: Seq<char>) -> Option<Json> {
    match j {
        Json::Obj(fields) => obj_get(fields@, key),
        _ => None,
    }
}

/// Element `i` of `j`, when `j` is an array.
pub open spec fn json_index(j: Json, i: int) -> Option<Json> {
    match j {
        Json::Arr(items) => if 0 <= i < items@.len() {
            Some(items@[i])
        } else {
            None
        },
        _ => None,
    }
}

/// All nodes of `j`, in depth-first document order, that are objects holding
/// a field named `key`; a matching object precedes its matching descendants.
pub open spec fn find_nodes(j: Json, key: Seq<char>) -> Seq<Json>
    decreases j,
{
    match j {
        Json::Obj(fields) => {
            let below = find_nodes_in_fields(fields@, key);
            if obj_get(fields@, key) is Some {
                seq![j] + below
            } else {
                below
            }
        },
        Json::Arr(items) => find_nodes_in_items(items@, key),
        _ => Seq::empty(),
    }
}

pub open spec fn find_nodes_in_items(items: Seq<Json>, key: Seq<char>) -> Seq<Json>
    decreases items,
{
    if items.len() == 0 {
        Seq::empty()
    } else {
        find_nodes_in_items(items.drop_last(), key) + find_nodes(items.last(), key)
    }
}

pub open spec fn find_nodes_in_fields(fields: Seq<(String, Json)>, key: Seq<char>) -> Seq<Json>
    decreases fields,
{
    if fields.len() == 0 {
        Seq::empty()
    } else {
        find_nodes_in_fields(fields.drop_last(), key) + find_nodes(fields.last().1, key)
    }
}

/// The values behind a sequence of references.
pub open spec fn deref_seq(s: Seq<&Json>) -> Seq<Json> {
    s.map_values(|r: &Json| *r)
}

impl Json {
    /// Lookup of `key`, mirroring `json_get`: `None` on non-objects and on
    /// objects without the key.
    #[verifier::loop_isolation(false)]
    pub fn get<'a>(&'a self, key: &String) -> (r: Option<&'a Json>)
        ensures
            match r {
                Some(v) => json_get(*self, key@) == Some(*v),
                None => json_get(*self, key@) is None,
            },
    {
        match self {
            Json::Obj(fields) => {
                let mut i: usize = 0;
                proof {
                    assert(fields@.subrange(0, fields@.len() as int) =~= fields@);
                }
                while i < fields.len()
                    invariant
                        0 <= i <= fields@.len(),
                        obj_get(fields@, key@) == obj_get(
                            fields@.subrange(i as int, fields@.len() as int),
                            key@,
                        ),
                    decreases fields@.len() - i,
                {
                    let ghost pre = fields@.subrange(i as int, fields@.len() as int);
                    if fields[i].0 == *key {
                        assert(pre[0] == fields@[i as int]);
                        return Some(&fields[i].1);
                    }
                    proof {
                        assert(pre[0] == fields@[i as int]);
                        assert(pre.subrange(1, pre.len() as int) =~= fields@.subrange(
                            i as int + 1,
                            fields@.len() as int,
                        ));
                    }
                    i = i + 1;
                }
                None
            },
            _ => None,
        }
    }

    /// Array indexing, mirroring `json_index`.
    pub fn get_index<'a>(&'a self, i: usize) -> (r: Option<&'a Json>)
        ensures
            match r {
                Some(v) => json_index(*self, i as int) == Some(*v),
                None => json_index(*self, i as int) is None,
            },
    {
        match self {
            Json::Arr(items) => {
                if i < items.len() {
                    Some(&items[i])
                } else {
                    None
                }
            },
            _ => None,
        }
    }
}

/// Appends to `results`, in depth-first document order, a reference to every
/// object node of `value` (the node itself included) that holds a field named
/// `key`.
#[verifier::loop_isolation(false)]
pub fn find_objects_with_key<'a>(value: &'a Json, key: &String, results: &mut Vec<&'a Json>)
    ensures
        deref_seq(final(results)@) == deref_seq(old(results)@) + find_nodes(*value, key@),
    decreases *value,
{
    match value {
        Json::Obj(fields) => {
            if value.get(key).is_some() {
                results.push(value);
            }
            let ghost base = results@;
            assert(deref_seq(base) =~= deref_seq(old(results)@) + if json_get(*value, key@)
                is Some {
                seq![*value]
            } else {
                Seq::<Json>::empty()
            });
            let mut i: usize = 0;
            while i < fields.len()
                invariant
                    0 <= i <= fields@.len(),
                    deref_seq(results@) == deref_seq(base) + find_nodes_in_fields(
                        fields@.take(i as int),
                        key@,
                    ),
                decreases fields@.len() - i,
            {
                proof {
                    assert(*fields == value->Obj_0);
                    assert(decreases_to!(*value => value->Obj_0));
                    assert(decreases_to!(*fields => fields@));
                    assert(decreases_to!(fields@ => fields@[i as int]));
                    assert(decreases_to!(fields@[i as int] => fields@[i as int].1));
                }
                find_objects_with_key(&fields[i].1, key, results);
                proof {
                    let taken = fields@.take(i as int + 1);
                    assert(taken.drop_last() =~= fields@.take(i as int));
                    assert(taken.last() == fields@[i as int]);
                }
                i = i + 1;
            }
            proof {
                assert(fields@.take(fields@.len() as int) =~= fields@);
                assert(deref_seq(results@) =~= deref_seq(old(results)@) + find_nodes(
                    *value,
                    key@,
                ));
            }
        },
        Json::Arr(items) => {
            let mut i: usize = 0;
            while i < items.len()
                invariant
                    0 <= i <= items@.len(),
                    deref_seq(results@) == deref_seq(old(results)@) + find_nodes_in_items(
                        items@.take(i as int),
                        key@,
                    ),
                decreases items@.len() - i,
            {
                proof {
                    assert(*items == value->Arr_0);
                    assert(decreases_to!(*value => value->Arr_0));
                    assert(decreases_to!(*items => items@));
                    assert(decreases_to!(items@ => items@[i as int]));
                }
                find_objects_with_key(&items[i], key, results);
                proof {
                    let taken = items@.take(i as int + 1);
                    assert(taken.drop_last() =~= items@.take(i as int));
                    assert(taken.last() == items@[i as int]);
                }
                i = i + 1;
            }
            proof {
                assert(items@.take(items@.len() as int) =~= items@);
            }
        },
        _ => {
            assert(deref_seq(results@) =~= deref_seq(old(results)@) + Seq::<Json>::empty());
        },
    }
}

} // verus!
