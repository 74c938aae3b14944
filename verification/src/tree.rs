//! The library's model of a parsed JSON value, held as plain data: exactly
//! what the extractor reads of the response tree. The parser that produces it
//! lives outside the library.

use vstd::prelude::*;

verus! {

/// A parsed JSON value. An object is its fields in document order; a number
/// is kept as its literal text, since the extractor never reads one.
pub enum JsonTree {
    Null,
    Bool(bool),
    Number(String),
    Str(String),
    Array(Vec<JsonTree>),
    Object(Vec<(String, JsonTree)>),
}

/// The value of the first field named `key`, if any.
pub open spec fn obj_lookup(fields: Seq<(String, JsonTree)>, key: Seq<char>) -> Option<JsonTree>
    decreases fields.len(),
{
    if fields.len() == 0 {
        None
    } else if fields[0].0@ == key {
        Some(fields[0].1)
    } else {
        obj_lookup(fields.drop_first(), key)
    }
}

/// Looks up the field named `key` in an object's field list; the first field
/// with that name wins.
pub fn obj_get<'a>(fields: &'a Vec<(String, JsonTree)>, key: &str) -> (res: Option<&'a JsonTree>)
    ensures
        match res {
            Some(v) => obj_lookup(fields@, key@) == Some(*v),
            None => obj_lookup(fields@, key@) is None,
        },
{
    let wanted: String = key.to_owned();
    let mut i: usize = 0;
    proof {
        assert(fields@.skip(0) =~= fields@);
    }
    while i < fields.len()
        invariant
            i <= fields@.len(),
            wanted@ == key@,
            obj_lookup(fields@, key@) == obj_lookup(fields@.skip(i as int), key@),
        decreases fields@.len() - i,
    {
        proof {
            let tail = fields@.skip(i as int);
            assert(tail.len() > 0);
            assert(tail[0] == fields@[i as int]);
            assert(tail.drop_first() =~= fields@.skip(i as int + 1));
        }
        if fields[i].0 == wanted {
            return Some(&fields[i].1);
        }
        i = i + 1;
    }
    proof {
        assert(fields@.skip(fields@.len() as int) =~= Seq::<(String, JsonTree)>::empty());
    }
    None
}

} // verus!
