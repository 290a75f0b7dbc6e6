//! Tag values and the map of a feature's tags.

use vstd::prelude::*;

use crate::error::Error;

verus! {

/// A tag value as it stands in a layer's dictionary: at most one payload is
/// expected, and the first one set in the order of the fields wins.
///
/// Floating-point payloads are held as their IEEE-754 bit patterns.
#[derive(Debug)]
pub struct TileValue {
    pub string_value: Option<String>,
    pub float_value: Option<u32>,
    pub double_value: Option<u64>,
    pub int_value: Option<i64>,
    pub uint_value: Option<u64>,
    pub sint_value: Option<i64>,
    pub bool_value: Option<bool>,
}

/// A tag value represents data associated to a key.
///
/// It may either be some kind of number, a string or a boolean. Floats are
/// held as their IEEE-754 bit patterns.
#[derive(Debug)]
pub enum Value {
    String(String),
    Float32(u32),
    Float64(u64),
    Int64(i64),
    Uint64(u64),
    Bool(bool),
}

/// The value that a dictionary entry stands for.
pub open spec fn value_of(v: TileValue) -> Result<Value, Error> {
    if v.string_value is Some {
        Ok(Value::String(v.string_value->0))
    } else if v.float_value is Some {
        Ok(Value::Float32(v.float_value->0))
    } else if v.double_value is Some {
        Ok(Value::Float64(v.double_value->0))
    } else if v.int_value is Some {
        Ok(Value::Int64(v.int_value->0))
    } else if v.uint_value is Some {
        Ok(Value::Uint64(v.uint_value->0))
    } else if v.sint_value is Some {
        Ok(Value::Int64(v.sint_value->0))
    } else if v.bool_value is Some {
        Ok(Value::Bool(v.bool_value->0))
    } else {
        Err(Error::EmptyValue)
    }
}

/// An integer value as `i64`; unsigned values are reinterpreted.
pub open spec fn int_of(v: Value) -> Option<i64> {
    match v {
        Value::Int64(x) => Some(x),
        Value::Uint64(x) => Some(x as i64),
        _ => None,
    }
}

/// An integer value truncated to `u16`.
pub open spec fn u16_of(v: Value) -> Option<u16> {
    match v {
        Value::Int64(x) => Some(x as u16),
        Value::Uint64(x) => Some(x as u16),
        _ => None,
    }
}

/// The text of a string value.
pub open spec fn str_of(v: Value) -> Option<Seq<char>> {
    match v {
        Value::String(s) => Some(s@),
        _ => None,
    }
}

/// `true`, or an integer other than zero.
pub open spec fn truthy(v: Value) -> bool {
    match v {
        Value::Bool(b) => b,
        _ => int_of(v) is Some && int_of(v)->0 != 0,
    }
}

impl Value {
    /// Returns a Value for a dictionary entry, or `EmptyValue` if the entry
    /// carries no payload.
    pub fn from_tile_value(value: &TileValue) -> (r: Result<Value, Error>)
        ensures
            r == value_of(*value),
    {
        if let Some(s) = &value.string_value {
            Ok(Value::String(s.clone()))
        } else if let Some(x) = value.float_value {
            Ok(Value::Float32(x))
        } else if let Some(x) = value.double_value {
            Ok(Value::Float64(x))
        } else if let Some(x) = value.int_value {
            Ok(Value::Int64(x))
        } else if let Some(x) = value.uint_value {
            Ok(Value::Uint64(x))
        } else if let Some(x) = value.sint_value {
            Ok(Value::Int64(x))
        } else if let Some(x) = value.bool_value {
            Ok(Value::Bool(x))
        } else {
            Err(Error::EmptyValue)
        }
    }

    /// Converts the value to i64, if possible.
    pub fn i64(&self) -> (r: Option<i64>)
        ensures
            r == int_of(*self),
    {
        match self {
            Value::Int64(x) => Some(*x),
            Value::Uint64(x) => Some(*x as i64),
            _ => None,
        }
    }

    /// Converts the value to u16, if possible.
    pub fn u16(&self) -> (r: Option<u16>)
        ensures
            r == u16_of(*self),
    {
        match self {
            Value::Int64(x) => Some(*x as u16),
            Value::Uint64(x) => Some(*x as u16),
            _ => None,
        }
    }

    /// Converts the value to &str, if possible.
    pub fn str(&self) -> (r: Option<&str>)
        ensures
            r.is_some() == (str_of(*self) is Some),
            r.is_some() ==> r.unwrap()@ == str_of(*self)->0,
    {
        match self {
            Value::String(s) => Some(s.as_str()),
            _ => None,
        }
    }

    /// Returns true if the value is "trueish": either true or an integer
    /// different from zero.
    pub fn yes(&self) -> (r: bool)
        ensures
            r == truthy(*self),
    {
        match self {
            Value::Bool(true) => true,
            _ => match self.i64() {
                Some(x) => x != 0,
                None => false,
            },
        }
    }
}

/// The tags of the first `n` pairs of a raw tag list, each pair a key index
/// and a value index into the layer's dictionaries; a later key wins.
pub open spec fn decode_pairs(
    keys: Seq<String>,
    values: Seq<TileValue>,
    tags: Seq<u32>,
    n: nat,
) -> Result<Map<Seq<char>, Value>, Error>
    decreases n,
{
    if n == 0 {
        Ok(Map::empty())
    } else {
        match decode_pairs(keys, values, tags, (n - 1) as nat) {
            Err(e) => Err(e),
            Ok(m) => {
                let k = tags[2 * (n - 1)] as int;
                let v = tags[2 * (n - 1) + 1] as int;
                if k >= keys.len() || v >= values.len() {
                    Err(Error::TagIndexOutOfRange)
                } else {
                    match value_of(values[v]) {
                        Err(e) => Err(e),
                        Ok(val) => Ok(m.insert(keys[k]@, val)),
                    }
                }
            },
        }
    }
}

/// Once a pair fails, decoding more pairs fails the same way.
proof fn lemma_error_stays(
    keys: Seq<String>,
    values: Seq<TileValue>,
    tags: Seq<u32>,
    i: nat,
    n: nat,
)
    requires
        i <= n,
        decode_pairs(keys, values, tags, i) is Err,
    ensures
        decode_pairs(keys, values, tags, n) == decode_pairs(keys, values, tags, i),
    decreases n - i,
{
    if i < n {
        lemma_error_stays(keys, values, tags, i, (n - 1) as nat);
    }
}

/// The tags that a raw tag list stands for, or why it stands for none.
pub open spec fn decode_tags(keys: Seq<String>, values: Seq<TileValue>, tags: Seq<u32>) -> Result<
    Map<Seq<char>, Value>,
    Error,
> {
    if tags.len() % 2 != 0 {
        Err(Error::OddTagList)
    } else {
        decode_pairs(keys, values, tags, tags.len() / 2)
    }
}

/// With every dictionary value carrying a payload, decoding pairs fails, if
/// at all, only on an index outside a dictionary.
proof fn lemma_only_index_errors(
    keys: Seq<String>,
    values: Seq<TileValue>,
    tags: Seq<u32>,
    n: nat,
)
    requires
        forall|v: int| 0 <= v < values.len() ==> value_of(#[trigger] values[v]) is Ok,
    ensures
        decode_pairs(keys, values, tags, n) is Ok || decode_pairs(keys, values, tags, n) == Err::<
            Map<Seq<char>, Value>,
            Error,
        >(Error::TagIndexOutOfRange),
    decreases n,
{
    if n > 0 {
        lemma_only_index_errors(keys, values, tags, (n - 1) as nat);
    }
}

/// A tag list of odd length is refused with `OddTagList`.
pub proof fn lemma_odd_tag_list_fails(keys: Seq<String>, values: Seq<TileValue>, tags: Seq<u32>)
    requires
        tags.len() % 2 == 1,
    ensures
        decode_tags(keys, values, tags) == Err::<Map<Seq<char>, Value>, Error>(Error::OddTagList),
{
}

/// A tag list of even length with a key or value index at or beyond its
/// dictionary's length is refused with `TagIndexOutOfRange`, where every
/// dictionary value carries a payload (else an empty value met first is
/// reported instead).
pub proof fn lemma_out_of_range_index_fails(
    keys: Seq<String>,
    values: Seq<TileValue>,
    tags: Seq<u32>,
    i: int,
)
    requires
        tags.len() % 2 == 0,
        0 <= i < tags.len(),
        i % 2 == 0 ==> tags[i] >= keys.len(),
        i % 2 == 1 ==> tags[i] >= values.len(),
        forall|v: int| 0 <= v < values.len() ==> value_of(#[trigger] values[v]) is Ok,
    ensures
        decode_tags(keys, values, tags) == Err::<Map<Seq<char>, Value>, Error>(
            Error::TagIndexOutOfRange,
        ),
{
    let p = i / 2;
    lemma_only_index_errors(keys, values, tags, p as nat);
    assert(2 * p == i || 2 * p + 1 == i);
    assert(decode_pairs(keys, values, tags, (p + 1) as nat) is Err);
    lemma_error_stays(keys, values, tags, (p + 1) as nat, tags.len() / 2);
    lemma_only_index_errors(keys, values, tags, (p + 1) as nat);
}

/// A map to store tags of features, from key to value.
pub struct TagMap {
    entries: Vec<(String, Value)>,
    model: Ghost<Map<Seq<char>, Value>>,
}

impl View for TagMap {
    type V = Map<Seq<char>, Value>;

    closed spec fn view(&self) -> Map<Seq<char>, Value> {
        self.model@
    }
}

impl TagMap {
    /// Keys are unique and the entries hold exactly the model.
    pub closed spec fn wf(&self) -> bool {
        &&& forall|i: int, j: int|
            0 <= i < j < self.entries@.len() ==> self.entries@[i].0@ != self.entries@[j].0@
        &&& forall|i: int|
            0 <= i < self.entries@.len() ==> {
                &&& #[trigger] self.model@.contains_key(self.entries@[i].0@)
                &&& self.model@[self.entries@[i].0@] == self.entries@[i].1
            }
        &&& forall|k: Seq<char>|
            #![trigger self.model@.contains_key(k)]
            self.model@.contains_key(k) ==> exists|i: int|
                0 <= i < self.entries@.len() && self.entries@[i].0@ == k
    }

    /// Creates an empty tag map.
    pub fn new() -> (m: TagMap)
        ensures
            m.wf(),
            m@ == Map::<Seq<char>, Value>::empty(),
    {
        TagMap { entries: Vec::new(), model: Ghost(Map::empty()) }
    }

    /// The index of the entry for `key`, if there is one.
    fn find(&self, key: &String) -> (r: Option<usize>)
        requires
            self.wf(),
        ensures
            r is Some <==> self@.contains_key(key@),
            r is Some ==> r->0 < self.entries@.len() && self.entries@[r->0 as int].0@ == key@,
    {
        let mut i: usize = 0;
        while i < self.entries.len()
            invariant
                self.wf(),
                i <= self.entries@.len(),
                forall|j: int| 0 <= j < i ==> self.entries@[j].0@ != key@,
            decreases self.entries@.len() - i,
        {
            if self.entries[i].0 == *key {
                return Some(i);
            }
            i = i + 1;
        }
        proof {
            if self@.contains_key(key@) {
                let j = choose|j: int| 0 <= j < self.entries@.len() && self.entries@[j].0@ == key@;
                assert(self.entries@[j].0@ == key@);
            }
        }
        None
    }

    /// Sets the value of `key`, replacing an earlier one.
    pub fn insert(&mut self, key: String, value: Value)
        requires
            old(self).wf(),
        ensures
            final(self).wf(),
            final(self)@ == old(self)@.insert(key@, value),
    {
        let ghost k = key@;
        let ghost old_entries = self.entries@;
        match self.find(&key) {
            Some(i) => {
                self.entries.set(i, (key, value));
                self.model = Ghost(self.model@.insert(k, value));
                assert forall|a: int, b: int| 0 <= a < b < self.entries@.len() implies
                    self.entries@[a].0@ != self.entries@[b].0@ by {
                    assert(old_entries[a].0@ != old_entries[b].0@);
                }
                assert forall|j: int| 0 <= j < self.entries@.len() implies {
                    &&& #[trigger] self.model@.contains_key(self.entries@[j].0@)
                    &&& self.model@[self.entries@[j].0@] == self.entries@[j].1
                } by {
                    if j != i {
                        assert(old_entries[j].0@ != old_entries[i as int].0@);
                    }
                }
                assert forall|c: Seq<char>| #[trigger] self.model@.contains_key(c) implies exists|
                    j: int,
                | 0 <= j < self.entries@.len() && self.entries@[j].0@ == c by {
                    if c != k {
                        let j = choose|j: int|
                            0 <= j < old_entries.len() && old_entries[j].0@ == c;
                        assert(self.entries@[j].0@ == c);
                    } else {
                        assert(self.entries@[i as int].0@ == c);
                    }
                }
            },
            None => {
                self.entries.push((key, value));
                self.model = Ghost(self.model@.insert(k, value));
                let ghost n = old_entries.len() as int;
                assert(self.entries@[n].0@ == k);
                assert forall|j: int| 0 <= j < n implies old_entries[j].0@ != k by {
                    assert(old(self).model@.contains_key(old_entries[j].0@));
                }
                assert forall|c: Seq<char>| #[trigger] self.model@.contains_key(c) implies exists|
                    j: int,
                | 0 <= j < self.entries@.len() && self.entries@[j].0@ == c by {
                    if c != k {
                        let j = choose|j: int|
                            0 <= j < old_entries.len() && old_entries[j].0@ == c;
                        assert(self.entries@[j].0@ == c);
                    }
                }
                assert forall|j: int| 0 <= j < self.entries@.len() implies {
                    &&& #[trigger] self.model@.contains_key(self.entries@[j].0@)
                    &&& self.model@[self.entries@[j].0@] == self.entries@[j].1
                } by {
                    if j < n {
                        assert(self.entries@[j] == old_entries[j]);
                    }
                }
            },
        }
    }

    /// The value of `key`, if the map has one.
    pub fn get(&self, key: &str) -> (r: Option<&Value>)
        requires
            self.wf(),
        ensures
            r is Some <==> self@.contains_key(key@),
            r is Some ==> *(r->0) == self@[key@],
    {
        let owned = key.to_owned();
        match self.find(&owned) {
            Some(i) => Some(&self.entries[i].1),
            None => None,
        }
    }
}

/// Decodes the tags of a feature using a layer's dictionaries.
///
/// Fails with `OddTagList` on a list of odd length, with
/// `TagIndexOutOfRange` on an index outside a dictionary, and with
/// `EmptyValue` on a value without payload; the first pair that fails
/// decides.
pub fn get_tag_map(keys: &Vec<String>, values: &Vec<TileValue>, tags: &[u32]) -> (r: Result<
    TagMap,
    Error,
>)
    ensures
        match r {
            Ok(m) => m.wf() && decode_tags(keys@, values@, tags@) == Ok::<
                Map<Seq<char>, Value>,
                Error,
            >(m@),
            Err(e) => decode_tags(keys@, values@, tags@) == Err::<Map<Seq<char>, Value>, Error>(e),
        },
{
    if tags.len() % 2 != 0 {
        return Err(Error::OddTagList);
    }
    let mut map = TagMap::new();
    let len = tags.len();
    let n = len / 2;
    let mut i: usize = 0;
    while i < n
        invariant
            len == tags@.len(),
            n == tags@.len() / 2,
            tags@.len() % 2 == 0,
            i <= n,
            map.wf(),
            decode_pairs(keys@, values@, tags@, i as nat) == Ok::<Map<Seq<char>, Value>, Error>(
                map@,
            ),
        decreases n - i,
    {
        assert(2 * i + 1 < tags@.len());
        let k = tags[2 * i] as usize;
        let v = tags[2 * i + 1] as usize;
        if k >= keys.len() || v >= values.len() {
            proof {
                lemma_error_stays(keys@, values@, tags@, (i + 1) as nat, n as nat);
            }
            return Err(Error::TagIndexOutOfRange);
        }
        match Value::from_tile_value(&values[v]) {
            Err(e) => {
                proof {
                    lemma_error_stays(keys@, values@, tags@, (i + 1) as nat, n as nat);
                }
                return Err(e);
            },
            Ok(val) => {
                map.insert(keys[k].clone(), val);
            },
        }
        i = i + 1;
    }
    Ok(map)
}

} // verus!
