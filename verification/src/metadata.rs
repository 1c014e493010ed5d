//! Metadata values and their equality.
use vstd::prelude::*;
use crate::float_bits::{double_eq, double_from_integer, double_of_int, equal};
use crate::order::{Duplicate, same_text};
use crate::ordered_map::{has_key, position_of, OrderedMap};
use crate::text::{split, split_text, has_char};

verus! {

/// The mathematical value of a metadata value. Floating-point numbers are bit patterns; the
/// entries of a map are in ascending key order.
pub enum ValueModel {
    Text(Seq<char>),
    Integer(i64),
    Float(u64),
    Boolean(bool),
    Null,
    List(Seq<ValueModel>),
    Object(Seq<(Seq<char>, ValueModel)>),
}

/// A value that a record's metadata can hold.
pub enum MetadataValue {
    String(String),
    Integer(i64),
    /// A double by its bit pattern.
    Float(u64),
    Boolean(bool),
    Null,
    List(Vec<MetadataValue>),
    Object(OrderedMap<String, MetadataValue>),
}

/// The metadata of a record.
pub type Metadata = OrderedMap<String, MetadataValue>;

pub open(crate) spec fn value_of(v: MetadataValue) -> ValueModel
    decreases v,
{
    match v {
        MetadataValue::String(s) => ValueModel::Text(s@),
        MetadataValue::Integer(n) => ValueModel::Integer(n),
        MetadataValue::Float(bits) => ValueModel::Float(bits),
        MetadataValue::Boolean(b) => ValueModel::Boolean(b),
        MetadataValue::Null => ValueModel::Null,
        MetadataValue::List(items) => ValueModel::List(
            Seq::new(
                items@.len(),
                |i: int|
                    if 0 <= i < items@.len() {
                        value_of(items@[i])
                    } else {
                        ValueModel::Null
                    },
            ),
        ),
        MetadataValue::Object(map) => ValueModel::Object(
            Seq::new(
                map.entries@.len(),
                |i: int|
                    if 0 <= i < map.entries@.len() {
                        (map.entries@[i].0@, value_of(map.entries@[i].1))
                    } else {
                        (Seq::empty(), ValueModel::Null)
                    },
            ),
        ),
    }
}

impl DeepView for MetadataValue {
    type V = ValueModel;

    open(crate) spec fn deep_view(&self) -> ValueModel {
        value_of(*self)
    }
}

impl MetadataValue {
    pub open spec fn view(&self) -> ValueModel {
        self.deep_view()
    }

    /// The value as a double, where it is a number.
    pub fn as_number(&self) -> (r: Option<u64>)
        ensures
            r == number_of(self.deep_view()),
    {
        match self {
            MetadataValue::Integer(n) => Some(double_from_integer(*n)),
            MetadataValue::Float(bits) => Some(*bits),
            _ => None,
        }
    }
}

/// The value as a double, where it is a number.
pub open spec fn number_of(v: ValueModel) -> Option<u64> {
    match v {
        ValueModel::Integer(n) => Some(double_of_int(n as int) as u64),
        ValueModel::Float(bits) => Some(bits),
        _ => None,
    }
}

pub(crate) proof fn lemma_list_view(items: Vec<MetadataValue>)
    ensures
        MetadataValue::List(items).deep_view() == ValueModel::List(items.deep_view()),
{
    let v = MetadataValue::List(items);
    assert(value_of(v)->List_0 =~= items.deep_view());
}

pub(crate) proof fn lemma_map_view(map: OrderedMap<String, MetadataValue>)
    ensures
        MetadataValue::Object(map).deep_view() == ValueModel::Object(map.pairs()),
{
    let v = MetadataValue::Object(map);
    assert(value_of(v)->Object_0 =~= map.pairs());
}

/// Equality of metadata values: numbers of one kind compare as numbers, so a NaN differs from
/// itself and both zeros are equal; an integer never equals a double.
pub open spec fn values_equal(a: ValueModel, b: ValueModel) -> bool
    decreases a,
{
    match (a, b) {
        (ValueModel::Text(x), ValueModel::Text(y)) => x == y,
        (ValueModel::Integer(x), ValueModel::Integer(y)) => x == y,
        (ValueModel::Float(x), ValueModel::Float(y)) => double_eq(x, y),
        (ValueModel::Boolean(x), ValueModel::Boolean(y)) => x == y,
        (ValueModel::Null, ValueModel::Null) => true,
        (ValueModel::List(x), ValueModel::List(y)) => x.len() == y.len() && forall|i: int|
            0 <= i < x.len() ==> values_equal(#[trigger] x[i], y[i]),
        (ValueModel::Object(x), ValueModel::Object(y)) => x.len() == y.len() && forall|i: int|
            0 <= i < x.len() ==> (#[trigger] x[i]).0 == y[i].0 && values_equal(x[i].1, y[i].1),
        _ => false,
    }
}

impl MetadataValue {
    /// Whether two values are equal.
    pub fn same(&self, other: &MetadataValue) -> (r: bool)
        ensures
            r == values_equal(self.deep_view(), other.deep_view()),
        decreases self,
    {
        match (self, other) {
            (MetadataValue::String(x), MetadataValue::String(y)) => same_text(
                x.as_str(),
                y.as_str(),
            ),
            (MetadataValue::Integer(x), MetadataValue::Integer(y)) => *x == *y,
            (MetadataValue::Float(x), MetadataValue::Float(y)) => equal(*x, *y),
            (MetadataValue::Boolean(x), MetadataValue::Boolean(y)) => *x == *y,
            (MetadataValue::Null, MetadataValue::Null) => true,
            (MetadataValue::List(x), MetadataValue::List(y)) => {
                proof {
                    lemma_list_view(*x);
                    lemma_list_view(*y);
                }
                if x.len() != y.len() {
                    return false;
                }
                let mut i: usize = 0;
                while i < x.len()
                    invariant
                        i <= x@.len(),
                        x@.len() == y@.len(),
                        self == MetadataValue::List(*x),
                        forall|k: int|
                            0 <= k < i ==> values_equal(
                                #[trigger] x.deep_view()[k],
                                y.deep_view()[k],
                            ),
                        self.deep_view() == ValueModel::List(x.deep_view()),
                        other.deep_view() == ValueModel::List(y.deep_view()),
                    decreases x@.len() - i,
                {
                    if !x[i].same(&y[i]) {
                        proof {
                            assert(!values_equal(x.deep_view()[i as int], y.deep_view()[i as int]));
                        }
                        return false;
                    }
                    i += 1;
                }
                true
            },
            (MetadataValue::Object(x), MetadataValue::Object(y)) => {
                proof {
                    lemma_map_view(*x);
                    lemma_map_view(*y);
                }
                if x.entries.len() != y.entries.len() {
                    return false;
                }
                let mut i: usize = 0;
                while i < x.entries.len()
                    invariant
                        i <= x.entries@.len(),
                        x.entries@.len() == y.entries@.len(),
                        self == MetadataValue::Object(*x),
                        forall|k: int|
                            0 <= k < i ==> (#[trigger] x.pairs()[k]).0 == y.pairs()[k].0
                                && values_equal(x.pairs()[k].1, y.pairs()[k].1),
                        self.deep_view() == ValueModel::Object(x.pairs()),
                        other.deep_view() == ValueModel::Object(y.pairs()),
                    decreases x.entries@.len() - i,
                {
                    let a = &x.entries[i];
                    let b = &y.entries[i];
                    let same_key = same_text(a.0.as_str(), b.0.as_str());
                    if !same_key || !a.1.same(&b.1) {
                        proof {
                            assert(x.pairs()[i as int].0 == a.0@);
                        }
                        return false;
                    }
                    i += 1;
                }
                true
            },
            _ => false,
        }
    }
}

impl Duplicate for MetadataValue {
    fn duplicate(&self) -> (r: Self) {
        self.copied()
    }
}

impl MetadataValue {
    fn copied(&self) -> (r: Self)
        ensures
            r.deep_view() == self.deep_view(),
        decreases self,
    {
        match self {
            MetadataValue::String(s) => MetadataValue::String(s.clone()),
            MetadataValue::Integer(n) => MetadataValue::Integer(*n),
            MetadataValue::Float(bits) => MetadataValue::Float(*bits),
            MetadataValue::Boolean(b) => MetadataValue::Boolean(*b),
            MetadataValue::Null => MetadataValue::Null,
            MetadataValue::List(items) => {
                let mut out: Vec<MetadataValue> = Vec::new();
                let mut i: usize = 0;
                while i < items.len()
                    invariant
                        i <= items@.len(),
                        out@.len() == i,
                        self == MetadataValue::List(*items),
                        forall|k: int|
                            0 <= k < i ==> (#[trigger] out@[k]).deep_view()
                                == items@[k].deep_view(),
                    decreases items@.len() - i,
                {
                    let item = &items[i];
                    proof {
                        assert(decreases_to!(*self => self->List_0@[i as int]));
                    }
                    out.push(item.copied());
                    i += 1;
                }
                proof {
                    assert(out.deep_view() =~= items.deep_view());
                    lemma_list_view(out);
                    lemma_list_view(*items);
                }
                MetadataValue::List(out)
            },
            MetadataValue::Object(map) => {
                proof {
                    use_type_invariant(map);
                }
                let mut entries: Vec<(String, MetadataValue)> = Vec::new();
                let mut i: usize = 0;
                while i < map.entries.len()
                    invariant
                        i <= map.entries@.len(),
                        entries@.len() == i,
                        self == MetadataValue::Object(*map),
                        forall|k: int|
                            0 <= k < i ==> (#[trigger] entries@[k]).0@ == map.entries@[k].0@
                                && entries@[k].1.deep_view() == map.entries@[k].1.deep_view(),
                    decreases map.entries@.len() - i,
                {
                    let e = &map.entries[i];
                    proof {
                        assert(decreases_to!(*self => self->Object_0.entries@[i as int].1));
                    }
                    entries.push((e.0.clone(), e.1.copied()));
                    i += 1;
                }
                let out = OrderedMap { entries };
                proof {
                    assert(out.pairs() =~= map.pairs());
                    lemma_map_view(out);
                    lemma_map_view(*map);
                }
                MetadataValue::Object(out)
            },
        }
    }
}

/// The value of a key among pairs.
pub open spec fn lookup(pairs: Seq<(Seq<char>, ValueModel)>, key: Seq<char>) -> Option<ValueModel> {
    if has_key(pairs, key) {
        Some(pairs[position_of(pairs, key)].1)
    } else {
        None
    }
}

/// The value that a path leads to inside `v`.
pub open spec fn descend(v: ValueModel, path: Seq<Seq<char>>) -> Option<ValueModel>
    decreases path.len(),
{
    if path.len() == 0 {
        Some(v)
    } else {
        match v {
            ValueModel::Object(pairs) => match lookup(pairs, path[0]) {
                Some(inner) => descend(inner, path.drop_first()),
                None => None,
            },
            _ => None,
        }
    }
}

/// The value that a dot-separated key names: the entry of the whole key where there is one, else
/// the value at the end of the path of its pieces.
pub open spec fn resolve(pairs: Seq<(Seq<char>, ValueModel)>, key: Seq<char>) -> Option<ValueModel> {
    if !key.contains('.') || has_key(pairs, key) {
        lookup(pairs, key)
    } else {
        let path = split(key, '.');
        match lookup(pairs, path[0]) {
            Some(v) => descend(v, path.drop_first()),
            None => None,
        }
    }
}

fn entry<'a>(metadata: &'a Metadata, key: &str) -> (r: Option<&'a MetadataValue>)
    ensures
        match r {
            Some(v) => lookup(metadata.pairs(), key@) == Some(v.deep_view()),
            None => lookup(metadata.pairs(), key@) is None,
        },
{
    metadata.get(key)
}

/// Resolves a dot-separated key against metadata.
pub fn resolve_dot_path<'a>(metadata: &'a Metadata, key: &str) -> (r: Option<&'a MetadataValue>)
    ensures
        match r {
            Some(v) => resolve(metadata.pairs(), key@) == Some(v.deep_view()),
            None => resolve(metadata.pairs(), key@) is None,
        },
{
    if !has_char(key, '.') || metadata.contains_key(key) {
        return entry(metadata, key);
    }
    let parts = split_text(key, '.');
    let ghost path = split(key@, '.');
    proof {
        assert(parts.deep_view()[0] == parts@[0]@);
    }
    let mut current: &'a MetadataValue = match entry(metadata, parts[0].as_str()) {
        Some(v) => v,
        None => {
            return None;
        },
    };
    let mut i: usize = 1;
    proof {
        assert(path.drop_first() =~= path.skip(1));
    }
    while i < parts.len()
        invariant
            1 <= i <= parts@.len(),
            parts.deep_view() == path,
            descend(current.deep_view(), path.skip(i as int)) == resolve(metadata.pairs(), key@),
        decreases parts@.len() - i,
    {
        proof {
            assert(path.skip(i as int).drop_first() =~= path.skip(i + 1));
            assert(path.skip(i as int)[0] == parts@[i as int]@);
        }
        match current {
            MetadataValue::Object(map) => {
                proof {
                    lemma_map_view(*map);
                }
                match entry(map, parts[i].as_str()) {
                    Some(v) => {
                        current = v;
                    },
                    None => {
                        return None;
                    },
                }
            },
            _ => {
                return None;
            },
        }
        i += 1;
    }
    Some(current)
}

} // verus!
