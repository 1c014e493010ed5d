//! What filters accept.
use vstd::prelude::*;
use crate::filter::{accepts, MetadataFilter};
use crate::metadata::{resolve, values_equal, MetadataValue, ValueModel};
use crate::ordered_map::{ascending, has_key, lemma_ascending_unique, position_of};
use crate::text::{first_index, lemma_first_index, split};

verus! {

/// Whether no number in a value is NaN: the magnitude of none is above that of infinity.
pub open spec fn nan_free(v: ValueModel) -> bool
    decreases v,
{
    match v {
        ValueModel::Float(bits) => bits % 0x8000_0000_0000_0000 <= 0x7ff0_0000_0000_0000,
        ValueModel::List(items) => forall|i: int|
            0 <= i < items.len() ==> nan_free(#[trigger] items[i]),
        ValueModel::Object(pairs) => forall|i: int|
            0 <= i < pairs.len() ==> nan_free((#[trigger] pairs[i]).1),
        _ => true,
    }
}

/// A value with every negative zero made positive.
pub open spec fn unsigned_zeros(v: ValueModel) -> ValueModel
    decreases v,
{
    match v {
        ValueModel::Float(bits) => if bits == 0x8000_0000_0000_0000 {
            ValueModel::Float(0)
        } else {
            v
        },
        ValueModel::List(items) => ValueModel::List(
            Seq::new(
                items.len(),
                |i: int|
                    if 0 <= i < items.len() {
                        unsigned_zeros(items[i])
                    } else {
                        ValueModel::Null
                    },
            ),
        ),
        ValueModel::Object(pairs) => ValueModel::Object(
            Seq::new(
                pairs.len(),
                |i: int|
                    if 0 <= i < pairs.len() {
                        (pairs[i].0, unsigned_zeros(pairs[i].1))
                    } else {
                        (Seq::empty(), ValueModel::Null)
                    },
            ),
        ),
        _ => v,
    }
}

/// Two values are equal exactly where they are the same but for the signs of zeros and no number
/// in them is NaN.
pub proof fn law_values_equal(a: ValueModel, b: ValueModel)
    ensures
        values_equal(a, b) <==> (nan_free(a) && nan_free(b) && unsigned_zeros(a) == unsigned_zeros(
            b,
        )),
    decreases a,
{
    match (a, b) {
        (ValueModel::List(x), ValueModel::List(y)) => {
            let s = unsigned_zeros(a)->List_0;
            let t = unsigned_zeros(b)->List_0;
            if x.len() == y.len() {
                assert forall|i: int| 0 <= i < x.len() implies values_equal(#[trigger] x[i], y[i])
                    == (nan_free(x[i]) && nan_free(y[i]) && s[i] == t[i]) by {
                    law_values_equal(x[i], y[i]);
                }
                if values_equal(a, b) {
                    assert(s =~= t);
                    assert forall|i: int| 0 <= i < y.len() implies nan_free(#[trigger] y[i]) by {
                        assert(values_equal(x[i], y[i]));
                    }
                }
            } else {
                assert(s.len() != t.len());
            }
        },
        (ValueModel::Object(x), ValueModel::Object(y)) => {
            let s = unsigned_zeros(a)->Object_0;
            let t = unsigned_zeros(b)->Object_0;
            if x.len() == y.len() {
                assert forall|i: int| 0 <= i < x.len() implies values_equal(
                    (#[trigger] x[i]).1,
                    y[i].1,
                ) == (nan_free(x[i].1) && nan_free(y[i].1) && s[i].1 == t[i].1) by {
                    law_values_equal(x[i].1, y[i].1);
                }
                if values_equal(a, b) {
                    assert forall|i: int| 0 <= i < x.len() implies s[i] == t[i] by {
                        assert(x[i].0 == y[i].0);
                    }
                    assert(s =~= t);
                    assert forall|i: int| 0 <= i < y.len() implies nan_free(
                        (#[trigger] y[i]).1,
                    ) by {
                        assert(values_equal(x[i].1, y[i].1));
                    }
                }
                if nan_free(a) && nan_free(b) && unsigned_zeros(a) == unsigned_zeros(b) {
                    assert forall|i: int| 0 <= i < x.len() implies (#[trigger] x[i]).0 == y[i].0
                        && values_equal(x[i].1, y[i].1) by {
                        assert(s[i] == t[i]);
                        assert(nan_free(y[i].1));
                    }
                }
            } else {
                assert(s.len() != t.len());
            }
        },
        _ => {},
    }
}

/// A filter and its negation: where a key has a value, exactly one of "equal" and "not equal" with
/// the same operand accepts, and exactly one of "among" and "not among"; where it has none, no
/// filter on the key accepts.
pub proof fn law_negations(
    key: String,
    value: MetadataValue,
    values: Vec<MetadataValue>,
    pairs: Seq<(Seq<char>, ValueModel)>,
)
    ensures
        ({
            let eq = accepts(MetadataFilter::Eq { key, value }, pairs);
            let ne = accepts(MetadataFilter::NotEq { key, value }, pairs);
            let within = accepts(MetadataFilter::In { key, values }, pairs);
            let without = accepts(MetadataFilter::NotIn { key, values }, pairs);
            if resolve(pairs, key@) is Some {
                eq != ne && within != without
            } else {
                !eq && !ne && !within && !without
            }
        }),
{
}

/// Nothing is accepted of a key that is not there, and a key that is there exists.
pub proof fn law_absent_key(
    key: String,
    needle: String,
    bound: u64,
    size: usize,
    inner: Box<MetadataFilter>,
    pairs: Seq<(Seq<char>, ValueModel)>,
)
    ensures
        accepts(MetadataFilter::Exists { key }, pairs) == resolve(pairs, key@) is Some,
        resolve(pairs, key@) is None ==> {
            &&& !accepts(MetadataFilter::Contains { key, needle }, pairs)
            &&& !accepts(MetadataFilter::GreaterThan { key, value: bound }, pairs)
            &&& !accepts(MetadataFilter::GreaterThanOrEqual { key, value: bound }, pairs)
            &&& !accepts(MetadataFilter::LessThan { key, value: bound }, pairs)
            &&& !accepts(MetadataFilter::LessThanOrEqual { key, value: bound }, pairs)
            &&& !accepts(MetadataFilter::ElemMatch { key, filter: inner }, pairs)
            &&& !accepts(MetadataFilter::Size { key, size }, pairs)
        },
{
}

/// A key without a dot names its entry: a filter for equality accepts exactly where the entry is
/// the operand, but for the signs of zeros, and no number in either is NaN.
pub proof fn law_equality(
    key: String,
    value: MetadataValue,
    pairs: Seq<(Seq<char>, ValueModel)>,
)
    requires
        ascending::<String, ValueModel>(pairs),
        !key@.contains('.'),
    ensures
        accepts(MetadataFilter::Eq { key, value }, pairs) <==> exists|i: int|
            0 <= i < pairs.len() && (#[trigger] pairs[i]).0 == key@ && nan_free(pairs[i].1)
                && nan_free(value@) && unsigned_zeros(pairs[i].1) == unsigned_zeros(value@),
{
    if has_key(pairs, key@) {
        let p = position_of(pairs, key@);
        law_values_equal(pairs[p].1, value@);
        assert forall|i: int| 0 <= i < pairs.len() && (#[trigger] pairs[i]).0 == key@ implies i
            == p by {
            lemma_ascending_unique::<String, ValueModel>(pairs, i, p);
        }
        assert(pairs[p].0 == key@);
    }
}

/// A value is among several exactly where it equals one of them.
pub proof fn law_in_is_some_eq(
    key: String,
    values: Vec<MetadataValue>,
    pairs: Seq<(Seq<char>, ValueModel)>,
)
    ensures
        accepts(MetadataFilter::In { key, values }, pairs) <==> exists|i: int|
            0 <= i < values@.len() && accepts(
                MetadataFilter::Eq { key, value: #[trigger] values@[i] },
                pairs,
            ),
{
    let all = values.deep_view();
    if resolve(pairs, key@) is Some {
        let v = resolve(pairs, key@)->Some_0;
        assert forall|i: int| 0 <= i < all.len() implies values_equal(#[trigger] all[i], v)
            == accepts(MetadataFilter::Eq { key, value: values@[i] }, pairs) by {
            assert(all[i] == values@[i]@);
            law_values_equal(all[i], v);
            law_values_equal(v, all[i]);
        }
        if accepts(MetadataFilter::In { key, values }, pairs) {
            let i = choose|i: int| 0 <= i < all.len() && values_equal(#[trigger] all[i], v);
            assert(accepts(MetadataFilter::Eq { key, value: values@[i] }, pairs));
        }
        if exists|i: int|
            0 <= i < values@.len() && accepts(
                MetadataFilter::Eq { key, value: #[trigger] values@[i] },
                pairs,
            ) {
            let i = choose|i: int|
                0 <= i < values@.len() && accepts(
                    MetadataFilter::Eq { key, value: #[trigger] values@[i] },
                    pairs,
                );
            assert(values_equal(all[i], v));
        }
    }
}

/// A text contains what stands somewhere in it, and nothing else; what is no text contains nothing.
pub proof fn law_contains(key: String, needle: String, pairs: Seq<(Seq<char>, ValueModel)>)
    ensures
        accepts(MetadataFilter::Contains { key, needle }, pairs) <==> exists|
            a: Seq<char>,
            b: Seq<char>,
        |
            resolve(pairs, key@) == Some(ValueModel::Text(#[trigger] (a + needle@ + b))),
{
    let n = needle@;
    if accepts(MetadataFilter::Contains { key, needle }, pairs) {
        let s = resolve(pairs, key@)->Some_0->Text_0;
        let i = choose|i: int|
            0 <= i <= s.len() - n.len() && #[trigger] s.subrange(i, i + n.len()) == n;
        let a = s.take(i);
        let b = s.skip(i + n.len());
        assert forall|j: int| 0 <= j < n.len() implies s[i + j] == n[j] by {
            assert(s.subrange(i, i + n.len())[j] == s[i + j]);
        }
        assert(a + n + b =~= s);
    }
    if exists|a: Seq<char>, b: Seq<char>|
        resolve(pairs, key@) == Some(ValueModel::Text(#[trigger] (a + n + b))) {
        let (a, b) = choose|a: Seq<char>, b: Seq<char>|
            resolve(pairs, key@) == Some(ValueModel::Text(#[trigger] (a + n + b)));
        let s = a + n + b;
        let i = a.len() as int;
        assert(s.subrange(i, i + n.len()) =~= n);
    }
}

/// The order of doubles by their patterns: of two numbers of one sign the greater pattern is the
/// greater number, or the smaller one where both are negative; a negative number is less than a
/// positive one unless both are zeros; NaN compares with nothing.
pub proof fn law_double_order(a: u64, b: u64)
    ensures
        ({
            let sign = 0x8000_0000_0000_0000u64;
            let top = 0x7ff0_0000_0000_0000u64;
            let lt = crate::float_bits::double_lt(a, b);
            let le = crate::float_bits::double_le(a, b);
            &&& a <= top && b <= top ==> lt == (a < b) && le == (a <= b)
            &&& sign <= a <= sign + top && sign <= b <= sign + top ==> lt == (a > b) && le == (a
                >= b)
            &&& sign <= a <= sign + top && b <= top ==> le && lt == !(a == sign && b == 0)
            &&& a <= top && sign <= b <= sign + top ==> !lt && le == (a == 0 && b == sign)
            &&& top < a < sign || top < b < sign || a > sign + top || b > sign + top ==> !lt
                && !le
        }),
{
}

/// The same of singles.
pub proof fn law_single_order(a: u32, b: u32)
    ensures
        ({
            let sign = 0x8000_0000u32;
            let top = 0x7f80_0000u32;
            let lt = crate::float_bits::single_lt(a, b);
            let le = crate::float_bits::single_le(a, b);
            &&& a <= top && b <= top ==> lt == (a < b) && le == (a <= b)
            &&& sign <= a <= sign + top && sign <= b <= sign + top ==> lt == (a > b) && le == (a
                >= b)
            &&& sign <= a <= sign + top && b <= top ==> le && lt == !(a == sign && b == 0)
            &&& a <= top && sign <= b <= sign + top ==> !lt && le == (a == 0 && b == sign)
            &&& top < a < sign || top < b < sign || a > sign + top || b > sign + top ==> !lt
                && !le
        }),
{
}

/// A number and a bound that is no NaN: a double accepts the bounds on its side of it, and at the
/// bound itself the bounds that include it.
pub proof fn law_ranges(
    key: String,
    bound: u64,
    number: u64,
    pairs: Seq<(Seq<char>, ValueModel)>,
)
    requires
        resolve(pairs, key@) == Some(ValueModel::Float(number)),
    ensures
        ({
            let gt = accepts(MetadataFilter::GreaterThan { key, value: bound }, pairs);
            let gte = accepts(MetadataFilter::GreaterThanOrEqual { key, value: bound }, pairs);
            let lt = accepts(MetadataFilter::LessThan { key, value: bound }, pairs);
            let lte = accepts(MetadataFilter::LessThanOrEqual { key, value: bound }, pairs);
            let top = 0x7ff0_0000_0000_0000u64;
            let sign = 0x8000_0000_0000_0000u64;
            &&& number <= top && bound <= top ==> {
                &&& gt == (number > bound)
                &&& gte == (number >= bound)
                &&& lt == (number < bound)
                &&& lte == (number <= bound)
            }
            &&& sign <= number <= sign + top && sign <= bound <= sign + top ==> {
                &&& gt == (number < bound)
                &&& gte == (number <= bound)
                &&& lt == (number > bound)
                &&& lte == (number >= bound)
            }
            &&& number <= top && sign < bound <= sign + top ==> gt && gte && !lt && !lte
            &&& sign < number <= sign + top && bound <= top ==> !gt && !gte && lt && lte
            &&& number % sign > top || bound % sign > top ==> !gt && !gte && !lt && !lte
        }),
{
    law_double_order(number, bound);
    law_double_order(bound, number);
}

/// What is no number is in no range.
pub proof fn law_ranges_of_numbers(
    key: String,
    bound: u64,
    pairs: Seq<(Seq<char>, ValueModel)>,
)
    requires
        resolve(pairs, key@) matches Some(v) && !(v is Float) && !(v is Integer),
    ensures
        !accepts(MetadataFilter::GreaterThan { key, value: bound }, pairs),
        !accepts(MetadataFilter::GreaterThanOrEqual { key, value: bound }, pairs),
        !accepts(MetadataFilter::LessThan { key, value: bound }, pairs),
        !accepts(MetadataFilter::LessThanOrEqual { key, value: bound }, pairs),
{
}

/// A list has one size, and what is no list has none.
pub proof fn law_size(key: String, size: usize, pairs: Seq<(Seq<char>, ValueModel)>)
    ensures
        accepts(MetadataFilter::Size { key, size }, pairs) <==> (resolve(
            pairs,
            key@,
        ) matches Some(ValueModel::List(items)) && items.len() == size),
{
}

/// Some element of a list matches exactly where one of its maps does as metadata of its own, or one
/// of its other values does under the name `_`.
pub proof fn law_element_match(
    key: String,
    inner: Box<MetadataFilter>,
    items: Seq<ValueModel>,
    pairs: Seq<(Seq<char>, ValueModel)>,
)
    requires
        resolve(pairs, key@) == Some(ValueModel::List(items)),
    ensures
        accepts(MetadataFilter::ElemMatch { key, filter: inner }, pairs) <==> exists|i: int|
            0 <= i < items.len() && match #[trigger] items[i] {
                ValueModel::Object(entries) => accepts(*inner, entries),
                v => accepts(*inner, seq![("_"@, v)]),
            },
{
    reveal_with_fuel(accepts, 2);
    let f = MetadataFilter::ElemMatch { key, filter: inner };
    if accepts(f, pairs) {
        let i = choose|i: int|
            0 <= i < items.len() && accepts(
                *inner,
                crate::filter::element_pairs(#[trigger] items[i]),
            );
        assert(match items[i] {
            ValueModel::Object(entries) => accepts(*inner, entries),
            v => accepts(*inner, seq![("_"@, v)]),
        });
    }
    if exists|i: int|
        0 <= i < items.len() && match #[trigger] items[i] {
            ValueModel::Object(entries) => accepts(*inner, entries),
            v => accepts(*inner, seq![("_"@, v)]),
        } {
        let i = choose|i: int|
            0 <= i < items.len() && match #[trigger] items[i] {
                ValueModel::Object(entries) => accepts(*inner, entries),
                v => accepts(*inner, seq![("_"@, v)]),
            };
        crate::filter::lemma_element_accepted(f, pairs, items, i);
    }
}

/// Filters together: all of them hold exactly where none fails, one of them holds exactly where not
/// all fail, and the opposite of a filter accepts what the filter rejects.
pub proof fn law_connectives(
    filters: Vec<MetadataFilter>,
    inner: Box<MetadataFilter>,
    pairs: Seq<(Seq<char>, ValueModel)>,
)
    ensures
        accepts(MetadataFilter::Not(inner), pairs) != accepts(*inner, pairs),
        accepts(MetadataFilter::And(filters), pairs) <==> !(exists|i: int|
            0 <= i < filters@.len() && !accepts(#[trigger] filters@[i], pairs)),
        accepts(MetadataFilter::Or(filters), pairs) <==> !(forall|i: int|
            0 <= i < filters@.len() ==> !accepts(#[trigger] filters@[i], pairs)),
        filters@.len() == 0 ==> accepts(MetadataFilter::And(filters), pairs) && !accepts(
            MetadataFilter::Or(filters),
            pairs,
        ),
{
    reveal_with_fuel(accepts, 2);
    let all = MetadataFilter::And(filters);
    let one = MetadataFilter::Or(filters);
    if accepts(all, pairs) {
        assert forall|i: int| 0 <= i < filters@.len() implies accepts(
            #[trigger] filters@[i],
            pairs,
        ) by {
            assert(all->And_0@[i] == filters@[i]);
        }
    } else {
        let i = choose|i: int|
            0 <= i < all->And_0@.len() && !accepts(#[trigger] all->And_0@[i], pairs);
        assert(!accepts(filters@[i], pairs));
    }
    if accepts(one, pairs) {
        let i = choose|i: int|
            0 <= i < one->Or_0@.len() && accepts(#[trigger] one->Or_0@[i], pairs);
        assert(accepts(filters@[i], pairs));
    } else {
        assert forall|i: int| 0 <= i < filters@.len() implies !accepts(
            #[trigger] filters@[i],
            pairs,
        ) by {
            assert(one->Or_0@[i] == filters@[i]);
        }
    }
}

/// A key without a dot, or one that is there as a whole, names its entry.
pub proof fn law_plain_key(pairs: Seq<(Seq<char>, ValueModel)>, key: Seq<char>, i: int)
    requires
        ascending::<String, ValueModel>(pairs),
        0 <= i < pairs.len(),
        pairs[i].0 == key,
    ensures
        resolve(pairs, key) == Some(pairs[i].1),
{
    assert(has_key(pairs, key));
    lemma_ascending_unique::<String, ValueModel>(pairs, i, position_of(pairs, key));
}

/// A key that is not there names nothing, unless a dot in it leads into a map.
pub proof fn law_missing_key(pairs: Seq<(Seq<char>, ValueModel)>, key: Seq<char>)
    requires
        forall|i: int| 0 <= i < pairs.len() ==> (#[trigger] pairs[i]).0 != key,
        !key.contains('.'),
    ensures
        resolve(pairs, key) is None,
{
}

proof fn lemma_split_front(first: Seq<char>, rest: Seq<char>)
    requires
        !first.contains('.'),
    ensures
        split(first + seq!['.'] + rest, '.') == seq![first] + split(rest, '.'),
        (first + seq!['.'] + rest).contains('.'),
{
    let s = first + seq!['.'] + rest;
    let n = first.len() as int;
    assert(s[n] == '.');
    lemma_first_index(s, '.');
    let i = first_index(s, '.') as int;
    if i < n {
        assert(s[i] == first[i]);
    }
    assert(i == n);
    assert(s.take(n) =~= first);
    assert(s.skip(n + 1) =~= rest);
}

proof fn lemma_split_whole(s: Seq<char>)
    requires
        !s.contains('.'),
    ensures
        split(s, '.') == seq![s],
{
    lemma_first_index(s, '.');
    let i = first_index(s, '.') as int;
    if i < s.len() {
        assert(s[i] == '.');
    }
}

/// A dotted key leads into maps: where the whole key has no entry, what it names is what the rest
/// of it names in the map under its first piece. A map of the path is searched by pieces alone, so
/// it is to have no dotted keys of its own.
pub proof fn law_dotted_key(
    pairs: Seq<(Seq<char>, ValueModel)>,
    first: Seq<char>,
    rest: Seq<char>,
    i: int,
    inner: Seq<(Seq<char>, ValueModel)>,
)
    requires
        ascending::<String, ValueModel>(pairs),
        !first.contains('.'),
        forall|j: int| 0 <= j < pairs.len() ==> (#[trigger] pairs[j]).0 != first + seq!['.'] + rest,
        0 <= i < pairs.len(),
        pairs[i] == (first, ValueModel::Object(inner)),
        forall|j: int| 0 <= j < inner.len() ==> !(#[trigger] inner[j]).0.contains('.'),
    ensures
        resolve(pairs, first + seq!['.'] + rest) == resolve(inner, rest),
{
    let key = first + seq!['.'] + rest;
    lemma_split_front(first, rest);
    assert(!has_key(pairs, key));
    assert(has_key(pairs, first));
    lemma_ascending_unique::<String, ValueModel>(pairs, i, position_of(pairs, first));
    let path = split(key, '.');
    assert(path[0] == first);
    assert(path.drop_first() =~= split(rest, '.'));
    let v = ValueModel::Object(inner);
    let tail = split(rest, '.');
    assert(tail.len() > 0);
    if !rest.contains('.') {
        lemma_split_whole(rest);
        assert(tail.drop_first() =~= Seq::<Seq<char>>::empty());
    } else {
        if has_key(inner, rest) {
            let j = position_of(inner, rest);
            assert(inner[j].0.contains('.'));
        }
    }
}

/// A dotted key leads nowhere where its first piece has no entry or one that is no map.
pub proof fn law_dotted_key_ends(
    pairs: Seq<(Seq<char>, ValueModel)>,
    first: Seq<char>,
    rest: Seq<char>,
)
    requires
        ascending::<String, ValueModel>(pairs),
        !first.contains('.'),
        forall|j: int| 0 <= j < pairs.len() ==> (#[trigger] pairs[j]).0 != first + seq!['.'] + rest,
        forall|j: int|
            0 <= j < pairs.len() && (#[trigger] pairs[j]).0 == first ==> !(pairs[j].1 is Object),
    ensures
        resolve(pairs, first + seq!['.'] + rest) is None,
{
    let key = first + seq!['.'] + rest;
    lemma_split_front(first, rest);
    assert(!has_key(pairs, key));
    let path = split(key, '.');
    assert(path[0] == first);
    assert(path.drop_first() =~= split(rest, '.'));
    assert(split(rest, '.').len() > 0);
}

} // verus!
