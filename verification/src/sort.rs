//! Sorting.
use vstd::prelude::*;
use crate::order::{Key, Order};

verus! {

/// Whether `s` is in non-descending order.
pub open spec fn in_order<K: Key>(s: Seq<K::V>) -> bool {
    forall|i: int, j: int|
        #![trigger s[i], s[j]]
        0 <= i < j < s.len() ==> K::before(s[i], s[j]) || s[i] == s[j]
}

/// `s` with `x` put behind the elements that do not come after it.
pub open spec fn insert_in_order<K: Key>(s: Seq<K::V>, x: K::V) -> Seq<K::V>
    decreases s.len(),
{
    if s.len() == 0 || !K::before(x, s.last()) {
        s.push(x)
    } else {
        insert_in_order::<K>(s.drop_last(), x).push(s.last())
    }
}

/// The elements of `s` in non-descending order.
pub open spec fn sorted<K: Key>(s: Seq<K::V>) -> Seq<K::V>
    decreases s.len(),
{
    if s.len() == 0 {
        s
    } else {
        insert_in_order::<K>(sorted::<K>(s.drop_last()), s.last())
    }
}

proof fn lemma_insert_in_order<K: Key>(s: Seq<K::V>, x: K::V)
    requires
        in_order::<K>(s),
    ensures
        in_order::<K>(insert_in_order::<K>(s, x)),
        insert_in_order::<K>(s, x).to_multiset() == s.to_multiset().insert(x),
    decreases s.len(),
{
    broadcast use vstd::seq_lib::group_to_multiset_ensures;

    let out = insert_in_order::<K>(s, x);
    if s.len() == 0 || !K::before(x, s.last()) {
        if s.len() > 0 {
            let l = s.len() - 1;
            K::lemma_total(x, s[l]);
            assert forall|i: int, j: int|
                #![trigger out[i], out[j]]
                0 <= i < j < out.len() implies K::before(out[i], out[j]) || out[i] == out[j] by {
                if j == s.len() {
                    if i < l {
                        assert(K::before(s[i], s[l]) || s[i] == s[l]);
                        if K::before(s[i], s[l]) && K::before(s[l], x) {
                            K::lemma_transitive(s[i], s[l], x);
                        }
                    }
                } else {
                    assert(out[i] == s[i] && out[j] == s[j]);
                }
            }
        }
    } else {
        let t = s.drop_last();
        let l = s.len() - 1;
        assert forall|i: int, j: int|
            #![trigger t[i], t[j]]
            0 <= i < j < t.len() implies K::before(t[i], t[j]) || t[i] == t[j] by {
            assert(K::before(s[i], s[j]) || s[i] == s[j]);
        }
        lemma_insert_in_order::<K>(t, x);
        let head = insert_in_order::<K>(t, x);
        assert(s =~= t.push(s.last()));
        assert(out.to_multiset() =~= s.to_multiset().insert(x));
        assert forall|i: int, j: int|
            #![trigger out[i], out[j]]
            0 <= i < j < out.len() implies K::before(out[i], out[j]) || out[i] == out[j] by {
            if j == head.len() {
                assert(head.to_multiset().contains(head[i]));
                assert(t.to_multiset().insert(x).contains(head[i]));
                if head[i] != x {
                    assert(t.to_multiset().contains(head[i]));
                    let p = choose|p: int| 0 <= p < t.len() && t[p] == head[i];
                    assert(K::before(s[p], s[l]) || s[p] == s[l]);
                }
            } else {
                assert(out[i] == head[i] && out[j] == head[j]);
            }
        }
    }
}

/// The sorted elements are in order and the same elements.
pub proof fn lemma_sorted<K: Key>(s: Seq<K::V>)
    ensures
        in_order::<K>(sorted::<K>(s)),
        sorted::<K>(s).to_multiset() == s.to_multiset(),
    decreases s.len(),
{
    broadcast use vstd::seq_lib::group_to_multiset_ensures;

    if s.len() > 0 {
        lemma_sorted::<K>(s.drop_last());
        lemma_insert_in_order::<K>(sorted::<K>(s.drop_last()), s.last());
        assert(s =~= s.drop_last().push(s.last()));
    }
}

/// Elements in order are determined by which elements they are.
pub proof fn lemma_order_unique<K: Key>(a: Seq<K::V>, b: Seq<K::V>)
    requires
        in_order::<K>(a),
        in_order::<K>(b),
        a.to_multiset() == b.to_multiset(),
    ensures
        a == b,
    decreases a.len(),
{
    broadcast use vstd::seq_lib::group_to_multiset_ensures;

    a.to_multiset_ensures();
    b.to_multiset_ensures();
    assert(a.len() == b.len());
    if a.len() == 0 {
        assert(a =~= b);
    } else {
        let l = a.len() - 1;
        assert(a.to_multiset().contains(a[l]));
        assert(b.to_multiset().contains(b[l]));
        let p = choose|p: int| 0 <= p < b.len() && b[p] == a[l];
        let q = choose|q: int| 0 <= q < a.len() && a[q] == b[l];
        if a[l] != b[l] {
            assert(p < l && q < l);
            assert(K::before(b[p], b[l]));
            assert(K::before(a[q], a[l]));
            K::lemma_transitive(a[l], b[l], a[l]);
            K::lemma_irreflexive(a[l]);
        }
        let a1 = a.drop_last();
        let b1 = b.drop_last();
        assert(a =~= a1.push(a.last()));
        assert(b =~= b1.push(b.last()));
        assert(a.to_multiset() =~= a1.to_multiset().insert(a.last()));
        assert(b.to_multiset() =~= b1.to_multiset().insert(b.last()));
        assert(a1.to_multiset() =~= b1.to_multiset()) by {
            assert(a1.to_multiset() =~= a.to_multiset().remove(a.last()));
            assert(b1.to_multiset() =~= b.to_multiset().remove(b.last()));
        }
        assert(in_order::<K>(a1)) by {
            assert forall|i: int, j: int|
                #![trigger a1[i], a1[j]]
                0 <= i < j < a1.len() implies K::before(a1[i], a1[j]) || a1[i] == a1[j] by {
                assert(K::before(a[i], a[j]) || a[i] == a[j]);
            }
        }
        assert(in_order::<K>(b1)) by {
            assert forall|i: int, j: int|
                #![trigger b1[i], b1[j]]
                0 <= i < j < b1.len() implies K::before(b1[i], b1[j]) || b1[i] == b1[j] by {
                assert(K::before(b[i], b[j]) || b[i] == b[j]);
            }
        }
        lemma_order_unique::<K>(a1, b1);
    }
}

/// Sorting does not depend on the order of the elements.
pub proof fn law_sorted_order_independent<K: Key>(a: Seq<K::V>, b: Seq<K::V>)
    requires
        a.to_multiset() == b.to_multiset(),
    ensures
        sorted::<K>(a) == sorted::<K>(b),
{
    lemma_sorted::<K>(a);
    lemma_sorted::<K>(b);
    lemma_order_unique::<K>(sorted::<K>(a), sorted::<K>(b));
}

/// Merges two sorted lists.
fn merge<K: Key>(left: Vec<K>, right: Vec<K>) -> (r: Vec<K>)
    requires
        in_order::<K>(left.deep_view()),
        in_order::<K>(right.deep_view()),
    ensures
        in_order::<K>(r.deep_view()),
        r.deep_view().to_multiset() == left.deep_view().to_multiset().add(
            right.deep_view().to_multiset(),
        ),
{
    broadcast use vstd::seq_lib::group_to_multiset_ensures;

    let mut a = left;
    let mut b = right;
    let mut back: Vec<K> = Vec::new();
    proof {
        assert(back.deep_view() =~= Seq::<K::V>::empty());
        assert(back.deep_view().to_multiset().add(
            a.deep_view().to_multiset().add(b.deep_view().to_multiset()),
        ) =~= left.deep_view().to_multiset().add(right.deep_view().to_multiset()));
    }
    while a.len() > 0 || b.len() > 0
        invariant
            in_order::<K>(a.deep_view()),
            in_order::<K>(b.deep_view()),
            falling::<K>(back.deep_view()),
            back@.len() > 0 ==> bounded::<K>(a.deep_view(), back.deep_view().last()) && bounded::<
                K,
            >(b.deep_view(), back.deep_view().last()),
            back.deep_view().to_multiset().add(
                a.deep_view().to_multiset().add(b.deep_view().to_multiset()),
            ) == left.deep_view().to_multiset().add(right.deep_view().to_multiset()),
        decreases a@.len() + b@.len(),
    {
        let from_a: bool = if a.len() == 0 {
            false
        } else if b.len() == 0 {
            true
        } else {
            match a[a.len() - 1].order(&b[b.len() - 1]) {
                Order::Less => false,
                _ => true,
            }
        };
        let ghost av = a.deep_view();
        let ghost bv = b.deep_view();
        let ghost cv = back.deep_view();
        if from_a {
            if let Some(x) = a.pop() {
                proof {
                    assert(a.deep_view() =~= av.drop_last());
                    lemma_take_last::<K>(av, bv, cv, x.deep_view());
                }
                back.push(x);
                proof {
                    assert(back.deep_view() =~= cv.push(x.deep_view()));
                }
            }
        } else {
            if let Some(x) = b.pop() {
                proof {
                    assert(b.deep_view() =~= bv.drop_last());
                    lemma_take_last::<K>(bv, av, cv, x.deep_view());
                    assert(bv.to_multiset().add(av.to_multiset()) =~= av.to_multiset().add(
                        bv.to_multiset(),
                    ));
                    assert(bv.drop_last().to_multiset().add(av.to_multiset())
                        =~= av.to_multiset().add(bv.drop_last().to_multiset()));
                }
                back.push(x);
                proof {
                    assert(back.deep_view() =~= cv.push(x.deep_view()));
                }
            }
        }
    }
    proof {
        assert(a.deep_view() =~= Seq::<K::V>::empty());
        assert(b.deep_view() =~= Seq::<K::V>::empty());
        assert(back.deep_view().to_multiset() =~= left.deep_view().to_multiset().add(
            right.deep_view().to_multiset(),
        ));
    }
    reversed(back)
}

/// Whether `s` is in non-ascending order.
spec fn falling<K: Key>(s: Seq<K::V>) -> bool {
    forall|i: int, j: int|
        #![trigger s[i], s[j]]
        0 <= i < j < s.len() ==> K::before(s[j], s[i]) || s[i] == s[j]
}

/// Whether no element of `s` comes after `x`.
spec fn bounded<K: Key>(s: Seq<K::V>, x: K::V) -> bool {
    forall|i: int| 0 <= i < s.len() ==> K::before(#[trigger] s[i], x) || s[i] == x
}

/// Moving the greatest element of two sorted lists behind a falling list.
proof fn lemma_take_last<K: Key>(a: Seq<K::V>, b: Seq<K::V>, c: Seq<K::V>, x: K::V)
    requires
        a.len() > 0,
        x == a.last(),
        in_order::<K>(a),
        in_order::<K>(b),
        falling::<K>(c),
        c.len() > 0 ==> bounded::<K>(a, c.last()) && bounded::<K>(b, c.last()),
        b.len() > 0 ==> K::before(b.last(), x) || b.last() == x,
    ensures
        in_order::<K>(a.drop_last()),
        falling::<K>(c.push(x)),
        bounded::<K>(a.drop_last(), x),
        bounded::<K>(b, x),
        c.push(x).to_multiset().add(a.drop_last().to_multiset().add(b.to_multiset()))
            == c.to_multiset().add(a.to_multiset().add(b.to_multiset())),
{
    broadcast use vstd::seq_lib::group_to_multiset_ensures;

    let t = a.drop_last();
    let l = a.len() - 1;
    assert(a =~= t.push(x));
    assert(c.push(x).to_multiset().add(t.to_multiset().add(b.to_multiset()))
        =~= c.to_multiset().add(a.to_multiset().add(b.to_multiset())));
    assert forall|i: int, j: int|
        #![trigger t[i], t[j]]
        0 <= i < j < t.len() implies K::before(t[i], t[j]) || t[i] == t[j] by {
        assert(K::before(a[i], a[j]) || a[i] == a[j]);
    }
    assert forall|i: int| 0 <= i < t.len() implies K::before(#[trigger] t[i], x) || t[i] == x by {
        assert(K::before(a[i], a[l]) || a[i] == a[l]);
    }
    assert forall|i: int| 0 <= i < b.len() implies K::before(#[trigger] b[i], x) || b[i] == x by {
        let m = b.len() - 1;
        if i < m {
            assert(K::before(b[i], b[m]) || b[i] == b[m]);
            if K::before(b[i], b[m]) && K::before(b[m], x) {
                K::lemma_transitive(b[i], b[m], x);
            }
        }
    }
    let d = c.push(x);
    assert forall|i: int, j: int|
        #![trigger d[i], d[j]]
        0 <= i < j < d.len() implies K::before(d[j], d[i]) || d[i] == d[j] by {
        if j == c.len() {
            let e = c.len() - 1;
            assert(K::before(a[l], c.last()) || a[l] == c.last());
            if i < e {
                assert(K::before(c[e], c[i]) || c[i] == c[e]);
                if K::before(c[e], c[i]) && K::before(x, c[e]) {
                    K::lemma_transitive(x, c[e], c[i]);
                }
            }
        } else {
            assert(d[i] == c[i] && d[j] == c[j]);
        }
    }
}

fn reversed<K: Key>(v: Vec<K>) -> (r: Vec<K>)
    requires
        falling::<K>(v.deep_view()),
    ensures
        in_order::<K>(r.deep_view()),
        r.deep_view().to_multiset() == v.deep_view().to_multiset(),
{
    broadcast use vstd::seq_lib::group_to_multiset_ensures;

    let ghost all = v.deep_view();
    let mut rest = v;
    let mut out: Vec<K> = Vec::new();
    proof {
        assert(out.deep_view() =~= Seq::<K::V>::empty());
        assert(out.deep_view().to_multiset().add(rest.deep_view().to_multiset())
            =~= all.to_multiset());
    }
    while rest.len() > 0
        invariant
            rest@.len() + out@.len() == all.len(),
            rest.deep_view() == all.take(rest@.len() as int),
            falling::<K>(all),
            forall|i: int|
                0 <= i < out@.len() ==> (#[trigger] out.deep_view()[i]) == all[all.len() - 1 - i],
            out.deep_view().to_multiset().add(rest.deep_view().to_multiset()) == all.to_multiset(),
        decreases rest@.len(),
    {
        let ghost rv = rest.deep_view();
        let ghost ov = out.deep_view();
        if let Some(x) = rest.pop() {
            proof {
                assert(rest.deep_view() =~= rv.drop_last());
                assert(rv =~= rv.drop_last().push(x.deep_view()));
                assert(rest.deep_view() =~= all.take(rest@.len() as int));
                assert(x.deep_view() == rv[rv.len() - 1]);
            }
            out.push(x);
            proof {
                assert(out.deep_view() =~= ov.push(x.deep_view()));
                let y = x.deep_view();
                assert(rv == rest.deep_view().push(y));
                vstd::seq_lib::to_multiset_build(ov, y);
                vstd::seq_lib::to_multiset_build(rest.deep_view(), y);
                assert(out.deep_view().to_multiset().add(rest.deep_view().to_multiset())
                    =~= ov.to_multiset().add(rv.to_multiset()));
            }
        }
    }
    proof {
        assert(rest.deep_view() =~= Seq::<K::V>::empty());
        assert(out.deep_view().to_multiset() =~= all.to_multiset());
        let ov = out.deep_view();
        assert forall|i: int, j: int|
            #![trigger ov[i], ov[j]]
            0 <= i < j < ov.len() implies K::before(ov[i], ov[j]) || ov[i] == ov[j] by {
            let p = all.len() - 1 - j;
            let q = all.len() - 1 - i;
            assert(ov[i] == all[q] && ov[j] == all[p]);
        }
    }
    out
}

fn merge_sort<K: Key>(v: Vec<K>) -> (r: Vec<K>)
    ensures
        in_order::<K>(r.deep_view()),
        r.deep_view().to_multiset() == v.deep_view().to_multiset(),
    decreases v@.len(),
{
    broadcast use vstd::seq_lib::group_to_multiset_ensures;

    if v.len() <= 1 {
        return v;
    }
    let ghost all = v.deep_view();
    let mid: usize = v.len() / 2;
    let mut left = v;
    let right = left.split_off(mid);
    proof {
        let a = left.deep_view();
        let b = right.deep_view();
        assert(a =~= all.take(mid as int));
        assert(b =~= all.skip(mid as int));
        assert(all =~= a + b);
        vstd::seq_lib::lemma_multiset_commutative(a, b);
    }
    let l = merge_sort(left);
    let r = merge_sort(right);
    merge(l, r)
}

/// Sorts a list.
pub fn sort<K: Key>(v: Vec<K>) -> (r: Vec<K>)
    ensures
        r.deep_view() == sorted::<K>(v.deep_view()),
{
    let r = merge_sort(v);
    proof {
        lemma_sorted::<K>(v.deep_view());
        lemma_order_unique::<K>(r.deep_view(), sorted::<K>(v.deep_view()));
    }
    r
}

} // verus!
