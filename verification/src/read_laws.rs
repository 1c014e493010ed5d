//! What reads show.
use vstd::prelude::*;
use crate::filter::{accepts, MetadataFilter};
use crate::float_bits::double_le;
use crate::maintenance::unexpired;
use crate::order::bytes_before;
use crate::ordered_map::{ascending, lemma_insert_pair, map_of};
use crate::record::{key_before, KeyModel, RecordModel};
use crate::table::{following, lemma_filter_same, page, page_size, rows_after, selected, shown};
use crate::terms::{
    alphanumeric, lowercase, occurrences, tally, terms_of, word_marks, words, words_to,
};

verus! {

/// A record without an expiry time never expires; one with a time that is not negative expires when
/// the clock reaches it.
pub proof fn law_expired(m: RecordModel, now: u64)
    ensures
        m.expires_at is None ==> !m.expired(now),
        m.expires_at matches Some(t) ==> (t <= 0x7ff0_0000_0000_0000 && now
            <= 0x7ff0_0000_0000_0000 ==> m.expired(now) == (t <= now)),
{
}

/// A count or a list shows exactly the records that are live, in the namespace and accepted by the
/// filter, each once and in the order of the rows.
pub proof fn law_shown_records(
    rows: Seq<(KeyModel, RecordModel)>,
    namespace: Option<Seq<char>>,
    filter: Option<MetadataFilter>,
    now: u64,
)
    ensures
        selected(rows, namespace, filter, now) == rows.filter(
            |p: (KeyModel, RecordModel)|
                {
                    &&& p.1.expires_at matches Some(t) ==> !double_le(t, now)
                    &&& namespace matches Some(n) ==> p.0.0 == n
                    &&& filter matches Some(f) ==> accepts(f, p.1.metadata)
                },
        ),
{
    let f = |p: (KeyModel, RecordModel)| shown(namespace, filter, now, p.0, p.1);
    let g = |p: (KeyModel, RecordModel)|
        {
            &&& p.1.expires_at matches Some(t) ==> !double_le(t, now)
            &&& namespace matches Some(n) ==> p.0.0 == n
            &&& filter matches Some(f) ==> accepts(f, p.1.metadata)
        };
    lemma_filter_same(rows, f, g);
}

proof fn lemma_filter_twice<A>(s: Seq<A>, f: spec_fn(A) -> bool, g: spec_fn(A) -> bool)
    ensures
        s.filter(f).filter(g) == s.filter(|x: A| f(x) && g(x)),
    decreases s.len(),
{
    reveal(Seq::filter);
    if s.len() > 0 {
        let t = s.drop_last();
        lemma_filter_twice(t, f, g);
        if f(s.last()) {
            assert(t.filter(f).push(s.last()).drop_last() =~= t.filter(f));
        }
    }
}

/// What follows a cursor: exactly the records after its key that a list shows, in their order.
pub proof fn law_following_records(
    rows: Seq<(KeyModel, RecordModel)>,
    namespace: Option<Seq<char>>,
    filter: Option<MetadataFilter>,
    now: u64,
    after: Option<KeyModel>,
)
    ensures
        following(rows, namespace, filter, now, after) == rows.filter(
            |p: (KeyModel, RecordModel)|
                {
                    &&& after matches Some(k) ==> key_before(k, p.0)
                    &&& p.1.expires_at matches Some(t) ==> !double_le(t, now)
                    &&& namespace matches Some(n) ==> p.0.0 == n
                    &&& filter matches Some(f) ==> accepts(f, p.1.metadata)
                },
        ),
{
    let g = |p: (KeyModel, RecordModel)| shown(namespace, filter, now, p.0, p.1);
    let want = |p: (KeyModel, RecordModel)|
        {
            &&& after matches Some(k) ==> key_before(k, p.0)
            &&& p.1.expires_at matches Some(t) ==> !double_le(t, now)
            &&& namespace matches Some(n) ==> p.0.0 == n
            &&& filter matches Some(f) ==> accepts(f, p.1.metadata)
        };
    match after {
        None => {
            lemma_filter_same(rows, g, want);
        },
        Some(k) => {
            let f = |p: (KeyModel, RecordModel)| key_before(k, p.0);
            assert(rows_after(rows, after) == rows.filter(f));
            lemma_filter_twice(rows, f, g);
            lemma_filter_same(rows, |x: (KeyModel, RecordModel)| f(x) && g(x), want);
        },
    }
}

/// Keys come in the order of their namespaces, and within one in that of their ids.
pub proof fn law_key_order(a: KeyModel, b: KeyModel)
    ensures
        a.0 == b.0 ==> key_before(a, b) == key_before(
            (Seq::empty(), a.1),
            (Seq::empty(), b.1),
        ),
        a.0 != b.0 ==> key_before(a, b) == key_before(
            (Seq::empty(), a.0),
            (Seq::empty(), b.0),
        ),
        !(key_before(a, b) && key_before(b, a)),
        a != b ==> key_before(a, b) || key_before(b, a),
{
    <String as crate::order::Key>::lemma_irreflexive(Seq::empty());
    <String as crate::order::Key>::lemma_irreflexive(a.0);
    <(String, String) as crate::order::Key>::lemma_total(a, b);
    <(String, String) as crate::order::Key>::lemma_irreflexive(a);
    if key_before(a, b) && key_before(b, a) {
        <(String, String) as crate::order::Key>::lemma_transitive(a, b, a);
    }
}

/// Bytes are ordered by the first one that differs, and a beginning comes before the whole.
pub proof fn law_bytes_order(p: Seq<u8>, x: u8, y: u8, u: Seq<u8>, v: Seq<u8>)
    ensures
        bytes_before(p + seq![x] + u, p + seq![y] + v) == (x < y || (x == y && bytes_before(u, v))),
        bytes_before(p, p + seq![x] + u),
        !bytes_before(p + seq![x] + u, p),
    decreases p.len(),
{
    let a = p + seq![x] + u;
    let b = p + seq![y] + v;
    if p.len() == 0 {
        assert(a.drop_first() =~= u);
        assert(b.drop_first() =~= v);
    } else {
        let q = p.drop_first();
        law_bytes_order(q, x, y, u, v);
        assert(a.drop_first() =~= q + seq![x] + u);
        assert(b.drop_first() =~= q + seq![y] + v);
    }
}

/// A page starts after the given number of elements and holds as many as are asked for, or all that
/// are left; zero asks for all. A cursor's page of zero holds a hundred.
pub proof fn law_page<A>(s: Seq<A>, limit: nat, offset: nat)
    ensures
        ({
            let r = page(s, limit, offset);
            let left: nat = if offset < s.len() {
                (s.len() - offset) as nat
            } else {
                0
            };
            &&& r.len() <= left
            &&& limit == 0 || left <= limit ==> r.len() == left
            &&& limit > 0 && left > limit ==> r.len() == limit
            &&& forall|i: int| 0 <= i < r.len() ==> #[trigger] r[i] == s[offset + i]
        }),
        page_size(limit) == (if limit == 0 {
            100
        } else {
            limit
        }),
{
}

/// Compaction keeps exactly the records that are live, as they are.
pub proof fn law_compacted(records: Map<KeyModel, RecordModel>, now: u64, k: KeyModel)
    ensures
        unexpired(records, now).contains_key(k) <==> records.contains_key(k) && (
        records[k].expires_at matches Some(t) ==> !double_le(t, now)),
        unexpired(records, now).contains_key(k) ==> unexpired(records, now)[k] == records[k],
{
}

proof fn lemma_words_split(a: Seq<char>, x: Seq<bool>, b: Seq<char>, y: Seq<bool>, c: char, n: nat)
    requires
        a.len() == x.len(),
        b.len() == y.len(),
        n <= b.len(),
    ensures
        words_to(a + seq![c] + b, x + seq![false] + y, a.len() + 1 + n) == (
            words(a, x) + words_to(b, y, n).0,
            words_to(b, y, n).1,
        ),
    decreases n,
{
    let s = a + seq![c] + b;
    let m = x + seq![false] + y;
    if n == 0 {
        lemma_words_prefix(a, x, s, m, a.len());
        assert(!m[a.len() as int]);
        let (done, open) = words_to(a, x, a.len());
        assert(words(a, x) + words_to(b, y, 0).0 =~= words(a, x));
        if open.len() == 0 {
            assert(words_to(s, m, a.len() + 1).1 =~= Seq::<char>::empty());
        }
    } else {
        lemma_words_split(a, x, b, y, c, (n - 1) as nat);
        let at = a.len() + n;
        assert(s[at as int] == b[n - 1]);
        assert(m[at as int] == y[n - 1]);
        let (done, open) = words_to(b, y, (n - 1) as nat);
        assert((words(a, x) + done).push(open) =~= words(a, x) + done.push(open));
    }
}

proof fn lemma_words_prefix(a: Seq<char>, x: Seq<bool>, s: Seq<char>, m: Seq<bool>, n: nat)
    requires
        n <= a.len() <= s.len(),
        a.len() == x.len(),
        s.len() == m.len(),
        forall|i: int| 0 <= i < a.len() ==> s[i] == a[i] && m[i] == x[i],
    ensures
        words_to(s, m, n) == words_to(a, x, n),
    decreases n,
{
    if n > 0 {
        lemma_words_prefix(a, x, s, m, (n - 1) as nat);
    }
}

/// A character that is no part of a word separates the words before it from those after it.
pub proof fn law_words_split(a: Seq<char>, x: Seq<bool>, b: Seq<char>, y: Seq<bool>, c: char)
    requires
        a.len() == x.len(),
        b.len() == y.len(),
    ensures
        words(a + seq![c] + b, x + seq![false] + y) == words(a, x) + words(b, y),
{
    let s = a + seq![c] + b;
    let m = x + seq![false] + y;
    lemma_words_split(a, x, b, y, c, b.len());
    assert(s.len() == a.len() + 1 + b.len());
    let (done, open) = words_to(b, y, b.len());
    assert((words(a, x) + done).push(open) =~= words(a, x) + done.push(open));
}

proof fn lemma_one_word(s: Seq<char>, marks: Seq<bool>, n: nat)
    requires
        s.len() == marks.len(),
        n <= s.len(),
        forall|i: int| 0 <= i < s.len() ==> #[trigger] marks[i],
    ensures
        words_to(s, marks, n) == (Seq::<Seq<char>>::empty(), s.take(n as int)),
    decreases n,
{
    if n > 0 {
        lemma_one_word(s, marks, (n - 1) as nat);
        assert(marks[n - 1]);
        assert(s.take(n as int) =~= s.take(n - 1).push(s[n - 1]));
    } else {
        assert(s.take(0) =~= Seq::<char>::empty());
    }
}

/// A text that is all word is one word, and the empty text has none.
pub proof fn law_one_word(s: Seq<char>, marks: Seq<bool>)
    requires
        s.len() == marks.len(),
        forall|i: int| 0 <= i < s.len() ==> #[trigger] marks[i],
    ensures
        words(s, marks) == if s.len() == 0 {
            Seq::<Seq<char>>::empty()
        } else {
            seq![s]
        },
{
    lemma_one_word(s, marks, s.len());
    assert(s.take(s.len() as int) =~= s);
    if s.len() > 0 {
        assert(words(s, marks) =~= seq![s]);
    }
}

/// A word occurs as often as it is met: one more word counts one more of it and of no other.
pub proof fn law_occurrences(list: Seq<Seq<char>>, word: Seq<char>, other: Seq<char>)
    ensures
        occurrences(list.push(word), word, list.len() + 1) == occurrences(list, word, list.len()) + 1,
        other != word ==> occurrences(list.push(word), other, list.len() + 1) == occurrences(
            list,
            other,
            list.len(),
        ),
        occurrences(Seq::empty(), word, 0) == 0,
{
    lemma_occurrences_prefix(list, word, word, list.len());
    lemma_occurrences_prefix(list, word, other, list.len());
}

proof fn lemma_occurrences_prefix(
    list: Seq<Seq<char>>,
    last: Seq<char>,
    word: Seq<char>,
    n: nat,
)
    requires
        n <= list.len(),
    ensures
        occurrences(list.push(last), word, n) == occurrences(list, word, n),
    decreases n,
{
    if n > 0 {
        lemma_occurrences_prefix(list, last, word, (n - 1) as nat);
    }
}

/// The terms of a text do not depend on the case of its letters: texts that are the same in lower
/// case have the same terms. Letters and numbers in lower case are one term, and what is neither
/// parts terms.
pub proof fn law_terms(a: Seq<char>, b: Seq<char>)
    ensures
        lowercase(a) == lowercase(b) ==> terms_of(a) == terms_of(b),
        lowercase(a).len() > 0 && (forall|i: int|
            0 <= i < lowercase(a).len() ==> alphanumeric(#[trigger] lowercase(a)[i])) ==> terms_of(a)
            == seq![lowercase(a)],
        (forall|i: int|
            0 <= i < lowercase(a).len() ==> !alphanumeric(#[trigger] lowercase(a)[i])) ==> terms_of(
            a,
        ).len() == 0,
{
    let s = lowercase(a);
    let marks = word_marks(s);
    if forall|i: int| 0 <= i < s.len() ==> alphanumeric(#[trigger] s[i]) {
        assert forall|i: int| 0 <= i < s.len() implies #[trigger] marks[i] by {
            assert(alphanumeric(s[i]));
        }
        law_one_word(s, marks);
    }
    if forall|i: int| 0 <= i < s.len() ==> !alphanumeric(#[trigger] s[i]) {
        assert forall|i: int| 0 <= i < s.len() implies !#[trigger] marks[i] by {
            assert(!alphanumeric(s[i]));
        }
        lemma_no_word(s, marks, s.len());
    }
}

proof fn lemma_no_word(s: Seq<char>, marks: Seq<bool>, n: nat)
    requires
        n <= s.len() == marks.len(),
        forall|i: int| 0 <= i < s.len() ==> !#[trigger] marks[i],
    ensures
        words_to(s, marks, n).0.len() == 0 && words_to(s, marks, n).1.len() == 0,
    decreases n,
{
    if n > 0 {
        lemma_no_word(s, marks, (n - 1) as nat);
    }
}

/// Only words that are met are counted.
pub proof fn law_tally(list: Seq<Seq<char>>, n: nat, word: Seq<char>)
    requires
        n <= list.len(),
    ensures
        ascending::<String, usize>(tally(list, n)),
        map_of(tally(list, n)).contains_key(word) ==> exists|i: int|
            0 <= i < n && #[trigger] list[i] == word,
    decreases n,
{
    if n > 0 {
        law_tally(list, (n - 1) as nat, word);
        lemma_insert_pair::<String, usize>(
            tally(list, (n - 1) as nat),
            list[n - 1],
            occurrences(list, list[n - 1], n) as usize,
        );
    }
}

} // verus!
