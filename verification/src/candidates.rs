//! Which records a search considers.
use vstd::prelude::*;
use crate::ann::row_keys;
use crate::database::Database;
use crate::filter::{accepts, MetadataFilter};
use crate::order::{same_text, Duplicate};
use crate::ordered_map::{ascending, has_key, lemma_map_of_at, map_of, position_of};
use crate::ordered_set::{lemma_lists, lists, OrderedSet};
use crate::payload_index::{
    index_candidates, key_in, law_candidates_complete, opt_text, KeySet, PayloadIndexType,
};
use crate::record::{KeyModel, Record, RecordKey, RecordModel};
use crate::search::{DenseSource, SearchPlan};
use crate::table::{lemma_filter_push, opt_filter};

verus! {

/// The elements of a list of keys.
pub open spec fn keys_in(keys: Seq<KeyModel>) -> Set<KeyModel> {
    Set::new(|k: KeyModel| keys.contains(k))
}

/// The keys that a search considers; `None` stands for all. Dense and sparse candidates are taken
/// together; a dense search without candidates considers all records; and payload indexes narrow
/// down what is left.
pub open spec fn considered(
    has_query: bool,
    dense: Option<Set<KeyModel>>,
    sparse: Set<KeyModel>,
    payload: Option<Set<KeyModel>>,
) -> Option<Set<KeyModel>> {
    let base = if !has_query {
        Some(sparse)
    } else {
        match dense {
            None => None,
            Some(d) => if d.union(sparse) == Set::<KeyModel>::empty() {
                None
            } else {
                Some(d.union(sparse))
            },
        }
    };
    match (base, payload) {
        (Some(b), Some(p)) => Some(b.intersect(p)),
        (None, Some(p)) => Some(p),
        (b, None) => b,
    }
}

fn collect_keys(set: &mut KeySet, keys: &Vec<RecordKey>)
    ensures
        final(set)@ == old(set)@.union(keys_in(keys.deep_view())),
{
    let ghost start = set@;
    let ghost all = keys.deep_view();
    let mut i: usize = 0;
    proof {
        assert(set@ =~= start.union(keys_in(all.take(0))));
    }
    while i < keys.len()
        invariant
            i <= keys@.len(),
            all == keys.deep_view(),
            set@ == start.union(keys_in(all.take(i as int))),
        decreases keys@.len() - i,
    {
        set.add(keys[i].duplicate());
        proof {
            let a = all.take(i as int);
            let b = all.take(i + 1);
            let k = keys@[i as int].deep_view();
            assert(all[i as int] == k);
            assert(b =~= a.push(k));
            assert forall|q: KeyModel| #[trigger] b.contains(q) == (a.contains(q) || q == k) by {
                if a.contains(q) {
                    let j = choose|j: int| 0 <= j < a.len() && a[j] == q;
                    assert(b[j] == q);
                }
                if q == k {
                    assert(b[i as int] == q);
                }
            }
            assert(set@ =~= start.union(keys_in(b)));
        }
        i += 1;
    }
    proof {
        assert(all.take(i as int) =~= all);
    }
}

/// The keys of two lists together, each once and in key order; `None` where there are none.
pub fn merge_candidate_keys(dense: &Vec<RecordKey>, sparse: &Vec<RecordKey>) -> (r: Option<
    Vec<RecordKey>,
>)
    ensures
        ({
            let all = keys_in(dense.deep_view()).union(keys_in(sparse.deep_view()));
            if all == Set::<KeyModel>::empty() {
                r is None
            } else {
                r matches Some(keys) && lists::<(String, String)>(keys.deep_view(), all)
            }
        }),
{
    let mut set: KeySet = OrderedSet::new();
    collect_keys(&mut set, dense);
    collect_keys(&mut set, sparse);
    proof {
        assert(set@ =~= keys_in(dense.deep_view()).union(keys_in(sparse.deep_view())));
    }
    if set.is_empty() {
        None
    } else {
        Some(set.to_vec())
    }
}

/// Whether a list of keys that may be missing is the ascending list of a set that may be missing.
pub open spec fn lists_opt(r: Option<Seq<KeyModel>>, want: Option<Set<KeyModel>>) -> bool {
    match want {
        None => r is None,
        Some(s) => r matches Some(keys) && lists::<(String, String)>(keys, s),
    }
}

/// Whether a record has a vector of a name; no name and the empty name stand for the main vector.
pub open spec fn has_vector(m: RecordModel, vector_name: Option<Seq<char>>) -> bool {
    match vector_name {
        None => true,
        Some(n) => n.len() == 0 || has_key(m.vectors, n),
    }
}

/// Whether a search shows a record: it is not expired, in the namespace, has the vector that is
/// compared, and the filter accepts it.
pub open spec fn eligible(
    k: KeyModel,
    m: RecordModel,
    has_query: bool,
    vector_name: Option<Seq<char>>,
    filter: Option<MetadataFilter>,
    namespace: Option<Seq<char>>,
    now: u64,
) -> bool {
    &&& !m.expired(now)
    &&& key_in(namespace, k)
    &&& has_query ==> has_vector(m, vector_name)
    &&& filter matches Some(f) ==> accepts(f, m.metadata)
}

/// The candidates, or all records, that a search shows, in their order.
pub open spec fn shown_keys(
    rows: Seq<(KeyModel, RecordModel)>,
    candidates: Option<Seq<KeyModel>>,
    has_query: bool,
    vector_name: Option<Seq<char>>,
    filter: Option<MetadataFilter>,
    namespace: Option<Seq<char>>,
    now: u64,
) -> Seq<KeyModel> {
    let records = map_of(rows);
    (match candidates {
        Some(c) => c,
        None => row_keys(rows),
    }).filter(
        |k: KeyModel|
            records.contains_key(k) && eligible(
                k,
                records[k],
                has_query,
                vector_name,
                filter,
                namespace,
                now,
            ),
    )
}

fn is_eligible(
    record: &Record,
    has_query: bool,
    vector_name: Option<&str>,
    filter: Option<&MetadataFilter>,
    namespace: Option<&str>,
    now: u64,
) -> (r: bool)
    ensures
        r == eligible(
            record@.key(),
            record@,
            has_query,
            opt_text(vector_name),
            opt_filter(filter),
            opt_text(namespace),
            now,
        ),
{
    if record.is_expired_at(now) {
        return false;
    }
    let inside: bool = match namespace {
        Some(n) => same_text(record.namespace.as_str(), n),
        None => true,
    };
    if !inside {
        return false;
    }
    if has_query {
        match record.vector_for(vector_name) {
            Some(_) => {},
            None => {
                return false;
            },
        }
    }
    match filter {
        Some(f) => f.matches(&record.metadata),
        None => true,
    }
}

impl Database {
    /// The keys that payload indexes single out for a filter.
    pub open(crate) spec fn payload_keys(
        &self,
        filter: Option<MetadataFilter>,
        namespace: Option<Seq<char>>,
    ) -> Option<Set<KeyModel>> {
        match filter {
            None => None,
            Some(f) => index_candidates(self.kinds(), self@, f, namespace),
        }
    }

    /// The keys that a search considers, in key order; `None` stands for all records.
    pub fn candidate_keys(
        &self,
        has_query: bool,
        dense: Option<&Vec<RecordKey>>,
        sparse: &Vec<RecordKey>,
        filter: Option<&MetadataFilter>,
        namespace: Option<&str>,
    ) -> (r: Option<Vec<RecordKey>>)
        requires
            self.wf(),
        ensures
            lists_opt(
                r.deep_view(),
                considered(
                    has_query,
                    match dense {
                        Some(d) => Some(keys_in(d.deep_view())),
                        None => None,
                    },
                    keys_in(sparse.deep_view()),
                    self.payload_keys(opt_filter(filter), opt_text(namespace)),
                ),
            ),
    {
        let base: Option<KeySet> = if !has_query {
            let mut set: KeySet = OrderedSet::new();
            collect_keys(&mut set, sparse);
            proof {
                assert(set@ =~= keys_in(sparse.deep_view()));
            }
            Some(set)
        } else {
            match dense {
                None => None,
                Some(d) => {
                    let mut set: KeySet = OrderedSet::new();
                    collect_keys(&mut set, d);
                    collect_keys(&mut set, sparse);
                    proof {
                        assert(set@ =~= keys_in(d.deep_view()).union(
                            keys_in(sparse.deep_view()),
                        ));
                    }
                    if set.is_empty() {
                        None
                    } else {
                        Some(set)
                    }
                },
            }
        };
        let ghost records = self@;
        let payload: Option<KeySet> = match filter {
            Some(f) => self.table.indexes.candidates(f, namespace, Ghost(records)),
            None => None,
        };
        match (base, payload) {
            (Some(b), Some(p)) => {
                let both = b.intersection(&p);
                Some(both.to_vec())
            },
            (None, Some(p)) => Some(p.to_vec()),
            (Some(b), None) => Some(b.to_vec()),
            (None, None) => None,
        }
    }

    /// The candidates, or all records, that a search shows, in their order.
    pub fn select_records(
        &self,
        candidates: Option<&Vec<RecordKey>>,
        has_query: bool,
        vector_name: Option<&str>,
        filter: Option<&MetadataFilter>,
        namespace: Option<&str>,
        now: u64,
    ) -> (r: Vec<RecordKey>)
        requires
            self.wf(),
        ensures
            r.deep_view() == shown_keys(
                self.rows(),
                match candidates {
                    Some(c) => Some(c.deep_view()),
                    None => None,
                },
                has_query,
                opt_text(vector_name),
                opt_filter(filter),
                opt_text(namespace),
                now,
            ),
    {
        let ghost rows = self.rows();
        let ghost records = map_of(rows);
        let ghost vn = opt_text(vector_name);
        let ghost fl = opt_filter(filter);
        let ghost ns = opt_text(namespace);
        let ghost keep = |k: KeyModel|
            records.contains_key(k) && eligible(k, records[k], has_query, vn, fl, ns, now);
        let mut out: Vec<RecordKey> = Vec::new();
        proof {
            use_type_invariant(&self.table.records);
            self.table.records.lemma_pairs_ascending();
            reveal(Seq::filter);
        }
        match candidates {
            Some(keys) => {
                let ghost all = keys.deep_view();
                let mut i: usize = 0;
                proof {
                    assert(all.take(0).filter(keep) =~= Seq::empty());
                    assert(out.deep_view() =~= all.take(0).filter(keep));
                }
                while i < keys.len()
                    invariant
                        i <= keys@.len(),
                        all == keys.deep_view(),
                        self.wf(),
                        rows == self.rows(),
                        records == map_of(rows),
                        vn == opt_text(vector_name),
                        fl == opt_filter(filter),
                        ns == opt_text(namespace),
                        keep == (|k: KeyModel|
                            records.contains_key(k) && eligible(
                                k,
                                records[k],
                                has_query,
                                vn,
                                fl,
                                ns,
                                now,
                            )),
                        out.deep_view() == all.take(i as int).filter(keep),
                    decreases keys@.len() - i,
                {
                    let ghost before = out.deep_view();
                    let key = &keys[i];
                    let ghost k = key.deep_view();
                    proof {
                        assert(all[i as int] == k);
                        assert(all.take(i + 1) =~= all.take(i as int).push(k));
                        lemma_filter_push(all.take(i as int), k, keep);
                    }
                    match self.table.records.lookup(key) {
                        Some(record) => {
                            proof {
                                assert(self@.contains_key(k));
                                assert(crate::table::entry_valid((k, self@[k]), self.dim()));
                            }
                            if is_eligible(record, has_query, vector_name, filter, namespace, now) {
                                out.push(key.duplicate());
                                proof {
                                    assert(out.deep_view() =~= before.push(k));
                                }
                            }
                        },
                        None => {},
                    }
                    i += 1;
                }
                proof {
                    assert(all.take(i as int) =~= all);
                }
            },
            None => {
                let ghost all = row_keys(rows);
                let mut i: usize = 0;
                proof {
                    assert(all.take(0).filter(keep) =~= Seq::empty());
                    assert(out.deep_view() =~= all.take(0).filter(keep));
                }
                while i < self.table.records.len()
                    invariant
                        i <= rows.len(),
                        all == row_keys(rows),
                        self.wf(),
                        rows == self.rows(),
                        crate::ordered_map::ascending::<(String, String), RecordModel>(rows),
                        records == map_of(rows),
                        vn == opt_text(vector_name),
                        fl == opt_filter(filter),
                        ns == opt_text(namespace),
                        keep == (|k: KeyModel|
                            records.contains_key(k) && eligible(
                                k,
                                records[k],
                                has_query,
                                vn,
                                fl,
                                ns,
                                now,
                            )),
                        out.deep_view() == all.take(i as int).filter(keep),
                    decreases rows.len() - i,
                {
                    let ghost before = out.deep_view();
                    let key = self.table.records.key_at(i);
                    let record = self.table.records.value_at(i);
                    let ghost k = rows[i as int].0;
                    proof {
                        crate::ordered_map::lemma_map_of_at::<(String, String), RecordModel>(
                            rows,
                            i as int,
                        );
                        assert(self@.contains_key(k));
                        assert(crate::table::entry_valid((k, self@[k]), self.dim()));
                        assert(all[i as int] == k);
                        assert(all.take(i + 1) =~= all.take(i as int).push(k));
                        lemma_filter_push(all.take(i as int), k, keep);
                    }
                    if is_eligible(record, has_query, vector_name, filter, namespace, now) {
                        out.push(key.duplicate());
                        proof {
                            assert(out.deep_view() =~= before.push(k));
                        }
                    }
                    i += 1;
                }
                proof {
                    assert(all.take(i as int) =~= all);
                }
            },
        }
        out
    }
}

/// Whether a search that looked at candidates only has to look at all records after all.
pub open spec fn falls_back(plan: SearchPlan, found: nat) -> bool {
    plan.source != DenseSource::Scan && found < plan.fetch_k
}

impl SearchPlan {
    /// Whether a search that found `found` records among candidates looks at all records.
    pub fn needs_fallback(&self, found: usize) -> (r: bool)
        ensures
            r == falls_back(*self, found as nat),
    {
        match self.source {
            DenseSource::Scan => false,
            _ => found < self.fetch_k,
        }
    }
}

/// What a search shows is complete where all records are considered: every record that the filter
/// accepts in the namespace is shown, and nothing else.
pub proof fn law_scan_complete(
    rows: Seq<(KeyModel, RecordModel)>,
    has_query: bool,
    vector_name: Option<Seq<char>>,
    filter: Option<MetadataFilter>,
    namespace: Option<Seq<char>>,
    now: u64,
    k: KeyModel,
)
    ensures
        shown_keys(rows, None, has_query, vector_name, filter, namespace, now).contains(k) <==> (
        has_key(rows, k) && eligible(
            k,
            map_of(rows)[k],
            has_query,
            vector_name,
            filter,
            namespace,
            now,
        )),
{
    let records = map_of(rows);
    let all = row_keys(rows);
    let keep = |q: KeyModel|
        records.contains_key(q) && eligible(
            q,
            records[q],
            has_query,
            vector_name,
            filter,
            namespace,
            now,
        );
    let shown = all.filter(keep);
    if shown.contains(k) {
        let i = choose|i: int| 0 <= i < shown.len() && shown[i] == k;
        all.lemma_filter_pred(keep, i);
    }
    if has_key(rows, k) && keep(k) {
        let i = position_of(rows, k);
        assert(all[i] == k);
        all.lemma_filter_contains(keep, i);
    }
}

/// Candidates only narrow a search down: what is shown among candidates is shown among all
/// records.
pub proof fn law_candidates_sound(
    rows: Seq<(KeyModel, RecordModel)>,
    candidates: Seq<KeyModel>,
    has_query: bool,
    vector_name: Option<Seq<char>>,
    filter: Option<MetadataFilter>,
    namespace: Option<Seq<char>>,
    now: u64,
    k: KeyModel,
)
    requires
        shown_keys(
            rows,
            Some(candidates),
            has_query,
            vector_name,
            filter,
            namespace,
            now,
        ).contains(k),
    ensures
        shown_keys(rows, None, has_query, vector_name, filter, namespace, now).contains(k),
        candidates.contains(k),
{
    let records = map_of(rows);
    let keep = |q: KeyModel|
        records.contains_key(q) && eligible(
            q,
            records[q],
            has_query,
            vector_name,
            filter,
            namespace,
            now,
        );
    let shown = candidates.filter(keep);
    let i = choose|i: int| 0 <= i < shown.len() && shown[i] == k;
    candidates.lemma_filter_pred(keep, i);
    candidates.lemma_filter_contains_rev(keep, k);
    law_scan_complete(rows, has_query, vector_name, filter, namespace, now, k);
}

pub(crate) proof fn lemma_shown_among(
    rows: Seq<(KeyModel, RecordModel)>,
    candidates: Seq<KeyModel>,
    has_query: bool,
    vector_name: Option<Seq<char>>,
    filter: Option<MetadataFilter>,
    namespace: Option<Seq<char>>,
    now: u64,
    k: KeyModel,
)
    ensures
        shown_keys(
            rows,
            Some(candidates),
            has_query,
            vector_name,
            filter,
            namespace,
            now,
        ).contains(k) <==> (candidates.contains(k) && has_key(rows, k) && eligible(
            k,
            map_of(rows)[k],
            has_query,
            vector_name,
            filter,
            namespace,
            now,
        )),
{
    let records = map_of(rows);
    let keep = |q: KeyModel|
        records.contains_key(q) && eligible(
            q,
            records[q],
            has_query,
            vector_name,
            filter,
            namespace,
            now,
        );
    let shown = candidates.filter(keep);
    if shown.contains(k) {
        let i = choose|i: int| 0 <= i < shown.len() && shown[i] == k;
        candidates.lemma_filter_pred(keep, i);
        candidates.lemma_filter_contains_rev(keep, k);
    }
    if candidates.contains(k) && keep(k) {
        let i = choose|i: int| 0 <= i < candidates.len() && candidates[i] == k;
        candidates.lemma_filter_contains(keep, i);
    }
}

/// Payload indexes do not change which records a search shows: it shows the same among what it
/// considers with them and among what it considers without.
pub proof fn law_payload_invisible(
    kinds: Map<Seq<char>, PayloadIndexType>,
    rows: Seq<(KeyModel, RecordModel)>,
    has_query: bool,
    dense: Option<Set<KeyModel>>,
    sparse: Set<KeyModel>,
    with: Option<Seq<KeyModel>>,
    without: Option<Seq<KeyModel>>,
    vector_name: Option<Seq<char>>,
    filter: MetadataFilter,
    namespace: Option<Seq<char>>,
    now: u64,
    k: KeyModel,
)
    requires
        ascending::<(String, String), RecordModel>(rows),
        lists_opt(
            with,
            considered(
                has_query,
                dense,
                sparse,
                index_candidates(kinds, map_of(rows), filter, namespace),
            ),
        ),
        lists_opt(without, considered(has_query, dense, sparse, None)),
    ensures
        shown_keys(
            rows,
            with,
            has_query,
            vector_name,
            Some(filter),
            namespace,
            now,
        ).contains(k) <==> shown_keys(
            rows,
            without,
            has_query,
            vector_name,
            Some(filter),
            namespace,
            now,
        ).contains(k),
{
    let records = map_of(rows);
    let filters = Some(filter);
    if let Some(c) = with {
        lemma_shown_among(rows, c, has_query, vector_name, filters, namespace, now, k);
    }
    if let Some(c) = without {
        lemma_shown_among(rows, c, has_query, vector_name, filters, namespace, now, k);
    }
    law_scan_complete(rows, has_query, vector_name, filters, namespace, now, k);
    if has_key(rows, k) && eligible(
        k,
        records[k],
        has_query,
        vector_name,
        filters,
        namespace,
        now,
    ) {
        lemma_map_of_at::<(String, String), RecordModel>(rows, position_of(rows, k));
        law_candidates_complete(kinds, records, filter, namespace, k);
    }
    let payload = index_candidates(kinds, records, filter, namespace);
    let narrow = considered(has_query, dense, sparse, payload);
    let wide = considered(has_query, dense, sparse, None);
    if let Some(s) = narrow {
        lemma_lists::<(String, String)>(with->Some_0, s, k);
    }
    if let Some(s) = wide {
        lemma_lists::<(String, String)>(without->Some_0, s, k);
    }
    if let Some(p) = payload {
        if let Some(b) = wide {
            assert(narrow == Some(b.intersect(p)));
        } else {
            assert(narrow == Some(p));
        }
    } else {
        assert(narrow == wide);
    }
}

} // verus!
