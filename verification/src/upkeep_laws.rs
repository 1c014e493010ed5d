//! What opening, keeping and listing databases comes to.
use vstd::prelude::*;
use crate::ann::{SlotId, SlotModel};
use crate::change::ttl_refusal;
use crate::config::WalSyncMode;
use crate::error::{failure_detail, failure_text, Failure};
use crate::lifecycle::op_total;
use crate::maintenance::{dead_total, live_total};
use crate::opening::{opening_of, waitable, Opening};
use crate::order::Key;
use crate::ordered_map::{ascending, has_key};
use crate::rerank::limit_of;
use crate::results::common_terms;
use crate::settings::stricter;
use crate::store::{collection_of, collections_of, graph_file, own_file};
use crate::text::{decimal, occurs_in};
use crate::text_laws::law_occurs;
use crate::wal::OpModel;

verus! {

/// How many changes a log may hold before it is forced to disk.
pub open spec fn allowance(mode: WalSyncMode) -> int {
    match mode {
        WalSyncMode::PerOp => 0,
        WalSyncMode::EveryN(n) => 1 + n,
        WalSyncMode::OnFlush => usize::MAX + 2,
    }
}

/// A way to keep the log is stricter than another where fewer changes may wait for the disk.
pub proof fn law_stricter(previous: WalSyncMode, mode: WalSyncMode)
    ensures
        stricter(previous, mode) <==> allowance(mode) < allowance(previous),
{
}

/// A file that is there is opened and one that is missing is made, unless it is only to be read;
/// what is made needs a dimension, and what is only read has to be there.
pub proof fn law_opening(present: bool, dimension: Option<usize>, read_only: bool)
    ensures
        opening_of(present, dimension, read_only) is Ok <==> present || (!read_only && dimension is Some),
        opening_of(present, dimension, read_only) matches Ok(how) ==> {
            &&& how == Opening::Read <==> read_only
            &&& how is Create <==> !present
            &&& how matches Opening::Create(n) ==> dimension == Some(n)
            &&& how matches Opening::OpenAs(n) ==> dimension == Some(n) && present
            &&& how == Opening::Open ==> dimension is None && present
        },
{
}

/// A time to live, or a time to wait, is a number that is neither negative nor infinite; a negative
/// zero is zero.
pub proof fn law_ttl(seconds: u64)
    ensures
        ttl_refusal(seconds) is None <==> seconds < 0x7ff0_0000_0000_0000 || seconds
            == 0x8000_0000_0000_0000,
        waitable(seconds) <==> seconds < 0x7ff0_0000_0000_0000 || seconds == 0x8000_0000_0000_0000,
{
}

/// The collections of a directory: those names, not empty, that a file has with the extension.
pub proof fn law_collections(files: Seq<Seq<char>>, n: nat, name: Seq<char>)
    requires
        n <= files.len(),
    ensures
        collections_of(files, n).contains(name) <==> name.len() > 0 && exists|i: int|
            0 <= i < n && #[trigger] files[i] == name + ".vdb"@,
    decreases n,
{
    reveal_strlit(".vdb");
    if n > 0 {
        let before = collections_of(files, (n - 1) as nat);
        law_collections(files, (n - 1) as nat, name);
        let file = files[n - 1];
        if file == name + ".vdb"@ && name.len() > 0 {
            assert(file.take(file.len() - 4) =~= name);
            assert(file.skip(file.len() - 4) =~= ".vdb"@);
            assert(collection_of(file) == Some(name));
        }
        match collection_of(file) {
            Some(x) => {
                assert(x + ".vdb"@ =~= file);
                let all = before.push(x);
                if all.contains(name) {
                    let p = choose|p: int| 0 <= p < all.len() && all[p] == name;
                    if p < before.len() {
                        assert(before[p] == name);
                        assert(before.contains(name));
                    }
                }
                if before.contains(name) {
                    let p = choose|p: int| 0 <= p < before.len() && before[p] == name;
                    assert(all[p] == name);
                }
                if x == name {
                    assert(all[before.len() as int] == name);
                }
            },
            None => {},
        }
    }
}

/// The files of a database are named after it: nothing that does not start with its name is its.
pub proof fn law_own_files(database: Seq<char>, rest: Seq<char>, file: Seq<char>)
    ensures
        own_file(database, file) ==> file.len() >= database.len() && file.take(
            database.len() as int,
        ) == database,
        own_file(database, database),
        own_file(database, database + ".wal"@),
        own_file(database, database + ".ann."@ + rest),
        own_file(database, database + ".mvquant."@ + rest),
        graph_file(database, database + ".ann."@ + rest),
{
    reveal_strlit(".wal");
    reveal_strlit(".lock");
    reveal_strlit(".quant");
    reveal_strlit(".ann");
    reveal_strlit(".pidx");
    reveal_strlit(".tmp");
    reveal_strlit(".ann.");
    reveal_strlit(".mvquant.");
    let n = database.len() as int;
    assert(database.take(n) =~= database);
    assert((database + ".wal"@).take(n) =~= database);
    assert((database + ".lock"@).take(n) =~= database);
    assert((database + ".quant"@).take(n) =~= database);
    assert((database + ".ann"@).take(n) =~= database);
    assert((database + ".pidx"@).take(n) =~= database);
    assert((database + ".tmp"@).take(n) =~= database);
    let ann = database + ".ann."@;
    let tokens = database + ".mvquant."@;
    assert((ann + rest).take(ann.len() as int) =~= ann);
    assert((tokens + rest).take(tokens.len() as int) =~= tokens);
    if file.len() >= ann.len() && file.take(ann.len() as int) == ann {
        assert(file.take(n) =~= ann.take(n));
        assert(ann.take(n) =~= database);
    }
    if file.len() >= tokens.len() && file.take(tokens.len() as int) == tokens {
        assert(file.take(n) =~= tokens.take(n));
        assert(tokens.take(n) =~= database);
    }
}

/// The terms that a result shows are those that the query and the record share, each once and in
/// the order of the query.
pub proof fn law_common_terms(
    query: Seq<(Seq<char>, u32)>,
    sparse: Seq<(Seq<char>, u32)>,
    term: Seq<char>,
)
    requires
        ascending::<String, u32>(query),
    ensures
        common_terms(query, sparse).contains(term) <==> has_key(query, term) && has_key(sparse, term),
        forall|i: int, j: int|
            #![trigger common_terms(query, sparse)[i], common_terms(query, sparse)[j]]
            0 <= i < j < common_terms(query, sparse).len() ==> <String as Key>::before(
                common_terms(query, sparse)[i],
                common_terms(query, sparse)[j],
            ),
    decreases query.len(),
{
    lemma_common(query, sparse, term);
    assert forall|i: int, j: int|
        #![trigger common_terms(query, sparse)[i], common_terms(query, sparse)[j]]
        0 <= i < j < common_terms(query, sparse).len() implies <String as Key>::before(
        common_terms(query, sparse)[i],
        common_terms(query, sparse)[j],
    ) by {
        let all = common_terms(query, sparse);
        let before = query.drop_last();
        law_common_terms(before, sparse, term);
        let earlier = common_terms(before, sparse);
        if j < earlier.len() {
            assert(all[i] == earlier[i] && all[j] == earlier[j]);
        } else {
            assert(all[i] == earlier[i]);
            assert(earlier.contains(earlier[i]));
            lemma_common(before, sparse, earlier[i]);
            let p = choose|p: int| 0 <= p < before.len() && (#[trigger] before[p]).0 == earlier[i];
            assert(query[p] == before[p]);
            assert(<String as Key>::before(query[p].0, query[query.len() - 1].0));
        }
    }
}

proof fn lemma_common(
    query: Seq<(Seq<char>, u32)>,
    sparse: Seq<(Seq<char>, u32)>,
    term: Seq<char>,
)
    ensures
        common_terms(query, sparse).contains(term) <==> has_key(query, term) && has_key(sparse, term),
    decreases query.len(),
{
    if query.len() > 0 {
        let before = query.drop_last();
        lemma_common(before, sparse, term);
        let earlier = common_terms(before, sparse);
        let all = common_terms(query, sparse);
        let last = query.last().0;
        if has_key(query, term) {
            let p = choose|p: int| 0 <= p < query.len() && (#[trigger] query[p]).0 == term;
            if p < before.len() {
                assert(before[p].0 == term);
            }
        }
        if has_key(before, term) {
            let p = choose|p: int| 0 <= p < before.len() && (#[trigger] before[p]).0 == term;
            assert(query[p].0 == term);
        }
        if earlier.contains(term) {
            let p = choose|p: int| 0 <= p < earlier.len() && earlier[p] == term;
            assert(all[p] == term);
        }
        if all.contains(term) {
            let p = choose|p: int| 0 <= p < all.len() && all[p] == term;
            if p < earlier.len() {
                assert(earlier[p] == term);
            } else {
                assert(last == term);
                assert(query[query.len() - 1].0 == term);
            }
        }
        if last == term && has_key(sparse, term) {
            assert(all[earlier.len() as int] == term);
        }
    }
}

/// At most as many results as there are are put in another order; zero asks for all.
pub proof fn law_rerank_limit(rerank_k: nat, results: nat)
    ensures
        limit_of(rerank_k, results) <= results,
        rerank_k == 0 ==> limit_of(rerank_k, results) == results,
        0 < rerank_k <= results ==> limit_of(rerank_k, results) == rerank_k,
        rerank_k >= results ==> limit_of(rerank_k, results) == results,
{
}

/// The entries of one more graph are counted with the others, live and dead apart.
pub proof fn law_graph_totals(graphs: Seq<(SlotId, SlotModel)>, id: SlotId, g: SlotModel)
    requires
        g.dead.len() <= g.keys.len(),
    ensures
        live_total(Seq::empty()) == 0 && dead_total(Seq::empty()) == 0,
        live_total(graphs) + (g.keys.len() - g.dead.len()) <= usize::MAX ==> live_total(
            graphs.push((id, g)),
        ) == live_total(graphs) + (g.keys.len() - g.dead.len()),
        dead_total(graphs) + g.dead.len() <= usize::MAX ==> dead_total(graphs.push((id, g)))
            == dead_total(graphs) + g.dead.len(),
{
    assert(graphs.push((id, g)).drop_last() =~= graphs);
}

/// The changes of one more batch are counted with the others.
pub proof fn law_replayed(batches: Seq<Seq<OpModel>>, ops: Seq<OpModel>)
    ensures
        op_total(Seq::empty()) == 0,
        op_total(batches) + ops.len() <= usize::MAX ==> op_total(batches.push(ops)) == op_total(
            batches,
        ) + ops.len(),
{
    assert(batches.push(ops).drop_last() =~= batches);
}

/// The text of an error ends in what went wrong, behind the words that say which error it is.
pub proof fn law_failure_text(m: Seq<char>)
    ensures
        failure_text(Failure::Io(m)) == "io error: "@ + failure_detail(Failure::Io(m)),
        failure_text(Failure::InvalidFormat(m)) == "invalid .vdb format: "@ + failure_detail(
            Failure::InvalidFormat(m),
        ),
        failure_text(Failure::LockContention(m)) == "lock contention: "@ + failure_detail(
            Failure::LockContention(m),
        ),
        failure_detail(Failure::Io(m)) == m,
        failure_detail(Failure::InvalidFormat(m)) == m,
        failure_detail(Failure::LockContention(m)) == m,
        failure_detail(Failure::ReadOnly).len() == 0,
{
}

/// The text about a key that is taken names the id, and the namespace where there is one; that about
/// a dimension names the two, what is there first.
pub proof fn law_failure_parts(namespace: Seq<char>, id: Seq<char>, expected: usize, found: usize)
    ensures
        occurs_in(id, failure_text(Failure::DuplicateId { namespace, id })),
        occurs_in(id, failure_detail(Failure::DuplicateId { namespace, id })),
        occurs_in(namespace, failure_text(Failure::DuplicateId { namespace, id })),
        occurs_in(namespace, failure_detail(Failure::DuplicateId { namespace, id })),
        failure_detail(Failure::DimensionMismatch { expected, found }) == "expected "@ + decimal(
            expected as nat,
        ) + ", found "@ + decimal(found as nat),
        occurs_in(
            failure_detail(Failure::DimensionMismatch { expected, found }),
            failure_text(Failure::DimensionMismatch { expected, found }),
        ),
{
    reveal_strlit("vector dimension mismatch: expected ");
    reveal_strlit("vector dimension mismatch: ");
    reveal_strlit("expected ");
    let text = failure_text(Failure::DuplicateId { namespace, id });
    let detail = failure_detail(Failure::DuplicateId { namespace, id });
    law_occurs(id, text);
    law_occurs(id, detail);
    law_occurs(namespace, text);
    law_occurs(namespace, detail);
    let none = Seq::<char>::empty();
    if namespace.len() == 0 {
        assert("a record with id '"@ + id + "' already exists"@ == text);
        assert("id '"@ + id + "' already exists"@ == detail);
        assert(none + namespace + text =~= text);
        assert(none + namespace + detail =~= detail);
    } else {
        let middle = "' already exists in namespace '"@;
        let end = "'"@;
        assert("a record with id '"@ + id + (middle + namespace + end) =~= text);
        assert("id '"@ + id + (middle + namespace + end) =~= detail);
        assert(("a record with id '"@ + id + middle) + namespace + end =~= text);
        assert(("id '"@ + id + middle) + namespace + end =~= detail);
    }
    let sizes = failure_detail(Failure::DimensionMismatch { expected, found });
    let whole = failure_text(Failure::DimensionMismatch { expected, found });
    law_occurs(sizes, whole);
    let advice =
        ". If you changed embedding models, delete the existing .vdb file or use a different path to create a new database with dimension "@
        + decimal(found as nat);
    assert("vector dimension mismatch: expected "@ =~= "vector dimension mismatch: "@ + "expected "@);
    assert("vector dimension mismatch: "@ + sizes + advice =~= whole);
}

} // verus!
