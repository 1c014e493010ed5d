//! The changes that a database accepts, before they are logged and applied.
use vstd::prelude::*;
use crate::codec::too_long;
use crate::database::Database;
use crate::error::{invalid, Failure, VectLiteError};
use crate::filter::{accepts, MetadataFilter};
use crate::float_bits::{double_finite, double_is_finite, double_lt, less};
use crate::metadata::{Metadata, ValueModel};
use crate::order::{same_text, Duplicate};
use crate::ordered_map::OrderedMap;
use crate::payload_index::{key_in, opt_text};
use crate::record::{KeyModel, MultiVectors, NamedVectors, Record, RecordModel, SparseVector};
use crate::table::{op_dimensioned, ops_dimensioned};
use crate::validation::{law_valid_record, record_defect, validate_record};
use crate::wal::{batch_fits, enc_batch, encode_wal_batch, OpModel, WalOp};

verus! {

/// Changes that were checked, with the bytes that the log gets.
pub struct Change {
    pub(crate) ops: Vec<WalOp>,
    pub(crate) bytes: Vec<u8>,
    /// Whether the indexes are rebuilt as a whole afterwards.
    pub(crate) whole: bool,
    /// How many records the request is about.
    pub(crate) count: usize,
}

/// The mathematical value of checked changes.
#[verifier::ext_equal]
pub struct ChangeModel {
    pub ops: Seq<OpModel>,
    pub bytes: Seq<u8>,
    pub whole: bool,
    pub count: nat,
}

/// The changes with the bytes of their batch; no changes need no bytes.
pub open spec fn change_of(ops: Seq<OpModel>, whole: bool, count: nat) -> ChangeModel {
    ChangeModel {
        ops,
        bytes: if ops.len() == 0 {
            Seq::empty()
        } else {
            enc_batch(ops)
        },
        whole,
        count,
    }
}

/// Whether a request is answered by the changes `ops`, unless there is a reason to refuse it or
/// they do not fit the format of the log.
pub open spec fn answered(
    r: Result<Change, VectLiteError>,
    refusal: Option<Failure>,
    ops: Seq<OpModel>,
    whole: bool,
    count: nat,
) -> bool {
    match refusal {
        Some(f) => r matches Err(e) && e@ == f,
        None => if ops.len() == 0 || batch_fits(ops) {
            r matches Ok(c) && c@ == change_of(ops, whole, count)
        } else {
            r matches Err(e) && e@ == too_long()
        },
    }
}

impl Change {
    pub open(crate) spec fn view(&self) -> ChangeModel {
        ChangeModel {
            ops: self.ops.deep_view(),
            bytes: self.bytes@,
            whole: self.whole,
            count: self.count as nat,
        }
    }

    /// The bytes that the log gets.
    pub fn bytes(&self) -> (r: &Vec<u8>)
        ensures
            r@ == self@.bytes,
    {
        &self.bytes
    }

    /// Whether nothing changes.
    pub fn is_empty(&self) -> (r: bool)
        ensures
            r == (self@.ops.len() == 0),
    {
        self.ops.len() == 0
    }

    /// How many changes there are.
    pub fn len(&self) -> (r: usize)
        ensures
            r == self@.ops.len(),
    {
        self.ops.len()
    }

    /// How many records the request is about.
    pub fn count(&self) -> (r: usize)
        ensures
            r == self@.count,
    {
        self.count
    }
}

pub(crate) fn plan(ops: Vec<WalOp>, whole: bool, count: usize) -> (r: Result<Change, VectLiteError>)
    ensures
        answered(r, None, ops.deep_view(), whole, count as nat),
{
    if ops.len() == 0 {
        return Ok(Change { ops, bytes: Vec::new(), whole, count });
    }
    match encode_wal_batch(&ops) {
        Ok(bytes) => Ok(Change { ops, bytes, whole, count }),
        Err(e) => Err(e),
    }
}

fn plan_one(op: WalOp, count: usize) -> (r: Result<Change, VectLiteError>)
    ensures
        answered(r, None, seq![op.deep_view()], false, count as nat),
{
    let mut ops: Vec<WalOp> = Vec::new();
    ops.push(op);
    proof {
        assert(ops.deep_view() =~= seq![op.deep_view()]);
    }
    plan(ops, false, count)
}

/// The error for a key that is taken.
pub open spec fn taken(k: KeyModel) -> Failure {
    Failure::DuplicateId { namespace: k.0, id: k.1 }
}

/// A change that a user asks for.
pub enum WriteOperation {
    Insert(Record),
    Upsert(Record),
    Delete { namespace: String, id: String },
}

/// The mathematical value of a change that a user asks for.
pub enum WriteModel {
    Insert(RecordModel),
    Upsert(RecordModel),
    Delete(KeyModel),
}

impl DeepView for WriteOperation {
    type V = WriteModel;

    open spec fn deep_view(&self) -> WriteModel {
        match *self {
            WriteOperation::Insert(record) => WriteModel::Insert(record@),
            WriteOperation::Upsert(record) => WriteModel::Upsert(record@),
            WriteOperation::Delete { namespace, id } => WriteModel::Delete((namespace@, id@)),
        }
    }
}

/// The logged form of a change that a user asks for.
pub open spec fn logged_op(w: WriteModel) -> OpModel {
    match w {
        WriteModel::Insert(m) => OpModel::Upsert(m),
        WriteModel::Upsert(m) => OpModel::Upsert(m),
        WriteModel::Delete(k) => OpModel::Delete(k),
    }
}

/// Why a change that a user asks for is refused, if it is.
pub open spec fn operation_refusal(
    records: Map<KeyModel, RecordModel>,
    dimension: nat,
    w: WriteModel,
) -> Option<Failure> {
    match w {
        WriteModel::Insert(m) => match record_defect(m, dimension, false) {
            Some(f) => Some(f),
            None => if records.contains_key(m.key()) {
                Some(taken(m.key()))
            } else {
                None
            },
        },
        WriteModel::Upsert(m) => record_defect(m, dimension, false),
        WriteModel::Delete(_) => None,
    }
}

/// The first reason to refuse changes that a user asks for, from position `i` on.
pub open spec fn operations_refusal(
    records: Map<KeyModel, RecordModel>,
    dimension: nat,
    ws: Seq<WriteModel>,
    i: int,
) -> Option<Failure>
    decreases ws.len() - i,
{
    if i < 0 || i >= ws.len() {
        None
    } else {
        match operation_refusal(records, dimension, ws[i]) {
            Some(f) => Some(f),
            None => operations_refusal(records, dimension, ws, i + 1),
        }
    }
}

/// The logged forms of changes that a user asks for.
pub open spec fn logged_ops(ws: Seq<WriteModel>) -> Seq<OpModel> {
    ws.map_values(|w: WriteModel| logged_op(w))
}

/// Records as insertions.
pub open spec fn insertions(ms: Seq<RecordModel>) -> Seq<WriteModel> {
    ms.map_values(|m: RecordModel| WriteModel::Insert(m))
}

/// Records as replacements.
pub open spec fn replacements(ms: Seq<RecordModel>) -> Seq<WriteModel> {
    ms.map_values(|m: RecordModel| WriteModel::Upsert(m))
}

/// One reason after the other.
pub open spec fn first_of(a: Option<Failure>, b: Option<Failure>) -> Option<Failure> {
    match a {
        Some(f) => Some(f),
        None => b,
    }
}

/// The keys that are there, each time they are named.
pub open spec fn present_ids(
    records: Map<KeyModel, RecordModel>,
    namespace: Seq<char>,
    ids: Seq<Seq<char>>,
) -> Seq<OpModel>
    decreases ids.len(),
{
    if ids.len() == 0 {
        Seq::empty()
    } else {
        let before = present_ids(records, namespace, ids.drop_last());
        let k = (namespace, ids.last());
        if records.contains_key(k) {
            before.push(OpModel::Delete(k))
        } else {
            before
        }
    }
}

/// The records of a namespace, or of all, whose metadata a filter accepts, expired or not.
pub open spec fn matching_deletes(
    rows: Seq<(KeyModel, RecordModel)>,
    namespace: Option<Seq<char>>,
    filter: MetadataFilter,
) -> Seq<OpModel>
    decreases rows.len(),
{
    if rows.len() == 0 {
        Seq::empty()
    } else {
        let before = matching_deletes(rows.drop_last(), namespace, filter);
        let (k, m) = rows.last();
        if key_in(namespace, k) && accepts(filter, m.metadata) {
            before.push(OpModel::Delete(k))
        } else {
            before
        }
    }
}

/// Whether accepted changes suit the dimension.
pub open spec fn suits(r: Result<Change, VectLiteError>, dimension: nat) -> bool {
    r matches Ok(c) ==> ops_dimensioned(c@.ops, dimension)
}

/// A record without an expiry time.
pub open spec fn record_parts(
    k: KeyModel,
    vector: Seq<u32>,
    vectors: Seq<(Seq<char>, Seq<u32>)>,
    sparse: Seq<(Seq<char>, u32)>,
    metadata: Seq<(Seq<char>, ValueModel)>,
    multi_vectors: Seq<(Seq<char>, Seq<Seq<u32>>)>,
) -> RecordModel {
    RecordModel {
        namespace: k.0,
        id: k.1,
        vector,
        vectors,
        sparse,
        metadata,
        multi_vectors,
        expires_at: None,
    }
}

impl Database {
    /// Why a new record is refused, if it is.
    pub open spec fn insert_refusal(&self, m: RecordModel) -> Option<Failure> {
        first_of(
            self.write_refusal(),
            first_of(
                record_defect(m, self.dim(), true),
                if self@.contains_key(m.key()) {
                    Some(taken(m.key()))
                } else {
                    None
                },
            ),
        )
    }

    /// Why a record is refused, if it is.
    pub open spec fn upsert_refusal(&self, m: RecordModel) -> Option<Failure> {
        first_of(self.write_refusal(), record_defect(m, self.dim(), true))
    }

    /// Whether a request to insert a record is answered.
    pub open spec fn inserts(&self, r: Result<Change, VectLiteError>, m: RecordModel) -> bool {
        answered(r, self.insert_refusal(m), seq![OpModel::Upsert(m)], false, 1) && suits(
            r,
            self.dim(),
        )
    }

    /// Whether a request to insert or replace a record is answered.
    pub open spec fn upserts(&self, r: Result<Change, VectLiteError>, m: RecordModel) -> bool {
        answered(r, self.upsert_refusal(m), seq![OpModel::Upsert(m)], false, 1) && suits(
            r,
            self.dim(),
        )
    }

    fn insert_record(&self, record: Record) -> (r: Result<Change, VectLiteError>)
        ensures
            self.inserts(r, record@),
    {
        match self.check_writable() {
            Ok(()) => {},
            Err(e) => {
                return Err(e);
            },
        }
        match validate_record(&record, self.table.dimension, true) {
            Ok(()) => {},
            Err(e) => {
                return Err(e);
            },
        }
        let key = record.key();
        if self.table.records.has(&key) {
            return Err(VectLiteError::DuplicateId { namespace: key.0, id: key.1 });
        }
        proof {
            law_valid_record(record@, self.dim(), true);
        }
        plan_one(WalOp::Upsert(record), 1)
    }

    fn upsert_record(&self, record: Record) -> (r: Result<Change, VectLiteError>)
        ensures
            self.upserts(r, record@),
    {
        match self.check_writable() {
            Ok(()) => {},
            Err(e) => {
                return Err(e);
            },
        }
        match validate_record(&record, self.table.dimension, true) {
            Ok(()) => {},
            Err(e) => {
                return Err(e);
            },
        }
        proof {
            law_valid_record(record@, self.dim(), true);
        }
        plan_one(WalOp::Upsert(record), 1)
    }

    /// Inserts a record with a main vector, named vectors and a sparse vector.
    pub fn insert_with_vectors_in_namespace(
        &self,
        namespace: &str,
        id: &str,
        vector: Vec<u32>,
        vectors: NamedVectors,
        sparse: SparseVector,
        metadata: Metadata,
    ) -> (r: Result<Change, VectLiteError>)
        ensures
            self.inserts(
                r,
                record_parts(
                    (namespace@, id@),
                    vector@,
                    vectors.pairs(),
                    sparse.pairs(),
                    metadata.pairs(),
                    Seq::empty(),
                ),
            ),
    {
        let record = whole_record(
            namespace,
            id,
            vector,
            vectors,
            sparse,
            metadata,
            OrderedMap::new(),
        );
        self.insert_record(record)
    }

    /// Inserts a record with a main vector and a sparse vector.
    pub fn insert_with_sparse_in_namespace(
        &self,
        namespace: &str,
        id: &str,
        vector: Vec<u32>,
        sparse: SparseVector,
        metadata: Metadata,
    ) -> (r: Result<Change, VectLiteError>)
        ensures
            self.inserts(
                r,
                record_parts(
                    (namespace@, id@),
                    vector@,
                    Seq::empty(),
                    sparse.pairs(),
                    metadata.pairs(),
                    Seq::empty(),
                ),
            ),
    {
        self.insert_with_vectors_in_namespace(
            namespace,
            id,
            vector,
            OrderedMap::new(),
            sparse,
            metadata,
        )
    }

    /// Inserts a record with a main vector.
    pub fn insert_in_namespace(
        &self,
        namespace: &str,
        id: &str,
        vector: Vec<u32>,
        metadata: Metadata,
    ) -> (r: Result<Change, VectLiteError>)
        ensures
            self.inserts(
                r,
                record_parts(
                    (namespace@, id@),
                    vector@,
                    Seq::empty(),
                    Seq::empty(),
                    metadata.pairs(),
                    Seq::empty(),
                ),
            ),
    {
        self.insert_with_sparse_in_namespace(namespace, id, vector, OrderedMap::new(), metadata)
    }

    /// Inserts a record into the default namespace.
    pub fn insert(&self, id: &str, vector: Vec<u32>, metadata: Metadata) -> (r: Result<
        Change,
        VectLiteError,
    >)
        ensures
            self.inserts(
                r,
                record_parts(
                    (Seq::empty(), id@),
                    vector@,
                    Seq::empty(),
                    Seq::empty(),
                    metadata.pairs(),
                    Seq::empty(),
                ),
            ),
    {
        proof {
            reveal_strlit("");
            assert(""@ =~= Seq::<char>::empty());
        }
        self.insert_in_namespace("", id, vector, metadata)
    }

    /// Inserts a record into the default namespace; an id that is taken is refused.
    pub fn upsert(&self, id: &str, vector: Vec<u32>, metadata: Metadata) -> (r: Result<
        Change,
        VectLiteError,
    >)
        ensures
            self.inserts(
                r,
                record_parts(
                    (Seq::empty(), id@),
                    vector@,
                    Seq::empty(),
                    Seq::empty(),
                    metadata.pairs(),
                    Seq::empty(),
                ),
            ),
    {
        self.insert(id, vector, metadata)
    }

    /// Inserts or replaces a record with a main vector, named vectors and a sparse vector.
    pub fn upsert_with_vectors_in_namespace(
        &self,
        namespace: &str,
        id: &str,
        vector: Vec<u32>,
        vectors: NamedVectors,
        sparse: SparseVector,
        metadata: Metadata,
    ) -> (r: Result<Change, VectLiteError>)
        ensures
            self.upserts(
                r,
                record_parts(
                    (namespace@, id@),
                    vector@,
                    vectors.pairs(),
                    sparse.pairs(),
                    metadata.pairs(),
                    Seq::empty(),
                ),
            ),
    {
        let record = whole_record(
            namespace,
            id,
            vector,
            vectors,
            sparse,
            metadata,
            OrderedMap::new(),
        );
        self.upsert_record(record)
    }

    /// Inserts or replaces a record with a main vector and a sparse vector.
    pub fn upsert_with_sparse_in_namespace(
        &self,
        namespace: &str,
        id: &str,
        vector: Vec<u32>,
        sparse: SparseVector,
        metadata: Metadata,
    ) -> (r: Result<Change, VectLiteError>)
        ensures
            self.upserts(
                r,
                record_parts(
                    (namespace@, id@),
                    vector@,
                    Seq::empty(),
                    sparse.pairs(),
                    metadata.pairs(),
                    Seq::empty(),
                ),
            ),
    {
        self.upsert_with_vectors_in_namespace(
            namespace,
            id,
            vector,
            OrderedMap::new(),
            sparse,
            metadata,
        )
    }

    /// Inserts or replaces a record with a main vector.
    pub fn upsert_in_namespace(
        &self,
        namespace: &str,
        id: &str,
        vector: Vec<u32>,
        metadata: Metadata,
    ) -> (r: Result<Change, VectLiteError>)
        ensures
            self.upserts(
                r,
                record_parts(
                    (namespace@, id@),
                    vector@,
                    Seq::empty(),
                    Seq::empty(),
                    metadata.pairs(),
                    Seq::empty(),
                ),
            ),
    {
        self.upsert_with_sparse_in_namespace(namespace, id, vector, OrderedMap::new(), metadata)
    }

    /// Inserts or replaces a record with token vectors.
    pub fn upsert_multi_vectors_in_namespace(
        &self,
        namespace: &str,
        id: &str,
        vector: Vec<u32>,
        metadata: Metadata,
        multi_vectors: MultiVectors,
    ) -> (r: Result<Change, VectLiteError>)
        ensures
            self.upserts(
                r,
                record_parts(
                    (namespace@, id@),
                    vector@,
                    Seq::empty(),
                    Seq::empty(),
                    metadata.pairs(),
                    multi_vectors.pairs(),
                ),
            ),
    {
        let record = whole_record(
            namespace,
            id,
            vector,
            OrderedMap::new(),
            OrderedMap::new(),
            metadata,
            multi_vectors,
        );
        self.upsert_record(record)
    }

    /// Inserts or replaces a record with token vectors in the default namespace.
    pub fn upsert_multi_vectors(
        &self,
        id: &str,
        vector: Vec<u32>,
        metadata: Metadata,
        multi_vectors: MultiVectors,
    ) -> (r: Result<Change, VectLiteError>)
        ensures
            self.upserts(
                r,
                record_parts(
                    (Seq::empty(), id@),
                    vector@,
                    Seq::empty(),
                    Seq::empty(),
                    metadata.pairs(),
                    multi_vectors.pairs(),
                ),
            ),
    {
        proof {
            reveal_strlit("");
            assert(""@ =~= Seq::<char>::empty());
        }
        self.upsert_multi_vectors_in_namespace("", id, vector, metadata, multi_vectors)
    }

    /// Whether requests of a batch are answered.
    pub open spec fn batches(
        &self,
        r: Result<Change, VectLiteError>,
        ws: Seq<WriteModel>,
    ) -> bool {
        answered(
            r,
            first_of(self.write_refusal(), operations_refusal(self@, self.dim(), ws, 0)),
            logged_ops(ws),
            true,
            ws.len(),
        ) && suits(r, self.dim())
    }

    /// Applies changes together. The first one with a reason to refuse it refuses them all.
    pub fn apply_operations(&self, operations: Vec<WriteOperation>) -> (r: Result<
        Change,
        VectLiteError,
    >)
        ensures
            self.batches(r, operations.deep_view()),
    {
        match self.check_writable() {
            Ok(()) => {},
            Err(e) => {
                return Err(e);
            },
        }
        let ghost all = operations.deep_view();
        let n: usize = operations.len();
        let mut ops: Vec<WalOp> = Vec::new();
        proof {
            assert(ops.deep_view() =~= logged_ops(all.take(0)));
        }
        for w in it: operations
            invariant
                all == operations.deep_view(),
                it.seq() == operations@,
                self.write_refusal() is None,
                operations_refusal(self@, self.dim(), all, it.index()) == operations_refusal(
                    self@,
                    self.dim(),
                    all,
                    0,
                ),
                ops.deep_view() == logged_ops(all.take(it.index())),
                ops_dimensioned(ops.deep_view(), self.dim()),
        {
            let ghost at = it.index();
            let ghost before = ops.deep_view();
            proof {
                assert(all[at] == w.deep_view());
            }
            let op = match w {
                WriteOperation::Insert(record) => {
                    match validate_record(&record, self.table.dimension, false) {
                        Ok(()) => {},
                        Err(e) => {
                            return Err(e);
                        },
                    }
                    let key = record.key();
                    if self.table.records.has(&key) {
                        return Err(VectLiteError::DuplicateId { namespace: key.0, id: key.1 });
                    }
                    proof {
                        law_valid_record(record@, self.dim(), false);
                    }
                    WalOp::Upsert(record)
                },
                WriteOperation::Upsert(record) => {
                    match validate_record(&record, self.table.dimension, false) {
                        Ok(()) => {},
                        Err(e) => {
                            return Err(e);
                        },
                    }
                    proof {
                        law_valid_record(record@, self.dim(), false);
                    }
                    WalOp::Upsert(record)
                },
                WriteOperation::Delete { namespace, id } => WalOp::Delete { namespace, id },
            };
            ops.push(op);
            proof {
                assert(op.deep_view() == logged_op(all[at]));
                assert(ops.deep_view() =~= before.push(op.deep_view()));
                assert(ops.deep_view() =~= logged_ops(all.take(at + 1)));
                assert forall|i: int| 0 <= i < ops.deep_view().len() implies op_dimensioned(
                    #[trigger] ops.deep_view()[i],
                    self.dim(),
                ) by {
                    if i < before.len() {
                        assert(ops.deep_view()[i] == before[i]);
                    }
                }
            }
        }
        proof {
            assert(all.take(all.len() as int) =~= all);
        }
        plan(ops, true, n)
    }

    /// Inserts records together.
    pub fn insert_many(&self, records: Vec<Record>) -> (r: Result<Change, VectLiteError>)
        ensures
            self.batches(r, insertions(records.deep_view())),
    {
        let ghost all = records.deep_view();
        let mut ws: Vec<WriteOperation> = Vec::new();
        proof {
            assert(ws.deep_view() =~= insertions(all.take(0)));
        }
        for record in it: records
            invariant
                all == records.deep_view(),
                it.seq() == records@,
                ws.deep_view() == insertions(all.take(it.index())),
        {
            let ghost before = ws.deep_view();
            proof {
                assert(all[it.index()] == record@);
            }
            ws.push(WriteOperation::Insert(record));
            proof {
                assert(ws.deep_view() =~= before.push(WriteModel::Insert(record@)));
                assert(ws.deep_view() =~= insertions(all.take(it.index() + 1)));
            }
        }
        proof {
            assert(all.take(all.len() as int) =~= all);
        }
        self.apply_operations(ws)
    }

    /// Inserts or replaces records together.
    pub fn upsert_many(&self, records: Vec<Record>) -> (r: Result<Change, VectLiteError>)
        ensures
            self.batches(r, replacements(records.deep_view())),
    {
        let ghost all = records.deep_view();
        let mut ws: Vec<WriteOperation> = Vec::new();
        proof {
            assert(ws.deep_view() =~= replacements(all.take(0)));
        }
        for record in it: records
            invariant
                all == records.deep_view(),
                it.seq() == records@,
                ws.deep_view() == replacements(all.take(it.index())),
        {
            let ghost before = ws.deep_view();
            proof {
                assert(all[it.index()] == record@);
            }
            ws.push(WriteOperation::Upsert(record));
            proof {
                assert(ws.deep_view() =~= before.push(WriteModel::Upsert(record@)));
                assert(ws.deep_view() =~= replacements(all.take(it.index() + 1)));
            }
        }
        proof {
            assert(all.take(all.len() as int) =~= all);
        }
        self.apply_operations(ws)
    }

    /// Whether a request about the record of one key is answered: by `op` where the record is
    /// there, and by no change where it is not.
    pub open spec fn touches(
        &self,
        r: Result<Change, VectLiteError>,
        refusal: Option<Failure>,
        k: KeyModel,
        op: OpModel,
    ) -> bool {
        answered(
            r,
            first_of(self.write_refusal(), refusal),
            if self@.contains_key(k) {
                seq![op]
            } else {
                Seq::empty()
            },
            false,
            if self@.contains_key(k) {
                1
            } else {
                0
            },
        ) && suits(r, self.dim())
    }

    fn touch(&self, namespace: &str, id: &str, op: WalOp) -> (r: Result<Change, VectLiteError>)
        requires
            self.write_refusal() is None,
            op_dimensioned(op.deep_view(), self.dim()),
        ensures
            self.touches(r, None, (namespace@, id@), op.deep_view()),
    {
        if self.table.has_record(namespace, id) {
            plan_one(op, 1)
        } else {
            let ops: Vec<WalOp> = Vec::new();
            proof {
                assert(ops.deep_view() =~= Seq::<OpModel>::empty());
            }
            plan(ops, false, 0)
        }
    }

    /// Deletes a record.
    pub fn delete_in_namespace(&self, namespace: &str, id: &str) -> (r: Result<
        Change,
        VectLiteError,
    >)
        ensures
            self.touches(r, None, (namespace@, id@), OpModel::Delete((namespace@, id@))),
    {
        match self.check_writable() {
            Ok(()) => {},
            Err(e) => {
                return Err(e);
            },
        }
        self.touch(
            namespace,
            id,
            WalOp::Delete { namespace: namespace.to_owned(), id: id.to_owned() },
        )
    }

    /// Deletes a record of the default namespace.
    pub fn delete(&self, id: &str) -> (r: Result<Change, VectLiteError>)
        ensures
            self.touches(r, None, (Seq::empty(), id@), OpModel::Delete((Seq::empty(), id@))),
    {
        proof {
            reveal_strlit("");
            assert(""@ =~= Seq::<char>::empty());
        }
        self.delete_in_namespace("", id)
    }

    /// Sets entries of the metadata of a record; other entries stay.
    pub fn update_metadata_in_namespace(
        &self,
        namespace: &str,
        id: &str,
        metadata: Metadata,
    ) -> (r: Result<Change, VectLiteError>)
        ensures
            self.touches(
                r,
                None,
                (namespace@, id@),
                OpModel::UpdateMetadata((namespace@, id@), metadata.pairs()),
            ),
    {
        match self.check_writable() {
            Ok(()) => {},
            Err(e) => {
                return Err(e);
            },
        }
        self.touch(
            namespace,
            id,
            WalOp::UpdateMetadata {
                namespace: namespace.to_owned(),
                id: id.to_owned(),
                metadata,
            },
        )
    }

    /// Sets entries of the metadata of a record of the default namespace.
    pub fn update_metadata(&self, id: &str, metadata: Metadata) -> (r: Result<
        Change,
        VectLiteError,
    >)
        ensures
            self.touches(
                r,
                None,
                (Seq::empty(), id@),
                OpModel::UpdateMetadata((Seq::empty(), id@), metadata.pairs()),
            ),
    {
        proof {
            reveal_strlit("");
            assert(""@ =~= Seq::<char>::empty());
        }
        self.update_metadata_in_namespace("", id, metadata)
    }

    /// Lets a record expire at `expires_at`, which is `ttl_secs` from now.
    pub fn set_ttl_in_namespace(
        &self,
        namespace: &str,
        id: &str,
        ttl_secs: u64,
        expires_at: u64,
    ) -> (r: Result<Change, VectLiteError>)
        ensures
            self.touches(
                r,
                ttl_refusal(ttl_secs),
                (namespace@, id@),
                OpModel::SetTtl((namespace@, id@), Some(expires_at)),
            ),
    {
        match self.check_writable() {
            Ok(()) => {},
            Err(e) => {
                return Err(e);
            },
        }
        if less(ttl_secs, 0) || !double_finite(ttl_secs) {
            return Err(invalid("ttl_secs must be a non-negative finite number"));
        }
        self.touch(
            namespace,
            id,
            WalOp::SetTtl {
                namespace: namespace.to_owned(),
                id: id.to_owned(),
                expires_at: Some(expires_at),
            },
        )
    }

    /// Lets a record of the default namespace expire.
    pub fn set_ttl(&self, id: &str, ttl_secs: u64, expires_at: u64) -> (r: Result<
        Change,
        VectLiteError,
    >)
        ensures
            self.touches(
                r,
                ttl_refusal(ttl_secs),
                (Seq::empty(), id@),
                OpModel::SetTtl((Seq::empty(), id@), Some(expires_at)),
            ),
    {
        proof {
            reveal_strlit("");
            assert(""@ =~= Seq::<char>::empty());
        }
        self.set_ttl_in_namespace("", id, ttl_secs, expires_at)
    }

    /// Lets a record never expire.
    pub fn clear_ttl_in_namespace(&self, namespace: &str, id: &str) -> (r: Result<
        Change,
        VectLiteError,
    >)
        ensures
            self.touches(r, None, (namespace@, id@), OpModel::SetTtl((namespace@, id@), None)),
    {
        match self.check_writable() {
            Ok(()) => {},
            Err(e) => {
                return Err(e);
            },
        }
        self.touch(
            namespace,
            id,
            WalOp::SetTtl {
                namespace: namespace.to_owned(),
                id: id.to_owned(),
                expires_at: None,
            },
        )
    }

    /// Lets a record of the default namespace never expire.
    pub fn clear_ttl(&self, id: &str) -> (r: Result<Change, VectLiteError>)
        ensures
            self.touches(r, None, (Seq::empty(), id@), OpModel::SetTtl((Seq::empty(), id@), None)),
    {
        proof {
            reveal_strlit("");
            assert(""@ =~= Seq::<char>::empty());
        }
        self.clear_ttl_in_namespace("", id)
    }

    /// Whether a request to delete records is answered.
    pub open spec fn deletes(&self, r: Result<Change, VectLiteError>, ops: Seq<OpModel>) -> bool {
        answered(r, self.write_refusal(), ops, false, ops.len()) && suits(r, self.dim())
    }

    /// Deletes the records of a namespace whose ids are given. An id that is given twice counts
    /// twice.
    pub fn delete_many_in_namespace(&self, namespace: &str, ids: &Vec<String>) -> (r: Result<
        Change,
        VectLiteError,
    >)
        ensures
            self.deletes(r, present_ids(self@, namespace@, ids.deep_view())),
    {
        match self.check_writable() {
            Ok(()) => {},
            Err(e) => {
                return Err(e);
            },
        }
        let ghost all = ids.deep_view();
        let mut ops: Vec<WalOp> = Vec::new();
        let mut i: usize = 0;
        proof {
            assert(all.take(0) =~= Seq::empty());
            assert(ops.deep_view() =~= Seq::<OpModel>::empty());
        }
        while i < ids.len()
            invariant
                i <= ids@.len(),
                all == ids.deep_view(),
                ops.deep_view() == present_ids(self@, namespace@, all.take(i as int)),
                ops_dimensioned(ops.deep_view(), self.dim()),
            decreases ids@.len() - i,
        {
            let ghost before = ops.deep_view();
            proof {
                assert(all.take(i + 1).drop_last() =~= all.take(i as int));
                assert(all.take(i + 1).last() == ids@[i as int]@);
            }
            if self.table.has_record(namespace, ids[i].as_str()) {
                let op = WalOp::Delete { namespace: namespace.to_owned(), id: ids[i].duplicate() };
                ops.push(op);
                proof {
                    assert(ops.deep_view() =~= before.push(op.deep_view()));
                }
            }
            i += 1;
        }
        proof {
            assert(all.take(i as int) =~= all);
        }
        let n: usize = ops.len();
        plan(ops, false, n)
    }

    /// Deletes the records of the default namespace whose ids are given.
    pub fn delete_many(&self, ids: &Vec<String>) -> (r: Result<Change, VectLiteError>)
        ensures
            self.deletes(r, present_ids(self@, Seq::empty(), ids.deep_view())),
    {
        proof {
            reveal_strlit("");
            assert(""@ =~= Seq::<char>::empty());
        }
        self.delete_many_in_namespace("", ids)
    }

    /// Deletes the records of a namespace, or of all, whose metadata a filter accepts.
    pub fn delete_by_filter(&self, namespace: Option<&str>, filter: &MetadataFilter) -> (r: Result<
        Change,
        VectLiteError,
    >)
        ensures
            self.deletes(r, matching_deletes(self.rows(), opt_text(namespace), *filter)),
    {
        match self.check_writable() {
            Ok(()) => {},
            Err(e) => {
                return Err(e);
            },
        }
        let ghost rows = self.rows();
        let mut ops: Vec<WalOp> = Vec::new();
        let mut i: usize = 0;
        proof {
            assert(rows.take(0) =~= Seq::empty());
            assert(ops.deep_view() =~= Seq::<OpModel>::empty());
        }
        while i < self.table.records.len()
            invariant
                i <= rows.len(),
                rows == self.rows(),
                ops.deep_view() == matching_deletes(
                    rows.take(i as int),
                    opt_text(namespace),
                    *filter,
                ),
                ops_dimensioned(ops.deep_view(), self.dim()),
            decreases rows.len() - i,
        {
            let ghost before = ops.deep_view();
            let key = self.table.records.key_at(i);
            let record = self.table.records.value_at(i);
            proof {
                assert(rows.take(i + 1).drop_last() =~= rows.take(i as int));
                assert(rows.take(i + 1).last() == rows[i as int]);
            }
            let inside: bool = match namespace {
                Some(n) => same_text(key.0.as_str(), n),
                None => true,
            };
            if inside && filter.matches(&record.metadata) {
                let op = WalOp::Delete { namespace: key.0.duplicate(), id: key.1.duplicate() };
                ops.push(op);
                proof {
                    assert(ops.deep_view() =~= before.push(op.deep_view()));
                }
            }
            i += 1;
        }
        proof {
            assert(rows.take(i as int) =~= rows);
        }
        let n: usize = ops.len();
        plan(ops, false, n)
    }
}

/// Why a time to live is refused, if it is: it has to be finite and not negative.
pub open spec fn ttl_refusal(ttl_secs: u64) -> Option<Failure> {
    if double_lt(ttl_secs, 0) || !double_is_finite(ttl_secs) {
        Some(Failure::InvalidFormat("ttl_secs must be a non-negative finite number"@))
    } else {
        None
    }
}

fn whole_record(
    namespace: &str,
    id: &str,
    vector: Vec<u32>,
    vectors: NamedVectors,
    sparse: SparseVector,
    metadata: Metadata,
    multi_vectors: MultiVectors,
) -> (r: Record)
    ensures
        r@ == record_parts(
            (namespace@, id@),
            vector@,
            vectors.pairs(),
            sparse.pairs(),
            metadata.pairs(),
            multi_vectors.pairs(),
        ),
{
    let r = Record {
        namespace: namespace.to_owned(),
        id: id.to_owned(),
        vector,
        vectors,
        sparse,
        metadata,
        multi_vectors,
        expires_at: None,
    };
    proof {
        assert(r@.vector =~= vector@);
    }
    r
}

} // verus!
