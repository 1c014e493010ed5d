//! The quantized indexes of a database.
use vstd::prelude::*;
use crate::change::first_of;
use crate::database::{Database, QuantState, TokenIndex};
use crate::error::{invalid, Failure, VectLiteError};
use crate::order::Duplicate;
use crate::ordered_map::{has_key, map_of};
use crate::quantization::{
    all_of_dimension, divisors_to, quantization_defect, valid_product_num_sub_vectors,
    validate_quantization_config, MultiVectorQuantizationConfig, QuantizationConfig,
};
use crate::quantizers::QuantizedIndex;
use crate::record::{KeyModel, RecordKey, RecordModel};
use crate::token_index::{all_tokens, doc_spans, MultiVectorQuantizedIndex};
use crate::two_bit::quartiles;

verus! {

/// The documents of a space: the records with token vectors in it, in record order.
pub open spec fn space_docs(rows: Seq<(KeyModel, RecordModel)>, space: Seq<char>) -> Seq<
    (KeyModel, Seq<Seq<u32>>),
>
    decreases rows.len(),
{
    if rows.len() == 0 {
        Seq::empty()
    } else {
        let before = space_docs(rows.drop_last(), space);
        let spaces = rows.last().1.multi_vectors;
        if has_key(spaces, space) && map_of(spaces)[space].len() > 0 {
            before.push((rows.last().0, map_of(spaces)[space]))
        } else {
            before
        }
    }
}

/// The keys of documents.
pub open spec fn doc_keys(docs: Seq<(KeyModel, Seq<Seq<u32>>)>) -> Seq<KeyModel> {
    docs.map_values(|d: (KeyModel, Seq<Seq<u32>>)| d.0)
}

/// The token vectors of documents.
pub open spec fn doc_tokens(docs: Seq<(KeyModel, Seq<Seq<u32>>)>) -> Seq<Seq<Seq<u32>>> {
    docs.map_values(|d: (KeyModel, Seq<Seq<u32>>)| d.1)
}

/// The dimension of the tokens of documents: that of the first token.
pub open spec fn docs_dim(docs: Seq<(KeyModel, Seq<Seq<u32>>)>) -> nat {
    if docs.len() == 0 {
        0
    } else {
        docs[0].1[0].len()
    }
}

/// Whether all tokens of documents have a dimension, and are not too many to be indexed.
pub open spec fn docs_even(docs: Seq<(KeyModel, Seq<Seq<u32>>)>, dim: nat) -> bool {
    &&& all_of_dimension(all_tokens(doc_tokens(docs)), dim)
    &&& 3 * all_tokens(doc_tokens(docs)).len() <= usize::MAX
    &&& 3 * dim <= usize::MAX
}

impl Database {
    /// Everything but the quantized index over the main vectors is as before.
    pub open(crate) spec fn same_but_quantizer(&self, other: &Database) -> bool {
        &&& self.table == other.table
        &&& self.metric == other.metric
        &&& self.config == other.config
        &&& self.access == other.access
        &&& self.log == other.log
        &&& self.catalog == other.catalog
        &&& self.ann == other.ann
        &&& self.sparse == other.sparse
        &&& self.arena == other.arena
        &&& self.arena_dirty == other.arena_dirty
        &&& self.tokens == other.tokens
    }

    /// Everything but the quantized indexes over token vectors is as before.
    pub open(crate) spec fn same_but_tokens(&self, other: &Database) -> bool {
        &&& self.table == other.table
        &&& self.metric == other.metric
        &&& self.config == other.config
        &&& self.access == other.access
        &&& self.log == other.log
        &&& self.catalog == other.catalog
        &&& self.ann == other.ann
        &&& self.sparse == other.sparse
        &&& self.arena == other.arena
        &&& self.arena_dirty == other.arena_dirty
        &&& self.quant == other.quant
    }

    /// Why quantization is refused, if it is.
    pub open spec fn quantization_refusal(&self, config: QuantizationConfig) -> Option<Failure> {
        first_of(
            self.write_refusal(),
            if self.rows().len() == 0 {
                Some(
                    Failure::InvalidFormat("cannot enable quantization on an empty database"@),
                )
            } else {
                match quantization_defect(config, self.dim()) {
                    Some(m) => Some(Failure::InvalidFormat(m)),
                    None => None,
                }
            },
        )
    }

    /// Turns quantization on. The index is then to be built from the main vectors.
    pub fn enable_quantization(&mut self, config: QuantizationConfig) -> (r: Result<
        (),
        VectLiteError,
    >)
        requires
            old(self).wf(),
        ensures
            final(self).wf(),
            final(self).same_but_quantizer(old(self)),
            match old(self).quantization_refusal(config) {
                Some(f) => (r matches Err(e) && e@ == f) && final(self).quantizer()
                    == old(self).quantizer(),
                None => {
                    &&& r is Ok
                    &&& final(self).quantizer().config == Some(config)
                    &&& final(self).quantizer().index is None
                    &&& final(self).quantizer().keys@.len() == 0
                    &&& !final(self).quantizer().dirty
                },
            },
    {
        match self.check_writable() {
            Ok(()) => {},
            Err(e) => {
                return Err(e);
            },
        }
        if self.table.records.len() == 0 {
            return Err(invalid("cannot enable quantization on an empty database"));
        }
        match validate_quantization_config(&config, self.table.dimension) {
            Ok(()) => {},
            Err(e) => {
                return Err(e);
            },
        }
        self.quant = QuantState {
            config: Some(config),
            index: None,
            keys: Vec::new(),
            dirty: false,
        };
        Ok(())
    }

    /// Turns quantization off.
    pub fn disable_quantization(&mut self) -> (r: Result<(), VectLiteError>)
        requires
            old(self).wf(),
        ensures
            final(self).wf(),
            final(self).same_but_quantizer(old(self)),
            match old(self).write_refusal() {
                Some(f) => (r matches Err(e) && e@ == f) && final(self).quantizer()
                    == old(self).quantizer(),
                None => {
                    &&& r is Ok
                    &&& final(self).quantizer().config is None
                    &&& final(self).quantizer().index is None
                    &&& final(self).quantizer().keys@.len() == 0
                    &&& !final(self).quantizer().dirty
                },
            },
    {
        match self.check_writable() {
            Ok(()) => {},
            Err(e) => {
                return Err(e);
            },
        }
        self.quant = QuantState { config: None, index: None, keys: Vec::new(), dirty: false };
        Ok(())
    }

    /// The main vectors in record order.
    pub fn main_vectors(&self) -> (r: Vec<Vec<u32>>)
        ensures
            r.deep_view() == Seq::new(self.rows().len(), |i: int| self.rows()[i].1.vector),
    {
        let ghost rows = self.rows();
        let mut out: Vec<Vec<u32>> = Vec::new();
        let mut i: usize = 0;
        while i < self.table.records.len()
            invariant
                i <= rows.len(),
                rows == self.rows(),
                out@.len() == i,
                forall|j: int| 0 <= j < i ==> (#[trigger] out@[j]).deep_view() == rows[j].1.vector,
            decreases rows.len() - i,
        {
            out.push(self.table.records.value_at(i).vector.duplicate());
            i += 1;
        }
        proof {
            assert(out.deep_view() =~= Seq::new(rows.len(), |i: int| rows[i].1.vector));
        }
        out
    }

    pub(crate) fn all_keys(&self) -> (r: Vec<RecordKey>)
        ensures
            r.deep_view() == crate::ann::row_keys(self.rows()),
            r@.len() == self.rows().len(),
    {
        let ghost rows = self.rows();
        let mut out: Vec<RecordKey> = Vec::new();
        let mut i: usize = 0;
        while i < self.table.records.len()
            invariant
                i <= rows.len(),
                rows == self.rows(),
                out@.len() == i,
                forall|j: int| 0 <= j < i ==> (#[trigger] out@[j]).deep_view() == rows[j].0,
            decreases rows.len() - i,
        {
            out.push(self.table.records.key_at(i).duplicate());
            i += 1;
        }
        proof {
            assert(out.deep_view() =~= crate::ann::row_keys(rows));
        }
        out
    }

    /// Takes over a quantized index over the main vectors, in record order.
    pub fn install_quantized(&mut self, index: QuantizedIndex)
        requires
            old(self).wf(),
            index.wf(),
            index.size() == old(self).rows().len(),
        ensures
            final(self).wf(),
            final(self).same_but_quantizer(old(self)),
            final(self).quantizer().config == Some(index.settings()),
            final(self).quantizer().index == Some(index),
            final(self).quantizer().keys.deep_view() == crate::ann::row_keys(old(self).rows()),
            final(self).quantizer().dirty == old(self).quantizer().dirty,
    {
        let keys = self.all_keys();
        let config = index.config();
        self.quant = QuantState {
            config: Some(config),
            index: Some(index),
            keys,
            dirty: self.quant.dirty,
        };
    }

    /// Whether quantization of the main vectors is on.
    pub fn is_quantized(&self) -> (r: bool)
        ensures
            r == self.quantizer().config is Some,
    {
        self.quant.config.is_some()
    }

    /// The settings of quantization, where it is on.
    pub fn quantization_config(&self) -> (r: Option<QuantizationConfig>)
        ensures
            r == self.quantizer().config,
    {
        self.quant.config
    }

    /// The quantized index over the main vectors.
    pub fn quantized_index(&self) -> (r: Option<&QuantizedIndex>)
        ensures
            match self.quantizer().index {
                Some(x) => r == Some(&x),
                None => r is None,
            },
    {
        match &self.quant.index {
            Some(x) => Some(x),
            None => None,
        }
    }

    /// Every number of parts that product quantization can use.
    pub fn valid_num_sub_vectors(&self) -> (r: Vec<usize>)
        ensures
            r@ == divisors_to(self.dim(), self.dim()),
    {
        valid_product_num_sub_vectors(self.table.dimension)
    }

    /// The documents of a space, with their keys.
    pub fn space_documents(&self, space: &str) -> (r: (Vec<RecordKey>, Vec<Vec<Vec<u32>>>))
        ensures
            r.0.deep_view() == doc_keys(space_docs(self.rows(), space@)),
            r.1.deep_view() == doc_tokens(space_docs(self.rows(), space@)),
    {
        let ghost rows = self.rows();
        let mut keys: Vec<RecordKey> = Vec::new();
        let mut docs: Vec<Vec<Vec<u32>>> = Vec::new();
        let mut i: usize = 0;
        proof {
            assert(rows.take(0) =~= Seq::empty());
            assert(keys.deep_view() =~= doc_keys(space_docs(rows.take(0), space@)));
            assert(docs.deep_view() =~= doc_tokens(space_docs(rows.take(0), space@)));
        }
        while i < self.table.records.len()
            invariant
                i <= rows.len(),
                rows == self.rows(),
                keys.deep_view() == doc_keys(space_docs(rows.take(i as int), space@)),
                docs.deep_view() == doc_tokens(space_docs(rows.take(i as int), space@)),
            decreases rows.len() - i,
        {
            let record = self.table.records.value_at(i);
            let ghost k0 = keys.deep_view();
            let ghost d0 = docs.deep_view();
            let ghost seen = space_docs(rows.take(i as int), space@);
            proof {
                assert(rows.take(i + 1).drop_last() =~= rows.take(i as int));
                assert(rows.take(i + 1).last() == rows[i as int]);
                assert(rows[i as int].1 == record@);
            }
            if let Some(tokens) = record.multi_vectors.get(space) {
                if tokens.len() > 0 {
                    let key = self.table.records.key_at(i).duplicate();
                    let doc = tokens.duplicate();
                    keys.push(key);
                    docs.push(doc);
                    proof {
                        let item = (key.deep_view(), doc.deep_view());
                        assert(keys.deep_view() =~= k0.push(item.0));
                        assert(docs.deep_view() =~= d0.push(item.1));
                        assert(doc_keys(seen.push(item)) =~= doc_keys(seen).push(item.0));
                        assert(doc_tokens(seen.push(item)) =~= doc_tokens(seen).push(item.1));
                        assert(space_docs(rows.take(i + 1), space@) == seen.push(item));
                    }
                }
            }
            i += 1;
        }
        proof {
            assert(rows.take(i as int) =~= rows);
        }
        (keys, docs)
    }

    /// Whether the tokens of a space can be indexed: all of one dimension, and not too many.
    pub fn space_is_even(&self, space: &str) -> (r: bool)
        ensures
            r == docs_even(
                space_docs(self.rows(), space@),
                docs_dim(space_docs(self.rows(), space@)),
            ),
    {
        let ghost all = space_docs(self.rows(), space@);
        let (keys, docs) = self.space_documents(space);
        proof {
            lemma_docs_nonempty(self.rows(), space@);
            assert(all.len() == docs@.len()) by {
                assert(doc_tokens(all).len() == all.len());
            }
        }
        let dim: usize = if docs.len() == 0 {
            0
        } else {
            proof {
                assert(docs.deep_view()[0] == all[0].1);
                assert(docs@[0].deep_view() == all[0].1);
                assert(docs@[0]@[0].deep_view() == all[0].1[0]);
            }
            docs[0][0].len()
        };
        documents_even(&docs, dim)
    }

    /// Turns on the quantization of a space. Its index is then to be built.
    pub fn enable_multi_vector_quantization(
        &mut self,
        space: &str,
        config: MultiVectorQuantizationConfig,
    ) -> (r: Result<(), VectLiteError>)
        requires
            old(self).wf(),
        ensures
            final(self).wf(),
            final(self).same_but_tokens(old(self)),
            ({
                let refusal = first_of(
                    old(self).write_refusal(),
                    if space@.len() == 0 {
                        Some(
                            Failure::InvalidFormat("multi-vector space name must not be empty"@),
                        )
                    } else {
                        None
                    },
                );
                match refusal {
                    Some(f) => (r matches Err(e) && e@ == f) && final(self).token_indexes()
                        == old(self).token_indexes(),
                    None => {
                        &&& r is Ok
                        &&& final(self).token_indexes().configs@
                            == old(self).token_indexes().configs@.insert(space@, config)
                        &&& final(self).token_indexes().indexes
                            == old(self).token_indexes().indexes
                        &&& final(self).token_indexes().dirty == old(self).token_indexes().dirty
                    },
                }
            }),
    {
        match self.check_writable() {
            Ok(()) => {},
            Err(e) => {
                return Err(e);
            },
        }
        if space.is_empty() {
            return Err(invalid("multi-vector space name must not be empty"));
        }
        self.tokens.configs.insert(space.to_owned(), config);
        Ok(())
    }

    /// Turns off the quantization of a space.
    pub fn disable_multi_vector_quantization(&mut self, space: &str) -> (r: Result<
        (),
        VectLiteError,
    >)
        requires
            old(self).wf(),
        ensures
            final(self).wf(),
            final(self).same_but_tokens(old(self)),
            match old(self).write_refusal() {
                Some(f) => (r matches Err(e) && e@ == f) && final(self).token_indexes()
                    == old(self).token_indexes(),
                None => {
                    &&& r is Ok
                    &&& final(self).token_indexes().configs@
                        == old(self).token_indexes().configs@.remove(space@)
                    &&& final(self).token_indexes().indexes@
                        == old(self).token_indexes().indexes@.remove(space@)
                    &&& final(self).token_indexes().dirty == old(self).token_indexes().dirty
                },
            },
    {
        match self.check_writable() {
            Ok(()) => {},
            Err(e) => {
                return Err(e);
            },
        }
        self.tokens.configs.remove(space);
        self.tokens.indexes.remove(space);
        Ok(())
    }

    /// Whether quantization of the token vectors of a space is on.
    pub fn is_multi_vector_quantized(&self, space: &str) -> (r: bool)
        ensures
            r == self.token_indexes().configs@.contains_key(space@),
    {
        self.tokens.configs.contains_key(space)
    }

    /// The quantized index of a space.
    pub fn token_index(&self, space: &str) -> (r: Option<&TokenIndex>)
        ensures
            r is Some == self.token_indexes().indexes@.contains_key(space@),
            r matches Some(t) ==> *t == self.token_indexes().indexes@[space@],
    {
        self.tokens.indexes.get(space)
    }

    /// Builds the quantized index of a space from the records, where there are settings for one.
    /// A space without tokens has none.
    pub fn rebuild_multi_vector_quantized_index(&mut self, space: &str)
        requires
            old(self).wf(),
            docs_even(
                space_docs(old(self).rows(), space@),
                docs_dim(space_docs(old(self).rows(), space@)),
            ),
        ensures
            final(self).wf(),
            final(self).same_but_tokens(old(self)),
            final(self).token_indexes().configs == old(self).token_indexes().configs,
            final(self).token_indexes().dirty == old(self).token_indexes().dirty,
            ({
                let docs = space_docs(old(self).rows(), space@);
                let before = old(self).token_indexes();
                let after = final(self).token_indexes();
                if !before.configs@.contains_key(space@) {
                    after.indexes == before.indexes
                } else if docs.len() == 0 || docs_dim(docs) == 0 {
                    after.indexes@ == before.indexes@.remove(space@)
                } else {
                    &&& after.indexes@.contains_key(space@)
                    &&& after.indexes@ == before.indexes@.insert(
                        space@,
                        after.indexes@[space@],
                    )
                    &&& indexes_docs(after.indexes@[space@], docs)
                    &&& before.configs@[space@] == MultiVectorQuantizationConfig::TwoBit(
                        after.indexes@[space@].index.quantizer.config,
                    )
                    &&& after.indexes@[space@].index.quantizer.boundaries@ == quartiles(
                        all_tokens(doc_tokens(docs)),
                        docs_dim(docs),
                    )
                }
            }),
    {
        let config: MultiVectorQuantizationConfig = match self.tokens.configs.get(space) {
            Some(c) => *c,
            None => {
                return;
            },
        };
        let ghost all = space_docs(self.rows(), space@);
        let (keys, docs) = self.space_documents(space);
        proof {
            lemma_docs_nonempty(self.rows(), space@);
            assert(doc_tokens(all).len() == all.len());
            assert(doc_keys(all).len() == all.len());
            assert(keys.deep_view().len() == keys@.len());
        }
        if docs.len() == 0 {
            self.tokens.indexes.remove(space);
            return;
        }
        proof {
            assert(docs.deep_view()[0] == all[0].1);
            assert(docs@[0].deep_view() == all[0].1);
            assert(docs@[0]@[0].deep_view() == all[0].1[0]);
        }
        let dim: usize = docs[0][0].len();
        if dim == 0 {
            self.tokens.indexes.remove(space);
            return;
        }
        let index = MultiVectorQuantizedIndex::build(&docs, dim, &config);
        proof {
            lemma_tokens_present(doc_tokens(all));
            crate::token_index::lemma_spans_len(docs.deep_view());
        }
        let entry = TokenIndex { index, keys };
        self.tokens.indexes.insert(space.to_owned(), entry);
    }

    /// Takes over the quantized index of a space that was read from disk, with the codes of the
    /// records. A space without tokens keeps none.
    pub fn load_multi_vector_index(&mut self, space: &str, index: MultiVectorQuantizedIndex)
        requires
            old(self).wf(),
            index.quantizer.wf(),
            docs_even(space_docs(old(self).rows(), space@), index.quantizer.dimension as nat),
        ensures
            final(self).wf(),
            final(self).same_but_tokens(old(self)),
            final(self).token_indexes().dirty == old(self).token_indexes().dirty,
            ({
                let docs = space_docs(old(self).rows(), space@);
                let before = old(self).token_indexes();
                let after = final(self).token_indexes();
                if docs.len() == 0 {
                    after == before
                } else {
                    &&& after.configs@ == before.configs@.insert(
                        space@,
                        MultiVectorQuantizationConfig::TwoBit(index.quantizer.config),
                    )
                    &&& after.indexes@.contains_key(space@)
                    &&& after.indexes@ == before.indexes@.insert(
                        space@,
                        after.indexes@[space@],
                    )
                    &&& indexes_docs(after.indexes@[space@], docs)
                    &&& after.indexes@[space@].index.quantizer.boundaries
                        == index.quantizer.boundaries
                    &&& after.indexes@[space@].index.quantizer.config == index.quantizer.config
                }
            }),
    {
        let ghost all = space_docs(self.rows(), space@);
        let (keys, docs) = self.space_documents(space);
        proof {
            assert(doc_tokens(all).len() == all.len());
            assert(doc_keys(all).len() == all.len());
            assert(keys.deep_view().len() == keys@.len());
        }
        if docs.len() == 0 {
            return;
        }
        let quantizer = index.quantizer;
        let mut fresh = MultiVectorQuantizedIndex { quantizer, doc_ranges: Vec::new() };
        fresh.rebuild(&docs);
        proof {
            crate::token_index::lemma_spans_len(docs.deep_view());
        }
        let config = MultiVectorQuantizationConfig::TwoBit(fresh.quantizer.config);
        self.tokens.configs.insert(space.to_owned(), config);
        self.tokens.indexes.insert(space.to_owned(), TokenIndex { index: fresh, keys });
    }
}

/// Whether an index holds the codes of documents under their keys.
pub open spec fn indexes_docs(t: TokenIndex, docs: Seq<(KeyModel, Seq<Seq<u32>>)>) -> bool {
    let q = t.index.quantizer;
    &&& t.keys.deep_view() == doc_keys(docs)
    &&& t.index.doc_ranges@ == doc_spans(doc_tokens(docs))
    &&& q.count == all_tokens(doc_tokens(docs)).len()
    &&& q.codes@ == crate::two_bit::two_bit_codes(
        all_tokens(doc_tokens(docs)),
        q.boundaries@,
        q.bytes_per_vector as nat,
    )
}

proof fn lemma_docs_nonempty(rows: Seq<(KeyModel, RecordModel)>, space: Seq<char>)
    ensures
        forall|i: int|
            0 <= i < space_docs(rows, space).len() ==> (#[trigger] space_docs(
                rows,
                space,
            )[i]).1.len() > 0,
    decreases rows.len(),
{
    if rows.len() > 0 {
        let before = space_docs(rows.drop_last(), space);
        let all = space_docs(rows, space);
        lemma_docs_nonempty(rows.drop_last(), space);
        assert forall|i: int| 0 <= i < all.len() implies (#[trigger] all[i]).1.len() > 0 by {
            if i < before.len() {
                assert(all[i] == before[i]);
            }
        }
    }
}

proof fn lemma_tokens_present(docs: Seq<Seq<Seq<u32>>>)
    requires
        docs.len() > 0,
        docs[0].len() > 0,
    ensures
        all_tokens(docs).len() > 0,
    decreases docs.len(),
{
    if docs.len() > 1 {
        let before = docs.drop_last();
        assert(before[0] == docs[0]);
        lemma_tokens_present(before);
    }
}

fn documents_even(docs: &Vec<Vec<Vec<u32>>>, dim: usize) -> (r: bool)
    ensures
        r == (all_of_dimension(all_tokens(docs.deep_view()), dim as nat) && 3 * all_tokens(
            docs.deep_view(),
        ).len() <= usize::MAX && 3 * dim <= usize::MAX),
{
    if dim > usize::MAX / 3 {
        return false;
    }
    let ghost all = docs.deep_view();
    let mut total: usize = 0;
    let mut i: usize = 0;
    proof {
        assert(all.take(0) =~= Seq::empty());
    }
    while i < docs.len()
        invariant
            i <= docs@.len(),
            all == docs.deep_view(),
            3 * dim <= usize::MAX,
            total == all_tokens(all.take(i as int)).len(),
            total <= usize::MAX / 3,
            all_of_dimension(all_tokens(all.take(i as int)), dim as nat),
        decreases docs@.len() - i,
    {
        let doc = &docs[i];
        let ghost seen = all_tokens(all.take(i as int));
        let ghost here = doc.deep_view();
        proof {
            assert(all.take(i + 1).drop_last() =~= all.take(i as int));
            assert(all.take(i + 1).last() == here);
            crate::token_index::lemma_tokens_grow(all, i + 1);
        }
        let mut j: usize = 0;
        while j < doc.len()
            invariant
                j <= doc@.len(),
                here == doc.deep_view(),
                i < docs@.len(),
                all == docs.deep_view(),
                here == all[i as int],
                seen == all_tokens(all.take(i as int)),
                all_tokens(all.take(i + 1)) == seen + here,
                forall|k: int| 0 <= k < j ==> (#[trigger] here[k]).len() == dim,
            decreases doc@.len() - j,
        {
            proof {
                assert(here[j as int] == doc@[j as int].deep_view());
            }
            if doc[j].len() != dim {
                proof {
                    let flat = all_tokens(all);
                    let p = seen.len() + j;
                    lemma_token_at(all, i as int, j as int);
                    assert(flat[p] == here[j as int]);
                    assert(!all_of_dimension(flat, dim as nat)) by {
                        if all_of_dimension(flat, dim as nat) {
                            assert(flat[p].len() == dim);
                        }
                    }
                }
                return false;
            }
            j += 1;
        }
        if doc.len() > usize::MAX / 3 - total {
            return false;
        }
        total = total + doc.len();
        proof {
            let now = all_tokens(all.take(i + 1));
            assert(now == seen + here);
            assert forall|k: int| 0 <= k < now.len() implies (#[trigger] now[k]).len() == dim by {
                if k < seen.len() {
                    assert(now[k] == seen[k]);
                } else {
                    assert(now[k] == here[k - seen.len()]);
                }
            }
        }
        i += 1;
    }
    proof {
        assert(all.take(i as int) =~= all);
    }
    true
}

proof fn lemma_token_at(docs: Seq<Seq<Seq<u32>>>, i: int, j: int)
    requires
        0 <= i < docs.len(),
        0 <= j < docs[i].len(),
    ensures
        all_tokens(docs.take(i)).len() + j < all_tokens(docs).len(),
        all_tokens(docs)[all_tokens(docs.take(i)).len() + j] == docs[i][j],
    decreases docs.len(),
{
    let before = docs.drop_last();
    if i < before.len() {
        assert(before.take(i) =~= docs.take(i));
        lemma_token_at(before, i, j);
    } else {
        assert(docs.take(i) =~= before);
    }
}

} // verus!
