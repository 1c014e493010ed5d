//! The two-bit index over the token vectors of documents.
use vstd::prelude::*;
use crate::codec::{le_bytes, parse_le, Parsed, Reader};
use crate::error::{Failure, VectLiteError};
use crate::order::Duplicate;
use crate::quantization::{
    all_of_dimension, ceil_div, groups_of, law_usize_roundtrip, lemma_two_sizes_roundtrip,
    parse_two_sizes, parse_usize, read_two_sizes, read_usize, rescore_count, rescored, write_usize,
    MultiVectorQuantizationConfig, TwoBitQuantizationConfig,
};
use crate::ranking::{least_positions, rank};
use crate::text::{concat2, decimal, decimal_text};
use crate::two_bit::{
    enc_two_bit_params, falling_key, law_two_bit_params_roundtrip, lemma_dot_bound,
    parse_two_bit_params, quartiles, two_bit_codes, TwoBitQuantizer,
};

verus! {

/// The token vectors of all documents, one document after the other.
pub open spec fn all_tokens(docs: Seq<Seq<Seq<u32>>>) -> Seq<Seq<u32>>
    decreases docs.len(),
{
    if docs.len() == 0 {
        Seq::empty()
    } else {
        all_tokens(docs.drop_last()) + docs.last()
    }
}

/// Where the tokens of each document start and how many there are.
pub open spec fn doc_spans(docs: Seq<Seq<Seq<u32>>>) -> Seq<(usize, usize)>
    decreases docs.len(),
{
    if docs.len() == 0 {
        Seq::empty()
    } else {
        doc_spans(docs.drop_last()).push(
            (all_tokens(docs.drop_last()).len() as usize, docs.last().len() as usize),
        )
    }
}

/// The tokens in the span of a document are the tokens of that document.
pub proof fn law_spans(docs: Seq<Seq<Seq<u32>>>, d: int)
    requires
        0 <= d < docs.len(),
        all_tokens(docs).len() <= usize::MAX,
    ensures
        doc_spans(docs).len() == docs.len(),
        ({
            let (start, count) = doc_spans(docs)[d];
            &&& start + count <= all_tokens(docs).len()
            &&& all_tokens(docs).subrange(start as int, start + count) == docs[d]
        }),
    decreases docs.len(),
{
    let before = docs.drop_last();
    lemma_spans_len(before);
    if d < before.len() {
        law_spans(before, d);
        let (start, count) = doc_spans(before)[d];
        assert(all_tokens(docs).subrange(start as int, start + count) =~= all_tokens(
            before,
        ).subrange(start as int, start + count));
    } else {
        let (start, count) = doc_spans(docs)[d];
        assert(all_tokens(docs).subrange(start as int, start + count) =~= docs.last());
    }
}

pub proof fn lemma_spans_len(docs: Seq<Seq<Seq<u32>>>)
    ensures
        doc_spans(docs).len() == docs.len(),
    decreases docs.len(),
{
    if docs.len() > 0 {
        lemma_spans_len(docs.drop_last());
    }
}

pub proof fn lemma_tokens_grow(docs: Seq<Seq<Seq<u32>>>, n: int)
    requires
        0 <= n <= docs.len(),
    ensures
        all_tokens(docs.take(n)).len() <= all_tokens(docs).len(),
    decreases docs.len() - n,
{
    if n < docs.len() {
        lemma_tokens_grow(docs, n + 1);
        assert(docs.take(n + 1).drop_last() =~= docs.take(n));
    } else {
        assert(docs.take(n) =~= docs);
    }
}

fn flatten(docs: &Vec<Vec<Vec<u32>>>) -> (r: (Vec<Vec<u32>>, Vec<(usize, usize)>))
    requires
        all_tokens(docs.deep_view()).len() <= usize::MAX,
    ensures
        r.0.deep_view() == all_tokens(docs.deep_view()),
        r.1@ == doc_spans(docs.deep_view()),
{
    let ghost all = docs.deep_view();
    let mut tokens: Vec<Vec<u32>> = Vec::new();
    let mut spans: Vec<(usize, usize)> = Vec::new();
    let mut i: usize = 0;
    proof {
        assert(all.take(0) =~= Seq::empty());
        assert(tokens.deep_view() =~= Seq::<Seq<u32>>::empty());
    }
    while i < docs.len()
        invariant
            i <= docs@.len(),
            all == docs.deep_view(),
            tokens.deep_view() == all_tokens(all.take(i as int)),
            spans@ == doc_spans(all.take(i as int)),
        decreases docs@.len() - i,
    {
        let doc = &docs[i];
        let ghost head = tokens.deep_view();
        let start: usize = tokens.len();
        let mut j: usize = 0;
        proof {
            assert(tokens.deep_view() =~= head + doc.deep_view().take(0));
        }
        while j < doc.len()
            invariant
                j <= doc@.len(),
                tokens.deep_view() == head + doc.deep_view().take(j as int),
            decreases doc@.len() - j,
        {
            let ghost before = tokens.deep_view();
            let token = doc[j].duplicate();
            tokens.push(token);
            proof {
                assert(tokens.deep_view() =~= before.push(token.deep_view()));
                assert(doc.deep_view()[j as int] == doc@[j as int].deep_view());
                assert(tokens.deep_view() =~= head + doc.deep_view().take(j + 1));
            }
            j += 1;
        }
        spans.push((start, doc.len()));
        proof {
            assert(doc.deep_view().take(j as int) =~= doc.deep_view());
            assert(all.take(i + 1).drop_last() =~= all.take(i as int));
            assert(all.take(i + 1).last() == doc.deep_view());
        }
        i += 1;
    }
    proof {
        assert(all.take(i as int) =~= all);
    }
    (tokens, spans)
}

/// The greatest similarity of a code to `n` vectors from `start` on.
pub open spec fn best_similarity(q: &TwoBitQuantizer, code: Seq<u8>, start: int, n: nat) -> nat
    decreases n,
{
    if n == 0 {
        0
    } else {
        let rest = best_similarity(q, code, start, (n - 1) as nat);
        let last = q.similarity(code, start + n - 1);
        if last > rest {
            last
        } else {
            rest
        }
    }
}

/// The sum, over the first `m` query codes, of the greatest similarity to a token of a document.
pub open spec fn max_similarity(
    q: &TwoBitQuantizer,
    codes: Seq<Seq<u8>>,
    start: int,
    count: nat,
    m: nat,
) -> nat
    decreases m,
{
    if m == 0 {
        0
    } else {
        max_similarity(q, codes, start, count, (m - 1) as nat) + best_similarity(
            q,
            codes[m - 1],
            start,
            count,
        )
    }
}

proof fn lemma_best_bound(q: &TwoBitQuantizer, code: Seq<u8>, start: int, n: nat)
    ensures
        best_similarity(q, code, start, n) <= 9 * q.dimension,
    decreases n,
{
    if n > 0 {
        lemma_best_bound(q, code, start, (n - 1) as nat);
        lemma_dot_bound(code, q.code_at(start + n - 1), q.dimension as nat);
    }
}

proof fn lemma_sum_bound(q: &TwoBitQuantizer, codes: Seq<Seq<u8>>, start: int, count: nat, m: nat)
    ensures
        max_similarity(q, codes, start, count, m) <= m * (9 * q.dimension as nat),
    decreases m,
{
    let w = 9 * q.dimension as nat;
    if m > 0 {
        lemma_sum_bound(q, codes, start, count, (m - 1) as nat);
        lemma_best_bound(q, codes[m - 1], start, count);
        assert(((m - 1) + 1) * w == (m - 1) * w + w) by (nonlinear_arith);
    }
}

/// The greatest similarity is reached by a token and exceeded by none.
pub proof fn law_best_similarity(q: &TwoBitQuantizer, code: Seq<u8>, start: int, n: nat)
    requires
        n > 0,
    ensures
        forall|i: int|
            start <= i < start + n ==> #[trigger] q.similarity(code, i) <= best_similarity(
                q,
                code,
                start,
                n,
            ),
        exists|i: int|
            start <= i < start + n && #[trigger] q.similarity(code, i) == best_similarity(
                q,
                code,
                start,
                n,
            ),
    decreases n,
{
    let last = q.similarity(code, start + n - 1);
    if n > 1 {
        law_best_similarity(q, code, start, (n - 1) as nat);
    } else {
        assert(best_similarity(q, code, start, 0) == 0);
        assert(best_similarity(q, code, start, 1) == last);
    }
}

/// A two-bit index over the token vectors of documents.
pub struct MultiVectorQuantizedIndex {
    pub quantizer: TwoBitQuantizer,
    /// For each document, where its tokens start and how many there are.
    pub doc_ranges: Vec<(usize, usize)>,
}

/// The bytes of spans.
pub open spec fn enc_spans(spans: Seq<(usize, usize)>) -> Seq<u8>
    decreases spans.len(),
{
    if spans.len() == 0 {
        Seq::empty()
    } else {
        (le_bytes(spans[0].0 as nat, 8) + le_bytes(spans[0].1 as nat, 8)) + enc_spans(
            spans.drop_first(),
        )
    }
}

/// Reads `n` more spans behind `acc`.
pub open spec fn parse_spans(n: nat, acc: Seq<(usize, usize)>, b: Seq<u8>) -> Parsed<
    Seq<(usize, usize)>,
>
    decreases n,
{
    if n == 0 {
        Ok((acc, b))
    } else {
        match parse_two_sizes(b) {
            Err(e) => Err(e),
            Ok(((x, y), rest)) => parse_spans(
                (n - 1) as nat,
                acc.push((x as usize, y as usize)),
                rest,
            ),
        }
    }
}

/// The bytes of the parameters: those of the quantizer and the spans.
pub open spec fn enc_token_params(
    dimension: nat,
    multiplier: nat,
    boundaries: Seq<u32>,
    spans: Seq<(usize, usize)>,
) -> Seq<u8> {
    enc_two_bit_params(dimension, multiplier, boundaries) + (le_bytes(spans.len(), 8) + enc_spans(
        spans,
    ))
}

/// Reads the parameters.
pub open spec fn parse_token_params(b: Seq<u8>) -> Parsed<
    (((nat, nat), Seq<u32>), Seq<(usize, usize)>),
> {
    match parse_le(b, 1) {
        Err(e) => Err(e),
        Ok((tag, b1)) => if tag != 4 {
            Err(Failure::Io("expected two_bit tag (4), got "@ + decimal(tag)))
        } else {
            match parse_two_bit_params(b1) {
                Err(e) => Err(e),
                Ok((params, b2)) => match parse_usize(b2) {
                    Err(e) => Err(e),
                    Ok((n, b3)) => match parse_spans(n, Seq::empty(), b3) {
                        Err(e) => Err(e),
                        Ok((spans, rest)) => Ok(((params, spans), rest)),
                    },
                },
            }
        },
    }
}

proof fn lemma_spans_roundtrip(
    spans: Seq<(usize, usize)>,
    acc: Seq<(usize, usize)>,
    tail: Seq<u8>,
)
    ensures
        parse_spans(spans.len(), acc, enc_spans(spans) + tail) == Ok::<
            (Seq<(usize, usize)>, Seq<u8>),
            Failure,
        >((acc + spans, tail)),
    decreases spans.len(),
{
    if spans.len() == 0 {
        assert(enc_spans(spans) + tail =~= tail);
        assert(acc + spans =~= acc);
    } else {
        let more = spans.drop_first();
        let (x, y) = spans[0];
        let head = le_bytes(x as nat, 8) + le_bytes(y as nat, 8);
        assert(enc_spans(spans) + tail =~= head + (enc_spans(more) + tail));
        lemma_two_sizes_roundtrip(x as nat, y as nat, enc_spans(more) + tail);
        lemma_spans_roundtrip(more, acc.push(spans[0]), tail);
        assert(acc.push(spans[0]) + more =~= acc + spans);
    }
}

/// Parameters read back as they were written.
pub proof fn law_token_params_roundtrip(
    dimension: nat,
    multiplier: nat,
    boundaries: Seq<u32>,
    spans: Seq<(usize, usize)>,
    tail: Seq<u8>,
)
    requires
        dimension <= usize::MAX,
        multiplier <= usize::MAX,
        boundaries.len() == 3 * dimension,
        spans.len() <= usize::MAX,
    ensures
        parse_token_params(enc_token_params(dimension, multiplier, boundaries, spans) + tail)
            == Ok::<((((nat, nat), Seq<u32>), Seq<(usize, usize)>), Seq<u8>), Failure>(
            ((((dimension, multiplier), boundaries), spans), tail),
        ),
{
    let head = enc_two_bit_params(dimension, multiplier, boundaries);
    let t2 = enc_spans(spans) + tail;
    let t1 = le_bytes(spans.len(), 8) + t2;
    let b = enc_token_params(dimension, multiplier, boundaries, spans) + tail;
    assert(b =~= seq![4u8] + (head.skip(1) + t1));
    crate::wal::lemma_tag(4u8, head.skip(1) + t1);
    law_two_bit_params_roundtrip(dimension, multiplier, boundaries, t1);
    law_usize_roundtrip(spans.len(), t2);
    lemma_spans_roundtrip(spans, Seq::empty(), tail);
    assert(Seq::<(usize, usize)>::empty() + spans =~= spans);
}

impl MultiVectorQuantizedIndex {
    /// The quantizer is well formed and every span lies within its codes.
    pub open spec fn wf(&self) -> bool {
        &&& self.quantizer.wf()
        &&& forall|i: int|
            0 <= i < self.doc_ranges@.len() ==> (#[trigger] self.doc_ranges@[i]).0
                + self.doc_ranges@[i].1 <= self.quantizer.count
    }

    /// The similarity of a document to query codes.
    pub open spec fn doc_similarity(&self, codes: Seq<Seq<u8>>, d: int) -> nat {
        let (start, count) = self.doc_ranges@[d];
        if count == 0 {
            0
        } else {
            max_similarity(&self.quantizer, codes, start as int, count as nat, codes.len())
        }
    }

    /// The codes of query tokens.
    pub open spec fn query_codes(&self, tokens: Seq<Seq<u32>>) -> Seq<Seq<u8>> {
        Seq::new(tokens.len(), |i: int| self.quantizer.code_of(tokens[i]))
    }

    /// The keys that rank documents, the most similar first.
    pub open spec fn doc_keys(&self, codes: Seq<Seq<u8>>) -> Seq<u64> {
        Seq::new(
            self.doc_ranges@.len(),
            |d: int| falling_key(self.doc_similarity(codes, d) as int),
        )
    }

    /// Builds the index of documents. Without tokens all boundaries are zero.
    pub fn build(
        doc_token_vectors: &Vec<Vec<Vec<u32>>>,
        token_dimension: usize,
        config: &MultiVectorQuantizationConfig,
    ) -> (r: Self)
        requires
            3 * all_tokens(doc_token_vectors.deep_view()).len() <= usize::MAX,
            3 * token_dimension <= usize::MAX,
            all_of_dimension(all_tokens(doc_token_vectors.deep_view()), token_dimension as nat),
        ensures
            r.wf(),
            r.doc_ranges@ == doc_spans(doc_token_vectors.deep_view()),
            r.quantizer.dimension == token_dimension,
            *config == MultiVectorQuantizationConfig::TwoBit(r.quantizer.config),
            ({
                let tokens = all_tokens(doc_token_vectors.deep_view());
                &&& r.quantizer.count == tokens.len()
                &&& r.quantizer.boundaries@ == if tokens.len() == 0 {
                    Seq::new(3 * token_dimension as nat, |i: int| 0u32)
                } else {
                    quartiles(tokens, token_dimension as nat)
                }
                &&& r.quantizer.codes@ == two_bit_codes(
                    tokens,
                    r.quantizer.boundaries@,
                    r.quantizer.bytes_per_vector as nat,
                )
            }),
    {
        let ghost docs = doc_token_vectors.deep_view();
        let (tokens, doc_ranges) = flatten(doc_token_vectors);
        let cfg: TwoBitQuantizationConfig = match config {
            MultiVectorQuantizationConfig::TwoBit(c) => *c,
        };
        proof {
            lemma_spans_len(docs);
            assert(tokens.deep_view().len() == tokens@.len());
            assert forall|i: int| 0 <= i < doc_ranges@.len() implies (#[trigger] doc_ranges@[i]).0
                + doc_ranges@[i].1 <= tokens@.len() by {
                law_spans(docs, i);
            }
        }
        let quantizer = if tokens.len() == 0 {
            let n: usize = 3 * token_dimension;
            let mut boundaries: Vec<u32> = Vec::new();
            let mut i: usize = 0;
            while i < n
                invariant
                    i <= n,
                    boundaries@ =~= Seq::new(i as nat, |k: int| 0u32),
                decreases n - i,
            {
                boundaries.push(0);
                i += 1;
            }
            proof {
                assert(0 * groups_of(token_dimension as nat, 4) == 0) by (nonlinear_arith);
                assert(tokens.deep_view() =~= Seq::<Seq<u32>>::empty());
            }
            TwoBitQuantizer {
                dimension: token_dimension,
                boundaries,
                codes: Vec::new(),
                count: 0,
                bytes_per_vector: ceil_div(token_dimension, 4),
                config: cfg,
            }
        } else {
            TwoBitQuantizer::train(&tokens, token_dimension, cfg)
        };
        MultiVectorQuantizedIndex { quantizer, doc_ranges }
    }

    /// The similarity of a document to query codes: for each code the greatest similarity to a
    /// token, summed.
    pub fn approx_maxsim(&self, query_codes: &Vec<Vec<u8>>, doc_idx: usize) -> (r: i32)
        requires
            self.wf(),
            doc_idx < self.doc_ranges@.len(),
            forall|i: int|
                0 <= i < query_codes@.len() ==> self.quantizer.dimension <= 4 * (
                #[trigger] query_codes@[i])@.len(),
            9 * self.quantizer.dimension <= i32::MAX,
            query_codes@.len() * (9 * self.quantizer.dimension) <= i32::MAX,
        ensures
            r == self.doc_similarity(query_codes.deep_view(), doc_idx as int),
    {
        let (start, count) = self.doc_ranges[doc_idx];
        if count == 0 || query_codes.len() == 0 {
            return 0;
        }
        let ghost codes = query_codes.deep_view();
        let ghost w = 9 * self.quantizer.dimension as nat;
        let mut total: i32 = 0;
        let mut m: usize = 0;
        while m < query_codes.len()
            invariant
                self.wf(),
                start + count <= self.quantizer.count,
                forall|i: int|
                    0 <= i < query_codes@.len() ==> self.quantizer.dimension <= 4 * (
                    #[trigger] query_codes@[i])@.len(),
                w == 9 * self.quantizer.dimension,
                w <= i32::MAX,
                query_codes@.len() * w <= i32::MAX,
                codes == query_codes.deep_view(),
                m <= query_codes@.len(),
                total == max_similarity(
                    &self.quantizer,
                    codes,
                    start as int,
                    count as nat,
                    m as nat,
                ),
            decreases query_codes@.len() - m,
        {
            let code = &query_codes[m];
            let mut best: i32 = 0;
            let mut k: usize = 0;
            while k < count
                invariant
                    self.wf(),
                    start + count <= self.quantizer.count,
                    self.quantizer.dimension <= 4 * code@.len(),
                    9 * self.quantizer.dimension <= i32::MAX,
                    k <= count,
                    best == best_similarity(&self.quantizer, code@, start as int, k as nat),
                decreases count - k,
            {
                let score: i32 = self.quantizer.approx_dot(code, start + k);
                if score > best {
                    best = score;
                }
                k += 1;
            }
            proof {
                assert(codes[m as int] =~= code@);
                lemma_sum_bound(&self.quantizer, codes, start as int, count as nat, (m + 1) as nat);
                let n = query_codes@.len();
                assert((m + 1) * w <= n * w) by (nonlinear_arith)
                    requires
                        m + 1 <= n,
                        w >= 0,
                ;
            }
            total = total + best;
            m += 1;
        }
        total
    }

    /// The candidate documents of a query, the most similar first and equally similar ones by
    /// position.
    pub fn search(&self, query_tokens: &Vec<Vec<u32>>, top_k: usize) -> (r: Vec<usize>)
        requires
            self.wf(),
            forall|i: int|
                0 <= i < query_tokens@.len() ==> (#[trigger] query_tokens@[i])@.len()
                    <= self.quantizer.dimension,
            9 * self.quantizer.dimension <= i32::MAX,
            query_tokens@.len() * (9 * self.quantizer.dimension) <= i32::MAX,
        ensures
            query_tokens@.len() == 0 ==> r@ == Seq::<usize>::empty(),
            query_tokens@.len() > 0 ==> r@ == least_positions(
                self.doc_keys(self.query_codes(query_tokens.deep_view())),
                rescored(
                    top_k as nat,
                    self.quantizer.config.rescore_multiplier as nat,
                    self.doc_ranges@.len(),
                ),
            ),
    {
        let limit: usize = rescore_count(
            top_k,
            self.quantizer.config.rescore_multiplier,
            self.doc_ranges.len(),
        );
        if query_tokens.len() == 0 {
            return Vec::new();
        }
        let ghost wanted = self.query_codes(query_tokens.deep_view());
        let mut codes: Vec<Vec<u8>> = Vec::new();
        let mut i: usize = 0;
        proof {
            assert(codes.deep_view() =~= wanted.take(0));
        }
        while i < query_tokens.len()
            invariant
                self.wf(),
                wanted == self.query_codes(query_tokens.deep_view()),
                forall|i: int|
                    0 <= i < query_tokens@.len() ==> (#[trigger] query_tokens@[i])@.len()
                        <= self.quantizer.dimension,
                i <= query_tokens@.len(),
                codes@.len() == i,
                codes.deep_view() == wanted.take(i as int),
                forall|k: int|
                    0 <= k < codes@.len() ==> self.quantizer.dimension <= 4 * (
                    #[trigger] codes@[k])@.len(),
            decreases query_tokens@.len() - i,
        {
            let ghost before = codes.deep_view();
            let code = self.quantizer.quantize_vector(&query_tokens[i]);
            codes.push(code);
            proof {
                assert(query_tokens.deep_view()[i as int] =~= query_tokens@[i as int]@);
                assert(code.deep_view() =~= code@);
                assert(codes.deep_view() =~= before.push(code@));
                assert(codes.deep_view() =~= wanted.take(i + 1));
            }
            i += 1;
        }
        proof {
            assert(wanted.take(i as int) =~= wanted);
        }
        let ghost all = self.doc_keys(wanted);
        let mut keys: Vec<u64> = Vec::new();
        let mut d: usize = 0;
        while d < self.doc_ranges.len()
            invariant
                self.wf(),
                wanted == codes.deep_view(),
                all == self.doc_keys(wanted),
                forall|k: int|
                    0 <= k < codes@.len() ==> self.quantizer.dimension <= 4 * (
                    #[trigger] codes@[k])@.len(),
                9 * self.quantizer.dimension <= i32::MAX,
                codes@.len() * (9 * self.quantizer.dimension) <= i32::MAX,
                d <= self.doc_ranges@.len(),
                keys@ =~= all.take(d as int),
            decreases self.doc_ranges@.len() - d,
        {
            let score: i32 = self.approx_maxsim(&codes, d);
            keys.push((0x7fff_ffff - score) as u64);
            d += 1;
        }
        proof {
            assert(all.take(d as int) =~= all);
        }
        rank(&keys, limit)
    }

    /// Replaces the codes and spans by those of other documents.
    pub fn rebuild(&mut self, doc_token_vectors: &Vec<Vec<Vec<u32>>>)
        requires
            old(self).wf(),
            all_tokens(doc_token_vectors.deep_view()).len() <= usize::MAX,
            all_of_dimension(
                all_tokens(doc_token_vectors.deep_view()),
                old(self).quantizer.dimension as nat,
            ),
        ensures
            final(self).wf(),
            final(self).doc_ranges@ == doc_spans(doc_token_vectors.deep_view()),
            final(self).quantizer.dimension == old(self).quantizer.dimension,
            final(self).quantizer.boundaries == old(self).quantizer.boundaries,
            final(self).quantizer.config == old(self).quantizer.config,
            final(self).quantizer.count == all_tokens(doc_token_vectors.deep_view()).len(),
            final(self).quantizer.codes@ == two_bit_codes(
                all_tokens(doc_token_vectors.deep_view()),
                old(self).quantizer.boundaries@,
                old(self).quantizer.bytes_per_vector as nat,
            ),
    {
        let ghost docs = doc_token_vectors.deep_view();
        let (tokens, doc_ranges) = flatten(doc_token_vectors);
        proof {
            lemma_spans_len(docs);
            assert(tokens.deep_view().len() == tokens@.len());
            assert forall|i: int| 0 <= i < doc_ranges@.len() implies (#[trigger] doc_ranges@[i]).0
                + doc_ranges@[i].1 <= tokens@.len() by {
                law_spans(docs, i);
            }
        }
        self.quantizer.rebuild_codes(&tokens);
        self.doc_ranges = doc_ranges;
    }

    /// Appends the parameters and the spans. Codes are not written.
    pub fn write_params(&self, out: &mut Vec<u8>)
        ensures
            final(out)@ == old(out)@ + enc_token_params(
                self.quantizer.dimension as nat,
                self.quantizer.config.rescore_multiplier as nat,
                self.quantizer.boundaries@,
                self.doc_ranges@,
            ),
    {
        self.quantizer.write_params(out);
        write_usize(out, self.doc_ranges.len());
        let ghost all = self.doc_ranges@;
        let ghost head = out@;
        let mut i: usize = 0;
        proof {
            assert(all.skip(0) =~= all);
        }
        while i < self.doc_ranges.len()
            invariant
                i <= all.len(),
                all == self.doc_ranges@,
                out@ + enc_spans(all.skip(i as int)) == head + enc_spans(all),
            decreases all.len() - i,
        {
            let ghost before = out@;
            let (x, y) = self.doc_ranges[i];
            write_usize(out, x);
            write_usize(out, y);
            proof {
                assert(all.skip(i as int).drop_first() =~= all.skip(i + 1));
                assert(before + ((le_bytes(x as nat, 8) + le_bytes(y as nat, 8)) + enc_spans(
                    all.skip(i + 1),
                )) =~= out@ + enc_spans(all.skip(i + 1)));
            }
            i += 1;
        }
        proof {
            assert(out@ + enc_spans(all.skip(i as int)) =~= out@);
            assert(out@ =~= old(out)@ + enc_token_params(
                self.quantizer.dimension as nat,
                self.quantizer.config.rescore_multiplier as nat,
                self.quantizer.boundaries@,
                self.doc_ranges@,
            ));
        }
    }

    /// Reads the parameters and the spans. The codes are to be rebuilt.
    pub fn read_params(reader: &mut Reader) -> (r: Result<Self, VectLiteError>)
        requires
            old(reader).wf(),
        ensures
            final(reader).wf(),
            match parse_token_params(old(reader).rest()) {
                Ok(((((dimension, multiplier), boundaries), spans), tail)) => {
                    &&& r matches Ok(x)
                    &&& x.quantizer.wf()
                    &&& x.quantizer.dimension == dimension
                    &&& x.quantizer.config.rescore_multiplier == multiplier
                    &&& x.quantizer.boundaries@ == boundaries
                    &&& x.quantizer.count == 0
                    &&& x.doc_ranges@ == spans
                    &&& final(reader).rest() == tail
                },
                Err(e) => r matches Err(x) && x@ == e,
            },
    {
        let ghost start = reader.rest();
        let tag: u8 = match reader.u8() {
            Ok(t) => t,
            Err(e) => {
                return Err(e);
            },
        };
        if tag != 4 {
            return Err(
                VectLiteError::Io(
                    concat2("expected two_bit tag (4), got ", decimal_text(tag as u64).as_str()),
                ),
            );
        }
        let quantizer = match TwoBitQuantizer::read_params(reader) {
            Ok(q) => q,
            Err(e) => {
                return Err(e);
            },
        };
        let n: usize = match read_usize(reader) {
            Ok(n) => n,
            Err(e) => {
                return Err(e);
            },
        };
        let ghost from = reader.rest();
        let ghost params = (
            (quantizer.dimension as nat, quantizer.config.rescore_multiplier as nat),
            quantizer.boundaries@,
        );
        let mut doc_ranges: Vec<(usize, usize)> = Vec::new();
        let mut i: usize = 0;
        while i < n
            invariant
                reader.wf(),
                i <= n,
                start == old(reader).rest(),
                parse_spans((n - i) as nat, doc_ranges@, reader.rest()) == parse_spans(
                    n as nat,
                    Seq::empty(),
                    from,
                ),
                parse_token_params(start) == (match parse_spans(n as nat, Seq::empty(), from) {
                    Err(e) => Err(e),
                    Ok((spans, rest)) => Ok(((params, spans), rest)),
                }),
            decreases n - i,
        {
            match read_two_sizes(reader) {
                Ok(p) => {
                    doc_ranges.push(p);
                },
                Err(e) => {
                    return Err(e);
                },
            }
            i += 1;
        }
        Ok(MultiVectorQuantizedIndex { quantizer, doc_ranges })
    }
}

} // verus!
