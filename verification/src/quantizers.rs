//! Scalar and product quantizers, and the index over any of them.
use vstd::prelude::*;
use crate::codec::{le_bytes, parse_le, Parsed, Reader};
use crate::error::{Failure, VectLiteError};
use crate::float_bits::{single_less, single_lt, single_total, single_total_key};
use crate::quantization::{
    append_all, enc_binary_params, indivisible, indivisible_text, law_usize_roundtrip,
    lemma_two_sizes_roundtrip, parse_two_sizes, parse_usize, read_two_sizes, read_usize,
    rescore_count, rescored, write_usize, BinaryQuantizer, ProductQuantizationConfig,
    QuantizationConfig, ScalarQuantizationConfig,
};
use crate::ranking::{law_least_positions, least_positions, rank};
use crate::record_codec::{
    enc_singles, enc_tokens, lemma_singles_roundtrip, lemma_tokens_roundtrip, parse_singles,
    parse_tokens, read_singles, read_tokens, write_singles, write_tokens,
};
use crate::text::{concat2, decimal, decimal_text};

verus! {

/// The pattern of positive infinity.
pub const INFINITY: u32 = 0x7f80_0000;

/// The pattern of negative infinity.
pub const NEG_INFINITY: u32 = 0xff80_0000;

/// The keys that rank scores in descending total order.
pub open spec fn falling_keys(scores: Seq<u32>) -> Seq<u64> {
    Seq::new(scores.len(), |i: int| (0xffff_ffff - single_total_key(scores[i])) as u64)
}

/// The keys that rank scores in ascending total order.
pub open spec fn rising_keys(scores: Seq<u32>) -> Seq<u64> {
    Seq::new(scores.len(), |i: int| single_total_key(scores[i]) as u64)
}

/// Positions with their scores.
pub open spec fn with_scores(order: Seq<usize>, scores: Seq<u32>) -> Seq<(usize, u32)> {
    order.map_values(|i: usize| (i, scores[i as int]))
}

/// The positions of the best scores, the best first; the greatest scores are the best where
/// `falling` is set and the least ones otherwise.
pub fn rank_scores(scores: &Vec<u32>, falling: bool, limit: usize) -> (r: Vec<(usize, u32)>)
    ensures
        r@ == with_scores(
            least_positions(
                if falling {
                    falling_keys(scores@)
                } else {
                    rising_keys(scores@)
                },
                limit as nat,
            ),
            scores@,
        ),
{
    let ghost all = if falling {
        falling_keys(scores@)
    } else {
        rising_keys(scores@)
    };
    let mut keys: Vec<u64> = Vec::new();
    let mut i: usize = 0;
    while i < scores.len()
        invariant
            i <= scores@.len(),
            all == if falling {
                falling_keys(scores@)
            } else {
                rising_keys(scores@)
            },
            keys@ =~= all.take(i as int),
        decreases scores@.len() - i,
    {
        let k: u32 = single_total(scores[i]);
        if falling {
            keys.push((0xffff_ffff - k) as u64);
        } else {
            keys.push(k as u64);
        }
        i += 1;
    }
    proof {
        assert(all.take(i as int) =~= all);
        law_least_positions(all, limit as nat);
    }
    let order = rank(&keys, limit);
    let mut out: Vec<(usize, u32)> = Vec::new();
    let mut j: usize = 0;
    while j < order.len()
        invariant
            forall|a: int| 0 <= a < order@.len() ==> (#[trigger] order@[a]) < scores@.len(),
            j <= order@.len(),
            out@ =~= with_scores(order@.take(j as int), scores@),
        decreases order@.len() - j,
    {
        let at: usize = order[j];
        out.push((at, scores[at]));
        j += 1;
    }
    proof {
        assert(order@.take(j as int) =~= order@);
    }
    out
}

/// The least of coordinate `d` over the first `n` vectors.
pub open spec fn low(vectors: Seq<Seq<u32>>, d: int, n: nat) -> u32
    decreases n,
{
    if n == 0 {
        INFINITY
    } else {
        let m = low(vectors, d, (n - 1) as nat);
        if single_lt(vectors[n - 1][d], m) {
            vectors[n - 1][d]
        } else {
            m
        }
    }
}

/// The greatest of coordinate `d` over the first `n` vectors.
pub open spec fn high(vectors: Seq<Seq<u32>>, d: int, n: nat) -> u32
    decreases n,
{
    if n == 0 {
        NEG_INFINITY
    } else {
        let m = high(vectors, d, (n - 1) as nat);
        if single_lt(m, vectors[n - 1][d]) {
            vectors[n - 1][d]
        } else {
            m
        }
    }
}

/// Every coordinate lies between its least and its greatest value, unless it is not a number.
pub proof fn law_calibration(vectors: Seq<Seq<u32>>, d: int, n: nat, i: int)
    requires
        0 <= i < n <= vectors.len(),
        !crate::float_bits::single_is_nan(vectors[i][d]),
    ensures
        crate::float_bits::single_le(low(vectors, d, n), vectors[i][d]),
        crate::float_bits::single_le(vectors[i][d], high(vectors, d, n)),
    decreases n,
{
    lemma_not_nan(vectors, d, n);
    lemma_not_nan(vectors, d, (n - 1) as nat);
    if i < n - 1 {
        law_calibration(vectors, d, (n - 1) as nat, i);
    }
}

proof fn lemma_not_nan(vectors: Seq<Seq<u32>>, d: int, n: nat)
    ensures
        !crate::float_bits::single_is_nan(low(vectors, d, n)),
        !crate::float_bits::single_is_nan(high(vectors, d, n)),
    decreases n,
{
    if n > 0 {
        lemma_not_nan(vectors, d, (n - 1) as nat);
    }
}

/// Rows of codes, one after the other.
pub open spec fn joined(rows: Seq<Seq<u8>>) -> Seq<u8>
    decreases rows.len(),
{
    if rows.len() == 0 {
        Seq::empty()
    } else {
        joined(rows.drop_last()) + rows.last()
    }
}

/// Whether all rows have one width.
pub open spec fn rows_of_width(rows: Seq<Seq<u8>>, width: nat) -> bool {
    forall|i: int| 0 <= i < rows.len() ==> (#[trigger] rows[i]).len() == width
}

proof fn lemma_joined_len(rows: Seq<Seq<u8>>, width: nat)
    requires
        rows_of_width(rows, width),
    ensures
        joined(rows).len() == rows.len() * width,
    decreases rows.len(),
{
    if rows.len() > 0 {
        let before = rows.drop_last();
        let n = before.len();
        assert(rows.last() == rows[n as int]);
        assert forall|i: int| 0 <= i < before.len() implies (#[trigger] before[i]).len()
            == width by {
            assert(before[i] == rows[i]);
        }
        lemma_joined_len(before, width);
        assert((n + 1) * width == n * width + width) by (nonlinear_arith);
    } else {
        assert(0 * width == 0) by (nonlinear_arith);
    }
}

fn append_rows(codes: &mut Vec<u8>, rows: &Vec<Vec<u8>>)
    ensures
        final(codes)@ == old(codes)@ + joined(rows.deep_view()),
{
    let ghost all = rows.deep_view();
    let ghost head = codes@;
    let mut i: usize = 0;
    proof {
        assert(all.take(0) =~= Seq::empty());
        assert(codes@ =~= head + joined(all.take(0)));
    }
    while i < rows.len()
        invariant
            i <= rows@.len(),
            all == rows.deep_view(),
            codes@ == head + joined(all.take(i as int)),
        decreases rows@.len() - i,
    {
        append_all(codes, &rows[i]);
        proof {
            assert(all.take(i + 1).drop_last() =~= all.take(i as int));
            assert(all.take(i + 1).last() =~= rows@[i as int]@);
            assert(codes@ =~= head + joined(all.take(i + 1)));
        }
        i += 1;
    }
    proof {
        assert(all.take(i as int) =~= all);
    }
}

/// A table of codes of one byte for each coordinate, with the range of each coordinate.
pub struct ScalarQuantizer {
    pub dimension: usize,
    pub mins: Vec<u32>,
    pub maxs: Vec<u32>,
    pub codes: Vec<u8>,
    pub count: usize,
    pub config: ScalarQuantizationConfig,
}

impl ScalarQuantizer {
    /// Every coordinate has its range, and there are `count` codes.
    pub open spec fn wf(&self) -> bool {
        &&& self.mins@.len() == self.dimension
        &&& self.maxs@.len() == self.dimension
        &&& self.codes@.len() == self.count * self.dimension
    }

    /// A table without codes whose ranges are those of the training vectors.
    pub fn calibrate(vectors: &Vec<Vec<u32>>, dimension: usize, config: ScalarQuantizationConfig)
        -> (r: Self)
        requires
            crate::quantization::all_of_dimension(vectors.deep_view(), dimension as nat),
        ensures
            r.wf(),
            r.dimension == dimension,
            r.config == config,
            r.count == 0,
            r.mins@ == Seq::new(
                dimension as nat,
                |d: int| low(vectors.deep_view(), d, vectors@.len()),
            ),
            r.maxs@ == Seq::new(
                dimension as nat,
                |d: int| high(vectors.deep_view(), d, vectors@.len()),
            ),
    {
        let ghost all = vectors.deep_view();
        let ghost lows = Seq::new(dimension as nat, |d: int| low(all, d, vectors@.len()));
        let ghost highs = Seq::new(dimension as nat, |d: int| high(all, d, vectors@.len()));
        let mut mins: Vec<u32> = Vec::new();
        let mut maxs: Vec<u32> = Vec::new();
        let mut d: usize = 0;
        while d < dimension
            invariant
                d <= dimension,
                all == vectors.deep_view(),
                crate::quantization::all_of_dimension(all, dimension as nat),
                lows == Seq::new(dimension as nat, |d: int| low(all, d, vectors@.len())),
                highs == Seq::new(dimension as nat, |d: int| high(all, d, vectors@.len())),
                mins@ =~= lows.take(d as int),
                maxs@ =~= highs.take(d as int),
            decreases dimension - d,
        {
            let mut least: u32 = INFINITY;
            let mut greatest: u32 = NEG_INFINITY;
            let mut i: usize = 0;
            while i < vectors.len()
                invariant
                    d < dimension,
                    i <= vectors@.len(),
                    all == vectors.deep_view(),
                    crate::quantization::all_of_dimension(all, dimension as nat),
                    least == low(all, d as int, i as nat),
                    greatest == high(all, d as int, i as nat),
                decreases vectors@.len() - i,
            {
                proof {
                    assert(all[i as int] =~= vectors@[i as int]@);
                }
                let v: u32 = vectors[i][d];
                if single_less(v, least) {
                    least = v;
                }
                if single_less(greatest, v) {
                    greatest = v;
                }
                i += 1;
            }
            mins.push(least);
            maxs.push(greatest);
            d += 1;
        }
        proof {
            assert(lows.take(d as int) =~= lows);
            assert(highs.take(d as int) =~= highs);
            assert(0 * (dimension as int) == 0) by (nonlinear_arith);
        }
        ScalarQuantizer { dimension, mins, maxs, codes: Vec::new(), count: 0, config }
    }

    /// Adds rows of codes.
    pub fn add_codes(&mut self, rows: &Vec<Vec<u8>>)
        requires
            old(self).wf(),
            rows_of_width(rows.deep_view(), old(self).dimension as nat),
            old(self).count + rows@.len() <= usize::MAX,
        ensures
            final(self).wf(),
            final(self).dimension == old(self).dimension,
            final(self).mins == old(self).mins,
            final(self).maxs == old(self).maxs,
            final(self).config == old(self).config,
            final(self).count == old(self).count + rows@.len(),
            final(self).codes@ == old(self).codes@ + joined(rows.deep_view()),
    {
        append_rows(&mut self.codes, rows);
        proof {
            let w = self.dimension as int;
            let a = self.count as int;
            let b = rows@.len() as int;
            lemma_joined_len(rows.deep_view(), self.dimension as nat);
            assert((a + b) * w == a * w + b * w) by (nonlinear_arith);
        }
        self.count = self.count + rows.len();
    }

    /// Replaces all codes.
    pub fn rebuild_codes(&mut self, rows: &Vec<Vec<u8>>)
        requires
            old(self).wf(),
            rows_of_width(rows.deep_view(), old(self).dimension as nat),
        ensures
            final(self).wf(),
            final(self).dimension == old(self).dimension,
            final(self).mins == old(self).mins,
            final(self).maxs == old(self).maxs,
            final(self).config == old(self).config,
            final(self).count == rows@.len(),
            final(self).codes@ == joined(rows.deep_view()),
    {
        let mut codes: Vec<u8> = Vec::new();
        append_rows(&mut codes, rows);
        proof {
            assert(codes@ =~= joined(rows.deep_view()));
            lemma_joined_len(rows.deep_view(), self.dimension as nat);
        }
        self.codes = codes;
        self.count = rows.len();
    }

    /// The candidates with the greatest approximate scores, the best first.
    pub fn search(&self, scores: &Vec<u32>, top_k: usize) -> (r: Vec<(usize, u32)>)
        requires
            scores@.len() == self.count,
        ensures
            r@ == with_scores(
                least_positions(
                    falling_keys(scores@),
                    rescored(
                        top_k as nat,
                        self.config.rescore_multiplier as nat,
                        self.count as nat,
                    ),
                ),
                scores@,
            ),
    {
        rank_scores(
            scores,
            true,
            rescore_count(top_k, self.config.rescore_multiplier, self.count),
        )
    }
}

/// The first of the least distances and its position; position zero where no distance is below
/// infinity.
pub open spec fn nearest(distances: Seq<u32>, n: nat) -> (nat, u32)
    decreases n,
{
    if n == 0 {
        (0, INFINITY)
    } else {
        let best = nearest(distances, (n - 1) as nat);
        if single_lt(distances[n - 1], best.1) {
            ((n - 1) as nat, distances[n - 1])
        } else {
            best
        }
    }
}

/// The position of the centroid at the least distance.
pub fn find_nearest_centroid(distances: &Vec<u32>) -> (r: usize)
    ensures
        r == nearest(distances@, distances@.len()).0,
        distances@.len() > 0 ==> r < distances@.len(),
{
    let mut best: usize = 0;
    let mut least: u32 = INFINITY;
    let mut i: usize = 0;
    while i < distances.len()
        invariant
            i <= distances@.len(),
            (best as nat, least) == nearest(distances@, i as nat),
            best == 0 || best < i,
        decreases distances@.len() - i,
    {
        if single_less(distances[i], least) {
            best = i;
            least = distances[i];
        }
        i += 1;
    }
    best
}

/// The nearest centroid is as near as any other one.
pub proof fn law_nearest(distances: Seq<u32>, n: nat, i: int)
    requires
        0 <= i < n <= distances.len(),
        !crate::float_bits::single_is_nan(distances[i]),
    ensures
        crate::float_bits::single_le(nearest(distances, n).1, distances[i]),
    decreases n,
{
    lemma_nearest_number(distances, n);
    lemma_nearest_number(distances, (n - 1) as nat);
    if i < n - 1 {
        law_nearest(distances, (n - 1) as nat, i);
    }
}

proof fn lemma_nearest_number(distances: Seq<u32>, n: nat)
    ensures
        !crate::float_bits::single_is_nan(nearest(distances, n).1),
    decreases n,
{
    if n > 0 {
        lemma_nearest_number(distances, (n - 1) as nat);
    }
}

/// A table of codes of one byte for each part of a vector, with the centroids of each part.
pub struct ProductQuantizer {
    pub dimension: usize,
    pub num_sub_vectors: usize,
    pub sub_dimension: usize,
    pub num_centroids: usize,
    /// For each part its centroids.
    pub codebooks: Vec<Vec<Vec<u32>>>,
    pub codes: Vec<u8>,
    pub count: usize,
    pub config: ProductQuantizationConfig,
}

/// Whether codebooks have the given shape.
pub open spec fn books_shaped(
    books: Seq<Seq<Seq<u32>>>,
    parts: nat,
    centroids: nat,
    width: nat,
) -> bool {
    &&& books.len() == parts
    &&& forall|i: int| 0 <= i < books.len() ==> book_shaped(#[trigger] books[i], centroids, width)
}

/// Whether a codebook has the given shape.
pub open spec fn book_shaped(book: Seq<Seq<u32>>, centroids: nat, width: nat) -> bool {
    &&& book.len() == centroids
    &&& forall|i: int| 0 <= i < book.len() ==> (#[trigger] book[i]).len() == width
}

/// What is wrong with the shape of a product quantizer, if anything.
pub open spec fn shape_defect(dimension: nat, parts: nat, centroids: nat) -> Option<Seq<char>> {
    if parts == 0 || dimension % parts != 0 {
        Some(indivisible(dimension, parts))
    } else if centroids == 0 || centroids > 256 {
        Some("num_centroids must be between 1 and 256"@)
    } else {
        None
    }
}

impl ProductQuantizer {
    /// The shape is valid, the codebooks have it, and there are `count` codes.
    pub open spec fn wf(&self) -> bool {
        &&& shape_defect(
            self.dimension as nat,
            self.num_sub_vectors as nat,
            self.num_centroids as nat,
        ) is None
        &&& self.sub_dimension == self.dimension as nat / self.num_sub_vectors as nat
        &&& books_shaped(
            self.codebooks.deep_view(),
            self.num_sub_vectors as nat,
            self.num_centroids as nat,
            self.sub_dimension as nat,
        )
        &&& self.codes@.len() == self.count * self.num_sub_vectors
        &&& self.config.num_sub_vectors == self.num_sub_vectors
        &&& self.config.num_centroids == self.num_centroids
    }

    /// A table without codes over trained codebooks.
    pub fn with_codebooks(
        dimension: usize,
        codebooks: Vec<Vec<Vec<u32>>>,
        config: ProductQuantizationConfig,
    ) -> (r: Self)
        requires
            shape_defect(
                dimension as nat,
                config.num_sub_vectors as nat,
                config.num_centroids as nat,
            ) is None,
            books_shaped(
                codebooks.deep_view(),
                config.num_sub_vectors as nat,
                config.num_centroids as nat,
                dimension as nat / config.num_sub_vectors as nat,
            ),
        ensures
            r.wf(),
            r.dimension == dimension,
            r.codebooks == codebooks,
            r.config == config,
            r.count == 0,
    {
        proof {
            assert(0 * (config.num_sub_vectors as int) == 0) by (nonlinear_arith);
        }
        ProductQuantizer {
            dimension,
            num_sub_vectors: config.num_sub_vectors,
            sub_dimension: dimension / config.num_sub_vectors,
            num_centroids: config.num_centroids,
            codebooks,
            codes: Vec::new(),
            count: 0,
            config,
        }
    }

    /// Adds rows of codes.
    pub fn add_codes(&mut self, rows: &Vec<Vec<u8>>)
        requires
            old(self).wf(),
            rows_of_width(rows.deep_view(), old(self).num_sub_vectors as nat),
            old(self).count + rows@.len() <= usize::MAX,
        ensures
            final(self).wf(),
            final(self).dimension == old(self).dimension,
            final(self).codebooks == old(self).codebooks,
            final(self).config == old(self).config,
            final(self).count == old(self).count + rows@.len(),
            final(self).codes@ == old(self).codes@ + joined(rows.deep_view()),
    {
        append_rows(&mut self.codes, rows);
        proof {
            let w = self.num_sub_vectors as int;
            let a = self.count as int;
            let b = rows@.len() as int;
            lemma_joined_len(rows.deep_view(), self.num_sub_vectors as nat);
            assert((a + b) * w == a * w + b * w) by (nonlinear_arith);
        }
        self.count = self.count + rows.len();
    }

    /// Replaces all codes.
    pub fn rebuild_codes(&mut self, rows: &Vec<Vec<u8>>)
        requires
            old(self).wf(),
            rows_of_width(rows.deep_view(), old(self).num_sub_vectors as nat),
        ensures
            final(self).wf(),
            final(self).dimension == old(self).dimension,
            final(self).codebooks == old(self).codebooks,
            final(self).config == old(self).config,
            final(self).count == rows@.len(),
            final(self).codes@ == joined(rows.deep_view()),
    {
        let mut codes: Vec<u8> = Vec::new();
        append_rows(&mut codes, rows);
        proof {
            assert(codes@ =~= joined(rows.deep_view()));
            lemma_joined_len(rows.deep_view(), self.num_sub_vectors as nat);
        }
        self.codes = codes;
        self.count = rows.len();
    }

    /// The candidates with the least approximate distances, the nearest first.
    pub fn search(&self, distances: &Vec<u32>, top_k: usize) -> (r: Vec<(usize, u32)>)
        requires
            distances@.len() == self.count,
        ensures
            r@ == with_scores(
                least_positions(
                    rising_keys(distances@),
                    rescored(
                        top_k as nat,
                        self.config.rescore_multiplier as nat,
                        self.count as nat,
                    ),
                ),
                distances@,
            ),
    {
        rank_scores(
            distances,
            false,
            rescore_count(top_k, self.config.rescore_multiplier, self.count),
        )
    }
}

/// The bytes of codebooks.
pub open spec fn enc_books(books: Seq<Seq<Seq<u32>>>) -> Seq<u8>
    decreases books.len(),
{
    if books.len() == 0 {
        Seq::empty()
    } else {
        enc_tokens(books[0]) + enc_books(books.drop_first())
    }
}

/// Reads `n` more codebooks behind `acc`.
pub open spec fn parse_books(
    n: nat,
    centroids: nat,
    width: nat,
    acc: Seq<Seq<Seq<u32>>>,
    b: Seq<u8>,
) -> Parsed<Seq<Seq<Seq<u32>>>>
    decreases n,
{
    if n == 0 {
        Ok((acc, b))
    } else {
        match parse_tokens(centroids, width, Seq::empty(), b) {
            Err(e) => Err(e),
            Ok((book, rest)) => parse_books((n - 1) as nat, centroids, width, acc.push(book), rest),
        }
    }
}

/// The parameters of a quantizer that are kept on disk.
#[verifier::ext_equal]
pub enum Params {
    Scalar { dimension: nat, multiplier: nat, mins: Seq<u32>, maxs: Seq<u32> },
    Binary { dimension: nat, multiplier: nat },
    Product {
        dimension: nat,
        parts: nat,
        centroids: nat,
        iterations: nat,
        multiplier: nat,
        books: Seq<Seq<Seq<u32>>>,
    },
}

/// The bytes of parameters: a tag and the values.
pub open spec fn enc_params(p: Params) -> Seq<u8> {
    match p {
        Params::Scalar { dimension, multiplier, mins, maxs } => seq![1u8] + ((le_bytes(
            dimension,
            8,
        ) + le_bytes(multiplier, 8)) + (enc_singles(mins) + enc_singles(maxs))),
        Params::Binary { dimension, multiplier } => enc_binary_params(dimension, multiplier),
        Params::Product { dimension, parts, centroids, iterations, multiplier, books } => seq![3u8]
            + ((le_bytes(dimension, 8) + le_bytes(parts, 8)) + ((le_bytes(centroids, 8) + le_bytes(
            iterations,
            8,
        )) + (le_bytes(multiplier, 8) + enc_books(books)))),
    }
}

/// Reads the parameters of a scalar quantizer.
pub open spec fn parse_scalar(b: Seq<u8>) -> Parsed<Params> {
    match parse_two_sizes(b) {
        Err(e) => Err(e),
        Ok(((dimension, multiplier), b1)) => match parse_singles(dimension, Seq::empty(), b1) {
            Err(e) => Err(e),
            Ok((mins, b2)) => match parse_singles(dimension, Seq::empty(), b2) {
                Err(e) => Err(e),
                Ok((maxs, rest)) => Ok(
                    (Params::Scalar { dimension, multiplier, mins, maxs }, rest),
                ),
            },
        },
    }
}

/// Reads the parameters of a binary quantizer.
pub open spec fn parse_binary(b: Seq<u8>) -> Parsed<Params> {
    match parse_two_sizes(b) {
        Err(e) => Err(e),
        Ok(((dimension, multiplier), rest)) => Ok((Params::Binary { dimension, multiplier }, rest)),
    }
}

/// Reads the parameters of a product quantizer.
pub open spec fn parse_product(b: Seq<u8>) -> Parsed<Params> {
    match parse_two_sizes(b) {
        Err(e) => Err(e),
        Ok(((dimension, parts), b1)) => match parse_two_sizes(b1) {
            Err(e) => Err(e),
            Ok(((centroids, iterations), b2)) => match parse_usize(b2) {
                Err(e) => Err(e),
                Ok((multiplier, b3)) => match shape_defect(dimension, parts, centroids) {
                    Some(m) => Err(Failure::Io(m)),
                    None => match parse_books(
                        parts,
                        centroids,
                        dimension / parts,
                        Seq::empty(),
                        b3,
                    ) {
                        Err(e) => Err(e),
                        Ok((books, rest)) => Ok(
                            (
                                Params::Product {
                                    dimension,
                                    parts,
                                    centroids,
                                    iterations,
                                    multiplier,
                                    books,
                                },
                                rest,
                            ),
                        ),
                    },
                },
            },
        },
    }
}

/// Reads parameters.
pub open spec fn parse_params(b: Seq<u8>) -> Parsed<Params> {
    match parse_le(b, 1) {
        Err(e) => Err(e),
        Ok((tag, rest)) => if tag == 1 {
            parse_scalar(rest)
        } else if tag == 2 {
            parse_binary(rest)
        } else if tag == 3 {
            parse_product(rest)
        } else {
            Err(Failure::Io("unknown quantization tag: "@ + decimal(tag)))
        },
    }
}

/// Whether the numbers of parameters are sizes, and the tables have the shape that they give.
pub open spec fn params_valid(p: Params) -> bool {
    match p {
        Params::Scalar { dimension, multiplier, mins, maxs } => dimension <= usize::MAX
            && multiplier <= usize::MAX && mins.len() == dimension && maxs.len() == dimension,
        Params::Binary { dimension, multiplier } => dimension <= usize::MAX && multiplier
            <= usize::MAX,
        Params::Product { dimension, parts, centroids, iterations, multiplier, books } => {
            &&& dimension <= usize::MAX
            &&& parts <= usize::MAX
            &&& iterations <= usize::MAX
            &&& multiplier <= usize::MAX
            &&& shape_defect(dimension, parts, centroids) is None
            &&& books_shaped(books, parts, centroids, dimension / parts)
        },
    }
}

proof fn lemma_books_roundtrip(
    books: Seq<Seq<Seq<u32>>>,
    centroids: nat,
    width: nat,
    acc: Seq<Seq<Seq<u32>>>,
    tail: Seq<u8>,
)
    requires
        forall|i: int| 0 <= i < books.len() ==> book_shaped(#[trigger] books[i], centroids, width),
    ensures
        parse_books(books.len(), centroids, width, acc, enc_books(books) + tail) == Ok::<
            (Seq<Seq<Seq<u32>>>, Seq<u8>),
            Failure,
        >((acc + books, tail)),
    decreases books.len(),
{
    if books.len() == 0 {
        assert(enc_books(books) + tail =~= tail);
        assert(acc + books =~= acc);
    } else {
        let more = books.drop_first();
        let end = enc_books(more) + tail;
        assert(enc_books(books) + tail =~= enc_tokens(books[0]) + end);
        assert(book_shaped(books[0], centroids, width));
        lemma_tokens_roundtrip(books[0], width, Seq::empty(), end);
        assert(Seq::<Seq<u32>>::empty() + books[0] =~= books[0]);
        assert forall|i: int| 0 <= i < more.len() implies book_shaped(
            #[trigger] more[i],
            centroids,
            width,
        ) by {
            assert(more[i] == books[i + 1]);
        }
        lemma_books_roundtrip(more, centroids, width, acc.push(books[0]), tail);
        assert(acc.push(books[0]) + more =~= acc + books);
    }
}

proof fn lemma_scalar_roundtrip(
    dimension: nat,
    multiplier: nat,
    mins: Seq<u32>,
    maxs: Seq<u32>,
    tail: Seq<u8>,
)
    requires
        params_valid(Params::Scalar { dimension, multiplier, mins, maxs }),
    ensures
        parse_params(enc_params(Params::Scalar { dimension, multiplier, mins, maxs }) + tail)
            == Ok::<(Params, Seq<u8>), Failure>(
            (Params::Scalar { dimension, multiplier, mins, maxs }, tail),
        ),
{
    let p = Params::Scalar { dimension, multiplier, mins, maxs };
    let sizes = le_bytes(dimension, 8) + le_bytes(multiplier, 8);
    let t2 = enc_singles(maxs) + tail;
    let t1 = enc_singles(mins) + t2;
    assert(enc_params(p) + tail =~= seq![1u8] + (sizes + t1));
    crate::wal::lemma_tag(1u8, sizes + t1);
    lemma_two_sizes_roundtrip(dimension, multiplier, t1);
    lemma_singles_roundtrip(mins, Seq::empty(), t2);
    lemma_singles_roundtrip(maxs, Seq::empty(), tail);
    assert(Seq::<u32>::empty() + mins =~= mins);
    assert(Seq::<u32>::empty() + maxs =~= maxs);
}

proof fn lemma_binary_roundtrip(dimension: nat, multiplier: nat, tail: Seq<u8>)
    requires
        dimension <= usize::MAX,
        multiplier <= usize::MAX,
    ensures
        parse_params(enc_params(Params::Binary { dimension, multiplier }) + tail) == Ok::<
            (Params, Seq<u8>),
            Failure,
        >((Params::Binary { dimension, multiplier }, tail)),
{
    let sizes = le_bytes(dimension, 8) + le_bytes(multiplier, 8);
    assert(enc_params(Params::Binary { dimension, multiplier }) + tail =~= seq![2u8] + (sizes
        + tail));
    crate::wal::lemma_tag(2u8, sizes + tail);
    lemma_two_sizes_roundtrip(dimension, multiplier, tail);
}

/// Parameters read back as they were written.
pub proof fn law_params_roundtrip(p: Params, tail: Seq<u8>)
    requires
        params_valid(p),
    ensures
        parse_params(enc_params(p) + tail) == Ok::<(Params, Seq<u8>), Failure>((p, tail)),
{
    match p {
        Params::Scalar { dimension, multiplier, mins, maxs } => {
            lemma_scalar_roundtrip(dimension, multiplier, mins, maxs, tail);
        },
        Params::Binary { dimension, multiplier } => {
            lemma_binary_roundtrip(dimension, multiplier, tail);
        },
        Params::Product { dimension, parts, centroids, iterations, multiplier, books } => {
            let s1 = le_bytes(dimension, 8) + le_bytes(parts, 8);
            let s2 = le_bytes(centroids, 8) + le_bytes(iterations, 8);
            let t3 = enc_books(books) + tail;
            let t2 = le_bytes(multiplier, 8) + t3;
            let t1 = s2 + t2;
            assert(enc_params(p) + tail =~= seq![3u8] + (s1 + t1));
            crate::wal::lemma_tag(3u8, s1 + t1);
            lemma_two_sizes_roundtrip(dimension, parts, t1);
            lemma_two_sizes_roundtrip(centroids, iterations, t2);
            law_usize_roundtrip(multiplier, t3);
            lemma_books_roundtrip(books, centroids, dimension / parts, Seq::empty(), tail);
            assert(Seq::<Seq<Seq<u32>>>::empty() + books =~= books);
        },
    }
}

/// An index of compact codes.
pub enum QuantizedIndex {
    Scalar(ScalarQuantizer),
    Binary(BinaryQuantizer),
    Product(ProductQuantizer),
}

fn write_books(out: &mut Vec<u8>, books: &Vec<Vec<Vec<u32>>>)
    ensures
        final(out)@ == old(out)@ + enc_books(books.deep_view()),
{
    let ghost all = books.deep_view();
    let mut i: usize = 0;
    proof {
        assert(all.skip(0) =~= all);
    }
    while i < books.len()
        invariant
            i <= books@.len(),
            all == books.deep_view(),
            out@ + enc_books(all.skip(i as int)) == old(out)@ + enc_books(all),
        decreases books@.len() - i,
    {
        let ghost before = out@;
        write_tokens(out, &books[i]);
        proof {
            assert(all[i as int] == books@[i as int].deep_view());
            assert(all.skip(i as int).drop_first() =~= all.skip(i + 1));
            assert(before + (enc_tokens(all[i as int]) + enc_books(all.skip(i + 1))) =~= out@
                + enc_books(all.skip(i + 1)));
        }
        i += 1;
    }
    proof {
        assert(out@ + enc_books(all.skip(i as int)) =~= out@);
    }
}

fn read_books(reader: &mut Reader, n: usize, centroids: usize, width: usize) -> (r: Result<
    Vec<Vec<Vec<u32>>>,
    VectLiteError,
>)
    requires
        old(reader).wf(),
    ensures
        final(reader).wf(),
        crate::codec::agrees(
            r,
            final(reader).rest(),
            parse_books(
                n as nat,
                centroids as nat,
                width as nat,
                Seq::empty(),
                old(reader).rest(),
            ),
        ),
{
    let ghost from = reader.rest();
    let mut out: Vec<Vec<Vec<u32>>> = Vec::new();
    let mut i: usize = 0;
    proof {
        assert(out.deep_view() =~= Seq::<Seq<Seq<u32>>>::empty());
    }
    while i < n
        invariant
            reader.wf(),
            i <= n,
            from == old(reader).rest(),
            parse_books(
                (n - i) as nat,
                centroids as nat,
                width as nat,
                out.deep_view(),
                reader.rest(),
            ) == parse_books(n as nat, centroids as nat, width as nat, Seq::empty(), from),
        decreases n - i,
    {
        let ghost before = out.deep_view();
        match read_tokens(reader, centroids, width) {
            Ok(book) => {
                out.push(book);
                proof {
                    assert(out.deep_view() =~= before.push(book.deep_view()));
                }
            },
            Err(e) => {
                return Err(e);
            },
        }
        i += 1;
    }
    Ok(out)
}

impl ScalarQuantizer {
    /// What is kept on disk.
    pub open spec fn params(&self) -> Params {
        Params::Scalar {
            dimension: self.dimension as nat,
            multiplier: self.config.rescore_multiplier as nat,
            mins: self.mins@,
            maxs: self.maxs@,
        }
    }

    /// Appends the parameters. Codes are not written.
    pub fn write_params(&self, out: &mut Vec<u8>)
        ensures
            final(out)@ == old(out)@ + enc_params(self.params()),
    {
        out.push(1);
        write_usize(out, self.dimension);
        write_usize(out, self.config.rescore_multiplier);
        write_singles(out, &self.mins);
        write_singles(out, &self.maxs);
        proof {
            assert(self.mins.deep_view() =~= self.mins@);
            assert(self.maxs.deep_view() =~= self.maxs@);
            assert(out@ =~= old(out)@ + enc_params(self.params()));
        }
    }

    /// Reads the parameters that follow the tag.
    pub fn read_params(reader: &mut Reader) -> (r: Result<Self, VectLiteError>)
        requires
            old(reader).wf(),
        ensures
            final(reader).wf(),
            match parse_scalar(old(reader).rest()) {
                Ok((p, tail)) => {
                    &&& r matches Ok(q)
                    &&& q.params() == p
                    &&& q.wf()
                    &&& q.count == 0
                    &&& final(reader).rest() == tail
                },
                Err(e) => r matches Err(x) && x@ == e,
            },
    {
        let (dimension, rescore_multiplier) = match read_two_sizes(reader) {
            Ok(p) => p,
            Err(e) => {
                return Err(e);
            },
        };
        proof {
            crate::two_bit::lemma_singles_count(dimension as nat, Seq::empty(), reader.rest());
        }
        let mins = match read_singles(reader, dimension) {
            Ok(v) => v,
            Err(e) => {
                return Err(e);
            },
        };
        proof {
            crate::two_bit::lemma_singles_count(dimension as nat, Seq::empty(), reader.rest());
        }
        let maxs = match read_singles(reader, dimension) {
            Ok(v) => v,
            Err(e) => {
                return Err(e);
            },
        };
        proof {
            assert(mins.deep_view() =~= mins@);
            assert(maxs.deep_view() =~= maxs@);
            assert(0 * (dimension as int) == 0) by (nonlinear_arith);
        }
        Ok(
            ScalarQuantizer {
                dimension,
                mins,
                maxs,
                codes: Vec::new(),
                count: 0,
                config: ScalarQuantizationConfig { rescore_multiplier },
            },
        )
    }
}

impl BinaryQuantizer {
    /// What is kept on disk.
    pub open spec fn params(&self) -> Params {
        Params::Binary {
            dimension: self.dimension as nat,
            multiplier: self.config.rescore_multiplier as nat,
        }
    }
}

pub proof fn lemma_tokens_shape(n: nat, dim: nat, acc: Seq<Seq<u32>>, b: Seq<u8>)
    requires
        forall|i: int| 0 <= i < acc.len() ==> (#[trigger] acc[i]).len() == dim,
    ensures
        parse_tokens(n, dim, acc, b) matches Ok(p) ==> book_shaped(p.0, acc.len() + n, dim),
    decreases n,
{
    if n > 0 {
        crate::two_bit::lemma_singles_count(dim, Seq::empty(), b);
        match parse_singles(dim, Seq::empty(), b) {
            Err(_) => {},
            Ok((v, rest)) => {
                lemma_tokens_shape((n - 1) as nat, dim, acc.push(v), rest);
            },
        }
    }
}

proof fn lemma_books_shape(
    n: nat,
    centroids: nat,
    width: nat,
    acc: Seq<Seq<Seq<u32>>>,
    b: Seq<u8>,
)
    requires
        books_shaped(acc, acc.len(), centroids, width),
    ensures
        parse_books(n, centroids, width, acc, b) matches Ok(p) ==> books_shaped(
            p.0,
            acc.len() + n,
            centroids,
            width,
        ),
    decreases n,
{
    if n > 0 {
        lemma_tokens_shape(centroids, width, Seq::empty(), b);
        match parse_tokens(centroids, width, Seq::empty(), b) {
            Err(_) => {},
            Ok((book, rest)) => {
                lemma_books_shape((n - 1) as nat, centroids, width, acc.push(book), rest);
            },
        }
    }
}

impl ProductQuantizer {
    /// What is kept on disk.
    pub open spec fn params(&self) -> Params {
        Params::Product {
            dimension: self.dimension as nat,
            parts: self.num_sub_vectors as nat,
            centroids: self.num_centroids as nat,
            iterations: self.config.training_iterations as nat,
            multiplier: self.config.rescore_multiplier as nat,
            books: self.codebooks.deep_view(),
        }
    }

    /// Appends the parameters. Codes are not written.
    pub fn write_params(&self, out: &mut Vec<u8>)
        ensures
            final(out)@ == old(out)@ + enc_params(self.params()),
    {
        out.push(3);
        write_usize(out, self.dimension);
        write_usize(out, self.num_sub_vectors);
        write_usize(out, self.num_centroids);
        write_usize(out, self.config.training_iterations);
        write_usize(out, self.config.rescore_multiplier);
        write_books(out, &self.codebooks);
        proof {
            assert(out@ =~= old(out)@ + enc_params(self.params()));
        }
    }

    /// Reads the parameters that follow the tag.
    pub fn read_params(reader: &mut Reader) -> (r: Result<Self, VectLiteError>)
        requires
            old(reader).wf(),
        ensures
            final(reader).wf(),
            match parse_product(old(reader).rest()) {
                Ok((p, tail)) => {
                    &&& r matches Ok(q)
                    &&& q.params() == p
                    &&& q.wf()
                    &&& q.count == 0
                    &&& final(reader).rest() == tail
                },
                Err(e) => r matches Err(x) && x@ == e,
            },
    {
        let (dimension, num_sub_vectors) = match read_two_sizes(reader) {
            Ok(p) => p,
            Err(e) => {
                return Err(e);
            },
        };
        let (num_centroids, training_iterations) = match read_two_sizes(reader) {
            Ok(p) => p,
            Err(e) => {
                return Err(e);
            },
        };
        let rescore_multiplier: usize = match read_usize(reader) {
            Ok(n) => n,
            Err(e) => {
                return Err(e);
            },
        };
        if num_sub_vectors == 0 || dimension % num_sub_vectors != 0 {
            return Err(VectLiteError::Io(indivisible_text(dimension, num_sub_vectors)));
        }
        if num_centroids == 0 || num_centroids > 256 {
            return Err(VectLiteError::Io("num_centroids must be between 1 and 256".to_owned()));
        }
        let sub_dimension: usize = dimension / num_sub_vectors;
        let ghost from = reader.rest();
        match read_books(reader, num_sub_vectors, num_centroids, sub_dimension) {
            Ok(codebooks) => {
                proof {
                    lemma_books_shape(
                        num_sub_vectors as nat,
                        num_centroids as nat,
                        sub_dimension as nat,
                        Seq::empty(),
                        from,
                    );
                }
                Ok(
                    ProductQuantizer::with_codebooks(
                        dimension,
                        codebooks,
                        ProductQuantizationConfig {
                            num_sub_vectors,
                            num_centroids,
                            training_iterations,
                            rescore_multiplier,
                        },
                    ),
                )
            },
            Err(e) => Err(e),
        }
    }
}

impl QuantizedIndex {
    /// The quantizer is well formed.
    pub open spec fn wf(&self) -> bool {
        match *self {
            QuantizedIndex::Scalar(q) => q.wf(),
            QuantizedIndex::Binary(q) => q.wf(),
            QuantizedIndex::Product(q) => q.wf(),
        }
    }

    /// What is kept on disk.
    pub open spec fn params(&self) -> Params {
        match *self {
            QuantizedIndex::Scalar(q) => q.params(),
            QuantizedIndex::Binary(q) => q.params(),
            QuantizedIndex::Product(q) => q.params(),
        }
    }

    /// The number of vectors.
    pub open spec fn size(&self) -> usize {
        match *self {
            QuantizedIndex::Scalar(q) => q.count,
            QuantizedIndex::Binary(q) => q.count,
            QuantizedIndex::Product(q) => q.count,
        }
    }

    /// The settings.
    pub open spec fn settings(&self) -> QuantizationConfig {
        match *self {
            QuantizedIndex::Scalar(q) => QuantizationConfig::Scalar(q.config),
            QuantizedIndex::Binary(q) => QuantizationConfig::Binary(q.config),
            QuantizedIndex::Product(q) => QuantizationConfig::Product(q.config),
        }
    }

    /// How many candidates are rescored for each wanted result.
    pub open spec fn multiplier(&self) -> usize {
        match *self {
            QuantizedIndex::Scalar(q) => q.config.rescore_multiplier,
            QuantizedIndex::Binary(q) => q.config.rescore_multiplier,
            QuantizedIndex::Product(q) => q.config.rescore_multiplier,
        }
    }

    /// The keys that rank all vectors for a query: for scalar codes the approximate scores, for
    /// binary codes the bit distances, and for product codes the approximate distances.
    pub open spec fn candidate_keys(&self, query: Seq<u32>, scores: Seq<u32>) -> Seq<u64> {
        match *self {
            QuantizedIndex::Scalar(q) => falling_keys(scores),
            QuantizedIndex::Binary(q) => q.distances(query),
            QuantizedIndex::Product(q) => rising_keys(scores),
        }
    }

    /// The candidates for a query, the best first.
    pub fn search_candidates(&self, query: &Vec<u32>, scores: &Vec<u32>, top_k: usize) -> (r: Vec<
        usize,
    >)
        requires
            self.wf(),
            self matches QuantizedIndex::Binary(q) ==> query@.len() == q.dimension && 8
                * q.bytes_per_vector <= u32::MAX,
            !(self is Binary) ==> scores@.len() == self.size(),
        ensures
            r@ == least_positions(
                self.candidate_keys(query@, scores@),
                rescored(top_k as nat, self.multiplier() as nat, self.size() as nat),
            ),
    {
        match self {
            QuantizedIndex::Scalar(q) => {
                let ranked = q.search(scores, top_k);
                positions(&ranked)
            },
            QuantizedIndex::Binary(q) => {
                let ranked = q.search(query, top_k);
                positions(&ranked)
            },
            QuantizedIndex::Product(q) => {
                let ranked = q.search(scores, top_k);
                positions(&ranked)
            },
        }
    }

    /// The number of vectors.
    pub fn count(&self) -> (r: usize)
        ensures
            r == self.size(),
    {
        match self {
            QuantizedIndex::Scalar(q) => q.count,
            QuantizedIndex::Binary(q) => q.count,
            QuantizedIndex::Product(q) => q.count,
        }
    }

    /// How many candidates are rescored for each wanted result.
    pub fn rescore_multiplier(&self) -> (r: usize)
        ensures
            r == self.multiplier(),
    {
        match self {
            QuantizedIndex::Scalar(q) => q.config.rescore_multiplier,
            QuantizedIndex::Binary(q) => q.config.rescore_multiplier,
            QuantizedIndex::Product(q) => q.config.rescore_multiplier,
        }
    }

    /// The settings.
    pub fn config(&self) -> (r: QuantizationConfig)
        ensures
            r == self.settings(),
    {
        match self {
            QuantizedIndex::Scalar(q) => QuantizationConfig::Scalar(q.config),
            QuantizedIndex::Binary(q) => QuantizationConfig::Binary(q.config),
            QuantizedIndex::Product(q) => QuantizationConfig::Product(q.config),
        }
    }

    /// Appends the parameters. Codes are not written.
    pub fn write_params(&self, out: &mut Vec<u8>)
        ensures
            final(out)@ == old(out)@ + enc_params(self.params()),
    {
        match self {
            QuantizedIndex::Scalar(q) => q.write_params(out),
            QuantizedIndex::Binary(q) => q.write_params(out),
            QuantizedIndex::Product(q) => q.write_params(out),
        }
    }

    /// Reads parameters. The codes are to be rebuilt.
    pub fn read_params(reader: &mut Reader) -> (r: Result<Self, VectLiteError>)
        requires
            old(reader).wf(),
        ensures
            final(reader).wf(),
            match parse_params(old(reader).rest()) {
                Ok((p, tail)) => {
                    &&& r matches Ok(q)
                    &&& q.params() == p
                    &&& q.wf()
                    &&& q.size() == 0
                    &&& final(reader).rest() == tail
                },
                Err(e) => r matches Err(x) && x@ == e,
            },
    {
        let tag: u8 = match reader.u8() {
            Ok(t) => t,
            Err(e) => {
                return Err(e);
            },
        };
        if tag == 1 {
            match ScalarQuantizer::read_params(reader) {
                Ok(q) => Ok(QuantizedIndex::Scalar(q)),
                Err(e) => Err(e),
            }
        } else if tag == 2 {
            match BinaryQuantizer::read_params(reader) {
                Ok(q) => Ok(QuantizedIndex::Binary(q)),
                Err(e) => Err(e),
            }
        } else if tag == 3 {
            match ProductQuantizer::read_params(reader) {
                Ok(q) => Ok(QuantizedIndex::Product(q)),
                Err(e) => Err(e),
            }
        } else {
            Err(
                VectLiteError::Io(
                    concat2("unknown quantization tag: ", decimal_text(tag as u64).as_str()),
                ),
            )
        }
    }
}

fn positions(ranked: &Vec<(usize, u32)>) -> (r: Vec<usize>)
    ensures
        r@ == ranked@.map_values(|p: (usize, u32)| p.0),
{
    let mut out: Vec<usize> = Vec::new();
    let mut i: usize = 0;
    while i < ranked.len()
        invariant
            i <= ranked@.len(),
            out@ =~= ranked@.take(i as int).map_values(|p: (usize, u32)| p.0),
        decreases ranked@.len() - i,
    {
        out.push(ranked[i].0);
        i += 1;
    }
    proof {
        assert(ranked@.take(i as int) =~= ranked@);
    }
    out
}

} // verus!
