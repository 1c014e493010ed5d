//! Two-bit codes: every coordinate becomes one of four levels.
use vstd::prelude::*;
use crate::codec::{end_of_input, le_bytes, parse_le, Parsed, Reader};
use crate::error::{Failure, VectLiteError};
use crate::float_bits::{single_le, single_less_or_equal, single_total, single_total_key};
use crate::quantization::{
    all_of_dimension, append_all, ceil_div, groups_of, lemma_row_bounds, lemma_two_sizes_roundtrip,
    parse_two_sizes, read_two_sizes, rescore_count, rescored, row_of, write_usize,
    TwoBitQuantizationConfig,
};
use crate::ranking::{law_least_positions, least_positions, rank};
use crate::record_codec::{
    enc_singles, lemma_singles_roundtrip, parse_singles, read_singles, write_singles,
};
use crate::sort::{lemma_sorted, sort, sorted};

verus! {

/// The level of a value among three boundaries.
pub open spec fn level(v: u32, q25: u32, q50: u32, q75: u32) -> u8 {
    if single_le(v, q25) {
        0
    } else if single_le(v, q50) {
        1
    } else if single_le(v, q75) {
        2
    } else {
        3
    }
}

/// The level of coordinate `i`, or zero behind the last one.
pub open spec fn level_at(vector: Seq<u32>, boundaries: Seq<u32>, i: int) -> u8 {
    if 0 <= i < vector.len() {
        level(vector[i], boundaries[3 * i], boundaries[3 * i + 1], boundaries[3 * i + 2])
    } else {
        0
    }
}

/// The low `k` levels of byte `j` of a code.
pub open spec fn level_bits(vector: Seq<u32>, boundaries: Seq<u32>, j: int, k: nat) -> u8
    decreases k,
{
    if k == 0 {
        0
    } else {
        level_bits(vector, boundaries, j, (k - 1) as nat) | (level_at(
            vector,
            boundaries,
            4 * j + k - 1,
        ) << ((2 * (k - 1)) as u8))
    }
}

/// The code of a vector in `width` bytes: four levels in each byte, from the least significant
/// bits.
pub open spec fn two_bit_code(vector: Seq<u32>, boundaries: Seq<u32>, width: nat) -> Seq<u8> {
    Seq::new(width, |j: int| level_bits(vector, boundaries, j, 4))
}

/// Level `k` of a byte.
pub open spec fn crumb(b: u8, k: int) -> u8 {
    (b >> ((2 * k) as u8)) & 3u8
}

proof fn lemma_level_bits(vector: Seq<u32>, boundaries: Seq<u32>, j: int, k: nat, i: int)
    requires
        k <= 4,
        0 <= i < 4,
    ensures
        crumb(level_bits(vector, boundaries, j, k), i) == if i < k {
            level_at(vector, boundaries, 4 * j + i)
        } else {
            0
        },
    decreases k,
{
    let at = (2 * i) as u8;
    if k == 0 {
        assert((0u8 >> at) & 3u8 == 0u8) by (bit_vector);
    } else {
        lemma_level_bits(vector, boundaries, j, (k - 1) as nat, i);
        let low = level_bits(vector, boundaries, j, (k - 1) as nat);
        let l = level_at(vector, boundaries, 4 * j + k - 1);
        let p = (2 * (k - 1)) as u8;
        assert(((low | (l << p)) >> at) & 3u8 == (if at == p {
            ((low >> at) & 3u8) | l
        } else {
            (low >> at) & 3u8
        })) by (bit_vector)
            requires
                at == 0 || at == 2 || at == 4 || at == 6,
                p == 0 || p == 2 || p == 4 || p == 6,
                l <= 3,
        ;
        assert(0u8 | l == l) by (bit_vector);
    }
}

/// Level `i` of a code is the level of coordinate `i`.
pub proof fn law_code_levels(vector: Seq<u32>, boundaries: Seq<u32>, width: nat, i: int)
    requires
        0 <= i < 4 * width,
    ensures
        crumb(two_bit_code(vector, boundaries, width)[i / 4], i % 4) == level_at(
            vector,
            boundaries,
            i,
        ),
{
    lemma_level_bits(vector, boundaries, i / 4, 4, i % 4);
}

/// The sum of the products of the first `n` levels.
pub open spec fn level_dot(a: Seq<u8>, b: Seq<u8>, n: nat) -> nat
    decreases n,
{
    if n == 0 {
        0
    } else {
        level_dot(a, b, (n - 1) as nat) + crumb(a[(n - 1) / 4], (n - 1) % 4) as nat * crumb(
            b[(n - 1) / 4],
            (n - 1) % 4,
        ) as nat
    }
}

proof fn lemma_crumb(b: u8, k: int)
    ensures
        crumb(b, k) <= 3,
{
    let s = (2 * k) as u8;
    assert((b >> s) & 3u8 <= 3u8) by (bit_vector);
}

proof fn lemma_product(x: nat, y: nat)
    requires
        x <= 3,
        y <= 3,
    ensures
        x * y <= 9,
{
    assert(x * y <= 9) by (nonlinear_arith)
        requires
            x <= 3,
            y <= 3,
    ;
}

pub proof fn lemma_dot_bound(a: Seq<u8>, b: Seq<u8>, n: nat)
    ensures
        level_dot(a, b, n) <= 9 * n,
    decreases n,
{
    if n > 0 {
        lemma_dot_bound(a, b, (n - 1) as nat);
        lemma_crumb(a[(n - 1) / 4], (n - 1) % 4);
        lemma_crumb(b[(n - 1) / 4], (n - 1) % 4);
        lemma_product(
            crumb(a[(n - 1) / 4], (n - 1) % 4) as nat,
            crumb(b[(n - 1) / 4], (n - 1) % 4) as nat,
        );
    }
}

/// The similarity of two codes: the sum of the products of their levels.
pub fn two_bit_approx_dot(a: &[u8], b: &[u8], dimension: usize) -> (r: i32)
    requires
        dimension <= 4 * a@.len(),
        dimension <= 4 * b@.len(),
        9 * dimension <= i32::MAX,
    ensures
        r == level_dot(a@, b@, dimension as nat),
{
    let mut sum: i32 = 0;
    let mut i: usize = 0;
    while i < dimension
        invariant
            i <= dimension,
            dimension <= 4 * a@.len(),
            dimension <= 4 * b@.len(),
            9 * dimension <= i32::MAX,
            sum == level_dot(a@, b@, i as nat),
        decreases dimension - i,
    {
        let at: usize = i / 4;
        let shift: u8 = ((i % 4) * 2) as u8;
        let x: u8 = (a[at] >> shift) & 3u8;
        let y: u8 = (b[at] >> shift) & 3u8;
        proof {
            lemma_dot_bound(a@, b@, i as nat);
            assert(x == crumb(a@[i as int / 4], i as int % 4));
            assert(y == crumb(b@[i as int / 4], i as int % 4));
            lemma_crumb(a@[i as int / 4], i as int % 4);
            lemma_crumb(b@[i as int / 4], i as int % 4);
            lemma_product(x as nat, y as nat);
        }
        sum += x as i32 * y as i32;
        i += 1;
    }
    sum
}

fn level_of(v: u32, q25: u32, q50: u32, q75: u32) -> (r: u8)
    ensures
        r == level(v, q25, q50, q75),
{
    if single_less_or_equal(v, q25) {
        0
    } else if single_less_or_equal(v, q50) {
        1
    } else if single_less_or_equal(v, q75) {
        2
    } else {
        3
    }
}

/// The code of a vector.
pub fn quantize_two_bit(vector: &Vec<u32>, boundaries: &Vec<u32>, bytes_per_vector: usize) -> (r:
    Vec<u8>)
    requires
        3 * vector@.len() <= boundaries@.len(),
        vector@.len() <= 4 * bytes_per_vector,
    ensures
        r@ == two_bit_code(vector@, boundaries@, bytes_per_vector as nat),
{
    let n: usize = vector.len();
    let total: usize = boundaries.len();
    let mut out: Vec<u8> = Vec::new();
    let mut j: usize = 0;
    while j < bytes_per_vector
        invariant
            n == vector@.len(),
            total == boundaries@.len(),
            3 * n <= total,
            j <= bytes_per_vector,
            out@ =~= two_bit_code(vector@, boundaries@, bytes_per_vector as nat).take(j as int),
        decreases bytes_per_vector - j,
    {
        let mut byte: u8 = 0;
        let mut k: u8 = 0;
        while k < 4
            invariant
                n == vector@.len(),
                total == boundaries@.len(),
                3 * n <= total,
                j < bytes_per_vector,
                k <= 4,
                byte == level_bits(vector@, boundaries@, j as int, k as nat),
            decreases 4 - k,
        {
            let shift: u8 = 2 * k;
            if j <= n / 4 && (k as usize) < n - 4 * j {
                let i: usize = 4 * j + k as usize;
                let l: u8 = level_of(
                    vector[i],
                    boundaries[3 * i],
                    boundaries[3 * i + 1],
                    boundaries[3 * i + 2],
                );
                byte = byte | (l << shift);
            } else {
                proof {
                    assert(byte | (0u8 << shift) == byte) by (bit_vector);
                }
            }
            k += 1;
        }
        out.push(byte);
        j += 1;
    }
    proof {
        assert(two_bit_code(vector@, boundaries@, bytes_per_vector as nat).take(
            bytes_per_vector as int,
        ) =~= two_bit_code(vector@, boundaries@, bytes_per_vector as nat));
    }
    out
}

/// The positions in the total order of coordinate `d` of every vector.
pub open spec fn column(vectors: Seq<Seq<u32>>, d: int) -> Seq<u64> {
    Seq::new(vectors.len(), |i: int| single_total_key(vectors[i][d]) as u64)
}

/// Quartile `q` of coordinate `d`: the value at that part of the sorted values.
pub open spec fn quartile(vectors: Seq<Seq<u32>>, d: int, q: int) -> u32 {
    crate::float_bits::single_of_key(
        sorted::<u64>(column(vectors, d))[(q * vectors.len()) / 4] as int,
    )
}

/// The three quartiles of every coordinate.
pub open spec fn quartiles(vectors: Seq<Seq<u32>>, dimension: nat) -> Seq<u32> {
    Seq::new(3 * dimension, |i: int| quartile(vectors, i / 3, i % 3 + 1))
}

fn sorted_column(vectors: &Vec<Vec<u32>>, d: usize) -> (r: Vec<u64>)
    requires
        all_of_dimension(vectors.deep_view(), vectors@[0]@.len()),
        vectors@.len() > 0,
        d < vectors@[0]@.len(),
    ensures
        r@ == sorted::<u64>(column(vectors.deep_view(), d as int)),
        r@.len() == vectors@.len(),
        forall|i: int| 0 <= i < r@.len() ==> (#[trigger] r@[i]) <= 0xffff_ffff,
{
    let ghost all = vectors.deep_view();
    let ghost c = column(all, d as int);
    let mut keys: Vec<u64> = Vec::new();
    let mut i: usize = 0;
    while i < vectors.len()
        invariant
            i <= vectors@.len(),
            all == vectors.deep_view(),
            all_of_dimension(all, vectors@[0]@.len()),
            d < vectors@[0]@.len(),
            c == column(all, d as int),
            keys@ =~= c.take(i as int),
        decreases vectors@.len() - i,
    {
        proof {
            assert(all[i as int] =~= vectors@[i as int]@);
            assert(all[i as int].len() == vectors@[0]@.len());
            crate::float_bits::lemma_single_key(vectors@[i as int]@[d as int]);
        }
        keys.push(single_total(vectors[i][d]) as u64);
        i += 1;
    }
    proof {
        assert(c.take(i as int) =~= c);
        assert(keys.deep_view() =~= c);
    }
    let r = sort(keys);
    proof {
        assert(r.deep_view() =~= r@);
        lemma_sorted::<u64>(c);
        vstd::seq_lib::to_multiset_len(c);
        vstd::seq_lib::to_multiset_len(r@);
        assert forall|i: int| 0 <= i < r@.len() implies (#[trigger] r@[i]) <= 0xffff_ffff by {
            vstd::seq_lib::to_multiset_contains(r@, r@[i]);
            vstd::seq_lib::to_multiset_contains(c, r@[i]);
            assert(c.contains(r@[i]));
            let k = choose|k: int| 0 <= k < c.len() && c[k] == r@[i];
            crate::float_bits::lemma_single_key(all[k][d as int]);
        }
    }
    r
}

fn find_quartiles(vectors: &Vec<Vec<u32>>, dimension: usize) -> (r: Vec<u32>)
    requires
        vectors@.len() > 0,
        3 * vectors@.len() <= usize::MAX,
        all_of_dimension(vectors.deep_view(), dimension as nat),
    ensures
        r@ == quartiles(vectors.deep_view(), dimension as nat),
{
    let ghost all = vectors.deep_view();
    let ghost goal = quartiles(all, dimension as nat);
    let n: usize = vectors.len();
    let mut out: Vec<u32> = Vec::new();
    let mut d: usize = 0;
    proof {
        assert(all[0] =~= vectors@[0]@);
    }
    while d < dimension
        invariant
            0 < n == vectors@.len(),
            3 * n <= usize::MAX,
            all == vectors.deep_view(),
            all_of_dimension(all, dimension as nat),
            vectors@[0]@.len() == dimension,
            goal == quartiles(all, dimension as nat),
            d <= dimension,
            out@ =~= goal.take(3 * d),
        decreases dimension - d,
    {
        let keys = sorted_column(vectors, d);
        proof {
            assert(goal[3 * d] == quartile(all, d as int, 1)) by {
                assert((3 * d) / 3 == d && (3 * d) % 3 == 0);
            }
            assert(goal[3 * d + 1] == quartile(all, d as int, 2)) by {
                assert((3 * d + 1) / 3 == d && (3 * d + 1) % 3 == 1);
            }
            assert(goal[3 * d + 2] == quartile(all, d as int, 3)) by {
                assert((3 * d + 2) / 3 == d && (3 * d + 2) % 3 == 2);
            }
        }
        proof {
            assert((2 * n) / 4 == n / 2);
        }
        out.push(crate::float_bits::single_from_total(keys[n / 4] as u32));
        out.push(crate::float_bits::single_from_total(keys[n / 2] as u32));
        out.push(crate::float_bits::single_from_total(keys[(3 * n) / 4] as u32));
        d += 1;
    }
    proof {
        assert(goal.take(3 * d) =~= goal);
    }
    out
}

/// The codes of vectors, one after the other.
pub open spec fn two_bit_codes(vectors: Seq<Seq<u32>>, boundaries: Seq<u32>, width: nat) -> Seq<u8>
    decreases vectors.len(),
{
    if vectors.len() == 0 {
        Seq::empty()
    } else {
        two_bit_codes(vectors.drop_last(), boundaries, width) + two_bit_code(
            vectors.last(),
            boundaries,
            width,
        )
    }
}

proof fn lemma_codes_len(vectors: Seq<Seq<u32>>, boundaries: Seq<u32>, width: nat)
    ensures
        two_bit_codes(vectors, boundaries, width).len() == vectors.len() * width,
    decreases vectors.len(),
{
    if vectors.len() > 0 {
        let n = (vectors.len() - 1) as nat;
        lemma_codes_len(vectors.drop_last(), boundaries, width);
        assert((n + 1) * width == n * width + width) by (nonlinear_arith);
    } else {
        assert(0 * width == 0) by (nonlinear_arith);
    }
}

/// Each row of the codes is the code of its vector.
pub proof fn law_two_bit_rows(vectors: Seq<Seq<u32>>, boundaries: Seq<u32>, width: nat, i: int)
    requires
        0 <= i < vectors.len(),
    ensures
        row_of(two_bit_codes(vectors, boundaries, width), width, i) == two_bit_code(
            vectors[i],
            boundaries,
            width,
        ),
    decreases vectors.len(),
{
    let before = vectors.drop_last();
    let n = before.len();
    lemma_codes_len(before, boundaries, width);
    if i < n {
        law_two_bit_rows(before, boundaries, width, i);
        lemma_row_bounds(n, width, i);
        assert(row_of(two_bit_codes(vectors, boundaries, width), width, i) =~= row_of(
            two_bit_codes(before, boundaries, width),
            width,
            i,
        ));
    } else {
        assert(row_of(two_bit_codes(vectors, boundaries, width), width, i) =~= two_bit_code(
            vectors.last(),
            boundaries,
            width,
        ));
    }
}

fn encode_all(vectors: &Vec<Vec<u32>>, boundaries: &Vec<u32>, dimension: usize, width: usize) -> (r:
    Vec<u8>)
    requires
        all_of_dimension(vectors.deep_view(), dimension as nat),
        3 * dimension <= boundaries@.len(),
        dimension <= 4 * width,
    ensures
        r@ == two_bit_codes(vectors.deep_view(), boundaries@, width as nat),
{
    let ghost all = vectors.deep_view();
    let mut codes: Vec<u8> = Vec::new();
    let mut i: usize = 0;
    proof {
        assert(all.take(0) =~= Seq::empty());
    }
    while i < vectors.len()
        invariant
            i <= vectors@.len(),
            all == vectors.deep_view(),
            all_of_dimension(all, dimension as nat),
            3 * dimension <= boundaries@.len(),
            dimension <= 4 * width,
            codes@ == two_bit_codes(all.take(i as int), boundaries@, width as nat),
        decreases vectors@.len() - i,
    {
        proof {
            assert(all[i as int] =~= vectors@[i as int]@);
        }
        let code = quantize_two_bit(&vectors[i], boundaries, width);
        append_all(&mut codes, &code);
        proof {
            assert(all.take(i + 1).drop_last() =~= all.take(i as int));
            assert(all.take(i + 1).last() =~= vectors@[i as int]@);
        }
        i += 1;
    }
    proof {
        assert(all.take(i as int) =~= all);
    }
    codes
}

/// A table of two-bit codes.
pub struct TwoBitQuantizer {
    pub dimension: usize,
    /// Three boundaries for each coordinate.
    pub boundaries: Vec<u32>,
    pub codes: Vec<u8>,
    pub count: usize,
    /// The width of a code: two bits for each coordinate, in whole bytes.
    pub bytes_per_vector: usize,
    pub config: TwoBitQuantizationConfig,
}

/// The key that ranks a similarity, the greatest first.
pub open spec fn falling_key(score: int) -> u64 {
    (0x7fff_ffff - score) as u64
}

/// The bytes of the parameters.
pub open spec fn enc_two_bit_params(
    dimension: nat,
    multiplier: nat,
    boundaries: Seq<u32>,
) -> Seq<u8> {
    seq![4u8] + ((le_bytes(dimension, 8) + le_bytes(multiplier, 8)) + enc_singles(boundaries))
}

/// Reads the parameters that follow the tag.
pub open spec fn parse_two_bit_params(b: Seq<u8>) -> Parsed<((nat, nat), Seq<u32>)> {
    match parse_two_sizes(b) {
        Err(e) => Err(e),
        Ok((sizes, b1)) => match parse_singles(3 * sizes.0, Seq::empty(), b1) {
            Err(e) => Err(e),
            Ok((boundaries, rest)) => Ok(((sizes, boundaries), rest)),
        },
    }
}

/// Parameters read back as they were written.
pub proof fn law_two_bit_params_roundtrip(
    dimension: nat,
    multiplier: nat,
    boundaries: Seq<u32>,
    tail: Seq<u8>,
)
    requires
        dimension <= usize::MAX,
        multiplier <= usize::MAX,
        boundaries.len() == 3 * dimension,
    ensures
        enc_two_bit_params(dimension, multiplier, boundaries)[0] == 4,
        parse_two_bit_params(
            enc_two_bit_params(dimension, multiplier, boundaries).skip(1) + tail,
        ) == Ok::<(((nat, nat), Seq<u32>), Seq<u8>), Failure>(
            (((dimension, multiplier), boundaries), tail),
        ),
{
    let sizes = le_bytes(dimension, 8) + le_bytes(multiplier, 8);
    let b = enc_two_bit_params(dimension, multiplier, boundaries);
    assert(b.skip(1) + tail =~= sizes + (enc_singles(boundaries) + tail));
    lemma_two_sizes_roundtrip(dimension, multiplier, enc_singles(boundaries) + tail);
    lemma_singles_roundtrip(boundaries, Seq::empty(), tail);
    assert(Seq::<u32>::empty() + boundaries =~= boundaries);
}

proof fn lemma_singles_short(n: nat, acc: Seq<u32>, b: Seq<u8>)
    requires
        b.len() < 4 * n,
    ensures
        parse_singles(n, acc, b) == Err::<(Seq<u32>, Seq<u8>), Failure>(end_of_input()),
    decreases n,
{
    match parse_le(b, 4) {
        Err(_) => {},
        Ok((v, rest)) => {
            lemma_singles_short((n - 1) as nat, acc.push(v as u32), rest);
        },
    }
}

impl TwoBitQuantizer {
    /// Codes and boundaries suit the dimension, and there are `count` codes.
    pub open spec fn wf(&self) -> bool {
        &&& self.bytes_per_vector == groups_of(self.dimension as nat, 4)
        &&& self.boundaries@.len() == 3 * self.dimension
        &&& self.codes@.len() == self.count * self.bytes_per_vector
    }

    /// The code of vector `i`.
    pub open spec fn code_at(&self, i: int) -> Seq<u8> {
        row_of(self.codes@, self.bytes_per_vector as nat, i)
    }

    /// The code of a vector.
    pub open spec fn code_of(&self, vector: Seq<u32>) -> Seq<u8> {
        two_bit_code(vector, self.boundaries@, self.bytes_per_vector as nat)
    }

    /// The similarity of vector `i` to a code.
    pub open spec fn similarity(&self, code: Seq<u8>, i: int) -> nat {
        level_dot(code, self.code_at(i), self.dimension as nat)
    }

    /// Builds the table of `vectors`, with their quartiles as boundaries.
    pub fn train(vectors: &Vec<Vec<u32>>, dimension: usize, config: TwoBitQuantizationConfig) -> (r:
        Self)
        requires
            vectors@.len() > 0,
            3 * vectors@.len() <= usize::MAX,
            all_of_dimension(vectors.deep_view(), dimension as nat),
        ensures
            r.wf(),
            r.dimension == dimension,
            r.config == config,
            r.count == vectors@.len(),
            r.boundaries@ == quartiles(vectors.deep_view(), dimension as nat),
            r.codes@ == two_bit_codes(
                vectors.deep_view(),
                r.boundaries@,
                r.bytes_per_vector as nat,
            ),
    {
        let boundaries = find_quartiles(vectors, dimension);
        let width: usize = ceil_div(dimension, 4);
        let codes = encode_all(vectors, &boundaries, dimension, width);
        proof {
            lemma_codes_len(vectors.deep_view(), boundaries@, width as nat);
        }
        TwoBitQuantizer {
            dimension,
            boundaries,
            codes,
            count: vectors.len(),
            bytes_per_vector: width,
            config,
        }
    }

    /// The code of a vector.
    pub fn quantize_vector(&self, vector: &Vec<u32>) -> (r: Vec<u8>)
        requires
            self.wf(),
            vector@.len() <= self.dimension,
        ensures
            r@ == self.code_of(vector@),
    {
        quantize_two_bit(vector, &self.boundaries, self.bytes_per_vector)
    }

    /// The similarity of vector `idx` to a code.
    pub fn approx_dot(&self, query_codes: &Vec<u8>, idx: usize) -> (r: i32)
        requires
            self.wf(),
            idx < self.count,
            self.dimension <= 4 * query_codes@.len(),
            9 * self.dimension <= i32::MAX,
        ensures
            r == self.similarity(query_codes@, idx as int),
    {
        let total: usize = self.codes.len();
        proof {
            lemma_row_bounds(self.count as nat, self.bytes_per_vector as nat, idx as int);
        }
        let start: usize = idx * self.bytes_per_vector;
        let row = vstd::slice::slice_subrange(
            self.codes.as_slice(),
            start,
            start + self.bytes_per_vector,
        );
        proof {
            assert(row@ =~= self.code_at(idx as int));
        }
        two_bit_approx_dot(query_codes.as_slice(), row, self.dimension)
    }

    /// The keys that rank all vectors by their similarity to a code.
    pub open spec fn similarity_keys(&self, code: Seq<u8>) -> Seq<u64> {
        Seq::new(self.count as nat, |i: int| falling_key(self.similarity(code, i) as int))
    }

    /// The candidates most similar to a query with their similarities, the most similar first and
    /// equally similar ones by position.
    pub fn search(&self, query: &Vec<u32>, top_k: usize) -> (r: Vec<(usize, i32)>)
        requires
            self.wf(),
            query@.len() <= self.dimension,
            9 * self.dimension <= i32::MAX,
        ensures
            r@ == least_positions(
                self.similarity_keys(self.code_of(query@)),
                rescored(
                    top_k as nat,
                    self.config.rescore_multiplier as nat,
                    self.count as nat,
                ),
            ).map_values(
                |i: usize| (i, self.similarity(self.code_of(query@), i as int) as i32),
            ),
    {
        let limit: usize = rescore_count(top_k, self.config.rescore_multiplier, self.count);
        let code = self.quantize_vector(query);
        let ghost all = self.similarity_keys(code@);
        let mut keys: Vec<u64> = Vec::new();
        let mut i: usize = 0;
        while i < self.count
            invariant
                self.wf(),
                code@.len() == self.bytes_per_vector,
                9 * self.dimension <= i32::MAX,
                i <= self.count,
                all == self.similarity_keys(code@),
                keys@ =~= all.take(i as int),
            decreases self.count - i,
        {
            let score: i32 = self.approx_dot(&code, i);
            keys.push((0x7fff_ffff - score) as u64);
            i += 1;
        }
        proof {
            assert(all.take(i as int) =~= all);
            law_least_positions(all, limit as nat);
        }
        let order = rank(&keys, limit);
        let mut out: Vec<(usize, i32)> = Vec::new();
        let mut j: usize = 0;
        while j < order.len()
            invariant
                self.wf(),
                code@ == self.code_of(query@),
                code@.len() == self.bytes_per_vector,
                9 * self.dimension <= i32::MAX,
                forall|a: int| 0 <= a < order@.len() ==> (#[trigger] order@[a]) < self.count,
                j <= order@.len(),
                out@ =~= order@.take(j as int).map_values(
                    |i: usize| (i, self.similarity(self.code_of(query@), i as int) as i32),
                ),
            decreases order@.len() - j,
        {
            let at: usize = order[j];
            let score: i32 = self.approx_dot(&code, at);
            out.push((at, score));
            j += 1;
        }
        proof {
            assert(order@.take(j as int) =~= order@);
        }
        out
    }

    /// Replaces all codes by those of `vectors`.
    pub fn rebuild_codes(&mut self, vectors: &Vec<Vec<u32>>)
        requires
            old(self).wf(),
            all_of_dimension(vectors.deep_view(), old(self).dimension as nat),
        ensures
            final(self).wf(),
            final(self).dimension == old(self).dimension,
            final(self).boundaries == old(self).boundaries,
            final(self).bytes_per_vector == old(self).bytes_per_vector,
            final(self).config == old(self).config,
            final(self).count == vectors@.len(),
            final(self).codes@ == two_bit_codes(
                vectors.deep_view(),
                old(self).boundaries@,
                old(self).bytes_per_vector as nat,
            ),
    {
        let codes = encode_all(vectors, &self.boundaries, self.dimension, self.bytes_per_vector);
        proof {
            lemma_codes_len(
                vectors.deep_view(),
                self.boundaries@,
                self.bytes_per_vector as nat,
            );
        }
        self.codes = codes;
        self.count = vectors.len();
    }

    /// Appends the parameters. Codes are not written.
    pub fn write_params(&self, out: &mut Vec<u8>)
        ensures
            final(out)@ == old(out)@ + enc_two_bit_params(
                self.dimension as nat,
                self.config.rescore_multiplier as nat,
                self.boundaries@,
            ),
    {
        out.push(4);
        write_usize(out, self.dimension);
        write_usize(out, self.config.rescore_multiplier);
        write_singles(out, &self.boundaries);
        proof {
            assert(self.boundaries.deep_view() =~= self.boundaries@);
            assert(out@ =~= old(out)@ + enc_two_bit_params(
                self.dimension as nat,
                self.config.rescore_multiplier as nat,
                self.boundaries@,
            ));
        }
    }

    /// Reads the parameters that follow the tag.
    pub fn read_params(reader: &mut Reader) -> (r: Result<Self, VectLiteError>)
        requires
            old(reader).wf(),
        ensures
            final(reader).wf(),
            match parse_two_bit_params(old(reader).rest()) {
                Ok((((dimension, multiplier), boundaries), tail)) => {
                    &&& r matches Ok(q)
                    &&& q.wf()
                    &&& q.dimension == dimension
                    &&& q.config.rescore_multiplier == multiplier
                    &&& q.boundaries@ == boundaries
                    &&& q.count == 0
                    &&& final(reader).rest() == tail
                },
                Err(e) => r matches Err(x) && x@ == e,
            },
    {
        let (dimension, rescore_multiplier) = match read_two_sizes(reader) {
            Ok(p) => p,
            Err(e) => {
                return Err(e);
            },
        };
        let ghost b = reader.rest();
        let left: usize = reader.left();
        if dimension > usize::MAX / 3 {
            proof {
                lemma_singles_short(3 * (dimension as nat), Seq::empty(), b);
            }
            return Err(VectLiteError::Io("failed to fill whole buffer".to_owned()));
        }
        match read_singles(reader, 3 * dimension) {
            Ok(boundaries) => {
                proof {
                    lemma_singles_count(3 * (dimension as nat), Seq::empty(), b);
                    assert(boundaries.deep_view() =~= boundaries@);
                    assert(0 * groups_of(dimension as nat, 4) == 0) by (nonlinear_arith);
                }
                Ok(
                    TwoBitQuantizer {
                        dimension,
                        boundaries,
                        codes: Vec::new(),
                        count: 0,
                        bytes_per_vector: ceil_div(dimension, 4),
                        config: TwoBitQuantizationConfig { rescore_multiplier },
                    },
                )
            },
            Err(e) => Err(e),
        }
    }
}

pub proof fn lemma_singles_count(n: nat, acc: Seq<u32>, b: Seq<u8>)
    ensures
        parse_singles(n, acc, b) matches Ok(p) ==> p.0.len() == acc.len() + n,
    decreases n,
{
    if n > 0 {
        match parse_le(b, 4) {
            Err(_) => {},
            Ok((v, rest)) => {
                lemma_singles_count((n - 1) as nat, acc.push(v as u32), rest);
            },
        }
    }
}

} // verus!
