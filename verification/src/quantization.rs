//! Compact codes for vectors and the settings of the quantizers that make them.
use vstd::prelude::*;
use crate::codec::{
    le_bytes, lemma_parse_le_roundtrip, lemma_pow256_values, parse_le, write_le, Parsed, Reader,
};
use crate::error::{invalid, Failure, VectLiteError};
use crate::float_bits::{single_less, single_lt};
use crate::ranking::{least_positions, rank};
use crate::text::{concat5, decimal, decimal_text};

verus! {

/// Settings of scalar quantization.
#[derive(Clone, Copy, Debug, PartialEq, Eq, Structural)]
pub struct ScalarQuantizationConfig {
    /// How many candidates to rescore for each wanted result.
    pub rescore_multiplier: usize,
}

impl Default for ScalarQuantizationConfig {
    fn default() -> (r: Self)
        ensures
            r == (ScalarQuantizationConfig { rescore_multiplier: 10 }),
    {
        ScalarQuantizationConfig { rescore_multiplier: 10 }
    }
}

/// Settings of binary quantization.
#[derive(Clone, Copy, Debug, PartialEq, Eq, Structural)]
pub struct BinaryQuantizationConfig {
    /// How many candidates to rescore for each wanted result.
    pub rescore_multiplier: usize,
}

impl Default for BinaryQuantizationConfig {
    fn default() -> (r: Self)
        ensures
            r == (BinaryQuantizationConfig { rescore_multiplier: 10 }),
    {
        BinaryQuantizationConfig { rescore_multiplier: 10 }
    }
}

/// Settings of product quantization.
#[derive(Clone, Copy, Debug, PartialEq, Eq, Structural)]
pub struct ProductQuantizationConfig {
    /// How many parts a vector is cut into. It divides the dimension.
    pub num_sub_vectors: usize,
    /// How many centroids each part has, at most 256.
    pub num_centroids: usize,
    /// How many rounds of training there are.
    pub training_iterations: usize,
    /// How many candidates to rescore for each wanted result.
    pub rescore_multiplier: usize,
}

impl Default for ProductQuantizationConfig {
    fn default() -> (r: Self)
        ensures
            r == (ProductQuantizationConfig {
                num_sub_vectors: 16,
                num_centroids: 256,
                training_iterations: 20,
                rescore_multiplier: 10,
            }),
    {
        ProductQuantizationConfig {
            num_sub_vectors: 16,
            num_centroids: 256,
            training_iterations: 20,
            rescore_multiplier: 10,
        }
    }
}

/// Settings of two-bit quantization.
#[derive(Clone, Copy, Debug, PartialEq, Eq, Structural)]
pub struct TwoBitQuantizationConfig {
    /// How many documents to rescore for each wanted result.
    pub rescore_multiplier: usize,
}

impl Default for TwoBitQuantizationConfig {
    fn default() -> (r: Self)
        ensures
            r == (TwoBitQuantizationConfig { rescore_multiplier: 4 }),
    {
        TwoBitQuantizationConfig { rescore_multiplier: 4 }
    }
}

/// Settings of the quantization of token vectors.
#[derive(Clone, Copy, Debug, PartialEq, Eq, Structural)]
pub enum MultiVectorQuantizationConfig {
    TwoBit(TwoBitQuantizationConfig),
}

/// Settings of the quantization of the main vectors.
#[derive(Clone, Copy, Debug, PartialEq, Eq, Structural)]
pub enum QuantizationConfig {
    Scalar(ScalarQuantizationConfig),
    Binary(BinaryQuantizationConfig),
    Product(ProductQuantizationConfig),
}

/// The preferred number of parts of a vector: the first of 16, 12, 10, 8, 6, 4, 3, 2 and 1 that
/// divides the dimension.
pub open spec fn preferred_parts(dimension: nat) -> nat {
    if dimension % 16 == 0 {
        16
    } else if dimension % 12 == 0 {
        12
    } else if dimension % 10 == 0 {
        10
    } else if dimension % 8 == 0 {
        8
    } else if dimension % 6 == 0 {
        6
    } else if dimension % 4 == 0 {
        4
    } else if dimension % 3 == 0 {
        3
    } else if dimension % 2 == 0 {
        2
    } else {
        1
    }
}

/// The preferred number of parts divides the dimension.
pub proof fn law_preferred_parts_valid(dimension: nat)
    ensures
        preferred_parts(dimension) >= 1,
        dimension % preferred_parts(dimension) == 0,
{
}

/// The number of parts that product quantization uses unless told otherwise.
pub fn default_product_num_sub_vectors(dimension: usize) -> (r: usize)
    ensures
        r == preferred_parts(dimension as nat),
{
    if dimension % 16 == 0 {
        16
    } else if dimension % 12 == 0 {
        12
    } else if dimension % 10 == 0 {
        10
    } else if dimension % 8 == 0 {
        8
    } else if dimension % 6 == 0 {
        6
    } else if dimension % 4 == 0 {
        4
    } else if dimension % 3 == 0 {
        3
    } else if dimension % 2 == 0 {
        2
    } else {
        1
    }
}

/// The divisors of `d` that are at most `n`, in ascending order.
pub open spec fn divisors_to(d: nat, n: nat) -> Seq<usize>
    decreases n,
{
    if n == 0 {
        Seq::empty()
    } else if d % n == 0 {
        divisors_to(d, (n - 1) as nat).push(n as usize)
    } else {
        divisors_to(d, (n - 1) as nat)
    }
}

/// Every number of parts that suits a dimension, in ascending order.
pub fn valid_product_num_sub_vectors(dimension: usize) -> (r: Vec<usize>)
    ensures
        r@ == divisors_to(dimension as nat, dimension as nat),
{
    let mut out: Vec<usize> = Vec::new();
    let mut i: usize = 0;
    while i < dimension
        invariant
            i <= dimension,
            out@ == divisors_to(dimension as nat, i as nat),
        decreases dimension - i,
    {
        if dimension % (i + 1) == 0 {
            out.push(i + 1);
        }
        i += 1;
    }
    out
}

/// The valid numbers of parts are exactly the divisors of the dimension.
pub proof fn law_valid_parts(dimension: nat, c: nat)
    requires
        0 < dimension <= usize::MAX,
        c <= usize::MAX,
    ensures
        divisors_to(dimension, dimension).contains(c as usize) <==> 0 < c && dimension % c == 0,
{
    lemma_divisors(dimension, dimension, c);
    if 0 < c && dimension % c == 0 && c > dimension {
        vstd::arithmetic::div_mod::lemma_small_mod(dimension, c);
    }
}

proof fn lemma_divisors(d: nat, n: nat, c: nat)
    requires
        n <= usize::MAX,
        c <= usize::MAX,
    ensures
        divisors_to(d, n).contains(c as usize) <==> 0 < c <= n && d % c == 0,
    decreases n,
{
    if n > 0 {
        let before = divisors_to(d, (n - 1) as nat);
        lemma_divisors(d, (n - 1) as nat, c);
        if d % n == 0 {
            let all = divisors_to(d, n);
            assert(all[all.len() - 1] == n as usize);
            if before.contains(c as usize) {
                let i = choose|i: int| 0 <= i < before.len() && before[i] == c as usize;
                assert(all[i] == c as usize);
            }
        }
    }
}

/// The message about a dimension that the number of parts does not divide.
pub open spec fn indivisible(dimension: nat, parts: nat) -> Seq<char> {
    "dimension ("@ + decimal(dimension) + ") must be divisible by num_sub_vectors ("@ + decimal(
        parts,
    ) + ")"@
}

/// What is wrong with settings, if anything.
pub open spec fn quantization_defect(config: QuantizationConfig, dimension: nat) -> Option<
    Seq<char>,
> {
    match config {
        QuantizationConfig::Product(cfg) => if cfg.num_sub_vectors == 0 {
            Some("num_sub_vectors must be greater than 0"@)
        } else if dimension % (cfg.num_sub_vectors as nat) != 0 {
            Some(indivisible(dimension, cfg.num_sub_vectors as nat))
        } else if cfg.num_centroids == 0 || cfg.num_centroids > 256 {
            Some("num_centroids must be between 1 and 256"@)
        } else {
            None
        },
        _ => None,
    }
}

pub(crate) fn indivisible_text(dimension: usize, parts: usize) -> (r: String)
    ensures
        r@ == indivisible(dimension as nat, parts as nat),
{
    concat5(
        "dimension (",
        decimal_text(dimension as u64).as_str(),
        ") must be divisible by num_sub_vectors (",
        decimal_text(parts as u64).as_str(),
        ")",
    )
}

/// Refuses settings that no quantizer can be built with.
pub fn validate_quantization_config(config: &QuantizationConfig, dimension: usize) -> (r: Result<
    (),
    VectLiteError,
>)
    ensures
        match quantization_defect(*config, dimension as nat) {
            Some(m) => r matches Err(e) && e@ == Failure::InvalidFormat(m),
            None => r is Ok,
        },
{
    match config {
        QuantizationConfig::Product(cfg) => {
            if cfg.num_sub_vectors == 0 {
                return Err(invalid("num_sub_vectors must be greater than 0"));
            }
            if dimension % cfg.num_sub_vectors != 0 {
                return Err(
                    VectLiteError::InvalidFormat(indivisible_text(dimension, cfg.num_sub_vectors)),
                );
            }
            if cfg.num_centroids == 0 || cfg.num_centroids > 256 {
                return Err(invalid("num_centroids must be between 1 and 256"));
            }
            Ok(())
        },
        _ => Ok(()),
    }
}

/// How many of `count` candidates to rescore: `multiplier` for each wanted result, both at least
/// one.
pub open spec fn rescored(top_k: nat, multiplier: nat, count: nat) -> nat {
    let wanted = (if top_k == 0 {
        1
    } else {
        top_k
    }) * (if multiplier == 0 {
        1
    } else {
        multiplier
    });
    if wanted < count {
        wanted
    } else {
        count
    }
}

/// At least as many candidates are rescored as results are wanted, as far as there are that many.
pub proof fn law_rescored_bounds(top_k: nat, multiplier: nat, count: nat)
    ensures
        rescored(top_k, multiplier, count) <= count,
        top_k <= count ==> top_k <= rescored(top_k, multiplier, count),
        count > 0 ==> rescored(top_k, multiplier, count) > 0,
{
    let a: nat = if top_k == 0 {
        1
    } else {
        top_k
    };
    let b: nat = if multiplier == 0 {
        1
    } else {
        multiplier
    };
    assert(a * b >= a) by (nonlinear_arith)
        requires
            a >= 1,
            b >= 1,
    ;
}

/// How many candidates to rescore.
pub fn rescore_count(top_k: usize, rescore_multiplier: usize, count: usize) -> (r: usize)
    ensures
        r == rescored(top_k as nat, rescore_multiplier as nat, count as nat),
{
    let a: usize = if top_k == 0 {
        1
    } else {
        top_k
    };
    let b: usize = if rescore_multiplier == 0 {
        1
    } else {
        rescore_multiplier
    };
    match a.checked_mul(b) {
        Some(wanted) => if wanted < count {
            wanted
        } else {
            count
        },
        None => count,
    }
}

/// Appends a size as eight bytes.
pub fn write_usize(out: &mut Vec<u8>, val: usize)
    ensures
        final(out)@ == old(out)@ + le_bytes(val as nat, 8),
{
    write_le(out, val as u64, 8);
}

/// Reads a size of eight bytes, of which as many count as a size has.
pub open spec fn parse_usize(b: Seq<u8>) -> Parsed<nat> {
    match parse_le(b, 8) {
        Err(e) => Err(e),
        Ok((v, rest)) => Ok(((v as u64 as usize) as nat, rest)),
    }
}

/// Reads a size.
pub fn read_usize(reader: &mut Reader) -> (r: Result<usize, VectLiteError>)
    requires
        old(reader).wf(),
    ensures
        final(reader).wf(),
        match parse_usize(old(reader).rest()) {
            Ok((v, tail)) => r matches Ok(x) && x == v && final(reader).rest() == tail,
            Err(e) => r matches Err(x) && x@ == e,
        },
{
    match reader.u64() {
        Ok(v) => Ok(v as usize),
        Err(e) => Err(e),
    }
}

/// A size reads back as it was written.
pub proof fn law_usize_roundtrip(v: nat, tail: Seq<u8>)
    requires
        v <= usize::MAX,
    ensures
        parse_usize(le_bytes(v, 8) + tail) == Ok::<(nat, Seq<u8>), Failure>((v, tail)),
{
    lemma_pow256_values();
    lemma_parse_le_roundtrip(v, 8, tail);
}

/// Bit `k` of a byte, from the least significant one.
pub open spec fn bit(b: u8, k: int) -> bool {
    (b >> (k as u8)) & 1u8 == 1u8
}

/// The number of ones among the low `n` bits of a byte.
pub open spec fn ones(b: u8, n: nat) -> nat
    decreases n,
{
    if n == 0 {
        0
    } else {
        ones(b, (n - 1) as nat) + if bit(b, n - 1) {
            1nat
        } else {
            0
        }
    }
}

/// The number of bits in which the first `n` bytes differ.
pub open spec fn hamming(a: Seq<u8>, b: Seq<u8>, n: nat) -> nat
    decreases n,
{
    if n == 0 {
        0
    } else {
        hamming(a, b, (n - 1) as nat) + ones(a[n - 1] ^ b[n - 1], 8)
    }
}

proof fn lemma_ones_bound(b: u8, n: nat)
    ensures
        ones(b, n) <= n,
    decreases n,
{
    if n > 0 {
        lemma_ones_bound(b, (n - 1) as nat);
    }
}

proof fn lemma_hamming_bound(a: Seq<u8>, b: Seq<u8>, n: nat)
    ensures
        hamming(a, b, n) <= 8 * n,
    decreases n,
{
    if n > 0 {
        lemma_hamming_bound(a, b, (n - 1) as nat);
        lemma_ones_bound(a[n - 1] ^ b[n - 1], 8);
    }
}

fn count_bits(b: u8) -> (r: u32)
    ensures
        r == ones(b, 8),
        r <= 8,
{
    let mut total: u32 = 0;
    let mut k: u8 = 0;
    while k < 8
        invariant
            k <= 8,
            total == ones(b, k as nat),
            total <= k,
        decreases 8 - k,
    {
        if (b >> k) & 1u8 == 1u8 {
            total += 1;
        }
        k += 1;
    }
    total
}

/// The shorter of two lengths.
pub open spec fn common_len(a: Seq<u8>, b: Seq<u8>) -> nat {
    if a.len() < b.len() {
        a.len()
    } else {
        b.len()
    }
}

/// The number of bits in which two codes differ, as far as both go.
pub fn hamming_distance(a: &[u8], b: &[u8]) -> (r: u32)
    requires
        8 * common_len(a@, b@) <= u32::MAX,
    ensures
        r == hamming(a@, b@, common_len(a@, b@)),
{
    let n: usize = if a.len() < b.len() {
        a.len()
    } else {
        b.len()
    };
    let mut dist: u32 = 0;
    let mut i: usize = 0;
    while i < n
        invariant
            i <= n == common_len(a@, b@),
            8 * n <= u32::MAX,
            dist == hamming(a@, b@, i as nat),
        decreases n - i,
    {
        proof {
            lemma_hamming_bound(a@, b@, i as nat);
        }
        dist += count_bits(a[i] ^ b[i]);
        i += 1;
    }
    dist
}

proof fn lemma_ones_of_xor(a: u8, b: u8, c: u8, n: nat)
    requires
        n <= 8,
    ensures
        ones(a ^ b, n) == ones(b ^ a, n),
        ones(a ^ a, n) == 0,
        ones(a ^ c, n) <= ones(a ^ b, n) + ones(b ^ c, n),
    decreases n,
{
    if n > 0 {
        lemma_ones_of_xor(a, b, c, (n - 1) as nat);
        let k = (n - 1) as u8;
        assert(a ^ b == b ^ a) by (bit_vector);
        assert(((a ^ a) >> k) & 1u8 == 0u8) by (bit_vector);
        assert(((a ^ c) >> k) & 1u8 == 1u8 ==> ((a ^ b) >> k) & 1u8 == 1u8 || ((b ^ c) >> k) & 1u8
            == 1u8) by (bit_vector);
    }
}

proof fn lemma_no_ones(a: u8, b: u8)
    requires
        ones(a ^ b, 8) == 0,
    ensures
        a == b,
{
    reveal_with_fuel(ones, 9);
    let x = a ^ b;
    assert(x == 0u8) by (bit_vector)
        requires
            (x >> 0u8) & 1u8 != 1u8,
            (x >> 1u8) & 1u8 != 1u8,
            (x >> 2u8) & 1u8 != 1u8,
            (x >> 3u8) & 1u8 != 1u8,
            (x >> 4u8) & 1u8 != 1u8,
            (x >> 5u8) & 1u8 != 1u8,
            (x >> 6u8) & 1u8 != 1u8,
            (x >> 7u8) & 1u8 != 1u8,
    ;
    assert(a ^ b == 0u8 ==> a == b) by (bit_vector);
}

/// On codes of one length the distance is a metric: it is symmetric, it is zero between equal
/// codes only, and it obeys the triangle inequality.
pub proof fn law_hamming_metric(a: Seq<u8>, b: Seq<u8>, c: Seq<u8>, n: nat)
    requires
        a.len() == n,
        b.len() == n,
        c.len() == n,
    ensures
        hamming(a, b, n) == hamming(b, a, n),
        hamming(a, b, n) == 0 <==> a == b,
        hamming(a, c, n) <= hamming(a, b, n) + hamming(b, c, n),
{
    lemma_hamming_parts(a, b, c, n);
    if hamming(a, b, n) == 0 {
        assert(a =~= b);
    }
}

proof fn lemma_hamming_parts(a: Seq<u8>, b: Seq<u8>, c: Seq<u8>, n: nat)
    requires
        n <= a.len(),
        n <= b.len(),
        n <= c.len(),
    ensures
        hamming(a, b, n) == hamming(b, a, n),
        hamming(a, a, n) == 0,
        hamming(a, b, n) == 0 ==> forall|i: int| 0 <= i < n ==> a[i] == b[i],
        hamming(a, c, n) <= hamming(a, b, n) + hamming(b, c, n),
    decreases n,
{
    if n > 0 {
        lemma_hamming_parts(a, b, c, (n - 1) as nat);
        lemma_ones_of_xor(a[n - 1], b[n - 1], c[n - 1], 8);
        if hamming(a, b, n) == 0 {
            lemma_no_ones(a[n - 1], b[n - 1]);
        }
    }
}

/// Whether coordinate `i` exists and is greater than zero.
pub open spec fn positive(vector: Seq<u32>, i: int) -> bool {
    0 <= i < vector.len() && single_lt(0u32, vector[i])
}

/// The low `k` bits of byte `j` of a sign code.
pub open spec fn sign_bits(vector: Seq<u32>, j: int, k: nat) -> u8
    decreases k,
{
    if k == 0 {
        0
    } else if positive(vector, 8 * j + k - 1) {
        sign_bits(vector, j, (k - 1) as nat) | (1u8 << ((k - 1) as u8))
    } else {
        sign_bits(vector, j, (k - 1) as nat)
    }
}

/// The least number of groups of `size` that hold `n` things.
pub open spec fn groups_of(n: nat, size: nat) -> nat {
    (n + size - 1) as nat / size
}

/// The sign code of a vector: one bit for each coordinate, from the least significant one.
pub open spec fn sign_code(vector: Seq<u32>) -> Seq<u8> {
    Seq::new(groups_of(vector.len(), 8), |j: int| sign_bits(vector, j, 8))
}

proof fn lemma_sign_bits(vector: Seq<u32>, j: int, k: nat, i: int)
    requires
        k <= 8,
        0 <= i < 8,
    ensures
        bit(sign_bits(vector, j, k), i) == (i < k && positive(vector, 8 * j + i)),
    decreases k,
{
    let at = i as u8;
    if k == 0 {
        assert((0u8 >> at) & 1u8 == 0u8) by (bit_vector);
    } else {
        lemma_sign_bits(vector, j, (k - 1) as nat, i);
        let low = sign_bits(vector, j, (k - 1) as nat);
        let p = (k - 1) as u8;
        assert(((low | (1u8 << p)) >> at) & 1u8 == (if at == p {
            1u8
        } else {
            (low >> at) & 1u8
        })) by (bit_vector)
            requires
                at < 8,
                p < 8,
        ;
    }
}

/// Bit `i` of a sign code says whether coordinate `i` is greater than zero.
pub proof fn law_sign_code_bits(vector: Seq<u32>, i: int)
    requires
        0 <= i < vector.len(),
    ensures
        bit(sign_code(vector)[i / 8], i % 8) == positive(vector, i),
{
    lemma_sign_bits(vector, i / 8, 8, i % 8);
}

/// The number of coordinates below `n` in which one vector is positive and the other is not.
pub open spec fn sign_differences(a: Seq<u32>, b: Seq<u32>, n: nat) -> nat
    decreases n,
{
    if n == 0 {
        0
    } else {
        sign_differences(a, b, (n - 1) as nat) + if positive(a, n - 1) != positive(b, n - 1) {
            1nat
        } else {
            0
        }
    }
}

proof fn lemma_byte_differences(a: Seq<u32>, b: Seq<u32>, j: int, k: nat)
    requires
        k <= 8,
        j >= 0,
    ensures
        sign_differences(a, b, (8 * j + k) as nat) == sign_differences(a, b, (8 * j) as nat) + ones(
            sign_bits(a, j, 8) ^ sign_bits(b, j, 8),
            k,
        ),
    decreases k,
{
    if k > 0 {
        lemma_byte_differences(a, b, j, (k - 1) as nat);
        lemma_sign_bits(a, j, 8, k - 1);
        lemma_sign_bits(b, j, 8, k - 1);
        let x = sign_bits(a, j, 8);
        let y = sign_bits(b, j, 8);
        let p = (k - 1) as u8;
        assert(((x ^ y) >> p) & 1u8 == 1u8 <==> ((x >> p) & 1u8 == 1u8) != ((y >> p) & 1u8 == 1u8))
            by (bit_vector);
    }
}

proof fn lemma_code_differences(a: Seq<u32>, b: Seq<u32>, n: nat)
    requires
        n <= groups_of(a.len(), 8),
        a.len() == b.len(),
    ensures
        hamming(sign_code(a), sign_code(b), n) == sign_differences(a, b, 8 * n),
    decreases n,
{
    if n > 0 {
        lemma_code_differences(a, b, (n - 1) as nat);
        lemma_byte_differences(a, b, n - 1, 8);
        assert(8 * (n - 1) + 8 == 8 * n);
    }
}

proof fn lemma_differences_beyond(a: Seq<u32>, b: Seq<u32>, n: nat)
    requires
        a.len() == b.len(),
        n >= a.len(),
    ensures
        sign_differences(a, b, n) == sign_differences(a, b, a.len()),
    decreases n,
{
    if n > a.len() {
        lemma_differences_beyond(a, b, (n - 1) as nat);
    }
}

/// The distance between two sign codes counts the coordinates whose signs differ.
pub proof fn law_code_distance(a: Seq<u32>, b: Seq<u32>)
    requires
        a.len() == b.len(),
    ensures
        hamming(sign_code(a), sign_code(b), sign_code(a).len()) == sign_differences(
            a,
            b,
            a.len(),
        ),
{
    let n = groups_of(a.len(), 8);
    lemma_code_differences(a, b, n);
    lemma_differences_beyond(a, b, 8 * n);
}

pub(crate) fn ceil_div(n: usize, size: usize) -> (r: usize)
    requires
        size > 0,
    ensures
        r == groups_of(n as nat, size as nat),
{
    proof {
        lemma_ceil(n as nat, size as nat);
    }
    if n % size == 0 {
        n / size
    } else {
        n / size + 1
    }
}

proof fn lemma_ceil(n: nat, size: nat)
    requires
        size > 0,
    ensures
        groups_of(n, size) == n / size + if n % size == 0 {
            0nat
        } else {
            1
        },
        n % size != 0 ==> n / size < n,
{
    let q = n / size;
    let m = n % size;
    vstd::arithmetic::div_mod::lemma_fundamental_div_mod(n as int, size as int);
    if m == 0 {
        vstd::arithmetic::div_mod::lemma_fundamental_div_mod_converse(
            n + size - 1,
            size as int,
            q as int,
            size - 1,
        );
    } else {
        assert(n + size - 1 == (q + 1) * size + (m - 1)) by (nonlinear_arith)
            requires
                n == size * q + m,
        ;
        vstd::arithmetic::div_mod::lemma_fundamental_div_mod_converse(
            n + size - 1,
            size as int,
            (q + 1) as int,
            m - 1,
        );
        assert(q < n) by (nonlinear_arith)
            requires
                n == size * q + m,
                size >= 1,
                m > 0,
        ;
    }
}

/// The sign code of a vector.
pub fn binarize_vector(vector: &Vec<u32>) -> (r: Vec<u8>)
    ensures
        r@ == sign_code(vector@),
{
    let n: usize = ceil_div(vector.len(), 8);
    let mut out: Vec<u8> = Vec::new();
    let mut j: usize = 0;
    while j < n
        invariant
            n == groups_of(vector@.len(), 8),
            j <= n,
            out@ =~= sign_code(vector@).take(j as int),
        decreases n - j,
    {
        let mut byte: u8 = 0;
        let mut k: u8 = 0;
        while k < 8
            invariant
                n == groups_of(vector@.len(), 8),
                j < n,
                k <= 8,
                byte == sign_bits(vector@, j as int, k as nat),
            decreases 8 - k,
        {
            proof {
                assert(8 * j <= vector@.len());
            }
            if (k as usize) < vector.len() - 8 * j
                && single_less(0, vector[8 * j + k as usize]) {
                byte = byte | (1u8 << k);
            }
            k += 1;
        }
        out.push(byte);
        j += 1;
    }
    proof {
        assert(sign_code(vector@).take(n as int) =~= sign_code(vector@));
    }
    out
}

/// The sign codes of vectors, one after the other.
pub open spec fn sign_codes(vectors: Seq<Seq<u32>>) -> Seq<u8>
    decreases vectors.len(),
{
    if vectors.len() == 0 {
        Seq::empty()
    } else {
        sign_codes(vectors.drop_last()) + sign_code(vectors.last())
    }
}

/// Row `i` of a flat table with rows of `width`.
pub open spec fn row_of(codes: Seq<u8>, width: nat, i: int) -> Seq<u8> {
    codes.subrange(i * width, i * width + width)
}

/// Whether every vector has the given dimension.
pub open spec fn all_of_dimension(vectors: Seq<Seq<u32>>, dimension: nat) -> bool {
    forall|i: int| 0 <= i < vectors.len() ==> (#[trigger] vectors[i]).len() == dimension
}

pub(crate) proof fn lemma_row_bounds(count: nat, width: nat, i: int)
    requires
        0 <= i < count,
    ensures
        0 <= i * width,
        i * width + width <= count * width,
        (i + 1) * width == i * width + width,
{
    assert((i + 1) * width == i * width + width) by (nonlinear_arith);
    assert((i + 1) * width <= count * width) by (nonlinear_arith)
        requires
            i + 1 <= count,
            width >= 0,
    ;
    assert(0 <= i * width) by (nonlinear_arith)
        requires
            0 <= i,
            width >= 0,
    ;
}

/// Each row of the sign codes is the sign code of its vector.
pub proof fn law_sign_code_rows(vectors: Seq<Seq<u32>>, dimension: nat, i: int)
    requires
        all_of_dimension(vectors, dimension),
        0 <= i < vectors.len(),
    ensures
        sign_codes(vectors).len() == vectors.len() * groups_of(dimension, 8),
        row_of(sign_codes(vectors), groups_of(dimension, 8), i) == sign_code(vectors[i]),
    decreases vectors.len(),
{
    let width = groups_of(dimension, 8);
    let before = vectors.drop_last();
    let n = before.len();
    assert(vectors.last() == vectors[n as int]);
    assert(sign_code(vectors.last()).len() == width);
    assert forall|k: int| 0 <= k < before.len() implies (#[trigger] before[k]).len()
        == dimension by {
        assert(before[k] == vectors[k]);
    }
    lemma_sign_codes_len(before, dimension);
    assert((n + 1) * width == n * width + width) by (nonlinear_arith);
    if i < n {
        law_sign_code_rows(before, dimension, i);
        lemma_row_bounds(n, width, i);
        assert(row_of(sign_codes(vectors), width, i) =~= row_of(sign_codes(before), width, i));
    } else {
        assert(row_of(sign_codes(vectors), width, i) =~= sign_code(vectors.last()));
    }
}

proof fn lemma_sign_codes_len(vectors: Seq<Seq<u32>>, dimension: nat)
    requires
        all_of_dimension(vectors, dimension),
    ensures
        sign_codes(vectors).len() == vectors.len() * groups_of(dimension, 8),
    decreases vectors.len(),
{
    let width = groups_of(dimension, 8);
    if vectors.len() > 0 {
        let before = vectors.drop_last();
        let n = before.len();
        assert(vectors.last() == vectors[n as int]);
        assert forall|k: int| 0 <= k < before.len() implies (#[trigger] before[k]).len()
            == dimension by {
            assert(before[k] == vectors[k]);
        }
        lemma_sign_codes_len(before, dimension);
        assert((n + 1) * width == n * width + width) by (nonlinear_arith);
    } else {
        assert(0 * width == 0) by (nonlinear_arith);
    }
}

pub(crate) fn append_all(out: &mut Vec<u8>, more: &Vec<u8>)
    ensures
        final(out)@ == old(out)@ + more@,
{
    crate::codec::write_bytes(out, more.as_slice());
}

fn append_sign_codes(codes: &mut Vec<u8>, vectors: &Vec<Vec<u32>>)
    ensures
        final(codes)@ == old(codes)@ + sign_codes(vectors.deep_view()),
{
    let ghost all = vectors.deep_view();
    let ghost head = codes@;
    let mut i: usize = 0;
    proof {
        assert(all.take(0) =~= Seq::empty());
        assert(codes@ =~= head + sign_codes(all.take(0)));
    }
    while i < vectors.len()
        invariant
            i <= vectors@.len(),
            all == vectors.deep_view(),
            codes@ == head + sign_codes(all.take(i as int)),
        decreases vectors@.len() - i,
    {
        let code = binarize_vector(&vectors[i]);
        append_all(codes, &code);
        proof {
            assert(all.take(i + 1).drop_last() =~= all.take(i as int));
            assert(all.take(i + 1).last() =~= vectors@[i as int]@);
            assert(codes@ =~= head + sign_codes(all.take(i + 1)));
        }
        i += 1;
    }
    proof {
        assert(all.take(i as int) =~= all);
    }
}

/// A table of sign codes.
pub struct BinaryQuantizer {
    pub dimension: usize,
    /// The width of a code: one bit for each coordinate, in whole bytes.
    pub bytes_per_vector: usize,
    pub codes: Vec<u8>,
    pub count: usize,
    pub config: BinaryQuantizationConfig,
}

/// Tag, dimension and multiplier.
pub open spec fn enc_binary_params(dimension: nat, multiplier: nat) -> Seq<u8> {
    seq![2u8] + (le_bytes(dimension, 8) + le_bytes(multiplier, 8))
}

/// Reads two sizes.
pub open spec fn parse_two_sizes(b: Seq<u8>) -> Parsed<(nat, nat)> {
    match parse_usize(b) {
        Err(e) => Err(e),
        Ok((x, b1)) => match parse_usize(b1) {
            Err(e) => Err(e),
            Ok((y, rest)) => Ok(((x, y), rest)),
        },
    }
}

pub(crate) proof fn lemma_two_sizes_roundtrip(x: nat, y: nat, tail: Seq<u8>)
    requires
        x <= usize::MAX,
        y <= usize::MAX,
    ensures
        parse_two_sizes((le_bytes(x, 8) + le_bytes(y, 8)) + tail) == Ok::<
            ((nat, nat), Seq<u8>),
            Failure,
        >(((x, y), tail)),
{
    assert((le_bytes(x, 8) + le_bytes(y, 8)) + tail =~= le_bytes(x, 8) + (le_bytes(y, 8) + tail));
    law_usize_roundtrip(x, le_bytes(y, 8) + tail);
    law_usize_roundtrip(y, tail);
}

pub(crate) fn read_two_sizes(reader: &mut Reader) -> (r: Result<(usize, usize), VectLiteError>)
    requires
        old(reader).wf(),
    ensures
        final(reader).wf(),
        match parse_two_sizes(old(reader).rest()) {
            Ok(((x, y), tail)) => r matches Ok(p) && p.0 == x && p.1 == y && final(reader).rest()
                == tail,
            Err(e) => r matches Err(p) && p@ == e,
        },
{
    let x: usize = match read_usize(reader) {
        Ok(x) => x,
        Err(e) => {
            return Err(e);
        },
    };
    let y: usize = match read_usize(reader) {
        Ok(y) => y,
        Err(e) => {
            return Err(e);
        },
    };
    Ok((x, y))
}

impl BinaryQuantizer {
    /// Every code has the width that the dimension asks for, and there are `count` codes.
    pub open spec fn wf(&self) -> bool {
        &&& self.bytes_per_vector == groups_of(self.dimension as nat, 8)
        &&& self.codes@.len() == self.count * self.bytes_per_vector
    }

    /// The code of vector `i`.
    pub open spec fn code_at(&self, i: int) -> Seq<u8> {
        row_of(self.codes@, self.bytes_per_vector as nat, i)
    }

    /// The distance of vector `i` from a query.
    pub open spec fn distance(&self, query: Seq<u32>, i: int) -> nat {
        hamming(sign_code(query), self.code_at(i), self.bytes_per_vector as nat)
    }

    /// The distances of all vectors from a query.
    pub open spec fn distances(&self, query: Seq<u32>) -> Seq<u64> {
        Seq::new(self.count as nat, |i: int| self.distance(query, i) as u64)
    }

    /// An empty table.
    pub fn new(dimension: usize, config: BinaryQuantizationConfig) -> (r: Self)
        ensures
            r.wf(),
            r.dimension == dimension,
            r.count == 0,
            r.codes@ == Seq::<u8>::empty(),
            r.config == config,
    {
        let r = BinaryQuantizer {
            dimension,
            bytes_per_vector: ceil_div(dimension, 8),
            codes: Vec::new(),
            count: 0,
            config,
        };
        proof {
            assert(0 * (r.bytes_per_vector as int) == 0) by (nonlinear_arith);
        }
        r
    }

    /// Adds the codes of vectors.
    pub fn add_vectors(&mut self, vectors: &Vec<Vec<u32>>)
        requires
            old(self).wf(),
            all_of_dimension(vectors.deep_view(), old(self).dimension as nat),
            old(self).count + vectors@.len() <= usize::MAX,
        ensures
            final(self).wf(),
            final(self).dimension == old(self).dimension,
            final(self).config == old(self).config,
            final(self).count == old(self).count + vectors@.len(),
            final(self).codes@ == old(self).codes@ + sign_codes(vectors.deep_view()),
    {
        append_sign_codes(&mut self.codes, vectors);
        proof {
            let w = self.bytes_per_vector as int;
            let a = self.count as int;
            let b = vectors@.len() as int;
            lemma_sign_codes_len(vectors.deep_view(), self.dimension as nat);
            assert((a + b) * w == a * w + b * w) by (nonlinear_arith);
        }
        self.count = self.count + vectors.len();
    }

    /// Replaces all codes by those of `vectors`.
    pub fn rebuild_codes(&mut self, vectors: &Vec<Vec<u32>>)
        requires
            old(self).wf(),
            all_of_dimension(vectors.deep_view(), old(self).dimension as nat),
        ensures
            final(self).wf(),
            final(self).dimension == old(self).dimension,
            final(self).config == old(self).config,
            final(self).count == vectors@.len(),
            final(self).codes@ == sign_codes(vectors.deep_view()),
    {
        let mut codes: Vec<u8> = Vec::new();
        append_sign_codes(&mut codes, vectors);
        proof {
            assert(codes@ =~= sign_codes(vectors.deep_view()));
            lemma_sign_codes_len(vectors.deep_view(), self.dimension as nat);
        }
        self.codes = codes;
        self.count = vectors.len();
    }

    /// The code of a query.
    pub fn binarize_query(&self, query: &Vec<u32>) -> (r: Vec<u8>)
        requires
            query@.len() == self.dimension,
        ensures
            r@ == sign_code(query@),
    {
        binarize_vector(query)
    }

    /// The candidates nearest to a query with their distances, the nearest first and equally near
    /// ones by position.
    pub fn search(&self, query: &Vec<u32>, top_k: usize) -> (r: Vec<(usize, u32)>)
        requires
            self.wf(),
            query@.len() == self.dimension,
            8 * self.bytes_per_vector <= u32::MAX,
        ensures
            r@ == least_positions(
                self.distances(query@),
                rescored(
                    top_k as nat,
                    self.config.rescore_multiplier as nat,
                    self.count as nat,
                ),
            ).map_values(|i: usize| (i, self.distance(query@, i as int) as u32)),
    {
        let limit: usize = rescore_count(top_k, self.config.rescore_multiplier, self.count);
        let code = self.binarize_query(query);
        let ghost all = self.distances(query@);
        let ghost width = self.bytes_per_vector as nat;
        let total: usize = self.codes.len();
        let mut keys: Vec<u64> = Vec::new();
        let mut i: usize = 0;
        while i < self.count
            invariant
                self.wf(),
                total == self.codes@.len(),
                code@ == sign_code(query@),
                code@.len() == width == self.bytes_per_vector,
                8 * width <= u32::MAX,
                i <= self.count,
                all == self.distances(query@),
                keys@ =~= all.take(i as int),
            decreases self.count - i,
        {
            proof {
                lemma_row_bounds(self.count as nat, width, i as int);
            }
            let start: usize = i * self.bytes_per_vector;
            let row = vstd::slice::slice_subrange(
                self.codes.as_slice(),
                start,
                start + self.bytes_per_vector,
            );
            proof {
                assert(row@ =~= self.code_at(i as int));
                lemma_hamming_bound(code@, row@, width);
            }
            let d: u32 = hamming_distance(code.as_slice(), row);
            keys.push(d as u64);
            i += 1;
        }
        proof {
            assert(all.take(i as int) =~= all);
        }
        let order = rank(&keys, limit);
        let mut out: Vec<(usize, u32)> = Vec::new();
        let mut j: usize = 0;
        proof {
            crate::ranking::law_least_positions(all, limit as nat);
        }
        while j < order.len()
            invariant
                code@ == sign_code(query@),
                code@.len() == width == self.bytes_per_vector,
                8 * width <= u32::MAX,
                keys@ == all,
                all == self.distances(query@),
                order@ == least_positions(all, limit as nat),
                forall|a: int| 0 <= a < order@.len() ==> (#[trigger] order@[a]) < all.len(),
                j <= order@.len(),
                out@ =~= order@.take(j as int).map_values(
                    |i: usize| (i, self.distance(query@, i as int) as u32),
                ),
            decreases order@.len() - j,
        {
            let at: usize = order[j];
            proof {
                lemma_hamming_bound(code@, self.code_at(at as int), width);
            }
            out.push((at, keys[at] as u32));
            j += 1;
        }
        proof {
            assert(order@.take(j as int) =~= order@);
        }
        out
    }

    /// Appends the parameters. Codes are not written.
    pub fn write_params(&self, out: &mut Vec<u8>)
        ensures
            final(out)@ == old(out)@ + enc_binary_params(
                self.dimension as nat,
                self.config.rescore_multiplier as nat,
            ),
    {
        out.push(2);
        write_usize(out, self.dimension);
        write_usize(out, self.config.rescore_multiplier);
        proof {
            assert(out@ =~= old(out)@ + enc_binary_params(
                self.dimension as nat,
                self.config.rescore_multiplier as nat,
            ));
        }
    }

    /// Reads the parameters that follow the tag.
    pub fn read_params(reader: &mut Reader) -> (r: Result<Self, VectLiteError>)
        requires
            old(reader).wf(),
        ensures
            final(reader).wf(),
            match parse_two_sizes(old(reader).rest()) {
                Ok(((dimension, multiplier), tail)) => {
                    &&& r matches Ok(q)
                    &&& q.wf()
                    &&& q.dimension == dimension
                    &&& q.config.rescore_multiplier == multiplier
                    &&& q.count == 0
                    &&& final(reader).rest() == tail
                },
                Err(e) => r matches Err(x) && x@ == e,
            },
    {
        match read_two_sizes(reader) {
            Ok((dimension, rescore_multiplier)) => Ok(
                BinaryQuantizer::new(dimension, BinaryQuantizationConfig { rescore_multiplier }),
            ),
            Err(e) => Err(e),
        }
    }
}

} // verus!
