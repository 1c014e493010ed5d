use vectlite::codec::Reader;
use vectlite::metric::DistanceMetric;
use vectlite::quantization::{
    binarize_vector, default_product_num_sub_vectors, hamming_distance, read_usize, rescore_count,
    valid_product_num_sub_vectors, validate_quantization_config, write_usize,
    BinaryQuantizationConfig, BinaryQuantizer, MultiVectorQuantizationConfig,
    ProductQuantizationConfig, QuantizationConfig, ScalarQuantizationConfig,
    TwoBitQuantizationConfig,
};
use vectlite::quantizers::{
    find_nearest_centroid, rank_scores, ProductQuantizer, QuantizedIndex, ScalarQuantizer,
};
use vectlite::token_index::MultiVectorQuantizedIndex;
use vectlite::two_bit::{quantize_two_bit, two_bit_approx_dot, TwoBitQuantizer};

fn bits(v: &[f32]) -> Vec<u32> {
    v.iter().map(|x| x.to_bits()).collect()
}

fn floats(v: &[u32]) -> Vec<f32> {
    v.iter().map(|x| f32::from_bits(*x)).collect()
}

fn score(metric: DistanceMetric, a: &[f32], b: &[f32]) -> f32 {
    let pairs = || a.iter().zip(b.iter());
    match metric {
        DistanceMetric::Cosine => {
            let dot: f32 = pairs().map(|(x, y)| x * y).sum();
            let na: f32 = a.iter().map(|x| x * x).sum();
            let nb: f32 = b.iter().map(|x| x * x).sum();
            if na == 0.0 || nb == 0.0 {
                0.0
            } else {
                dot / (na.sqrt() * nb.sqrt())
            }
        }
        DistanceMetric::DotProduct => pairs().map(|(x, y)| x * y).sum(),
        DistanceMetric::Euclidean => -pairs().map(|(x, y)| (x - y) * (x - y)).sum::<f32>().sqrt(),
        DistanceMetric::Manhattan => -pairs().map(|(x, y)| (x - y).abs()).sum::<f32>(),
    }
}

fn squared_distance(a: &[f32], b: &[f32]) -> f32 {
    a.iter().zip(b.iter()).map(|(x, y)| (x - y) * (x - y)).sum()
}

fn nearest(v: &[f32], centroids: &[Vec<f32>]) -> usize {
    let distances: Vec<u32> =
        centroids.iter().map(|c| squared_distance(v, c).to_bits()).collect();
    find_nearest_centroid(&distances)
}

fn kmeans(vectors: &[&[f32]], dimension: usize, k: usize, iterations: usize) -> Vec<Vec<f32>> {
    let actual = k.min(vectors.len());
    let mut centroids: Vec<Vec<f32>> = (0..actual).map(|i| vectors[i].to_vec()).collect();
    for _ in 0..iterations {
        let mut sums = vec![vec![0.0_f32; dimension]; actual];
        let mut counts = vec![0_usize; actual];
        for v in vectors {
            let c = nearest(v, &centroids);
            counts[c] += 1;
            for (j, x) in v.iter().enumerate() {
                sums[c][j] += x;
            }
        }
        for c in 0..actual {
            if counts[c] > 0 {
                for x in sums[c].iter_mut() {
                    *x /= counts[c] as f32;
                }
            } else {
                sums[c] = centroids[c].clone();
            }
        }
        centroids = sums;
    }
    while centroids.len() < k {
        centroids.push(vec![0.0; dimension]);
    }
    centroids
}

fn scale(min: f32, max: f32) -> f32 {
    if max - min < 1e-10 {
        0.0
    } else {
        255.0 / (max - min)
    }
}

fn scalar_rows(q: &ScalarQuantizer, vectors: &[Vec<f32>]) -> Vec<Vec<u8>> {
    let mins = floats(&q.mins);
    let maxs = floats(&q.maxs);
    vectors
        .iter()
        .map(|v| {
            v.iter()
                .enumerate()
                .map(|(i, x)| {
                    let s = scale(mins[i], maxs[i]);
                    if s == 0.0 {
                        128
                    } else {
                        ((x - mins[i]) * s).clamp(0.0, 255.0) as u8
                    }
                })
                .collect()
        })
        .collect()
}

fn product_rows(books: &[Vec<Vec<f32>>], vectors: &[Vec<f32>]) -> Vec<Vec<u8>> {
    vectors
        .iter()
        .map(|v| {
            let part = v.len() / books.len();
            books
                .iter()
                .enumerate()
                .map(|(s, book)| nearest(&v[s * part..(s + 1) * part], book) as u8)
                .collect()
        })
        .collect()
}

fn books_of(q: &ProductQuantizer) -> Vec<Vec<Vec<f32>>> {
    q.codebooks.iter().map(|b| b.iter().map(|c| floats(c)).collect()).collect()
}

fn train(vectors: &[Vec<f32>], dimension: usize, config: QuantizationConfig) -> QuantizedIndex {
    let patterns: Vec<Vec<u32>> = vectors.iter().map(|v| bits(v)).collect();
    match config {
        QuantizationConfig::Scalar(c) => {
            let mut q = ScalarQuantizer::calibrate(&patterns, dimension, c);
            let rows = scalar_rows(&q, vectors);
            q.rebuild_codes(&rows);
            QuantizedIndex::Scalar(q)
        }
        QuantizationConfig::Binary(c) => {
            let mut q = BinaryQuantizer::new(dimension, c);
            q.add_vectors(&patterns);
            QuantizedIndex::Binary(q)
        }
        QuantizationConfig::Product(c) => {
            let part = dimension / c.num_sub_vectors;
            let books: Vec<Vec<Vec<f32>>> = (0..c.num_sub_vectors)
                .map(|s| {
                    let parts: Vec<&[f32]> =
                        vectors.iter().map(|v| &v[s * part..(s + 1) * part]).collect();
                    kmeans(&parts, part, c.num_centroids, c.training_iterations)
                })
                .collect();
            let patterns: Vec<Vec<Vec<u32>>> =
                books.iter().map(|b| b.iter().map(|x| bits(x)).collect()).collect();
            let mut q = ProductQuantizer::with_codebooks(dimension, patterns, c);
            q.add_codes(&product_rows(&books, vectors));
            QuantizedIndex::Product(q)
        }
    }
}

/// The approximate scores or distances of all vectors of an index.
fn approximate(index: &QuantizedIndex, query: &[f32], metric: DistanceMetric) -> Vec<u32> {
    match index {
        QuantizedIndex::Scalar(q) => {
            let mins = floats(&q.mins);
            let maxs = floats(&q.maxs);
            (0..q.count)
                .map(|i| {
                    let v: Vec<f32> = (0..q.dimension)
                        .map(|j| {
                            let s = scale(mins[j], maxs[j]);
                            if s == 0.0 {
                                mins[j]
                            } else {
                                mins[j] + q.codes[i * q.dimension + j] as f32 / s
                            }
                        })
                        .collect();
                    score(metric, query, &v).to_bits()
                })
                .collect()
        }
        QuantizedIndex::Binary(_) => Vec::new(),
        QuantizedIndex::Product(q) => {
            let books = books_of(q);
            let part = q.sub_dimension;
            (0..q.count)
                .map(|i| {
                    (0..q.num_sub_vectors)
                        .map(|s| {
                            let code = q.codes[i * q.num_sub_vectors + s] as usize;
                            squared_distance(&query[s * part..(s + 1) * part], &books[s][code])
                        })
                        .sum::<f32>()
                        .to_bits()
                })
                .collect()
        }
    }
}


fn random_vectors(count: usize, dimension: usize, seed: u64) -> Vec<Vec<f32>> {
    let mut state = seed;
    (0..count)
        .map(|_| {
            (0..dimension)
                .map(|_| {
                    state ^= state << 13;
                    state ^= state >> 7;
                    state ^= state << 17;
                    (state as f32 / u64::MAX as f32) * 2.0 - 1.0
                })
                .collect()
        })
        .collect()
}

fn patterns(vectors: &[Vec<f32>]) -> Vec<Vec<u32>> {
    vectors.iter().map(|v| bits(v)).collect()
}

fn scalar(vectors: &[Vec<f32>], dimension: usize, multiplier: usize) -> ScalarQuantizer {
    let config = ScalarQuantizationConfig { rescore_multiplier: multiplier };
    match train(vectors, dimension, QuantizationConfig::Scalar(config)) {
        QuantizedIndex::Scalar(q) => q,
        _ => panic!("another index"),
    }
}

fn search_scalar(q: &ScalarQuantizer, query: &[f32], top_k: usize) -> Vec<(usize, u32)> {
    let index = QuantizedIndex::Scalar(ScalarQuantizer {
        dimension: q.dimension,
        mins: q.mins.clone(),
        maxs: q.maxs.clone(),
        codes: q.codes.clone(),
        count: q.count,
        config: q.config,
    });
    q.search(&approximate(&index, query, DistanceMetric::Cosine), top_k)
}

#[test]
fn scalar_quantization_basic() {
    let vectors = random_vectors(100, 128, 42);
    let quantizer = scalar(&vectors, 128, ScalarQuantizationConfig::default().rescore_multiplier);
    assert_eq!(quantizer.count, 100);
    assert_eq!(quantizer.codes.len(), 100 * 128);
    assert_eq!(quantizer.dimension, 128);

    let results = search_scalar(&quantizer, &vectors[0], 10);
    assert!(!results.is_empty());
    assert!(results.iter().take(5).any(|(idx, _)| *idx == 0));
}

#[test]
fn binary_quantization_basic() {
    let vectors = random_vectors(100, 128, 42);
    let mut quantizer = BinaryQuantizer::new(128, BinaryQuantizationConfig::default());
    quantizer.add_vectors(&patterns(&vectors));
    assert_eq!(quantizer.count, 100);
    assert_eq!(quantizer.bytes_per_vector, 16);
    assert_eq!(quantizer.codes.len(), 100 * 16);

    let results = quantizer.search(&bits(&vectors[0]), 10);
    assert!(!results.is_empty());
    assert_eq!(results[0].0, 0);
    assert_eq!(results[0].1, 0);
}

#[test]
fn rescore_multiplier_controls_candidate_count_without_hidden_floor() {
    let vectors = random_vectors(200, 64, 7);
    assert_eq!(search_scalar(&scalar(&vectors, 64, 1), &vectors[0], 10).len(), 10);
    assert_eq!(search_scalar(&scalar(&vectors, 64, 4), &vectors[0], 10).len(), 40);

    let mut binary = BinaryQuantizer::new(64, BinaryQuantizationConfig { rescore_multiplier: 2 });
    binary.add_vectors(&patterns(&vectors));
    assert_eq!(binary.search(&bits(&vectors[0]), 10).len(), 20);
}

fn product(vectors: &[Vec<f32>], dimension: usize, config: ProductQuantizationConfig) -> QuantizedIndex {
    train(vectors, dimension, QuantizationConfig::Product(config))
}

#[test]
fn product_quantization_basic() {
    let vectors = random_vectors(200, 128, 42);
    let config = ProductQuantizationConfig {
        num_sub_vectors: 8,
        num_centroids: 16,
        training_iterations: 5,
        rescore_multiplier: 10,
    };
    let index = product(&vectors, 128, config);
    let distances = approximate(&index, &vectors[0], DistanceMetric::Cosine);
    match &index {
        QuantizedIndex::Product(quantizer) => {
            assert_eq!(quantizer.count, 200);
            assert_eq!(quantizer.num_sub_vectors, 8);
            assert_eq!(quantizer.sub_dimension, 16);
            assert_eq!(quantizer.codes.len(), 200 * 8);
            let results = quantizer.search(&distances, 10);
            assert!(!results.is_empty());
            assert_eq!(results[0].0, 0);
        }
        _ => panic!("another index"),
    }
}

#[test]
fn quantized_index_build_and_search() {
    let vectors = random_vectors(100, 64, 123);
    let query = bits(&vectors[0]);
    let find = |config: QuantizationConfig| {
        let index = train(&vectors, 64, config);
        let scores = approximate(&index, &vectors[0], DistanceMetric::Cosine);
        index.search_candidates(&query, &scores, 10)
    };

    let candidates = find(QuantizationConfig::Scalar(ScalarQuantizationConfig::default()));
    assert!(!candidates.is_empty());
    assert!(candidates.contains(&0));

    let candidates = find(QuantizationConfig::Binary(BinaryQuantizationConfig::default()));
    assert!(!candidates.is_empty());
    assert_eq!(candidates[0], 0);

    let candidates = find(QuantizationConfig::Product(ProductQuantizationConfig {
        num_sub_vectors: 8,
        num_centroids: 16,
        training_iterations: 5,
        rescore_multiplier: 10,
    }));
    assert!(!candidates.is_empty());
    assert_eq!(candidates[0], 0);
}

fn reread(original: &QuantizedIndex) -> QuantizedIndex {
    let mut buf = Vec::new();
    original.write_params(&mut buf);
    QuantizedIndex::read_params(&mut Reader::new(&buf)).expect("written parameters")
}

#[test]
fn serialization_roundtrip_scalar() {
    let vectors = random_vectors(50, 32, 99);
    let config = ScalarQuantizationConfig { rescore_multiplier: 7 };
    let original = train(&vectors, 32, QuantizationConfig::Scalar(config));
    let restored = reread(&original);
    match (&original, &restored) {
        (QuantizedIndex::Scalar(a), QuantizedIndex::Scalar(b)) => {
            assert_eq!(a.dimension, b.dimension);
            assert_eq!(a.mins, b.mins);
            assert_eq!(a.maxs, b.maxs);
            assert_eq!(a.config, b.config);
        }
        _ => panic!("type mismatch"),
    }
}

#[test]
fn serialization_roundtrip_binary() {
    let config = BinaryQuantizationConfig { rescore_multiplier: 12 };
    let original =
        train(&[vec![1.0, -1.0, 0.5, -0.3]], 4, QuantizationConfig::Binary(config));
    let restored = reread(&original);
    match (&original, &restored) {
        (QuantizedIndex::Binary(a), QuantizedIndex::Binary(b)) => {
            assert_eq!(a.dimension, b.dimension);
            assert_eq!(a.config, b.config);
        }
        _ => panic!("type mismatch"),
    }
}

#[test]
fn serialization_roundtrip_product() {
    let vectors = random_vectors(50, 32, 77);
    let config = ProductQuantizationConfig {
        num_sub_vectors: 4,
        num_centroids: 8,
        training_iterations: 3,
        rescore_multiplier: 5,
    };
    let original = product(&vectors, 32, config);
    let restored = reread(&original);
    match (&original, &restored) {
        (QuantizedIndex::Product(a), QuantizedIndex::Product(b)) => {
            assert_eq!(a.dimension, b.dimension);
            assert_eq!(a.num_sub_vectors, b.num_sub_vectors);
            assert_eq!(a.num_centroids, b.num_centroids);
            assert_eq!(a.codebooks.len(), b.codebooks.len());
            for (ca, cb) in a.codebooks.iter().zip(b.codebooks.iter()) {
                for (va, vb) in ca.iter().zip(cb.iter()) {
                    assert_eq!(va.len(), vb.len());
                    for (fa, fb) in floats(va).iter().zip(floats(vb).iter()) {
                        assert!((fa - fb).abs() < 1e-6);
                    }
                }
            }
            assert_eq!(a.config, b.config);
        }
        _ => panic!("type mismatch"),
    }
}

#[test]
fn hamming_distance_correctness() {
    assert_eq!(hamming_distance(&[0b00000000], &[0b00000000]), 0);
    assert_eq!(hamming_distance(&[0b11111111], &[0b00000000]), 8);
    assert_eq!(hamming_distance(&[0b10101010], &[0b01010101]), 8);
    assert_eq!(hamming_distance(&[0b10101010], &[0b10101010]), 0);
    assert_eq!(hamming_distance(&[0b10000000], &[0b00000000]), 1);
}

#[test]
fn binarize_vector_correctness() {
    let binary = binarize_vector(&bits(&[1.0, -1.0, 0.5, -0.5, 0.0, 0.1, -0.1, 0.9]));
    assert_eq!(binary.len(), 1);
    assert_eq!(binary[0], 0b10100101);
}

#[test]
fn two_bit_quantization_basic() {
    let vectors = random_vectors(100, 64, 42);
    let config = TwoBitQuantizationConfig { rescore_multiplier: 4 };
    let quantizer = TwoBitQuantizer::train(&patterns(&vectors), 64, config);
    assert_eq!(quantizer.dimension, 64);
    assert_eq!(quantizer.count, 100);
    assert_eq!(quantizer.bytes_per_vector, 16);
    assert_eq!(quantizer.boundaries.len(), 64 * 3);

    let results = quantizer.search(&bits(&vectors[0]), 10);
    assert!(!results.is_empty());
    assert!(results.iter().take(5).any(|(idx, _)| *idx == 0));
}

#[test]
fn two_bit_quantize_and_approx_dot() {
    let boundaries = bits(&[-0.5, 0.0, 0.5, -0.5, 0.0, 0.5, -0.5, 0.0, 0.5, -0.5, 0.0, 0.5]);
    let v1 = bits(&[-1.0, -0.25, 0.25, 1.0]);
    let v2 = bits(&[-1.0, -0.25, 0.25, 1.0]);
    let q1 = quantize_two_bit(&v1, &boundaries, 1);
    let q2 = quantize_two_bit(&v2, &boundaries, 1);
    let dot = two_bit_approx_dot(&q1, &q2, 4);
    assert!(dot > 0);
    assert_eq!(dot, 14);
}

#[test]
fn two_bit_serialization_roundtrip() {
    let vectors = random_vectors(50, 32, 99);
    let config = TwoBitQuantizationConfig { rescore_multiplier: 6 };
    let original = TwoBitQuantizer::train(&patterns(&vectors), 32, config);

    let mut buf = Vec::new();
    original.write_params(&mut buf);
    let mut cursor = Reader::new(&buf);
    assert_eq!(cursor.u8().expect("a tag"), 4);
    let restored = TwoBitQuantizer::read_params(&mut cursor).expect("written parameters");

    assert_eq!(original.dimension, restored.dimension);
    assert_eq!(original.boundaries.len(), restored.boundaries.len());
    for (a, b) in floats(&original.boundaries).iter().zip(floats(&restored.boundaries).iter()) {
        assert!((a - b).abs() < 1e-6);
    }
    assert_eq!(original.config.rescore_multiplier, restored.config.rescore_multiplier);
}

#[test]
fn multi_vector_quantized_index_basic() {
    let mut docs: Vec<Vec<Vec<u32>>> = Vec::new();
    for doc_idx in 0..5 {
        let n_tokens = 3 + (doc_idx % 3);
        docs.push(patterns(&random_vectors(n_tokens, 16, 100 + doc_idx as u64)));
    }
    let config =
        MultiVectorQuantizationConfig::TwoBit(TwoBitQuantizationConfig { rescore_multiplier: 4 });
    let index = MultiVectorQuantizedIndex::build(&docs, 16, &config);
    assert_eq!(index.doc_ranges.len(), 5);
    let total_tokens: usize = index.doc_ranges.iter().map(|(_, count)| count).sum();
    assert_eq!(total_tokens, 19);

    let results = index.search(&docs[0], 3);
    assert!(!results.is_empty());
    assert!(results.iter().take(3).any(|&idx| idx == 0));
}

#[test]
fn multi_vector_quantized_index_serialization_roundtrip() {
    let docs: Vec<Vec<Vec<u32>>> =
        (0..3).map(|i| patterns(&random_vectors(4, 8, 200 + i))).collect();
    let config =
        MultiVectorQuantizationConfig::TwoBit(TwoBitQuantizationConfig { rescore_multiplier: 2 });
    let original = MultiVectorQuantizedIndex::build(&docs, 8, &config);

    let mut buf = Vec::new();
    original.write_params(&mut buf);
    let restored =
        MultiVectorQuantizedIndex::read_params(&mut Reader::new(&buf)).expect("parameters");
    assert_eq!(original.doc_ranges, restored.doc_ranges);
    assert_eq!(original.quantizer.dimension, restored.quantizer.dimension);
    assert_eq!(original.quantizer.boundaries.len(), restored.quantizer.boundaries.len());
    assert_eq!(
        original.quantizer.config.rescore_multiplier,
        restored.quantizer.config.rescore_multiplier,
    );
}

#[test]
fn sub_vector_counts() {
    assert_eq!(valid_product_num_sub_vectors(12), vec![1, 2, 3, 4, 6, 12]);
    let preferred = default_product_num_sub_vectors(128);
    assert_eq!(128 % preferred, 0);
    assert!(valid_product_num_sub_vectors(146).contains(&default_product_num_sub_vectors(146)));
}

#[test]
fn configurations_are_checked() {
    let product = |num_sub_vectors: usize, num_centroids: usize| {
        QuantizationConfig::Product(ProductQuantizationConfig {
            num_sub_vectors,
            num_centroids,
            training_iterations: 1,
            rescore_multiplier: 1,
        })
    };
    assert!(validate_quantization_config(&product(4, 16), 8).is_ok());
    assert!(validate_quantization_config(&product(3, 16), 8).is_err());
    assert!(validate_quantization_config(&product(0, 16), 8).is_err());
    assert!(validate_quantization_config(&product(4, 0), 8).is_err());
    assert!(validate_quantization_config(&product(4, 257), 8).is_err());
}

#[test]
fn rescored_counts() {
    assert_eq!(rescore_count(10, 4, 1000), 40);
    assert_eq!(rescore_count(10, 4, 25), 25);
    assert_eq!(rescore_count(0, 0, 25), 1);
    assert_eq!(rescore_count(usize::MAX, 2, 25), 25);
}

#[test]
fn sizes_are_read_back() {
    let mut buf = Vec::new();
    write_usize(&mut buf, 0x0102_0304);
    assert_eq!(buf, vec![4, 3, 2, 1, 0, 0, 0, 0]);
    assert_eq!(read_usize(&mut Reader::new(&buf)).expect("a size"), 0x0102_0304);
    assert!(read_usize(&mut Reader::new(&buf[..7])).is_err());
}

#[test]
fn unknown_parameters_are_refused() {
    assert!(QuantizedIndex::read_params(&mut Reader::new(&[9])).is_err());
    assert!(QuantizedIndex::read_params(&mut Reader::new(&[])).is_err());
}

#[test]
fn scores_are_ranked_with_ties_by_position() {
    let scores = bits(&[0.5, 2.0, -1.0, 2.0]);
    assert_eq!(
        rank_scores(&scores, true, 3).iter().map(|p| p.0).collect::<Vec<_>>(),
        vec![1, 3, 0]
    );
    assert_eq!(
        rank_scores(&scores, false, 2).iter().map(|p| p.0).collect::<Vec<_>>(),
        vec![2, 0]
    );
}

#[test]
fn the_nearest_centroid_is_the_first_of_the_least() {
    assert_eq!(find_nearest_centroid(&bits(&[3.0, 1.0, 1.0])), 1);
    assert_eq!(find_nearest_centroid(&bits(&[f32::NAN, 2.0])), 1);
    assert_eq!(find_nearest_centroid(&Vec::new()), 0);
}

#[test]
fn hamming_distance_is_a_metric_on_codes() {
    let a = [0b1010u8, 0xff];
    let b = [0b0110u8, 0x0f];
    let c = [0b0000u8, 0xf0];
    assert_eq!(hamming_distance(&a, &b), hamming_distance(&b, &a));
    assert!(hamming_distance(&a, &c) <= hamming_distance(&a, &b) + hamming_distance(&b, &c));
}
