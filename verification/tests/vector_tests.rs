//! Tests of the vector subsystem: distances, compression, the HNSW
//! graph, collections and filtered search.
//!
//! Coordinates are fixed-point integers: one unit is a millionth, so
//! `1.0` is written `1_000_000`.

use keradb::{CompressedVector, CompressedVectorStore, CompressionConfig, CompressionMode,
    Database, DeltaCompressor, HnswIndex, MetadataFilter, MockEmbeddingProvider,
    TfIdfEmbeddingProvider, Val, VectorCollection, VectorConfig};
use keradb::distance::{cosine_distance, euclidean_distance, manhattan_distance, norm,
    normalize, dot_product, FIXED_ONE};
use keradb::embedding::{is_normalized, EmbeddingProvider};

fn obj(fields: Vec<(&str, Val)>) -> Val {
    Val::Obj(fields.into_iter().map(|(k, v)| (k.to_string(), v)).collect())
}

fn s(text: &str) -> Val {
    Val::Str(text.to_string())
}

/// A deterministic pseudo-random coordinate stream within the range.
fn pseudo_vector(dim: usize, seed: u64) -> Vec<i64> {
    let mut state = seed.wrapping_mul(2862933555777941757).wrapping_add(3037000493);
    let mut v = Vec::new();
    for _ in 0..dim {
        state = state
            .wrapping_mul(6364136223846793005)
            .wrapping_add(1442695040888963407);
        let raw = (state >> 44) as i64;
        v.push(raw - 524288);
    }
    v
}

#[test]
fn test_cosine_distance() {
    let a = vec![FIXED_ONE, 0, 0];
    let b = vec![FIXED_ONE, 0, 0];
    assert!(cosine_distance(&a, &b).abs() < 100);
    let c = vec![0, FIXED_ONE, 0];
    assert!((cosine_distance(&a, &c) - FIXED_ONE).abs() < 100);
    let d = vec![-FIXED_ONE, 0, 0];
    assert!((cosine_distance(&a, &d) - 2 * FIXED_ONE).abs() < 100);
}

#[test]
fn test_euclidean_distance() {
    // 0.3-0.4-0.5: a scaled 3-4-5 triangle.
    let a = vec![0, 0, 0];
    let b = vec![300_000, 400_000, 0];
    assert_eq!(euclidean_distance(&a, &b), 500_000);
}

#[test]
fn test_manhattan_distance() {
    // Differences of 0.3, 0.4 and 0.5 sum to 1.2.
    let a = vec![100_000, 200_000, 300_000];
    let b = vec![400_000, 600_000, 800_000];
    assert_eq!(manhattan_distance(&a, &b), 1_200_000);
}

#[test]
fn test_normalize() {
    let mut v = vec![300_000, 400_000];
    normalize(&mut v);
    assert!((norm(&v) - FIXED_ONE).abs() < 100);
    assert!((v[0] - 600_000).abs() < 100);
    assert!((v[1] - 800_000).abs() < 100);
}

#[test]
fn test_delta_compression() {
    // A relaxed density bound for a tiny vector.
    let config = CompressionConfig {
        mode: CompressionMode::Delta,
        sparsity_threshold: 1_000,
        max_density: 50,
        anchor_frequency: 8,
        quantization_bits: 8,
    };
    let compressor = DeltaCompressor::new(config);
    let base = vec![100_000, 200_000, 300_000, 400_000, 500_000];
    let similar = vec![110_000, 200_000, 300_000, 400_000, 520_000];
    let compressed = compressor.compress(&similar, &base);
    assert!(compressed.is_some(), "Compression should succeed");
    if let Some(CompressedVector::Delta { deltas, .. }) = compressed {
        assert!(deltas.len() <= 2, "Expected <= 2 deltas, got {}", deltas.len());
    } else {
        panic!("expected a sparse delta");
    }
}

#[test]
fn test_compression_roundtrip() {
    let config = CompressionConfig {
        mode: CompressionMode::Delta,
        sparsity_threshold: 1_000,
        max_density: 60,
        anchor_frequency: 8,
        quantization_bits: 8,
    };
    let compressor = DeltaCompressor::new(config);
    let base = vec![100_000, 200_000, 300_000, 400_000, 500_000];
    let original = vec![110_000, 200_000, 305_000, 400_000, 520_000];
    let compressed = compressor.compress(&original, &base).expect("Compression should succeed");
    let decompressed = compressor.decompress(&compressed, Some(&base)).unwrap();
    for (o, d) in original.iter().zip(decompressed.iter()) {
        assert!((o - d).abs() <= 1_000, "Decompression error too large");
    }
}

#[test]
fn test_compressed_store() {
    let config = CompressionConfig {
        mode: CompressionMode::Delta,
        sparsity_threshold: 1_000,
        max_density: 50,
        anchor_frequency: 4,
        quantization_bits: 8,
    };
    let mut store = CompressedVectorStore::new(128, config);
    let v1 = pseudo_vector(128, 7);
    assert!(store.insert(0, v1.clone(), None));
    assert!(store.is_anchor(0));
    for i in 1..10u64 {
        // Differ from the anchor in roughly a tenth of the components.
        let mut v = v1.clone();
        let mut k = 0;
        while k < v.len() {
            v[k] += 100_000;
            k += 10;
        }
        assert!(store.insert(i, v, Some(0)));
    }
    let stats = store.stats();
    assert!(stats.delta_count > 0, "Expected some delta-compressed vectors");
}

#[test]
fn test_quantized_rounding_to_nearest() {
    let config = CompressionConfig {
        mode: CompressionMode::QuantizedDelta,
        sparsity_threshold: 1_000,
        max_density: 100,
        anchor_frequency: 16,
        quantization_bits: 8,
    };
    let compressor = DeltaCompressor::new(config);
    let base = vec![0i64, 0, 0, 0];
    let v = vec![1510i64, 0, 0, 0];
    // scale = ceil(1510 / 127) = 12; 1510 / 12 = 125.83..., which must
    // round to 126 (truncation would store 125 and reconstruct 1500).
    let compressed = compressor.compress(&v, &base).unwrap();
    if let CompressedVector::QuantizedDelta { ref deltas, scale, .. } = compressed {
        assert_eq!(scale, 12);
        assert_eq!(deltas.as_slice(), &[(0u16, 126i8)]);
        let out = compressor.decompress(&compressed, Some(&base)).unwrap();
        assert_eq!(out[0], 1512);
    } else {
        panic!("expected a quantized delta");
    }
}

#[test]
fn test_quantized_compression() {
    let config = CompressionConfig {
        mode: CompressionMode::QuantizedDelta,
        sparsity_threshold: 1_000,
        max_density: 20,
        anchor_frequency: 16,
        quantization_bits: 8,
    };
    let compressor = DeltaCompressor::new(config);
    let base = vec![100_000i64; 128];
    let mut similar = vec![100_000i64; 128];
    let mut i = 0;
    while i < 128 {
        similar[i] = 150_000;
        i += 10;
    }
    let compressed = compressor.compress(&similar, &base);
    assert!(compressed.is_some(), "Quantized compression should succeed");
    if let Some(CompressedVector::QuantizedDelta { ref deltas, scale, .. }) = compressed {
        assert!(deltas.len() <= 20, "Expected sparse quantized delta");
        assert!(scale >= 1);
        // The reconstruction is within the scale (kept components) or
        // the threshold (dropped ones), per component.
        let out = compressor
            .decompress(compressed.as_ref().unwrap(), Some(&base))
            .unwrap();
        let bound = std::cmp::max(1_000, scale);
        for (o, d) in similar.iter().zip(out.iter()) {
            assert!((o - d).abs() <= bound, "error {} above {}", (o - d).abs(), bound);
        }
    } else {
        panic!("expected a quantized delta");
    }
}

#[test]
fn test_high_compression_scenario() {
    let compressor = DeltaCompressor::new(CompressionConfig::delta());
    let base = pseudo_vector(768, 42);
    let mut similar = base.clone();
    let mut i = 0;
    while i < 768 {
        similar[i] += 100_000;
        i += 20;
    }
    let compressed = compressor.compress(&similar, &base).unwrap();
    if let CompressedVector::Delta { deltas, .. } = compressed {
        assert!(deltas.len() * 10 < 768, "Expected < 10% density");
        let full_size = 768 * 4;
        let delta_size = deltas.len() * 6 + 16;
        assert!(delta_size * 2 < full_size, "Expected > 50% storage savings");
    } else {
        panic!("expected a sparse delta");
    }
}

#[test]
fn scenario_compression_savings() {
    // A 768-dimensional anchor and 99 siblings, each differing from it
    // in exactly 5% of components by a tenth of a unit.
    let config = CompressionConfig {
        mode: CompressionMode::Delta,
        sparsity_threshold: 1_000,
        max_density: 15,
        anchor_frequency: 1000,
        quantization_bits: 8,
    };
    let mut store = CompressedVectorStore::new(768, config);
    let base = pseudo_vector(768, 11);
    assert!(store.insert(0, base.clone(), None));
    for i in 1..100u64 {
        let mut v = base.clone();
        let mut k = (i as usize) % 20;
        let mut changed = 0;
        while changed < 38 {
            v[k % 768] += 100_000;
            k += 19;
            changed += 1;
        }
        assert!(store.insert(i, v, Some(0)));
    }
    let stats = store.stats();
    assert!(stats.compression_ratio >= 50, "ratio was {}", stats.compression_ratio);
}

#[test]
fn test_density_bound_forces_anchor() {
    // A delta denser than the bound is refused by the compressor.
    let config = CompressionConfig {
        mode: CompressionMode::Delta,
        sparsity_threshold: 1_000,
        max_density: 10,
        anchor_frequency: 1000,
        quantization_bits: 8,
    };
    let compressor = DeltaCompressor::new(config);
    let base = vec![0i64; 100];
    let mut dense = vec![0i64; 100];
    for k in 0..50 {
        dense[k] = 50_000;
    }
    assert!(compressor.compress(&dense, &base).is_none());
    // The store falls back to an anchor for it.
    let mut store = CompressedVectorStore::new(100, config);
    assert!(store.insert(0, base, None));
    assert!(store.insert(1, dense, Some(0)));
    assert!(store.is_anchor(1));
}

#[test]
fn test_insert_and_search() {
    let config = VectorConfig::new(128);
    let mut index = HnswIndex::new(config);
    let mut ids = Vec::new();
    for i in 0..100u64 {
        let v = pseudo_vector(128, i + 1000);
        let id = index.insert(v).unwrap();
        ids.push(id);
    }
    assert_eq!(index.len(), 100);
    let query = pseudo_vector(128, 424242);
    let results = index.search(&query, 10).unwrap();
    assert_eq!(results.len(), 10);
    for i in 1..results.len() {
        assert!(results[i].1 >= results[i - 1].1);
    }
}

#[test]
fn test_exact_match() {
    let config = VectorConfig::new(4);
    let mut index = HnswIndex::new(config);
    let v1 = vec![FIXED_ONE, 0, 0, 0];
    let v2 = vec![0, FIXED_ONE, 0, 0];
    let v3 = vec![0, 0, FIXED_ONE, 0];
    let id1 = index.insert(v1.clone()).unwrap();
    let _id2 = index.insert(v2).unwrap();
    let _id3 = index.insert(v3).unwrap();
    let results = index.search(&v1, 1).unwrap();
    assert_eq!(results[0].0, id1);
    assert!(results[0].1 < 10_000);
}

#[test]
fn scenario_vector_exact() {
    let mut db = Database::create();
    db.create_vector_collection("e", VectorConfig::new(4)).unwrap();
    let i1 = db
        .insert_vector("e", vec![FIXED_ONE, 0, 0, 0], None)
        .unwrap();
    let _i2 = db.insert_vector("e", vec![0, FIXED_ONE, 0, 0], None).unwrap();
    let _i3 = db.insert_vector("e", vec![0, 0, FIXED_ONE, 0], None).unwrap();
    let results = db
        .vector_search("e", &vec![FIXED_ONE, 0, 0, 0], 1)
        .unwrap();
    assert_eq!(results.len(), 1);
    assert_eq!(results[0].document.id, i1);
    assert!(results[0].score < 100);
}

#[test]
fn test_collection_basic() {
    let config = VectorConfig::new(64);
    let mut coll = VectorCollection::new("test".to_string(), config);
    let id1 = coll
        .insert(pseudo_vector(64, 1), Some(obj(vec![("category", s("A"))])))
        .unwrap();
    let _id2 = coll
        .insert(pseudo_vector(64, 2), Some(obj(vec![("category", s("B"))])))
        .unwrap();
    assert_eq!(coll.len(), 2);
    let doc = coll.get(id1).unwrap();
    match doc.metadata.get("category") {
        Some(Val::Str(c)) => assert_eq!(c, "A"),
        _ => panic!("missing category"),
    }
}

#[test]
fn test_filtered_search() {
    let config = VectorConfig::new(32);
    let mut coll = VectorCollection::new("test".to_string(), config);
    for i in 0..50u64 {
        let category = if i % 2 == 0 { "even" } else { "odd" };
        coll.insert(
            pseudo_vector(32, i + 7),
            Some(obj(vec![("category", s(category)), ("index", Val::Int(i as i64))])),
        )
        .unwrap();
    }
    let query = pseudo_vector(32, 99);
    let filter = MetadataFilter::new().eq("category", s("even"));
    let results = coll.search_filtered(&query, 10, &filter).unwrap();
    assert!(!results.is_empty());
    for r in &results {
        match r.document.metadata.get("category") {
            Some(Val::Str(c)) => assert_eq!(c, "even"),
            _ => panic!("missing category"),
        }
    }
}

#[test]
fn scenario_filtered_search() {
    let mut db = Database::create();
    db.create_vector_collection("f", VectorConfig::new(16)).unwrap();
    for i in 0..50u64 {
        let category = if i % 2 == 0 { "even" } else { "odd" };
        db.insert_vector(
            "f",
            pseudo_vector(16, i + 31),
            Some(obj(vec![("category", s(category))])),
        )
        .unwrap();
    }
    let filter = MetadataFilter::new().eq("category", s("even"));
    let results = db
        .vector_search_filtered("f", &pseudo_vector(16, 555), 10, &filter)
        .unwrap();
    assert!(!results.is_empty());
    for r in &results {
        match r.document.metadata.get("category") {
            Some(Val::Str(c)) => assert_eq!(c, "even"),
            _ => panic!("missing category"),
        }
    }
}

#[test]
fn test_text_search() {
    let config = VectorConfig::new(384);
    let provider = keradb::embedding::ProviderKind::Mock(MockEmbeddingProvider::new(384));
    let mut coll = VectorCollection::with_embedding_provider(
        "docs".to_string(),
        config,
        provider,
    );
    coll.insert_text("machine learning is a subset of artificial intelligence", None)
        .unwrap();
    coll.insert_text("deep learning uses neural networks", None).unwrap();
    coll.insert_text("rust is a systems programming language", None).unwrap();
    let results = coll.search_text("AI and machine learning", 2).unwrap();
    assert_eq!(results.len(), 2);
}

#[test]
fn test_mock_provider() {
    let provider = MockEmbeddingProvider::new(384);
    let e1 = provider.embed("hello world").unwrap();
    let e2 = provider.embed("hello world").unwrap();
    let e3 = provider.embed("goodbye world").unwrap();
    assert_eq!(e1, e2);
    assert_ne!(e1, e3);
    assert!(is_normalized(&e1));
    assert!(is_normalized(&e3));
}

#[test]
fn test_tfidf_provider() {
    let provider = TfIdfEmbeddingProvider::new(256);
    let e1 = provider.embed("machine learning is great").unwrap();
    let e2 = provider.embed("deep learning is awesome").unwrap();
    assert_eq!(e1.len(), 256);
    assert!(is_normalized(&e1));
    let dot = dot_product(&e1, &e2);
    assert!(dot > 0);
}

#[test]
fn test_hnsw_recall_sanity() {
    // The brute-force nearest of a query should be in the top ten of
    // the approximate search on a hundred unit-ish vectors.
    let config = VectorConfig::new(128);
    let mut index = HnswIndex::new(config);
    let mut stored = Vec::new();
    for i in 0..100u64 {
        let mut v = pseudo_vector(128, i * 13 + 5);
        normalize(&mut v);
        let id = index.insert(v.clone()).unwrap();
        stored.push((id, v));
    }
    let mut q = pseudo_vector(128, 777);
    normalize(&mut q);
    let mut best_id = stored[0].0;
    let mut best_d = cosine_distance(&q, &stored[0].1);
    for (id, v) in &stored {
        let d = cosine_distance(&q, v);
        if d < best_d {
            best_d = d;
            best_id = *id;
        }
    }
    let results = index.search(&q, 10).unwrap();
    assert!(results.iter().any(|(id, _)| *id == best_id));
}

#[test]
fn test_vector_delete_and_errors() {
    let mut db = Database::create();
    db.create_vector_collection("v", VectorConfig::new(8)).unwrap();
    assert!(matches!(
        db.create_vector_collection("v", VectorConfig::new(8)),
        Err(keradb::KeraDBError::CollectionExists(_))
    ));
    assert!(matches!(
        db.insert_vector("missing", vec![0; 8], None),
        Err(keradb::KeraDBError::CollectionNotFound(_))
    ));
    let id = db.insert_vector("v", pseudo_vector(8, 3), None).unwrap();
    assert!(db.delete_vector("v", id).unwrap());
    assert!(!db.delete_vector("v", id).unwrap());
    assert!(db.get_vector("v", id).unwrap().is_none());
    // A wrong dimension is rejected.
    assert!(matches!(
        db.insert_vector("v", vec![0; 3], None),
        Err(keradb::KeraDBError::InvalidFormat(_))
    ));
    // An unusable configuration is rejected.
    let bad = VectorConfig {
        dimensions: 8,
        distance: keradb::Distance::Cosine,
        m: 1,
        ef_construction: 200,
        ef_search: 50,
        lazy_embedding: false,
        embedding_model: None,
        compression: CompressionConfig::delta(),
    };
    assert!(matches!(
        db.create_vector_collection("w", bad),
        Err(keradb::KeraDBError::VectorError(_))
    ));
}

#[test]
fn test_distance_names() {
    assert_eq!(keradb::Distance::Cosine.name(), "cosine");
    assert_eq!(keradb::Distance::Euclidean.name(), "euclidean");
    assert_eq!(keradb::Distance::DotProduct.name(), "dot_product");
    assert_eq!(keradb::Distance::Manhattan.name(), "manhattan");
}

#[test]
fn test_hnsw_bytes_round_trip() {
    let mut g = HnswIndex::new(VectorConfig::new(3));
    let a = g.insert(vec![1_000_000, 0, 0]).unwrap();
    let b = g.insert(vec![0, 1_000_000, 0]).unwrap();
    let c = g
        .insert_with_metadata(vec![0, 0, 1_000_000], Some("third axis".to_string()))
        .unwrap();
    let bytes = g.to_bytes();
    let g2 = HnswIndex::from_bytes(bytes.as_slice()).unwrap();
    assert_eq!(g2.len(), 3);
    assert_eq!(g2.to_bytes(), bytes);
    let da = g2.get(a).unwrap();
    assert_eq!(da.embedding.unwrap(), vec![1_000_000, 0, 0]);
    let db2 = g2.get(b).unwrap();
    assert_eq!(db2.embedding.unwrap(), vec![0, 1_000_000, 0]);
    let dc = g2.get(c).unwrap();
    assert_eq!(dc.text.as_deref(), Some("third axis"));
    let found = g2.search(&vec![900_000, 100_000, 0], 1).unwrap();
    assert_eq!(found[0].0, a);
}

#[test]
fn test_hnsw_from_bytes_rejects_garbage() {
    assert!(HnswIndex::from_bytes(b"not json").is_err());
    assert!(HnswIndex::from_bytes(b"[1,2,3]").is_err());
    let g = HnswIndex::new(VectorConfig::new(2));
    let mut bytes = g.to_bytes();
    bytes[0] = b'x';
    assert!(HnswIndex::from_bytes(bytes.as_slice()).is_err());
}

#[test]
fn test_collection_bytes_round_trip() {
    let mut coll = VectorCollection::new("places".to_string(), VectorConfig::new(2));
    let id0 = coll
        .insert(vec![1_000_000, 0], Some(obj(vec![("city", s("rome"))])))
        .unwrap();
    let id1 = coll.insert(vec![0, 1_000_000], None).unwrap();
    let bytes = coll.to_bytes();
    let coll2 = VectorCollection::from_bytes(bytes.as_slice()).unwrap();
    assert_eq!(coll2.len(), 2);
    assert_eq!(coll2.to_bytes(), bytes);
    let d0 = coll2.get(id0).unwrap();
    assert_eq!(
        keradb::jsontext::render_to_bytes(&d0.metadata),
        keradb::jsontext::render_to_bytes(&obj(vec![("city", s("rome"))]))
    );
    let d1 = coll2.get(id1).unwrap();
    assert_eq!(d1.embedding.unwrap(), vec![0, 1_000_000]);
}

#[test]
fn test_database_vector_image_round_trip() {
    let mut db = Database::create();
    assert!(db.vector_image().is_none());
    db.create_vector_collection("a", VectorConfig::new(2)).unwrap();
    db.create_vector_collection("b", VectorConfig::new(3)).unwrap();
    let ia = db
        .insert_vector("a", vec![1_000_000, 0], Some(obj(vec![("tag", s("x"))])))
        .unwrap();
    db.insert_vector("b", vec![0, 1_000_000, 0], None).unwrap();
    let image = db.vector_image().unwrap();

    let mut db2 = Database::create();
    db2.load_vector_image(image.as_slice());
    assert_eq!(db2.list_vector_collections().len(), 2);
    assert_eq!(db2.vector_image().unwrap(), image);
    let got = db2.get_vector("a", ia).unwrap().unwrap();
    assert_eq!(got.embedding.unwrap(), vec![1_000_000, 0]);
    assert_eq!(
        keradb::jsontext::render_to_bytes(&got.metadata),
        keradb::jsontext::render_to_bytes(&obj(vec![("tag", s("x"))]))
    );
    let found = db2.vector_search("b", &vec![0, 900_000, 0], 1).unwrap();
    assert_eq!(found.len(), 1);

    // An unreadable image leaves the subsystem empty.
    let mut db3 = Database::create();
    db3.create_vector_collection("junk", VectorConfig::new(2)).unwrap();
    db3.load_vector_image(b"broken image");
    assert_eq!(db3.list_vector_collections().len(), 0);
}

#[test]
fn test_vector_stats_reports_config() {
    let mut db = Database::create();
    let cfg = VectorConfig::new(4).with_distance(keradb::Distance::Euclidean);
    db.create_vector_collection("cfg", cfg).unwrap();
    db.insert_vector("cfg", vec![0, 0, 0, 0], None).unwrap();
    let st = db.vector_stats("cfg").unwrap();
    assert_eq!(st.name, "cfg");
    assert_eq!(st.vector_count, 1);
    assert_eq!(st.dimensions, 4);
    assert_eq!(st.distance, keradb::Distance::Euclidean);
    assert!(!st.lazy_embedding);
    assert!(db.vector_stats("missing").is_err());
}

#[test]
fn test_store_remove_iff_and_stats_fields() {
    let mut store = CompressedVectorStore::new(4, CompressionConfig::none());
    assert!(!store.remove(9));
    assert!(store.insert(1, vec![1, 2, 3, 4], None));
    let st = store.stats();
    assert_eq!(st.total_vectors, 1);
    assert_eq!(st.anchor_count, 1);
    assert_eq!(st.delta_count, 0);
    // One full entry of four coordinates: 4 * 4 + 8 packed bytes.
    assert_eq!(st.compressed_bytes, 24);
    assert_eq!(st.uncompressed_bytes, 16);
    assert_eq!(st.compression_ratio, 0);
    assert_eq!(st.avg_delta_size, 0);
    assert!(store.remove(1));
    assert!(!store.remove(1));
}

#[test]
fn test_normalize_exact_values() {
    // A vector of magnitude 1048576 scales each coordinate by
    // 1000000/1048576, truncating toward zero.
    let mut v = vec![1_048_576i64, 0];
    normalize(&mut v);
    assert_eq!(v, vec![1_000_000, 0]);
    // The zero vector is left unchanged.
    let mut z = vec![0i64, 0];
    normalize(&mut z);
    assert_eq!(z, vec![0, 0]);
}
