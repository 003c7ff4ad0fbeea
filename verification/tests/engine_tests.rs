use std::collections::HashMap;
use vpack_engine::{
    Chunk, ChunkMetadata, EmbeddedChunk, FilterOp, MetadataFilter, Number, QueryOptions,
    VPackError, VPackIndex, Value,
};

fn text(s: &str) -> Value {
    Value::String(s.to_string())
}

fn whole(n: u64) -> Value {
    Value::Number(Number::PosInt(n))
}

fn object(members: Vec<(&str, Value)>) -> Value {
    Value::Object(members.into_iter().map(|(k, v)| (k.to_string(), v)).collect())
}

fn make_manifest(dimensions: usize) -> Value {
    object(vec![
        ("vpack", text("1.0")),
        ("name", text("@test/fixture")),
        ("version", text("1.0.0")),
        (
            "plugins",
            Value::Array(vec![
                object(vec![
                    ("kind", text("source")),
                    ("use", text("@vpack/source-fs")),
                    ("path", text("./docs")),
                ]),
                object(vec![
                    ("kind", text("chunker")),
                    ("use", text("@vpack/chunker-fixed")),
                    ("size", whole(512)),
                    ("overlap", whole(64)),
                    ("min_size", whole(1)),
                ]),
                object(vec![
                    ("kind", text("embedder")),
                    ("use", text("@vpack/embedder-xenova")),
                    ("model", text("Xenova/all-MiniLM-L6-v2")),
                    ("dimensions", whole(dimensions as u64)),
                    ("provider", text("huggingface")),
                ]),
            ]),
        ),
    ])
}

fn bits(vector: &[f32]) -> Vec<u32> {
    vector.iter().map(|x| x.to_bits()).collect()
}

fn cosine(a: &[u32], b: &[u32]) -> u32 {
    let mut dot = 0.0f32;
    let mut norm_a = 0.0f32;
    let mut norm_b = 0.0f32;
    for (x, y) in a.iter().zip(b.iter()) {
        let (x, y) = (f32::from_bits(*x), f32::from_bits(*y));
        dot += x * y;
        norm_a += x * x;
        norm_b += y * y;
    }
    let denom = norm_a.sqrt() * norm_b.sqrt();
    let score = if denom == 0.0 { 0.0 } else { dot / denom };
    score.to_bits()
}

fn scores(index: &VPackIndex, query: &[u32]) -> Vec<u32> {
    index.chunks().iter().map(|c| cosine(query, &c.vector)).collect()
}

fn run(
    index: &VPackIndex,
    query: &[f32],
    options: QueryOptions,
) -> Result<Vec<vpack_engine::QueryResult>, VPackError> {
    let query = bits(query);
    let scores = if query.len() == index.dimensions() {
        scores(index, &query)
    } else {
        vec![0; index.chunk_count()]
    };
    index.query(&query, &scores, options)
}

fn chunk_with(
    id: &str,
    vector: Vec<f32>,
    content: &str,
    source_plugin: &str,
    pack_name: &str,
    extra: Vec<(String, Value)>,
) -> EmbeddedChunk {
    EmbeddedChunk {
        chunk: Chunk {
            id: id.to_string(),
            text: content.to_string(),
            metadata: ChunkMetadata {
                source_plugin: source_plugin.to_string(),
                source_id: id.to_string(),
                source_url: None,
                created_at: None,
                updated_at: None,
                pack_name: pack_name.to_string(),
                chunker_plugin: "@vpack/chunker-fixed".to_string(),
                extra,
            },
        },
        vector: bits(&vector),
    }
}

fn make_chunk(id: &str, vector: Vec<f32>, content: &str) -> EmbeddedChunk {
    chunk_with(id, vector, content, "@vpack/source-fs", "@test/fixture", Vec::new())
}

fn chunks_3d() -> Vec<EmbeddedChunk> {
    vec![
        make_chunk("pricing", vec![1.0, 0.0, 0.0], "Pricing should reflect value delivered"),
        make_chunk("deployment", vec![0.0, 1.0, 0.0], "Deploy using blue-green strategy"),
        make_chunk("culture", vec![0.0, 0.0, 1.0], "We value radical candor and async work"),
    ]
}

fn basis() -> Vec<EmbeddedChunk> {
    vec![
        chunk_with("a", vec![1.0, 0.0, 0.0], "text for a", "@vpack/source-fs", "test", Vec::new()),
        chunk_with("b", vec![0.0, 1.0, 0.0], "text for b", "@vpack/source-fs", "test", Vec::new()),
        chunk_with("c", vec![0.0, 0.0, 1.0], "text for c", "@vpack/source-fs", "test", Vec::new()),
    ]
}

// The payload of a container, as the engine's hosts encode it: the manifest
// as JSON text, then the chunks.
type PackedChunk = (
    String,
    String,
    (
        String,
        String,
        Option<String>,
        Option<String>,
        Option<String>,
        String,
        String,
        HashMap<String, serde_json::Value>,
    ),
    Vec<u32>,
);

fn to_json(value: &Value) -> serde_json::Value {
    match value {
        Value::Null => serde_json::Value::Null,
        Value::Bool(b) => serde_json::Value::Bool(*b),
        Value::Number(Number::PosInt(n)) => serde_json::Value::from(*n),
        Value::Number(Number::NegInt(n)) => serde_json::Value::from(*n),
        Value::Number(Number::Float(b)) => serde_json::Value::from(f64::from_bits(*b)),
        Value::String(s) => serde_json::Value::String(s.clone()),
        Value::Array(items) => serde_json::Value::Array(items.iter().map(to_json).collect()),
        Value::Object(members) => serde_json::Value::Object(
            members.iter().map(|(k, v)| (k.clone(), to_json(v))).collect(),
        ),
    }
}

fn from_json(value: &serde_json::Value) -> Value {
    match value {
        serde_json::Value::Null => Value::Null,
        serde_json::Value::Bool(b) => Value::Bool(*b),
        serde_json::Value::Number(n) => {
            if let Some(u) = n.as_u64() {
                Value::Number(Number::PosInt(u))
            } else if let Some(i) = n.as_i64() {
                Value::Number(Number::NegInt(i))
            } else {
                Value::Number(Number::Float(n.as_f64().unwrap().to_bits()))
            }
        }
        serde_json::Value::String(s) => Value::String(s.clone()),
        serde_json::Value::Array(items) => Value::Array(items.iter().map(from_json).collect()),
        serde_json::Value::Object(members) => {
            Value::Object(members.iter().map(|(k, v)| (k.clone(), from_json(v))).collect())
        }
    }
}

fn encode(index: &VPackIndex) -> Vec<u8> {
    let manifest_json = serde_json::to_string(&to_json(index.manifest())).unwrap();
    let chunks: Vec<PackedChunk> = index
        .chunks()
        .iter()
        .map(|e| {
            let m = &e.chunk.metadata;
            (
                e.chunk.id.clone(),
                e.chunk.text.clone(),
                (
                    m.source_plugin.clone(),
                    m.source_id.clone(),
                    m.source_url.clone(),
                    m.created_at.clone(),
                    m.updated_at.clone(),
                    m.pack_name.clone(),
                    m.chunker_plugin.clone(),
                    m.extra.iter().map(|(k, v)| (k.clone(), to_json(v))).collect(),
                ),
                e.vector.clone(),
            )
        })
        .collect();
    let payload = bincode::serialize(&(manifest_json, chunks)).unwrap();
    vpack_engine::serialize(&payload)
}

fn decode(bytes: &[u8]) -> Result<VPackIndex, VPackError> {
    let payload = vpack_engine::deserialize(bytes)?;
    let (manifest_json, chunks): (String, Vec<PackedChunk>) = bincode::deserialize(payload)?;
    let manifest: serde_json::Value =
        serde_json::from_str(&manifest_json).map_err(|e| VPackError::invalid_json(&e))?;
    let chunks = chunks
        .into_iter()
        .map(|(id, text, m, vector)| EmbeddedChunk {
            chunk: Chunk {
                id,
                text,
                metadata: ChunkMetadata {
                    source_plugin: m.0,
                    source_id: m.1,
                    source_url: m.2,
                    created_at: m.3,
                    updated_at: m.4,
                    pack_name: m.5,
                    chunker_plugin: m.6,
                    extra: m.7.iter().map(|(k, v)| (k.clone(), from_json(v))).collect(),
                },
            },
            vector,
        })
        .collect();
    VPackIndex::build(chunks, from_json(&manifest))
}

#[test]
fn build_and_query() {
    let index = VPackIndex::build(basis(), make_manifest(3)).unwrap();
    let results = run(&index, &[1.0, 0.0, 0.0], QueryOptions::default()).unwrap();

    assert_eq!(results[0].chunk.id, "a");
    assert!((f32::from_bits(results[0].score) - 1.0).abs() < 1e-6);
}

#[test]
fn build_requires_embedder_dimensions() {
    let chunks = vec![chunk_with(
        "a",
        vec![1.0, 0.0],
        "text for a",
        "@vpack/source-fs",
        "test",
        Vec::new(),
    )];
    let manifest = object(vec![
        ("vpack", text("1.0")),
        ("name", text("x")),
        ("version", text("1.0.0")),
        ("plugins", Value::Array(vec![])),
    ]);
    let result = VPackIndex::build(chunks, manifest);
    assert!(matches!(result, Err(VPackError::UnknownModel(_))));
}

#[test]
fn build_and_query_basic() {
    let index = VPackIndex::build(chunks_3d(), make_manifest(3)).unwrap();
    let results = run(&index, &[1.0, 0.0, 0.0], QueryOptions::default()).unwrap();
    assert_eq!(results[0].chunk.id, "pricing");
}

#[test]
fn min_score_filters_results() {
    let index = VPackIndex::build(chunks_3d(), make_manifest(3)).unwrap();
    let mut options = QueryOptions::default();
    options.min_score = Some(0.5f32.to_bits());
    let results = run(&index, &[1.0, 0.0, 0.0], options).unwrap();
    assert_eq!(results.len(), 1);
}

#[test]
fn filter_ops_match() {
    let finance = vec![("category".to_string(), text("finance"))];
    let engineering = vec![("category".to_string(), text("engineering"))];

    let mixed = vec![
        chunk_with("a", vec![1.0, 0.0, 0.0], "a", "@vpack/source-fs", "test", finance),
        chunk_with("b", vec![0.9, 0.1, 0.0], "b", "@vpack/source-notion", "test", engineering),
    ];

    let index = VPackIndex::build(mixed, make_manifest(3)).unwrap();

    let mut options = QueryOptions::default();
    options.filter = Some(MetadataFilter {
        field: "source_plugin".to_string(),
        op: FilterOp::Eq,
        value: Some(text("@vpack/source-fs")),
    });
    let results = run(&index, &[1.0, 0.0, 0.0], options).unwrap();
    assert_eq!(results.len(), 1);

    let mut options = QueryOptions::default();
    options.filter = Some(MetadataFilter {
        field: "category".to_string(),
        op: FilterOp::In,
        value: Some(Value::Array(vec![text("finance")])),
    });
    let results = run(&index, &[1.0, 0.0, 0.0], options).unwrap();
    assert_eq!(results.len(), 1);
}

#[test]
fn serialize_round_trip() {
    let index = VPackIndex::build(chunks_3d(), make_manifest(3)).unwrap();
    let bytes = encode(&index);
    let restored = decode(&bytes).unwrap();
    assert_eq!(restored.chunk_count(), 3);
    assert_eq!(restored.dimensions(), 3);
}

#[test]
fn deserialize_rejects_old_version() {
    let bytes = vec![0x56, 0x50, 0x41, 0x4b, 0x01, 0, 0, 0, 0];
    let result = vpack_engine::deserialize(&bytes);
    assert!(result.is_err());
}

#[test]
fn orthogonal_basis_ranks_by_score_then_by_place() {
    let index = VPackIndex::build(basis(), make_manifest(3)).unwrap();
    let results = run(&index, &[1.0, 0.0, 0.0], QueryOptions::default()).unwrap();
    assert_eq!(results.len(), 3);
    assert_eq!(results[0].chunk.id, "a");
    assert_eq!(results[1].chunk.id, "b");
    assert_eq!(results[2].chunk.id, "c");
    assert!((f32::from_bits(results[0].score) - 1.0).abs() < 1e-6);
    assert_eq!(f32::from_bits(results[1].score), 0.0);
    assert_eq!(f32::from_bits(results[2].score), 0.0);
    for (place, result) in results.iter().enumerate() {
        assert_eq!(result.rank, place);
        assert!(result.vector.is_none());
    }
}

#[test]
fn min_score_cutoff_keeps_the_one_match() {
    let index = VPackIndex::build(basis(), make_manifest(3)).unwrap();
    let mut options = QueryOptions::default();
    options.min_score = Some(0.5f32.to_bits());
    let results = run(&index, &[1.0, 0.0, 0.0], options).unwrap();
    assert_eq!(results.len(), 1);
    assert_eq!(results[0].chunk.id, "a");
}

#[test]
fn equality_filter_returns_only_the_first_source() {
    let mixed = vec![
        chunk_with("a", vec![0.1, 0.9, 0.0], "a", "@vpack/source-fs", "test", Vec::new()),
        chunk_with("b", vec![1.0, 0.0, 0.0], "b", "@vpack/source-notion", "test", Vec::new()),
    ];
    let index = VPackIndex::build(mixed, make_manifest(3)).unwrap();
    let mut options = QueryOptions::default();
    options.filter = Some(MetadataFilter {
        field: "source_plugin".to_string(),
        op: FilterOp::Eq,
        value: Some(text("@vpack/source-fs")),
    });
    let results = run(&index, &[1.0, 0.0, 0.0], options).unwrap();
    assert_eq!(results.len(), 1);
    assert_eq!(results[0].chunk.id, "a");
    assert_eq!(results[0].rank, 0);
}

#[test]
fn in_filter_on_extra_field_returns_the_finance_chunk() {
    let mixed = vec![
        chunk_with(
            "e",
            vec![1.0, 0.0, 0.0],
            "e",
            "@vpack/source-fs",
            "test",
            vec![("category".to_string(), text("engineering"))],
        ),
        chunk_with(
            "f",
            vec![0.0, 1.0, 0.0],
            "f",
            "@vpack/source-fs",
            "test",
            vec![("category".to_string(), text("finance"))],
        ),
    ];
    let index = VPackIndex::build(mixed, make_manifest(3)).unwrap();
    let mut options = QueryOptions::default();
    options.filter = Some(MetadataFilter {
        field: "category".to_string(),
        op: FilterOp::In,
        value: Some(Value::Array(vec![text("finance")])),
    });
    let results = run(&index, &[1.0, 0.0, 0.0], options).unwrap();
    assert_eq!(results.len(), 1);
    assert_eq!(results[0].chunk.id, "f");
}

#[test]
fn container_starts_with_magic_and_version() {
    let index = VPackIndex::build(chunks_3d(), make_manifest(3)).unwrap();
    let bytes = encode(&index);
    assert_eq!(&bytes[..4], b"VPAK");
    assert_eq!(bytes[4], 0x02);
    let announced = u32::from_le_bytes([bytes[5], bytes[6], bytes[7], bytes[8]]) as usize;
    assert_eq!(bytes.len(), 9 + announced);
    let restored = decode(&bytes).unwrap();
    assert_eq!(restored.chunk_count(), 3);
    assert_eq!(restored.dimensions(), 3);
    for (kept, stored) in restored.chunks().iter().zip(index.chunks().iter()) {
        assert_eq!(kept.chunk.id, stored.chunk.id);
        assert_eq!(kept.chunk.text, stored.chunk.text);
        assert_eq!(kept.vector, stored.vector);
        assert_eq!(kept.chunk.metadata.source_plugin, stored.chunk.metadata.source_plugin);
    }
    assert!(restored.manifest().deep_eq(index.manifest()));
}

#[test]
fn version_one_is_rejected_as_a_bad_container() {
    let bytes = vec![0x56, 0x50, 0x41, 0x4b, 0x01, 0, 0, 0, 0];
    let failure = vpack_engine::deserialize(&bytes).unwrap_err();
    assert_eq!(failure.code(), "DESERIALIZE_FAILED");
    assert_eq!(
        failure.message(),
        "invalid .vpack file: unsupported .vpack format version 0x01 \u{2014} rebuild with Rust engine"
    );
}

#[test]
fn build_with_no_chunks_is_an_empty_index() {
    let failure = VPackIndex::build(Vec::new(), make_manifest(3)).err().unwrap();
    assert!(matches!(failure, VPackError::EmptyIndex));
    assert_eq!(failure.code(), "EMPTY_INDEX");
}

#[test]
fn build_with_a_short_vector_is_a_dimension_mismatch() {
    let mut chunks = chunks_3d();
    chunks[1].vector = bits(&[0.0, 1.0]);
    let failure = VPackIndex::build(chunks, make_manifest(3)).err().unwrap();
    assert!(matches!(failure, VPackError::DimensionMismatch { expected: 3, got: 2 }));
    assert_eq!(failure.code(), "DIMENSION_MISMATCH");
}

#[test]
fn query_with_a_short_vector_is_a_dimension_mismatch() {
    let index = VPackIndex::build(chunks_3d(), make_manifest(3)).unwrap();
    let failure = run(&index, &[1.0, 0.0], QueryOptions::default()).unwrap_err();
    assert!(matches!(failure, VPackError::DimensionMismatch { expected: 3, got: 2 }));
    assert_eq!(
        failure.message(),
        "dimension mismatch: index expects 3d vectors, query vector is 2d"
    );
}

#[test]
fn a_payload_that_does_not_decode_is_a_serialize_failure() {
    let container = vpack_engine::serialize(&[1, 2, 3]);
    let failure = decode(&container).err().unwrap();
    assert_eq!(failure.code(), "SERIALIZE_FAILED");
    assert!(failure.message().starts_with("serialization failed: "));
    assert!(failure.message().len() > "serialization failed: ".len());
    assert!(failure.wire_text().starts_with("SERIALIZE_FAILED|serialization failed: "));
}

#[test]
fn a_manifest_that_is_no_json_is_a_bad_container() {
    let payload =
        bincode::serialize(&("{not json".to_string(), Vec::<PackedChunk>::new())).unwrap();
    let container = vpack_engine::serialize(&payload);
    let failure = decode(&container).err().unwrap();
    assert_eq!(failure.code(), "DESERIALIZE_FAILED");
    assert!(failure.message().starts_with("invalid .vpack file: "));
    assert!(failure.message().len() > "invalid .vpack file: ".len());
}

#[test]
fn include_vectors_hands_out_the_stored_vectors() {
    let index = VPackIndex::build(basis(), make_manifest(3)).unwrap();
    let mut options = QueryOptions::default();
    options.include_vectors = true;
    options.top_k = 2;
    let results = run(&index, &[0.0, 1.0, 0.0], options).unwrap();
    assert_eq!(results.len(), 2);
    assert_eq!(results[0].chunk.id, "b");
    assert_eq!(results[0].vector, Some(bits(&[0.0, 1.0, 0.0])));
    assert_eq!(results[1].chunk.id, "a");
    assert_eq!(results[1].vector, Some(bits(&[1.0, 0.0, 0.0])));
    assert_eq!(results[1].rank, 1);
}

#[test]
fn default_options_ask_for_ten_results() {
    let options = QueryOptions::default();
    assert_eq!(options.top_k, 10);
    assert!(options.min_score.is_none());
    assert!(options.filter.is_none());
    assert!(!options.include_vectors);
}

#[test]
fn further_members_encode_but_do_not_decode() {
    // the payload does not say of what kind a value is, and a JSON value
    // cannot be read without that
    let chunks = vec![chunk_with(
        "a",
        vec![1.0, 0.0, 0.0],
        "a",
        "@vpack/source-fs",
        "test",
        vec![("category".to_string(), text("finance"))],
    )];
    let index = VPackIndex::build(chunks, make_manifest(3)).unwrap();
    let bytes = encode(&index);
    assert_eq!(&bytes[..4], b"VPAK");
    let failure = decode(&bytes).err().unwrap();
    assert_eq!(failure.code(), "SERIALIZE_FAILED");
}
