//! Chunks of text, their metadata and their embedding vectors.

use vstd::prelude::*;
use crate::value::{
    lemma_members_empty, lemma_members_push, lemma_object_view, object_members, JsonValue, Value,
};

verus! {

/// Where a chunk comes from, and whatever else its producer recorded.
#[derive(Debug)]
pub struct ChunkMetadata {
    pub source_plugin: String,
    pub source_id: String,
    pub source_url: Option<String>,
    pub created_at: Option<String>,
    pub updated_at: Option<String>,
    pub pack_name: String,
    pub chunker_plugin: String,
    /// Further members, by key.  Where a key occurs twice the last pair
    /// counts.
    pub extra: Vec<(String, Value)>,
}

/// A unit of text that a query can return.
#[derive(Debug)]
pub struct Chunk {
    /// An identifier that stays the same from one build to the next.
    pub id: String,
    /// The text as it was found.
    pub text: String,
    pub metadata: ChunkMetadata,
}

/// A chunk with its embedding vector: single-precision bit patterns, as many
/// as the index has dimensions.
#[derive(Debug)]
pub struct EmbeddedChunk {
    pub chunk: Chunk,
    pub vector: Vec<u32>,
}

/// What the metadata of a chunk stand for.  The further members are a map:
/// their order does not count.
pub struct MetadataView {
    pub source_plugin: Seq<char>,
    pub source_id: Seq<char>,
    pub source_url: Option<Seq<char>>,
    pub created_at: Option<Seq<char>>,
    pub updated_at: Option<Seq<char>>,
    pub pack_name: Seq<char>,
    pub chunker_plugin: Seq<char>,
    pub extra: Map<Seq<char>, JsonValue>,
}

/// What a chunk stands for.
pub struct ChunkView {
    pub id: Seq<char>,
    pub text: Seq<char>,
    pub metadata: MetadataView,
}

/// What an embedded chunk stands for.
pub struct EmbeddedChunkView {
    pub chunk: ChunkView,
    pub vector: Seq<u32>,
}

/// What an optional string stands for.
pub open spec fn text_view(text: Option<String>) -> Option<Seq<char>> {
    match text {
        Some(t) => Some(t@),
        None => None,
    }
}

/// A string member, or null where there is none.
pub open spec fn text_or_null(text: Option<Seq<char>>) -> JsonValue {
    match text {
        Some(t) => JsonValue::String(t),
        None => JsonValue::Null,
    }
}

impl MetadataView {
    /// The fixed fields as members, each under its own name.  A field that
    /// is not set is there too, as null.
    pub open spec fn fixed(self) -> Map<Seq<char>, JsonValue> {
        Map::<Seq<char>, JsonValue>::empty().insert(
            "source_plugin"@,
            JsonValue::String(self.source_plugin),
        ).insert("source_id"@, JsonValue::String(self.source_id)).insert(
            "source_url"@,
            text_or_null(self.source_url),
        ).insert("created_at"@, text_or_null(self.created_at)).insert(
            "updated_at"@,
            text_or_null(self.updated_at),
        ).insert("pack_name"@, JsonValue::String(self.pack_name)).insert(
            "chunker_plugin"@,
            JsonValue::String(self.chunker_plugin),
        )
    }

    /// The metadata as one flat record: the fixed fields, then the further
    /// members, which win where a key is both.
    pub open spec fn flattened(self) -> Map<Seq<char>, JsonValue> {
        self.fixed().union_prefer_right(self.extra)
    }
}

impl View for ChunkMetadata {
    type V = MetadataView;

    open spec fn view(&self) -> MetadataView {
        MetadataView {
            source_plugin: self.source_plugin@,
            source_id: self.source_id@,
            source_url: text_view(self.source_url),
            created_at: text_view(self.created_at),
            updated_at: text_view(self.updated_at),
            pack_name: self.pack_name@,
            chunker_plugin: self.chunker_plugin@,
            extra: object_members(self.extra@),
        }
    }
}

impl View for Chunk {
    type V = ChunkView;

    open spec fn view(&self) -> ChunkView {
        ChunkView { id: self.id@, text: self.text@, metadata: self.metadata@ }
    }
}

impl View for EmbeddedChunk {
    type V = EmbeddedChunkView;

    open spec fn view(&self) -> EmbeddedChunkView {
        EmbeddedChunkView { chunk: self.chunk@, vector: self.vector@ }
    }
}

/// A copy of an optional string.
pub fn copy_text(text: &Option<String>) -> (r: Option<String>)
    ensures
        text_view(r) == text_view(*text),
{
    match text {
        Some(t) => Some(t.clone()),
        None => None,
    }
}

/// An optional string as a value: null where there is none.
pub fn text_value(text: &Option<String>) -> (r: Value)
    ensures
        r@ == text_or_null(text_view(*text)),
{
    match text {
        Some(t) => Value::String(t.clone()),
        None => Value::Null,
    }
}

/// A copy of a list of pairs.
pub fn copy_entries(entries: &Vec<(String, Value)>) -> (r: Vec<(String, Value)>)
    ensures
        r@.len() == entries@.len(),
        forall|i: int|
            0 <= i < r@.len() ==> (#[trigger] r@[i]).0@ == entries@[i].0@ && r@[i].1@
                == entries@[i].1@,
        object_members(r@) == object_members(entries@),
{
    let mut copy: Vec<(String, Value)> = Vec::new();
    let mut i: usize = 0;
    while i < entries.len()
        invariant
            i <= entries.len(),
            copy.len() == i,
            forall|j: int|
                0 <= j < i ==> (#[trigger] copy@[j]).0@ == entries@[j].0@ && copy@[j].1@
                    == entries@[j].1@,
        decreases entries.len() - i,
    {
        copy.push((entries[i].0.clone(), entries[i].1.clone()));
        i = i + 1;
    }
    proof {
        crate::value::lemma_members_same_views(copy@, entries@);
    }
    copy
}

/// A copy of a vector of bit patterns.
pub fn copy_vector(vector: &Vec<u32>) -> (r: Vec<u32>)
    ensures
        r@ == vector@,
{
    let mut copy: Vec<u32> = Vec::new();
    let mut i: usize = 0;
    while i < vector.len()
        invariant
            i <= vector.len(),
            copy@ == vector@.take(i as int),
        decreases vector.len() - i,
    {
        copy.push(vector[i]);
        assert(vector@.take(i + 1) == vector@.take(i as int).push(vector@[i as int]));
        i = i + 1;
    }
    assert(vector@.take(vector@.len() as int) == vector@);
    copy
}

/// Puts a member at the end of a list of pairs: it sets the member under its
/// key and leaves the others.
pub fn push_member(members: &mut Vec<(String, Value)>, key: String, value: Value)
    ensures
        final(members)@.len() == old(members)@.len() + 1,
        object_members(final(members)@) == object_members(old(members)@).insert(key@, value@),
{
    let ghost before = members@;
    members.push((key, value));
    proof {
        assert(members@ == before.push(members@.last()));
        lemma_members_push(before, members@.last());
    }
}

impl ChunkMetadata {
    /// The metadata as one flat object.
    pub fn to_value(&self) -> (r: Value)
        ensures
            r@ == JsonValue::Object(self@.flattened()),
    {
        let mut members: Vec<(String, Value)> = Vec::new();
        proof {
            lemma_members_empty(members@);
        }
        push_member(
            &mut members,
            String::from_str("source_plugin"),
            Value::String(self.source_plugin.clone()),
        );
        push_member(
            &mut members,
            String::from_str("source_id"),
            Value::String(self.source_id.clone()),
        );
        push_member(&mut members, String::from_str("source_url"), text_value(&self.source_url));
        push_member(&mut members, String::from_str("created_at"), text_value(&self.created_at));
        push_member(&mut members, String::from_str("updated_at"), text_value(&self.updated_at));
        push_member(
            &mut members,
            String::from_str("pack_name"),
            Value::String(self.pack_name.clone()),
        );
        push_member(
            &mut members,
            String::from_str("chunker_plugin"),
            Value::String(self.chunker_plugin.clone()),
        );
        proof {
            lemma_members_empty(self.extra@.take(0));
            assert(object_members(members@) =~= self@.fixed().union_prefer_right(
                object_members(self.extra@.take(0)),
            ));
        }
        let mut i: usize = 0;
        while i < self.extra.len()
            invariant
                i <= self.extra.len(),
                object_members(members@) == self@.fixed().union_prefer_right(
                    object_members(self.extra@.take(i as int)),
                ),
            decreases self.extra.len() - i,
        {
            push_member(&mut members, self.extra[i].0.clone(), self.extra[i].1.clone());
            proof {
                let taken = self.extra@.take(i as int);
                lemma_members_push(taken, self.extra@[i as int]);
                assert(self.extra@.take(i + 1) == taken.push(self.extra@[i as int]));
                assert(object_members(members@) =~= self@.fixed().union_prefer_right(
                    object_members(self.extra@.take(i + 1)),
                ));
            }
            i = i + 1;
        }
        proof {
            assert(self.extra@.take(self.extra@.len() as int) == self.extra@);
            lemma_object_view(members);
        }
        Value::Object(members)
    }
}

impl Clone for ChunkMetadata {
    fn clone(&self) -> (r: Self)
        ensures
            r@ == self@,
    {
        ChunkMetadata {
            source_plugin: self.source_plugin.clone(),
            source_id: self.source_id.clone(),
            source_url: copy_text(&self.source_url),
            created_at: copy_text(&self.created_at),
            updated_at: copy_text(&self.updated_at),
            pack_name: self.pack_name.clone(),
            chunker_plugin: self.chunker_plugin.clone(),
            extra: copy_entries(&self.extra),
        }
    }
}

impl Clone for Chunk {
    fn clone(&self) -> (r: Self)
        ensures
            r@ == self@,
    {
        Chunk { id: self.id.clone(), text: self.text.clone(), metadata: self.metadata.clone() }
    }
}

impl Clone for EmbeddedChunk {
    fn clone(&self) -> (r: Self)
        ensures
            r@ == self@,
    {
        EmbeddedChunk { chunk: self.chunk.clone(), vector: copy_vector(&self.vector) }
    }
}

} // verus!
