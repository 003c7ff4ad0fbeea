//! Metadata filters, query options and query results.

use vstd::prelude::*;
use vstd::string::StrSliceExecFns;
use crate::chunk::{Chunk, ChunkView, MetadataView};
use crate::value::{JsonValue, Value};

verus! {

/// The operator of a filter.
#[derive(Debug, Clone, Copy, PartialEq, Eq, Structural)]
pub enum FilterOp {
    Eq,
    Neq,
    In,
    Nin,
    Gte,
    Lte,
    Exists,
}

/// One predicate on a chunk's metadata.
#[derive(Debug)]
pub struct MetadataFilter {
    /// A path into the flattened metadata, its segments separated by dots.
    pub field: String,
    pub op: FilterOp,
    pub value: Option<Value>,
}

/// What a filter stands for.
pub struct FilterView {
    pub field: Seq<char>,
    pub op: FilterOp,
    pub value: Option<JsonValue>,
}

/// What an optional value stands for.
pub open spec fn value_view(value: Option<Value>) -> Option<JsonValue> {
    match value {
        Some(v) => Some(v@),
        None => None,
    }
}

impl View for MetadataFilter {
    type V = FilterView;

    open spec fn view(&self) -> FilterView {
        FilterView { field: self.field@, op: self.op, value: value_view(self.value) }
    }
}

/// The position of the first dot in `s`, or the length of `s` where it has
/// none.
pub open spec fn first_dot(s: Seq<char>) -> int
    decreases s.len(),
{
    if s.len() == 0 {
        0
    } else if s[0] == '.' {
        0
    } else {
        1 + first_dot(s.drop_first())
    }
}

/// The segments of a path: what stands between its dots.  A path without a
/// dot is one segment, the empty path too.
pub open spec fn split_path(s: Seq<char>) -> Seq<Seq<char>>
    decreases s.len(),
{
    let dot = first_dot(s);
    if dot < 0 || dot >= s.len() {
        seq![s]
    } else {
        seq![s.subrange(0, dot)] + split_path(s.subrange(dot + 1, s.len() as int))
    }
}

/// The value that a path leads to from `root`: each segment selects a member
/// of an object.  `None` where a segment finds no object or no such member.
pub open spec fn resolve(root: JsonValue, segments: Seq<Seq<char>>) -> Option<JsonValue>
    decreases segments.len(),
{
    if segments.len() == 0 {
        Some(root)
    } else {
        match root {
            JsonValue::Object(members) => if members.contains_key(segments[0]) {
                resolve(members[segments[0]], segments.drop_first())
            } else {
                None
            },
            _ => None,
        }
    }
}

/// The projection of a value that is there and is a number.
pub open spec fn numeric_of(value: Option<JsonValue>) -> Option<int> {
    match value {
        Some(v) => v.numeric(),
        None => None,
    }
}

/// What a filter says of the value that its path leads to.
pub open spec fn verdict(op: FilterOp, expected: Option<JsonValue>, found: Option<JsonValue>) -> bool {
    match op {
        FilterOp::Eq => match expected {
            Some(e) => found == Some(e),
            None => found is None,
        },
        FilterOp::Neq => match expected {
            Some(e) => found != Some(e),
            None => found is Some,
        },
        FilterOp::In => match (expected, found) {
            (Some(JsonValue::Array(items)), Some(v)) => items.contains(v),
            _ => false,
        },
        FilterOp::Nin => match (expected, found) {
            (Some(JsonValue::Array(items)), Some(v)) => !items.contains(v),
            _ => false,
        },
        FilterOp::Gte => match (numeric_of(found), numeric_of(expected)) {
            (Some(a), Some(b)) => a >= b,
            _ => false,
        },
        FilterOp::Lte => match (numeric_of(found), numeric_of(expected)) {
            (Some(a), Some(b)) => a <= b,
            _ => false,
        },
        FilterOp::Exists => found is Some && found != Some(JsonValue::Null),
    }
}

/// Whether a chunk with this metadata passes the filter.
pub open spec fn filter_matches(metadata: MetadataView, filter: FilterView) -> bool {
    verdict(
        filter.op,
        filter.value,
        resolve(JsonValue::Object(metadata.flattened()), split_path(filter.field)),
    )
}

/// Where the first dot of a text is.
pub proof fn lemma_first_dot(s: Seq<char>, dot: int)
    requires
        0 <= dot <= s.len(),
        forall|j: int| 0 <= j < dot ==> s[j] != '.',
        dot < s.len() ==> s[dot] == '.',
    ensures
        first_dot(s) == dot,
    decreases s.len(),
{
    if s.len() > 0 && dot > 0 {
        let rest = s.drop_first();
        assert forall|j: int| 0 <= j < dot - 1 implies rest[j] != '.' by {
            assert(rest[j] == s[j + 1]);
        }
        lemma_first_dot(rest, dot - 1);
    }
}

/// What each string of a list stands for.
pub open spec fn texts(strings: Seq<String>) -> Seq<Seq<char>> {
    Seq::new(strings.len(), |i: int| strings[i]@)
}

/// The segments of a path.
pub fn path_segments(path: &str) -> (segments: Vec<String>)
    ensures
        texts(segments@) == split_path(path@),
{
    let n = path.unicode_len();
    let mut segments: Vec<String> = Vec::new();
    let mut start: usize = 0;
    let mut i: usize = 0;
    assert(path@.subrange(0, n as int) == path@);
    assert(texts(segments@) + split_path(path@) == split_path(path@));
    while i < n
        invariant
            start <= i <= n,
            n == path@.len(),
            forall|j: int| start <= j < i ==> path@[j] != '.',
            split_path(path@) == texts(segments@) + split_path(path@.subrange(start as int, n as int)),
        decreases n - i,
    {
        let c = path.get_char(i);
        if c == '.' {
            let segment = path.substring_char(start, i).to_owned();
            proof {
                let tail = path@.subrange(start as int, n as int);
                assert forall|j: int| 0 <= j < i - start implies tail[j] != '.' by {
                    assert(tail[j] == path@[start + j]);
                }
                lemma_first_dot(tail, i - start);
                assert(tail.subrange(0, i - start) == path@.subrange(start as int, i as int));
                assert(tail.subrange(i - start + 1, tail.len() as int) == path@.subrange(
                    i + 1,
                    n as int,
                ));
                assert(texts(segments@.push(segment)) == texts(segments@) + seq![segment@]);
            }
            segments.push(segment);
            start = i + 1;
        }
        i = i + 1;
    }
    let segment = path.substring_char(start, n).to_owned();
    proof {
        let tail = path@.subrange(start as int, n as int);
        assert forall|j: int| 0 <= j < tail.len() implies tail[j] != '.' by {
            assert(tail[j] == path@[start + j]);
        }
        lemma_first_dot(tail, tail.len() as int);
        assert(texts(segments@.push(segment)) == texts(segments@) + seq![segment@]);
    }
    segments.push(segment);
    segments
}

/// What a borrowed optional value stands for.
pub open spec fn found_view(found: Option<&Value>) -> Option<JsonValue> {
    match found {
        Some(v) => Some(v@),
        None => None,
    }
}

/// The value that the segments lead to from `root`.
pub fn follow<'a>(root: &'a Value, segments: &Vec<String>) -> (found: Option<&'a Value>)
    ensures
        found_view(found) == resolve(root@, texts(segments@)),
{
    let mut current: &Value = root;
    let mut i: usize = 0;
    assert(texts(segments@).subrange(0, segments@.len() as int) == texts(segments@));
    while i < segments.len()
        invariant
            i <= segments.len(),
            resolve(root@, texts(segments@)) == resolve(
                current@,
                texts(segments@).subrange(i as int, segments@.len() as int),
            ),
        decreases segments.len() - i,
    {
        let ghost rest = texts(segments@).subrange(i as int, segments@.len() as int);
        assert(rest[0] == segments@[i as int]@);
        assert(rest.drop_first() == texts(segments@).subrange(i + 1, segments@.len() as int));
        match current.get(&segments[i]) {
            Some(member) => {
                current = member;
            },
            None => {
                return None;
            },
        }
        i = i + 1;
    }
    Some(current)
}

/// The value under a dotted path, from `value` down.
pub fn get_nested_value<'a>(value: &'a Value, path: &str) -> (found: Option<&'a Value>)
    ensures
        found_view(found) == resolve(value@, split_path(path@)),
{
    let segments = path_segments(path);
    follow(value, &segments)
}

/// Whether one of `items` equals `wanted`.
pub fn contains_value(items: &Vec<Value>, wanted: &Value) -> (r: bool)
    ensures
        r == Value::Array(*items)@->Array_0.contains(wanted@),
{
    let ghost views = Value::Array(*items)@->Array_0;
    let mut i: usize = 0;
    while i < items.len()
        invariant
            i <= items.len(),
            views == Value::Array(*items)@->Array_0,
            forall|j: int| 0 <= j < i ==> views[j] != wanted@,
        decreases items.len() - i,
    {
        if items[i].deep_eq(wanted) {
            assert(views[i as int] == wanted@);
            return true;
        }
        i = i + 1;
    }
    false
}

/// Compares the two values as numbers: `found >= expected` where `at_least`
/// is set, else `found <= expected`.  False where one of them is missing or
/// is no number.
pub fn compare_number(found: Option<&Value>, expected: Option<&Value>, at_least: bool) -> (r: bool)
    ensures
        r == match (numeric_of(found_view(found)), numeric_of(found_view(expected))) {
            (Some(a), Some(b)) => if at_least {
                a >= b
            } else {
                a <= b
            },
            _ => false,
        },
{
    let lhs = match found {
        Some(v) => v.numeric(),
        None => None,
    };
    let rhs = match expected {
        Some(v) => v.numeric(),
        None => None,
    };
    match (lhs, rhs) {
        (Some(a), Some(b)) => if at_least {
            a >= b
        } else {
            a <= b
        },
        _ => false,
    }
}

/// What the filter says of the value that its path led to.
pub fn judge(op: FilterOp, expected: &Option<Value>, found: Option<&Value>) -> (r: bool)
    ensures
        r == verdict(op, value_view(*expected), found_view(found)),
{
    match op {
        FilterOp::Eq => match expected {
            Some(e) => match found {
                Some(v) => v.deep_eq(e),
                None => false,
            },
            None => found.is_none(),
        },
        FilterOp::Neq => match expected {
            Some(e) => match found {
                Some(v) => !v.deep_eq(e),
                None => true,
            },
            None => found.is_some(),
        },
        FilterOp::In => match (expected, found) {
            (Some(Value::Array(items)), Some(v)) => contains_value(items, v),
            _ => false,
        },
        FilterOp::Nin => match (expected, found) {
            (Some(Value::Array(items)), Some(v)) => !contains_value(items, v),
            _ => false,
        },
        FilterOp::Gte => match expected {
            Some(e) => compare_number(found, Some(e), true),
            None => false,
        },
        FilterOp::Lte => match expected {
            Some(e) => compare_number(found, Some(e), false),
            None => false,
        },
        FilterOp::Exists => match found {
            Some(Value::Null) => false,
            Some(_) => true,
            None => false,
        },
    }
}

/// Whether the chunk passes the filter.
pub fn matches_filter(chunk: &Chunk, filter: &MetadataFilter) -> (r: bool)
    ensures
        r == filter_matches(chunk@.metadata, filter@),
{
    let segments = path_segments(filter.field.as_str());
    matches_segments(chunk, filter, &segments)
}

/// A filter says the same of the same chunk every time: what two
/// evaluations return is the one value that [`filter_matches`] names.
pub proof fn lemma_filter_repeats(
    metadata: MetadataView,
    filter: FilterView,
    first: bool,
    second: bool,
)
    requires
        first == filter_matches(metadata, filter),
        second == filter_matches(metadata, filter),
    ensures
        first == second,
{
}

/// Whether the chunk passes the filter, whose path is already split.
pub(crate) fn matches_segments(chunk: &Chunk, filter: &MetadataFilter, segments: &Vec<String>) -> (r: bool)
    requires
        texts(segments@) == split_path(filter.field@),
    ensures
        r == filter_matches(chunk@.metadata, filter@),
{
    let flat = chunk.metadata.to_value();
    let found = follow(&flat, segments);
    judge(filter.op, &filter.value, found)
}

/// How a query is to be answered.
#[derive(Debug)]
pub struct QueryOptions {
    /// The most results to return.
    pub top_k: usize,
    /// Where set, a result's score is at least this: a single-precision
    /// bit pattern.
    pub min_score: Option<u32>,
    /// Where set, a result's chunk passes this filter.
    pub filter: Option<MetadataFilter>,
    /// Whether each result carries the vector of its chunk.
    pub include_vectors: bool,
}

/// What the options of a query stand for.
pub struct OptionsView {
    pub top_k: nat,
    pub min_score: Option<u32>,
    pub filter: Option<FilterView>,
    pub include_vectors: bool,
}

impl View for QueryOptions {
    type V = OptionsView;

    open spec fn view(&self) -> OptionsView {
        OptionsView {
            top_k: self.top_k as nat,
            min_score: self.min_score,
            filter: match self.filter {
                Some(f) => Some(f@),
                None => None,
            },
            include_vectors: self.include_vectors,
        }
    }
}

impl Default for QueryOptions {
    /// Ten results, no threshold, no filter, no vectors.
    fn default() -> (options: Self)
        ensures
            options.top_k == 10,
            options.min_score is None,
            options.filter is None,
            !options.include_vectors,
    {
        QueryOptions { top_k: 10, min_score: None, filter: None, include_vectors: false }
    }
}

/// One match of a query.
#[derive(Debug)]
pub struct QueryResult {
    /// A copy of the chunk.
    pub chunk: Chunk,
    /// The similarity of the chunk and the query: a single-precision bit
    /// pattern.
    pub score: u32,
    /// The place of this result in the list, from 0.
    pub rank: usize,
    /// The vector of the chunk, where the query asked for vectors.
    pub vector: Option<Vec<u32>>,
}

/// What a result stands for.
pub struct ResultView {
    pub chunk: ChunkView,
    pub score: u32,
    pub rank: nat,
    pub vector: Option<Seq<u32>>,
}

impl View for QueryResult {
    type V = ResultView;

    open spec fn view(&self) -> ResultView {
        ResultView {
            chunk: self.chunk@,
            score: self.score,
            rank: self.rank as nat,
            vector: match self.vector {
                Some(v) => Some(v@),
                None => None,
            },
        }
    }
}

} // verus!
