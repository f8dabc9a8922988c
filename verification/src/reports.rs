//! What the tools yield.
use crate::json::{
    decimal, json_quoted, json_text, lemma_precedes, list, list_text, natural, object2, object3,
    object4, object_text, string, value_texts,
};
use crate::memory::{FractalMemory3D, MemoryModel};
use crate::node::NodeId;
use crate::numbers::{Binary32, Binary64};
use crate::payloads::{kind_of, scheme, split_payload, text_of, to_text, unpacked};
use serde_json::Value;
use vstd::prelude::*;
use vstd::utf8::encode_utf8;

verus! {

/// The bit pattern of the double precision number 1.
pub const ONE_DOUBLE: u64 = 0x3ff0_0000_0000_0000;

/// A memory that a recall has found.
pub struct Hit {
    pub id: NodeId,
    /// How near it is, as a JSON number.
    pub score: Value,
}

/// One step of the way to a query's place.
pub struct ZoomStep {
    pub level: u64,
    pub count: u64,
    /// The half size of the cell, as a JSON number.
    pub half_size: Value,
}

/// A memory near a query's place.
pub struct Neighbor {
    pub payload: Vec<u8>,
    /// How far it is, as a JSON number.
    pub distance: Value,
    /// Where it is, as a JSON list.
    pub point: Value,
}

/// How near a memory at the squared distance `d2` is: 1 at the same place, towards 0 far away.
pub fn score(d2: Binary32) -> (r: Binary64)
    ensures
        r == (Binary64 { bits: ONE_DOUBLE }).sum(d2.widened()).reciprocal(),
{
    (Binary64 { bits: ONE_DOUBLE }).plus(d2.widen()).invert()
}

pub open spec fn item_text(m: MemoryModel, hit: Hit) -> Seq<char> {
    let (uri, content) = m.memory_text(hit.id as int);
    object_text(
        seq![
            ("content"@, json_quoted(content)),
            ("kind"@, json_quoted(scheme(uri))),
            ("score"@, json_text(hit.score)),
            ("uri"@, json_quoted(uri)),
        ],
    )
}

/// How many bytes a text takes up.
pub open spec fn byte_len(text: Seq<char>) -> usize {
    encode_utf8(text).len() as usize
}

/// `v` in the machine's word, without what does not fit.
pub open spec fn wrapped(v: int) -> usize {
    if v > usize::MAX {
        (v - usize::MAX - 1) as usize
    } else {
        v as usize
    }
}

/// The tokens that the texts of the first `count` memories are estimated at: one for every four
/// bytes of a text, and one more for each.
pub open spec fn tokens(m: MemoryModel, hits: Seq<Hit>, count: nat) -> usize
    decreases count,
{
    if count == 0 {
        0
    } else {
        let content = m.memory_text(hits[count - 1].id as int).1;
        wrapped(tokens(m, hits, (count - 1) as nat) + (byte_len(content) / 4 + 1))
    }
}

pub open spec fn recall_text(m: MemoryModel, hits: Seq<Hit>) -> Seq<char> {
    object_text(
        seq![
            ("items"@, list_text(Seq::new(hits.len(), |i: int| item_text(m, hits[i])))),
            ("strategy"@, json_quoted("semantic"@)),
            ("tokens"@, decimal(tokens(m, hits, hits.len()) as nat)),
        ],
    )
}

/// What `recall` yields for the memories that were found.
pub fn recall_report(memory: &FractalMemory3D, hits: Vec<Hit>) -> (r: Value)
    ensures
        json_text(r) == recall_text(memory@, hits@),
{
    proof {
        reveal_strlit("content");
        reveal_strlit("kind");
        reveal_strlit("score");
        reveal_strlit("uri");
        reveal_strlit("items");
        reveal_strlit("strategy");
        reveal_strlit("tokens");
        lemma_precedes("content"@, "kind"@);
        lemma_precedes("kind"@, "score"@);
        lemma_precedes("score"@, "uri"@);
        lemma_precedes("items"@, "strategy"@);
        lemma_precedes("strategy"@, "tokens"@);
    }
    let ghost m = memory@;
    let mut items: Vec<Value> = Vec::new();
    let mut total: usize = 0;
    let mut i: usize = 0;
    while i < hits.len()
        invariant
            i <= hits@.len(),
            m == memory@,
            items@.len() == i,
            forall|j: int| 0 <= j < i ==> json_text(#[trigger] items@[j]) == item_text(m, hits@[j]),
            total == tokens(m, hits@, i as nat),
            crate::json::precedes("content"@, "kind"@),
            crate::json::precedes("kind"@, "score"@),
            crate::json::precedes("score"@, "uri"@),
        decreases hits@.len() - i,
    {
        let hit = &hits[i];
        let (uri, content) = memory.memory_text(hit.id);
        total = total.wrapping_add(content.as_str().len() / 4 + 1);
        let item = object4(
            "content",
            string(content.as_str()),
            "kind",
            string(kind_of(uri.as_str()).as_str()),
            "score",
            crate::json::copy(&hit.score),
            "uri",
            string(uri.as_str()),
        );
        items.push(item);
        i = i + 1;
    }
    assert(value_texts(items@) =~= Seq::new(hits@.len(), |i: int| item_text(m, hits@[i])));
    object3(
        "items",
        list(items),
        "strategy",
        string("semantic"),
        "tokens",
        natural(total as u64),
    )
}

pub open spec fn zoom_text(step: ZoomStep) -> Seq<char> {
    object_text(
        seq![
            ("count"@, decimal(step.count as nat)),
            ("half_size"@, json_text(step.half_size)),
            ("level"@, decimal(step.level as nat)),
        ],
    )
}

pub open spec fn neighbor_text(neighbor: Neighbor) -> Seq<char> {
    let (uri, content) = unpacked(text_of(neighbor.payload@));
    object_text(
        seq![
            ("content"@, json_quoted(content)),
            ("distance"@, json_text(neighbor.distance)),
            ("point"@, json_text(neighbor.point)),
            ("uri"@, json_quoted(uri)),
        ],
    )
}

pub open spec fn explain_text(
    query_point: Seq<char>,
    zoom_path: Seq<ZoomStep>,
    neighbors: Seq<Neighbor>,
) -> Seq<char> {
    object_text(
        seq![
            (
                "neighbors"@,
                list_text(Seq::new(neighbors.len(), |i: int| neighbor_text(neighbors[i]))),
            ),
            ("query_point"@, query_point),
            (
                "zoom_path"@,
                list_text(Seq::new(zoom_path.len(), |i: int| zoom_text(zoom_path[i]))),
            ),
        ],
    )
}

fn zoom_list(zoom_path: Vec<ZoomStep>) -> (r: Value)
    ensures
        json_text(r) == list_text(
            Seq::new(zoom_path@.len(), |i: int| zoom_text(zoom_path@[i])),
        ),
{
    proof {
        reveal_strlit("count");
        reveal_strlit("half_size");
        reveal_strlit("level");
        lemma_precedes("count"@, "half_size"@);
        lemma_precedes("half_size"@, "level"@);
    }
    let mut items: Vec<Value> = Vec::new();
    let mut i: usize = 0;
    while i < zoom_path.len()
        invariant
            i <= zoom_path@.len(),
            items@.len() == i,
            forall|j: int| 0 <= j < i ==> json_text(#[trigger] items@[j]) == zoom_text(zoom_path@[j]),
            crate::json::precedes("count"@, "half_size"@),
            crate::json::precedes("half_size"@, "level"@),
        decreases zoom_path@.len() - i,
    {
        let step = &zoom_path[i];
        let item = object3(
            "count",
            natural(step.count),
            "half_size",
            crate::json::copy(&step.half_size),
            "level",
            natural(step.level),
        );
        items.push(item);
        i = i + 1;
    }
    assert(value_texts(items@) =~= Seq::new(zoom_path@.len(), |i: int| zoom_text(zoom_path@[i])));
    list(items)
}

fn neighbor_list(neighbors: Vec<Neighbor>) -> (r: Value)
    ensures
        json_text(r) == list_text(
            Seq::new(neighbors@.len(), |i: int| neighbor_text(neighbors@[i])),
        ),
{
    proof {
        reveal_strlit("content");
        reveal_strlit("distance");
        reveal_strlit("point");
        reveal_strlit("uri");
        lemma_precedes("content"@, "distance"@);
        lemma_precedes("distance"@, "point"@);
        lemma_precedes("point"@, "uri"@);
    }
    let mut items: Vec<Value> = Vec::new();
    let mut i: usize = 0;
    while i < neighbors.len()
        invariant
            i <= neighbors@.len(),
            items@.len() == i,
            forall|j: int|
                0 <= j < i ==> json_text(#[trigger] items@[j]) == neighbor_text(neighbors@[j]),
            crate::json::precedes("content"@, "distance"@),
            crate::json::precedes("distance"@, "point"@),
            crate::json::precedes("point"@, "uri"@),
        decreases neighbors@.len() - i,
    {
        let neighbor = &neighbors[i];
        let raw = to_text(neighbor.payload.as_slice());
        let (uri, content) = split_payload(raw.as_str());
        let item = object4(
            "content",
            string(content.as_str()),
            "distance",
            crate::json::copy(&neighbor.distance),
            "point",
            crate::json::copy(&neighbor.point),
            "uri",
            string(uri.as_str()),
        );
        items.push(item);
        i = i + 1;
    }
    assert(value_texts(items@) =~= Seq::new(
        neighbors@.len(),
        |i: int| neighbor_text(neighbors@[i]),
    ));
    list(items)
}

/// What `explain` yields: the query's place, the way there and the memories near it.
pub fn explain_report(
    query_point: Value,
    zoom_path: Vec<ZoomStep>,
    neighbors: Vec<Neighbor>,
) -> (r: Value)
    ensures
        json_text(r) == explain_text(json_text(query_point), zoom_path@, neighbors@),
{
    proof {
        reveal_strlit("neighbors");
        reveal_strlit("query_point");
        reveal_strlit("zoom_path");
        lemma_precedes("neighbors"@, "query_point"@);
        lemma_precedes("query_point"@, "zoom_path"@);
    }
    object3(
        "neighbors",
        neighbor_list(neighbors),
        "query_point",
        query_point,
        "zoom_path",
        zoom_list(zoom_path),
    )
}

/// What `ingest` yields for a memory that was stored under `uri`.
pub fn ingest_report(uri: &str) -> (r: Value)
    ensures
        json_text(r) == object_text(seq![("nodes_added"@, decimal(1)), ("uri"@, json_quoted(uri@))]),
{
    proof {
        reveal_strlit("nodes_added");
        reveal_strlit("uri");
        lemma_precedes("nodes_added"@, "uri"@);
    }
    object2("nodes_added", natural(1), "uri", string(uri))
}

/// What `stats` yields for a store of `memories` memories.
pub fn stats_report(memory: &FractalMemory3D, memories: usize) -> (r: Value)
    ensures
        json_text(r) == object_text(
            seq![
                ("arena_bytes"@, decimal(memory@.arena.len())),
                ("high_dim"@, decimal(memory@.high_dim as nat)),
                ("memories"@, decimal(memories as nat)),
                ("nodes"@, decimal(memory@.nodes.len())),
            ],
        ),
{
    proof {
        reveal_strlit("arena_bytes");
        reveal_strlit("high_dim");
        reveal_strlit("memories");
        reveal_strlit("nodes");
        lemma_precedes("arena_bytes"@, "high_dim"@);
        lemma_precedes("high_dim"@, "memories"@);
        lemma_precedes("memories"@, "nodes"@);
    }
    object4(
        "arena_bytes",
        natural(memory.arena_size() as u64),
        "high_dim",
        natural(memory.high_dim as u64),
        "memories",
        natural(memories as u64),
        "nodes",
        natural(memory.node_count() as u64),
    )
}

/// The tokens of one memory: one for every four bytes of its text, and one more.
pub proof fn lemma_tokens_of_one(m: MemoryModel, hit: Hit)
    ensures
        tokens(m, seq![hit], 1) == byte_len(m.memory_text(hit.id as int).1) / 4 + 1,
{
    reveal_with_fuel(tokens, 2);
}

/// The tokens of memories add up, within the machine's word.
pub proof fn lemma_tokens_add_up(m: MemoryModel, a: Seq<Hit>, b: Seq<Hit>, count: nat)
    requires
        count <= b.len(),
    ensures
        tokens(m, a + b, a.len() + count) == wrapped(
            tokens(m, a, a.len()) + tokens(m, b, count),
        ),
    decreases count,
{
    if count == 0 {
        lemma_tokens_prefix(m, a, b, a.len());
    } else {
        lemma_tokens_add_up(m, a, b, (count - 1) as nat);
        let k = a.len() + count;
        assert((a + b)[k - 1] == b[count - 1]);
        let x = tokens(m, a, a.len()) as int;
        let y = tokens(m, b, (count - 1) as nat) as int;
        let t = byte_len(m.memory_text(b[count - 1].id as int).1) / 4 + 1;
        assert(tokens(m, a + b, k) == wrapped(wrapped(x + y) + t));
        assert(tokens(m, b, count) == wrapped(y + t));
    }
}

proof fn lemma_tokens_prefix(m: MemoryModel, a: Seq<Hit>, b: Seq<Hit>, count: nat)
    requires
        count <= a.len(),
    ensures
        tokens(m, a + b, count) == tokens(m, a, count),
    decreases count,
{
    if count > 0 {
        lemma_tokens_prefix(m, a, b, (count - 1) as nat);
        assert((a + b)[count - 1] == a[count - 1]);
    }
}

} // verus!
