//! How a tool call ends, once the outside has done its part: the embedding, the search, the saving.
use crate::json::{decimal, json_quoted, json_text, object_text};
use crate::lz4::{compressible, lz4_decoded};
use crate::memory::{FractalMemory3D, MemoryModel};
use crate::numbers::Binary32;
use crate::payloads::{lemma_text_round_trip, packed, SEP};
use crate::projection::projected;
use crate::reports::{
    explain_report, explain_text, ingest_report, recall_report, recall_text, Hit, Neighbor,
    ZoomStep,
};
use serde_json::Value;
use vstd::prelude::*;
use vstd::string::StringExecFns;
use vstd::utf8::encode_utf8;

verus! {

/// How a query finds its memories.
pub struct Explanation {
    /// The query's place, as a JSON list.
    pub query_point: Value,
    pub zoom_path: Vec<ZoomStep>,
    pub neighbors: Vec<Neighbor>,
}

impl MemoryModel {
    /// The memory once a text was inserted under a name. One whose embedding cannot be projected is
    /// dropped.
    pub open spec fn ingested(
        self,
        uri: Seq<char>,
        text: Seq<char>,
        embedding: Seq<Binary32>,
        min: Binary32,
    ) -> MemoryModel {
        match projected(embedding, self.projection, self.high_dim as nat) {
            None => self,
            Some(point) => self.inserted(point, Some(encode_utf8(packed(uri, text))), min).0,
        }
    }

    /// Whether the text can be inserted, and the memory be saved afterwards.
    pub open spec fn ingestible(
        self,
        uri: Seq<char>,
        text: Seq<char>,
        embedding: Seq<Binary32>,
        min: Binary32,
    ) -> bool {
        match projected(embedding, self.projection, self.high_dim as nat) {
            None => compressible(self.arena.len()),
            Some(point) => {
                &&& self.insertable(point, min)
                &&& compressible(self.arena.len() + encode_utf8(packed(uri, text)).len())
            },
        }
    }
}

/// Ends an `ingest`, once the text has been embedded: inserts it and yields the file to save and the
/// report. A failed embedding changes nothing, and leaves nothing to save.
pub fn finish_ingest(
    core: &mut FractalMemory3D,
    uri: &str,
    text: &str,
    embedded: Result<Vec<Binary32>, String>,
    min: Binary32,
) -> (r: Result<(Vec<u8>, Value), String>)
    requires
        embedded matches Ok(embedding) ==> old(core)@.ingestible(uri@, text@, embedding@, min),
    ensures
        embedded matches Err(e) ==> final(core)@ == old(core)@ && (r matches Err(reason) && reason@
            == e@),
        embedded matches Ok(embedding) ==> final(core)@ == old(core)@.ingested(
            uri@,
            text@,
            embedding@,
            min,
        ) && (r matches Ok((file, report)) && {
            &&& exists|block: Seq<u8>|
                file@ == #[trigger] final(core)@.file_bytes(block) && lz4_decoded(
                    block,
                    final(core)@.arena.len(),
                ) == Some(final(core)@.arena)
            &&& json_text(report) == object_text(
                seq![("nodes_added"@, decimal(1)), ("uri"@, json_quoted(uri@))],
            )
        }),
        old(core)@.well_formed() ==> final(core)@.well_formed(),
{
    match embedded {
        Err(e) => Err(e),
        Ok(embedding) => {
            let _ = core.insert_text(uri, text, embedding.as_slice(), min);
            let file = core.encode();
            Ok((file, ingest_report(uri)))
        },
    }
}

/// Ends an `ingest`, once its file has been written or has not: the report, or the reason why the
/// memory could not be saved.
pub fn confirm_save(report: Value, written: Result<(), String>) -> (r: Result<Value, String>)
    ensures
        match written {
            Ok(()) => r == Ok::<Value, String>(report),
            Err(e) => r matches Err(reason) && reason@ == "save failed: "@ + e@,
        },
{
    match written {
        Ok(()) => Ok(report),
        Err(e) => {
            let mut reason = "save failed: ".to_owned();
            reason.append(e.as_str());
            Err(reason)
        },
    }
}

/// Ends a `recall`, once the text has been embedded and its nearest memories have been found.
pub fn finish_recall(core: &FractalMemory3D, found: Result<Vec<Hit>, String>) -> (r: Result<
    Value,
    String,
>)
    ensures
        match found {
            Ok(hits) => r matches Ok(report) && json_text(report) == recall_text(core@, hits@),
            Err(e) => r matches Err(reason) && reason@ == e@,
        },
{
    match found {
        Ok(hits) => Ok(recall_report(core, hits)),
        Err(e) => Err(e),
    }
}

/// Ends an `explain`, once the text has been embedded and its place has been looked for.
pub fn finish_explain(found: Result<Option<Explanation>, String>) -> (r: Result<Value, String>)
    ensures
        match found {
            Ok(Some(e)) => r matches Ok(report) && json_text(report) == explain_text(
                json_text(e.query_point),
                e.zoom_path@,
                e.neighbors@,
            ),
            Ok(None) => r matches Err(reason) && reason@
                == "query did not project to a valid point"@,
            Err(e) => r matches Err(reason) && reason@ == e@,
        },
{
    match found {
        Ok(Some(e)) => Ok(explain_report(e.query_point, e.zoom_path, e.neighbors)),
        Ok(None) => Err("query did not project to a valid point".to_owned()),
        Err(e) => Err(e),
    }
}

/// A text that is ingested is read back from the new node, with its name, if the name holds no
/// separator.
pub proof fn lemma_ingested_text_is_read_back(
    m: MemoryModel,
    uri: Seq<char>,
    text: Seq<char>,
    embedding: Seq<Binary32>,
    point: Seq<Binary32>,
    min: Binary32,
)
    requires
        !uri.contains(SEP),
        m.well_formed(),
        projected(embedding, m.projection, m.high_dim as nat) == Some(point),
        ({
            let payload = Some(encode_utf8(packed(uri, text)));
            &&& m.rooted(point, payload).nodes.len() <= usize::MAX
            &&& m.staged(payload).arena.len() <= usize::MAX
            &&& m.inserted(point, payload, min).1 >= m.nodes.len()
        }),
    ensures
        ({
            let id = m.inserted(point, Some(encode_utf8(packed(uri, text))), min).1;
            m.ingested(uri, text, embedding, min).memory_text(id as int) == (uri, text)
        }),
{
    lemma_text_round_trip(m, point, uri, text, min);
}

} // verus!
