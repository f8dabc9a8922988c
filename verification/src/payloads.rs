//! Text memories as payloads: a name and a text in one string, with a separator between them.
use crate::insertion::payload_bytes;
use crate::memory::{FractalMemory3D, MemoryModel};
use crate::node::NodeId;
use crate::numbers::Binary32;
use crate::projection::projected;
use crate::recall::lemma_new_node_has_payload;
use vstd::prelude::*;
use vstd::string::StringExecFns;
use vstd::utf8::{
    decode_utf8, encode_utf8, encode_utf8_decode_utf8, encode_utf8_valid_utf8, valid_utf8,
};

verus! {

/// The unit separator between the name and the text of a memory.
pub const SEP: char = '\u{1f}';

/// What is stored for the text `text` under the name `uri`.
pub open spec fn packed(uri: Seq<char>, text: Seq<char>) -> Seq<char> {
    uri + seq![SEP] + text
}

/// What comes before the first `c` in `s` and what comes after it; none where there is no `c`.
pub open spec fn split_at_first(s: Seq<char>, c: char) -> Option<(Seq<char>, Seq<char>)> {
    if s.contains(c) {
        let i = s.index_of_first(c)->0;
        Some((s.take(i), s.skip(i + 1)))
    } else {
        None
    }
}

/// The name and the text that a payload holds. All of it is text where it has no separator.
pub open spec fn unpacked(raw: Seq<char>) -> (Seq<char>, Seq<char>) {
    match split_at_first(raw, SEP) {
        Some((uri, content)) => (uri, content),
        None => (Seq::empty(), raw),
    }
}

/// The scheme of a name: what comes before its first colon, all of it where there is none;
/// `memory` where that is empty.
pub open spec fn scheme(uri: Seq<char>) -> Seq<char> {
    let first = match split_at_first(uri, ':') {
        Some((before, after)) => before,
        None => uri,
    };
    if first.len() == 0 {
        "memory"@
    } else {
        first
    }
}

/// The text that bytes are taken for which are not valid UTF-8: with replacement characters for
/// what is not.
pub uninterp spec fn lossy_text(bytes: Seq<u8>) -> Seq<char>;

/// The text that bytes are taken for.
pub open spec fn text_of(bytes: Seq<u8>) -> Seq<char> {
    if valid_utf8(bytes) {
        decode_utf8(bytes)
    } else {
        lossy_text(bytes)
    }
}

/// Calls `String::from_utf8_lossy`. Claimed of it: the text is what the bytes encode where they
/// are valid UTF-8, and depends on the bytes alone where they are not.
#[verifier::external_body]
pub(crate) fn to_text(bytes: &[u8]) -> (r: String)
    ensures
        r@ == if valid_utf8(bytes@) {
            decode_utf8(bytes@)
        } else {
            lossy_text(bytes@)
        },
{
    String::from_utf8_lossy(bytes).into_owned()
}

/// Calls `str::split_once` with a character. Claimed of it: it splits the string at the first
/// occurrence of the character, if there is any.
#[verifier::external_body]
pub(crate) fn split_first<'a>(s: &'a str, c: char) -> (r: Option<(&'a str, &'a str)>)
    ensures
        r matches Some((before, after)) ==> s@ == before@ + seq![c] + after@ && !before@.contains(
            c,
        ),
        r is None ==> !s@.contains(c),
{
    s.split_once(c)
}

/// A string splits in one way only at the first occurrence of a character.
pub proof fn lemma_split(before: Seq<char>, c: char, after: Seq<char>)
    requires
        !before.contains(c),
    ensures
        split_at_first(before + seq![c] + after, c) == Some((before, after)),
{
    let s = before + seq![c] + after;
    let n = before.len() as int;
    assert(s[n] == c);
    assert(s.contains(c));
    s.index_of_first_ensures(c);
    let i = s.index_of_first(c)->0;
    assert(i == n) by {
        if i < n {
            assert(before[i] == c);
        }
    }
    assert(s.take(n) =~= before);
    assert(s.skip(n + 1) =~= after);
}

/// The name and the text that a payload holds.
pub fn split_payload(raw: &str) -> (r: (String, String))
    ensures
        (r.0@, r.1@) == unpacked(raw@),
{
    match split_first(raw, SEP) {
        Some((uri, content)) => {
            proof {
                lemma_split(uri@, SEP, content@);
            }
            (uri.to_owned(), content.to_owned())
        },
        None => (String::new(), raw.to_owned()),
    }
}

/// The scheme of a name.
pub fn kind_of(uri: &str) -> (r: String)
    ensures
        r@ == scheme(uri@),
{
    let first = match split_first(uri, ':') {
        Some((before, after)) => {
            proof {
                lemma_split(before@, ':', after@);
            }
            before
        },
        None => uri,
    };
    if first.is_empty() {
        "memory".to_owned()
    } else {
        first.to_owned()
    }
}

/// Puts a name and a text together.
pub fn pack(uri: &str, text: &str) -> (r: String)
    ensures
        r@ == packed(uri@, text@),
{
    let mut r = uri.to_owned();
    proof {
        reveal_strlit("\u{1f}");
        assert("\u{1f}"@ =~= seq![SEP]);
    }
    r.append("\u{1f}");
    r.append(text);
    r
}

/// What is packed is unpacked again, if the name holds no separator.
pub proof fn lemma_pack_then_unpack(uri: Seq<char>, text: Seq<char>)
    requires
        !uri.contains(SEP),
    ensures
        unpacked(packed(uri, text)) == (uri, text),
{
    lemma_split(uri, SEP, text);
}

impl FractalMemory3D {
    /// Inserts a text under a name, at the place of `embedding`.
    pub fn insert_text(
        &mut self,
        uri: &str,
        text: &str,
        embedding: &[Binary32],
        min_half_size: Binary32,
    ) -> (r: Option<NodeId>)
        requires
            projected(embedding@, old(self)@.projection, old(self)@.high_dim as nat) matches Some(
                point,
            ) ==> old(self)@.insertable(point, min_half_size),
        ensures
            match projected(embedding@, old(self)@.projection, old(self)@.high_dim as nat) {
                None => r is None && final(self)@ == old(self)@,
                Some(point) => (final(self)@, r) == ({
                    let (after, id) = old(self)@.inserted(
                        point,
                        Some(encode_utf8(packed(uri@, text@))),
                        min_half_size,
                    );
                    (after, Some(id))
                }),
            },
            old(self)@.well_formed() ==> final(self)@.well_formed(),
    {
        let payload = pack(uri, text);
        let bytes = payload.as_str().as_bytes();
        assert(payload_bytes(Some(bytes)) == Some(encode_utf8(packed(uri@, text@))));
        self.insert(embedding, Some(bytes), min_half_size)
    }

    /// The name and the text that a node holds. Both are empty where it holds nothing.
    pub fn memory_text(&self, node_id: NodeId) -> (r: (String, String))
        ensures
            (r.0@, r.1@) == self@.memory_text(node_id as int),
    {
        match self.get_payload(node_id) {
            Some(bytes) => {
                let raw = to_text(bytes);
                split_payload(raw.as_str())
            },
            None => {
                let raw = String::new();
                proof {
                    reveal_strlit("");
                    assert(raw@ =~= Seq::<char>::empty());
                }
                split_payload(raw.as_str())
            },
        }
    }
}

impl MemoryModel {
    /// The name and the text that a node holds.
    pub open spec fn memory_text(self, id: int) -> (Seq<char>, Seq<char>) {
        match self.payload(id) {
            Some(bytes) => unpacked(text_of(bytes)),
            None => (Seq::empty(), Seq::empty()),
        }
    }
}

/// A text that was inserted is read back from the new node, with its name, if the name holds no
/// separator.
pub proof fn lemma_text_round_trip(
    m: MemoryModel,
    point: Seq<Binary32>,
    uri: Seq<char>,
    text: Seq<char>,
    min: Binary32,
)
    requires
        !uri.contains(SEP),
        m.insertable(point, min),
        ({
            let payload = Some(encode_utf8(packed(uri, text)));
            &&& m.rooted(point, payload).nodes.len() <= usize::MAX
            &&& m.staged(payload).arena.len() <= usize::MAX
            &&& m.inserted(point, payload, min).1 >= m.nodes.len()
        }),
    ensures
        ({
            let (after, id) = m.inserted(point, Some(encode_utf8(packed(uri, text))), min);
            after.memory_text(id as int) == (uri, text)
        }),
{
    let bytes = encode_utf8(packed(uri, text));
    lemma_new_node_has_payload(m, point, Some(bytes), min);
    encode_utf8_valid_utf8(packed(uri, text));
    encode_utf8_decode_utf8(packed(uri, text));
    lemma_pack_then_unpack(uri, text);
}

/// The scheme of a name is what comes before its first colon, or all of it; `memory` where that is
/// empty.
pub proof fn lemma_scheme(before: Seq<char>, after: Seq<char>)
    requires
        !before.contains(':'),
    ensures
        before.len() > 0 ==> scheme(before + seq![':'] + after) == before,
        before.len() > 0 ==> scheme(before) == before,
        before.len() == 0 ==> scheme(before + seq![':'] + after) == "memory"@,
        before.len() == 0 ==> scheme(before) == "memory"@,
{
    lemma_split(before, ':', after);
}

/// A payload without separator is all text.
pub proof fn lemma_unpacked_plain(raw: Seq<char>)
    requires
        !raw.contains(SEP),
    ensures
        unpacked(raw) == (Seq::<char>::empty(), raw),
{
}

/// Where a payload holds a separator, the name and the text around the first one make it up again.
pub proof fn lemma_unpack_then_pack(raw: Seq<char>)
    requires
        raw.contains(SEP),
    ensures
        packed(unpacked(raw).0, unpacked(raw).1) == raw,
        !unpacked(raw).0.contains(SEP),
{
    raw.index_of_first_ensures(SEP);
    let i = raw.index_of_first(SEP)->0;
    assert(raw.take(i) + seq![SEP] + raw.skip(i + 1) =~= raw);
    let before = raw.take(i);
    if before.contains(SEP) {
        let k = choose|k: int| 0 <= k < before.len() && before[k] == SEP;
        assert(raw[k] == SEP);
    }
}

} // verus!
