//! The memory's file beside the disk image: its image followed by the
//! BLAKE3 digest of the image, so that a damaged file is ignored.
use vstd::prelude::*;
use vstd::string::*;
use crate::ai::memory::{fresh_session, MemoryEngine};
use crate::ai::memory_image::{
    covers, image_holds_all, image_in, lemma_memory_image_roundtrip, memory_contents, memory_image, memory_parsed,
    stored_contents, IMAGE_ENTRIES, IMAGE_PAIRS,
};
use crate::ai::persist::{lemma_seal_roundtrip, seal, sealed, unseal, unsealed};
use crate::clock::unix_now_secs;
use crate::text::join_text;

verus! {

broadcast use vstd::string::group_string_axioms;

/// The memory file that belongs to a disk image.
pub struct MemoryPersistence {
    path: String,
}

impl MemoryPersistence {
    /// The path of the memory file.
    pub closed spec fn file_path(&self) -> Seq<char> {
        self.path@
    }

    /// The memory of `image_path` lives beside it, in `<image>.mem`.
    pub fn new(image_path: &str) -> (r: Self)
        ensures
            r.file_path() == image_path@ + ".mem"@,
    {
        MemoryPersistence { path: join_text(image_path, ".mem") }
    }

    /// The path of the memory file.
    pub fn path(&self) -> (r: &str)
        ensures
            r@ == self.file_path(),
    {
        self.path.as_str()
    }
}

/// What a memory file holds: the memory's image, sealed.
pub fn encode_memory_file(engine: &MemoryEngine) -> (r: Vec<u8>)
    ensures
        r@ == sealed(memory_image(*engine)),
{
    let payload = engine.to_bytes();
    seal(payload.as_slice())
}

/// What a memory file holds, as the contents of a memory.
pub open spec fn memory_file_contents(raw: Seq<u8>) -> Option<crate::ai::memory_image::MemoryContents> {
    match unsealed(raw) {
        Some(p) => memory_parsed(p),
        None => None,
    }
}

/// Read a memory back from its file: nothing for a short or damaged file
/// or an image that cannot be read; the current session starts at `now`.
pub fn decode_memory_file_at(raw: &[u8], now: u64) -> (r: Option<MemoryEngine>)
    ensures
        r is Some <==> memory_file_contents(raw@) is Some,
        r matches Some(e) ==> memory_file_contents(raw@) == Some(memory_contents(e)) && fresh_session(
            e.current_session,
            now,
            now,
        ),
{
    match unseal(raw) {
        None => None,
        Some(payload) => MemoryEngine::from_bytes_at(payload.as_slice(), now),
    }
}

/// Read a memory back from its file; the current session starts now.
pub fn decode_memory_file(raw: &[u8]) -> (r: Option<MemoryEngine>)
    ensures
        r is Some <==> memory_file_contents(raw@) is Some,
        r matches Some(e) ==> memory_file_contents(raw@) == Some(memory_contents(e)) && exists|now: u64|
            #[trigger] fresh_session(e.current_session, now, now),
{
    let now = unix_now_secs();
    let r = decode_memory_file_at(raw, now);
    proof {
        if r is Some {
            assert(fresh_session(r.unwrap().current_session, now, now));
        }
    }
    r
}

/// What a memory's file is read back as: everything the memory holds
/// apart from its current session, as its image is read back, when the
/// image holds all of it.
pub proof fn lemma_memory_file_roundtrip(
    e: MemoryEngine,
    tk: Seq<u64>,
    kk: Seq<u64>,
    pk: Seq<u128>,
    dk: Seq<u64>,
    nk: Seq<u64>,
)
    requires
        image_holds_all(e),
        covers(tk, e.temporal@.dom(), IMAGE_ENTRIES as nat),
        covers(kk, e.streaks@.dom(), IMAGE_ENTRIES as nat),
        covers(pk, e.co_access.pairs@.dom(), IMAGE_PAIRS as nat),
        covers(dk, e.trends.windows().dom(), IMAGE_ENTRIES as nat),
        covers(nk, e.names@.dom(), IMAGE_ENTRIES as nat),
    ensures
        memory_file_contents(sealed(image_in(e, tk, kk, pk, dk, nk))) == Some(stored_contents(e)),
{
    let img = image_in(e, tk, kk, pk, dk, nk);
    assert(img.len() >= 8);
    lemma_seal_roundtrip(img);
    lemma_memory_image_roundtrip(e, tk, kk, pk, dk, nk);
}

} // verus!
