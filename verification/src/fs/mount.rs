//! The mounted file system: its one directory of names, the files behind
//! them, and what it does with a file's bytes (the window a read hands back,
//! what a write makes of them, what a truncation leaves). Talking to the
//! kernel, the cache of file contents and the disk are the caller's part.
use vstd::prelude::*;
use std::collections::HashMap;
use crate::codec::copy_range;
use crate::fs::btree::{BPlusTree, KeyView, Value};
use crate::fs::disk::{displayed_name, inode_is_valid, InodeRaw};
use crate::fs::layout::DATA_OFFSET;

verus! {

/// The bytes a read of `size` bytes at `start` returns: those of `d` from
/// `start` on, at most `size` of them; nothing when `start` is at or past the end.
pub open spec fn window(d: Seq<u8>, start: int, size: int) -> Seq<u8> {
    if start < d.len() {
        let end = if start + size < d.len() {
            start + size
        } else {
            d.len() as int
        };
        d.subrange(start, end)
    } else {
        Seq::empty()
    }
}

/// The bytes after writing `w` at `start`: `d` grown with zeros to reach
/// `start + w.len()` where it is shorter, and `w` laid over it at `start`.
pub open spec fn spliced(d: Seq<u8>, start: int, w: Seq<u8>) -> Seq<u8> {
    let n: int = if start + w.len() > d.len() {
        start + w.len()
    } else {
        d.len() as int
    };
    Seq::new(
        n as nat,
        |i: int|
            if start <= i < start + w.len() {
                w[i - start]
            } else if i < d.len() {
                d[i]
            } else {
                0u8
            },
    )
}

/// The bytes after setting the length to `len`: cut, or grown with zeros.
pub open spec fn resized(d: Seq<u8>, len: int) -> Seq<u8> {
    if len <= d.len() {
        d.subrange(0, len)
    } else {
        d + Seq::new((len - d.len()) as nat, |i: int| 0u8)
    }
}

/// The bytes a read of `size` bytes at offset `start` returns from `data`.
pub fn read_window(data: &[u8], start: usize, size: usize) -> (r: Vec<u8>)
    requires
        start + size <= usize::MAX,
    ensures
        r@ == window(data@, start as int, size as int),
{
    let len = data.len();
    let want = start + size;
    let end = if want < len {
        want
    } else {
        len
    };
    if start < len {
        copy_range(data, start, end)
    } else {
        Vec::new()
    }
}

/// Write `bytes` into `data` at offset `start`, growing it with zeros first
/// where it ends before `start + bytes.len()`.
pub fn write_window(data: &mut Vec<u8>, start: usize, bytes: &[u8])
    requires
        start + bytes.len() <= usize::MAX,
    ensures
        final(data)@ == spliced(old(data)@, start as int, bytes@),
{
    let end = start + bytes.len();
    if end > data.len() {
        data.resize(end, 0u8);
    }
    let ghost grown = data@;
    let mut i: usize = 0;
    while i < bytes.len()
        invariant
            i <= bytes@.len(),
            end == start + bytes@.len(),
            data@.len() == grown.len(),
            end <= grown.len(),
            grown.len() == spliced(old(data)@, start as int, bytes@).len(),
            forall|k: int| 0 <= k < grown.len() && !(start <= k < start + i) ==> #[trigger] data@[k] == grown[k],
            forall|k: int| start <= k < start + i ==> #[trigger] data@[k] == bytes@[k - start],
        decreases bytes@.len() - i,
    {
        data.set(start + i, bytes[i]);
        i = i + 1;
    }
    proof {
        let s = spliced(old(data)@, start as int, bytes@);
        assert forall|k: int| 0 <= k < s.len() implies #[trigger] data@[k] == s[k] by {
            if !(start <= k < start + bytes@.len()) {
                if k < old(data)@.len() {
                    assert(grown[k] == old(data)@[k]);
                } else {
                    assert(grown[k] == 0u8);
                }
            }
        }
        assert(data@ =~= s);
    }
}

/// Set the length of `data` to `len`, cutting it or growing it with zeros.
pub fn resize_zeroed(data: &mut Vec<u8>, len: usize)
    ensures
        final(data)@ == resized(old(data)@, len as int),
{
    data.resize(len, 0u8);
    proof {
        if len > old(data)@.len() {
            let r = resized(old(data)@, len as int);
            assert forall|k: int| 0 <= k < len implies #[trigger] data@[k] == r[k] by {
                if k < old(data)@.len() {
                    assert(data@.subrange(0, old(data)@.len() as int)[k] == old(data)@[k]);
                }
            }
            assert(data@ =~= r);
        }
    }
}

/// A read of as many bytes as a write wrote, at the offset it wrote them,
/// gives back exactly the bytes written.
pub proof fn lemma_read_after_write(d: Seq<u8>, start: int, w: Seq<u8>)
    requires
        0 <= start,
    ensures
        window(spliced(d, start, w), start, w.len() as int) == w,
{
    let s = spliced(d, start, w);
    if w.len() > 0 {
        assert(window(s, start, w.len() as int) =~= w);
    } else {
        assert(window(s, start, 0) =~= w);
    }
}

/// A write leaves every byte outside the range it wrote as it was, with new
/// bytes between the old end and the write reading as zero.
pub proof fn lemma_write_frame(d: Seq<u8>, start: int, w: Seq<u8>, k: int)
    requires
        0 <= start,
        0 <= k < spliced(d, start, w).len(),
        !(start <= k < start + w.len()),
    ensures
        spliced(d, start, w)[k] == (if k < d.len() {
            d[k]
        } else {
            0u8
        }),
        spliced(d, start, w).len() >= d.len(),
{
}


// ── The directory and its files ─────────────────────────────────────────────

broadcast use vstd::std_specs::hash::group_hash_axioms;

/// The one directory every name lives in.
pub const ROOT_INO: u64 = 1;

pub const SEARCH_INO: u64 = 0xFFFF_FFFE;

pub const TELEMETRY_INO: u64 = 0xFFFF_FFFD;

pub const ASK_INO: u64 = 0xFFFF_FFFC;

pub const CONTEXT_INO: u64 = 0xFFFF_FFFB;

/// The files the file system shows beside the stored ones, served from the
/// AI engine's state.
#[derive(Debug, Clone, Copy, PartialEq, Eq, Structural)]
pub enum VirtualFile {
    /// `.vexfs-search`: write a query, read the results.
    Search,
    /// `.vexfs-telemetry.json`: a JSON summary of the engine's state.
    Telemetry,
    /// `.vexfs-ask`: write a question, read the answer.
    Ask,
    /// `.vexfs-context`: the memory's context summary.
    Context,
}

/// Errors an operation answers with.
#[derive(Debug, Clone, Copy, PartialEq, Eq, Structural)]
pub enum Errno {
    /// No such entry (ENOENT).
    NotFound,
    /// The name is taken (EEXIST).
    Exists,
    /// No inode slot is left (ENOSPC).
    NoSpace,
    /// The entry is not a directory (ENOTDIR).
    NotDir,
}

pub open spec fn virtual_ino(v: VirtualFile) -> u64 {
    match v {
        VirtualFile::Search => SEARCH_INO,
        VirtualFile::Telemetry => TELEMETRY_INO,
        VirtualFile::Ask => ASK_INO,
        VirtualFile::Context => CONTEXT_INO,
    }
}

/// The name a virtual file shows under.
pub open spec fn virtual_name(v: VirtualFile) -> Seq<char> {
    match v {
        VirtualFile::Search => ".vexfs-search"@,
        VirtualFile::Telemetry => ".vexfs-telemetry.json"@,
        VirtualFile::Ask => ".vexfs-ask"@,
        VirtualFile::Context => ".vexfs-context"@,
    }
}

/// The virtual file named `name`, if any.
pub open spec fn virtual_named(name: Seq<char>) -> Option<VirtualFile> {
    if name == ".vexfs-search"@ {
        Some(VirtualFile::Search)
    } else if name == ".vexfs-telemetry.json"@ {
        Some(VirtualFile::Telemetry)
    } else if name == ".vexfs-ask"@ {
        Some(VirtualFile::Ask)
    } else if name == ".vexfs-context"@ {
        Some(VirtualFile::Context)
    } else {
        None
    }
}

/// The virtual file with inode number `ino`, if any.
pub open spec fn virtual_numbered(ino: u64) -> Option<VirtualFile> {
    if ino == SEARCH_INO {
        Some(VirtualFile::Search)
    } else if ino == TELEMETRY_INO {
        Some(VirtualFile::Telemetry)
    } else if ino == ASK_INO {
        Some(VirtualFile::Ask)
    } else if ino == CONTEXT_INO {
        Some(VirtualFile::Context)
    } else {
        None
    }
}

impl VirtualFile {
    pub fn ino(&self) -> (r: u64)
        ensures
            r == virtual_ino(*self),
    {
        match self {
            VirtualFile::Search => SEARCH_INO,
            VirtualFile::Telemetry => TELEMETRY_INO,
            VirtualFile::Ask => ASK_INO,
            VirtualFile::Context => CONTEXT_INO,
        }
    }

    pub fn name(&self) -> (r: &'static str)
        ensures
            r@ == virtual_name(*self),
    {
        match *self {
            VirtualFile::Search => ".vexfs-search",
            VirtualFile::Telemetry => ".vexfs-telemetry.json",
            VirtualFile::Ask => ".vexfs-ask",
            VirtualFile::Context => ".vexfs-context",
        }
    }

    /// The virtual file named `name`, if any.
    pub fn by_name(name: &str) -> (r: Option<VirtualFile>)
        ensures
            r == virtual_named(name@),
    {
        let n = name.to_owned();
        if n == ".vexfs-search".to_owned() {
            Some(VirtualFile::Search)
        } else if n == ".vexfs-telemetry.json".to_owned() {
            Some(VirtualFile::Telemetry)
        } else if n == ".vexfs-ask".to_owned() {
            Some(VirtualFile::Ask)
        } else if n == ".vexfs-context".to_owned() {
            Some(VirtualFile::Context)
        } else {
            None
        }
    }

    /// The virtual file with inode number `ino`, if any.
    pub fn by_ino(ino: u64) -> (r: Option<VirtualFile>)
        ensures
            r == virtual_numbered(ino),
    {
        if ino == SEARCH_INO {
            Some(VirtualFile::Search)
        } else if ino == TELEMETRY_INO {
            Some(VirtualFile::Telemetry)
        } else if ino == ASK_INO {
            Some(VirtualFile::Ask)
        } else if ino == CONTEXT_INO {
            Some(VirtualFile::Context)
        } else {
            None
        }
    }
}

} // verus!
