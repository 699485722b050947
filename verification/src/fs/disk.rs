//! On-disk records for the superblock, inodes and snapshots, each with a
//! CRC-32 over its header bytes. Encoding and decoding are exact inverses
//! on every record whose checksum matches.
use vstd::prelude::*;
use vstd::bytes::*;
use vstd::slice::*;
use vstd::string::*;
use crate::codec::{le64_at, le32_at, zeros, all_ascii, ascii_chars, lossy_string, append_bytes, append_u64, append_u32, to_array, read_le64, read_le32};

verus! {

#[verifier::external_type_specification]
#[verifier::external_body]
pub struct ExIoError(std::io::Error);

/// Errors raised while decoding or writing on-disk structures.
#[derive(Debug)]
#[allow(inconsistent_fields)]
pub enum DiskError {
    Io(std::io::Error),
    BadMagic { expected: u64, got: u64 },
    BadChecksum { expected: u32, got: u32 },
    SizeMismatch { expected: usize, got: usize },
}

pub type DiskResult<T> = Result<T, DiskError>;

/// Name for the CRC-32 (IEEE polynomial) checksum of a byte sequence, as
/// crc32fast computes it.
pub uninterp spec fn crc32_checksum(data: Seq<u8>) -> u32;

/// Calls `crc32fast::hash`. The contract claims only that the result is the
/// named checksum of exactly the bytes handed in.
#[verifier::external_body]
fn crc32_raw(data: &[u8]) -> (r: u32)
    ensures
        r == crc32_checksum(data@),
{
    crc32fast::hash(data)
}

/// Compute CRC32 of a byte slice.
pub fn crc32(data: &[u8]) -> (r: u32)
    ensures
        r == crc32_checksum(data@),
{
    crc32_raw(data)
}

/// Calls `std::io::Error::new` with `ErrorKind::Other` and the message.
/// Nothing is stated of the error value it returns.
#[verifier::external_body]
pub(crate) fn other_io_error(msg: &str) -> std::io::Error {
    std::io::Error::new(std::io::ErrorKind::Other, msg)
}

/// The result of checking `data` against a stored checksum.
pub open spec fn crc_check(data: Seq<u8>, stored: u32) -> DiskResult<()> {
    if crc32_checksum(data) == stored {
        Ok(())
    } else {
        Err(DiskError::BadChecksum { expected: stored, got: crc32_checksum(data) })
    }
}

/// Verify CRC32 of data matches stored checksum.
pub fn verify_crc32(data: &[u8], stored: u32) -> (r: DiskResult<()>)
    ensures
        r == crc_check(data@, stored),
{
    let computed = crc32(data);
    if computed != stored {
        return Err(DiskError::BadChecksum { expected: stored, got: computed });
    }
    Ok(())
}

/// Encode a u64 as little-endian bytes.
pub fn u64_to_le(v: u64) -> (r: [u8; 8])
    ensures
        r@ == spec_u64_to_le_bytes(v),
{
    let v8 = u64_to_le_bytes(v);
    to_array::<8>(v8.as_slice())
}

/// Decode a u64 from little-endian bytes.
pub fn le_to_u64(b: &[u8; 8]) -> (r: u64)
    ensures
        r == spec_u64_from_le_bytes(b@),
{
    u64_from_le_bytes(b.as_slice())
}

/// Encode a u32 as little-endian bytes.
pub fn u32_to_le(v: u32) -> (r: [u8; 4])
    ensures
        r@ == spec_u32_to_le_bytes(v),
{
    let v4 = u32_to_le_bytes(v);
    to_array::<4>(v4.as_slice())
}

/// Decode a u32 from little-endian bytes.
pub fn le_to_u32(b: &[u8; 4]) -> (r: u32)
    ensures
        r == spec_u32_from_le_bytes(b@),
{
    u32_from_le_bytes(b.as_slice())
}

pub const SUPERBLOCK_BYTES: usize = 64;

/// The filesystem superblock as stored in the first 64 bytes of block 0.
#[derive(Debug, Clone, Copy, PartialEq, Eq, Structural)]
pub struct SuperblockRaw {
    pub magic: u64,
    pub version: u32,
    pub block_size: u32,
    pub total_blocks: u64,
    pub free_blocks: u64,
    pub inode_count: u64,
    pub next_data_offset: u64,
    pub created_at: u64,
    pub crc32: u32,
}

/// The 56 checksummed bytes of a superblock.
pub open spec fn superblock_fields(sb: SuperblockRaw) -> Seq<u8> {
    spec_u64_to_le_bytes(sb.magic) + spec_u32_to_le_bytes(sb.version) + spec_u32_to_le_bytes(
        sb.block_size,
    ) + spec_u64_to_le_bytes(sb.total_blocks) + spec_u64_to_le_bytes(sb.free_blocks)
        + spec_u64_to_le_bytes(sb.inode_count) + spec_u64_to_le_bytes(sb.next_data_offset)
        + spec_u64_to_le_bytes(sb.created_at)
}

/// The full 64-byte image of a superblock: fields, checksum, padding.
pub open spec fn superblock_image(sb: SuperblockRaw) -> Seq<u8> {
    superblock_fields(sb) + spec_u32_to_le_bytes(crc32_checksum(superblock_fields(sb))) + zeros(4)
}

/// What decoding a 64-byte superblock image yields.
pub open spec fn parse_superblock(b: Seq<u8>) -> DiskResult<SuperblockRaw> {
    let stored = le32_at(b, 56);
    match crc_check(b.subrange(0, 56), stored) {
        Err(e) => Err(e),
        Ok(_) => Ok(
            SuperblockRaw {
                magic: le64_at(b, 0),
                version: le32_at(b, 8),
                block_size: le32_at(b, 12),
                total_blocks: le64_at(b, 16),
                free_blocks: le64_at(b, 24),
                inode_count: le64_at(b, 32),
                next_data_offset: le64_at(b, 40),
                created_at: le64_at(b, 48),
                crc32: stored,
            },
        ),
    }
}

impl SuperblockRaw {
    pub fn to_bytes(&self) -> (r: [u8; SUPERBLOCK_BYTES])
        ensures
            r@ == superblock_image(*self),
    {
        let mut v: Vec<u8> = Vec::new();
        append_u64(&mut v, self.magic);
        append_u32(&mut v, self.version);
        append_u32(&mut v, self.block_size);
        append_u64(&mut v, self.total_blocks);
        append_u64(&mut v, self.free_blocks);
        append_u64(&mut v, self.inode_count);
        append_u64(&mut v, self.next_data_offset);
        append_u64(&mut v, self.created_at);
        proof {
            lemma_auto_spec_u64_to_from_le_bytes();
            lemma_auto_spec_u32_to_from_le_bytes();
            assert(v@ =~= superblock_fields(*self));
        }
        let checksum = crc32(v.as_slice());
        append_u32(&mut v, checksum);
        append_bytes(&mut v, &[0u8; 4]);
        proof {
            assert(v@ =~= superblock_image(*self));
        }
        to_array::<SUPERBLOCK_BYTES>(v.as_slice())
    }

    pub fn from_bytes(b: &[u8; SUPERBLOCK_BYTES]) -> (r: DiskResult<Self>)
        ensures
            r == parse_superblock(b@),
    {
        let s = b.as_slice();
        let stored = read_le32(s, 56);
        match verify_crc32(slice_subrange(s, 0, 56), stored) {
            Err(e) => Err(e),
            Ok(_) => Ok(
                Self {
                    magic: read_le64(s, 0),
                    version: read_le32(s, 8),
                    block_size: read_le32(s, 12),
                    total_blocks: read_le64(s, 16),
                    free_blocks: read_le64(s, 24),
                    inode_count: read_le64(s, 32),
                    next_data_offset: read_le64(s, 40),
                    created_at: read_le64(s, 48),
                    crc32: stored,
                },
            ),
        }
    }
}

/// Decoding an encoded superblock gives it back, with the checksum field
/// holding the checksum of its other fields.
pub proof fn lemma_superblock_roundtrip(sb: SuperblockRaw)
    ensures
        parse_superblock(superblock_image(sb)) == Ok::<SuperblockRaw, DiskError>(
            SuperblockRaw { crc32: crc32_checksum(superblock_fields(sb)), ..sb },
        ),
{
    lemma_auto_spec_u64_to_from_le_bytes();
    lemma_auto_spec_u32_to_from_le_bytes();
    let b = superblock_image(sb);
    let f = superblock_fields(sb);
    assert(b.subrange(0, 56) =~= f);
    assert(b.subrange(0, 8) =~= spec_u64_to_le_bytes(sb.magic));
    assert(b.subrange(8, 12) =~= spec_u32_to_le_bytes(sb.version));
    assert(b.subrange(12, 16) =~= spec_u32_to_le_bytes(sb.block_size));
    assert(b.subrange(16, 24) =~= spec_u64_to_le_bytes(sb.total_blocks));
    assert(b.subrange(24, 32) =~= spec_u64_to_le_bytes(sb.free_blocks));
    assert(b.subrange(32, 40) =~= spec_u64_to_le_bytes(sb.inode_count));
    assert(b.subrange(40, 48) =~= spec_u64_to_le_bytes(sb.next_data_offset));
    assert(b.subrange(48, 56) =~= spec_u64_to_le_bytes(sb.created_at));
    assert(b.subrange(56, 60) =~= spec_u32_to_le_bytes(crc32_checksum(f)));
}

} // verus!

verus! {

// ── Stored names ─────────────────────────────────────────────────────────────

pub const NAME_FIELD_BYTES: usize = 208;

/// Position of the first NUL byte in `s`, or its length when there is none.
pub open spec fn nul_pos(s: Seq<u8>) -> nat
    decreases s.len(),
{
    if s.len() == 0 {
        0
    } else if s[0] == 0 {
        0
    } else {
        1 + nul_pos(s.drop_first())
    }
}

/// Bytes a displayable stored name may hold: ASCII letters and digits, `.`, `_`, `-`, space.
pub open spec fn name_byte_ok(b: u8) -> bool {
    (48 <= b <= 57) || (65 <= b <= 90) || (97 <= b <= 122) || b == 46 || b == 95 || b == 45
        || b == 32
}

/// The bytes of a stored name before its terminating NUL.
pub open spec fn name_text(field: Seq<u8>) -> Seq<u8> {
    field.subrange(0, nul_pos(field) as int)
}

/// The name shown for a stored name field: its text when every byte is
/// displayable, otherwise the empty string.
pub open spec fn displayed_name(field: Seq<u8>) -> Seq<char> {
    let t = name_text(field);
    if forall|i: int| 0 <= i < t.len() ==> name_byte_ok(#[trigger] t[i]) {
        ascii_chars(t)
    } else {
        Seq::empty()
    }
}

/// The 208-byte field that stores a name: at most 207 of its bytes, then zeros.
pub open spec fn stored_name(bytes: Seq<u8>) -> Seq<u8> {
    let n: int = if bytes.len() < 207 { bytes.len() as int } else { 207 };
    bytes.subrange(0, n) + zeros((208 - n) as nat)
}

proof fn lemma_nul_pos_bounds(s: Seq<u8>)
    ensures
        nul_pos(s) <= s.len(),
        forall|j: int| 0 <= j < nul_pos(s) ==> s[j] != 0,
        nul_pos(s) < s.len() ==> s[nul_pos(s) as int] == 0,
    decreases s.len(),
{
    if s.len() > 0 && s[0] != 0 {
        lemma_nul_pos_bounds(s.drop_first());
        assert forall|j: int| 0 <= j < nul_pos(s) implies s[j] != 0 by {
            if j > 0 {
                assert(s[j] == s.drop_first()[j - 1]);
            }
        }
    }
}

proof fn lemma_nul_pos_step(s: Seq<u8>, i: int)
    requires
        0 <= i < s.len(),
        s[i] != 0,
    ensures
        nul_pos(s.subrange(i, s.len() as int)) == 1 + nul_pos(s.subrange(i + 1, s.len() as int)),
{
    assert(s.subrange(i, s.len() as int).drop_first() =~= s.subrange(i + 1, s.len() as int));
}

fn find_nul(s: &[u8]) -> (r: usize)
    ensures
        r == nul_pos(s@),
{
    let n = s.len();
    let mut i: usize = 0;
    proof {
        assert(s@.subrange(0, n as int) =~= s@);
    }
    while i < n && s[i] != 0
        invariant
            n == s@.len(),
            i <= n,
            nul_pos(s@) == i + nul_pos(s@.subrange(i as int, n as int)),
        decreases n - i,
    {
        proof {
            lemma_nul_pos_step(s@, i as int);
        }
        i += 1;
    }
    proof {
        if i < n {
            assert(s@.subrange(i as int, n as int)[0] == 0);
        }
    }
    i
}

/// The displayable name held in a stored name field.
pub fn name_from_field(field: &[u8]) -> (r: String)
    ensures
        r@ == displayed_name(field@),
{
    let end = find_nul(field);
    proof {
        lemma_nul_pos_bounds(field@);
    }
    let text = slice_subrange(field, 0, end);
    let mut ok = true;
    let mut i: usize = 0;
    while i < end
        invariant
            text@ == name_text(field@),
            end == text@.len(),
            i <= end,
            ok == (forall|j: int| 0 <= j < i ==> name_byte_ok(#[trigger] text@[j])),
        decreases end - i,
    {
        let c = text[i];
        let good = (48 <= c && c <= 57) || (65 <= c && c <= 90) || (97 <= c && c <= 122) || c
            == 46 || c == 95 || c == 45 || c == 32;
        ok = ok && good;
        i += 1;
    }
    if ok {
        assert(all_ascii(text@));
        lossy_string(text)
    } else {
        String::new()
    }
}

/// The 208-byte name field for `name`.
pub fn field_for_name(name: &str) -> (r: [u8; NAME_FIELD_BYTES])
    ensures
        r@ == stored_name(name.spec_bytes()),
{
    let bytes = name.as_bytes();
    let len = if bytes.len() < 207 { bytes.len() } else { 207 };
    let mut v: Vec<u8> = Vec::new();
    append_bytes(&mut v, slice_subrange(bytes, 0, len));
    let mut i: usize = len;
    while i < NAME_FIELD_BYTES
        invariant
            len <= i <= NAME_FIELD_BYTES,
            len <= 207,
            bytes@ == name.spec_bytes(),
            len == (if bytes@.len() < 207 { bytes@.len() as int } else { 207 }),
            v@ == bytes@.subrange(0, len as int) + zeros((i - len) as nat),
        decreases NAME_FIELD_BYTES - i,
    {
        v.push(0u8);
        i += 1;
        assert(v@ =~= bytes@.subrange(0, len as int) + zeros((i - len) as nat));
    }
    to_array::<NAME_FIELD_BYTES>(v.as_slice())
}

/// A name field written from any string reads back at most 207 bytes.
pub proof fn lemma_stored_name_length(bytes: Seq<u8>)
    ensures
        stored_name(bytes).len() == 208,
        nul_pos(stored_name(bytes)) <= 207,
        displayed_name(stored_name(bytes)).len() <= 207,
{
    let f = stored_name(bytes);
    lemma_nul_pos_bounds(f);
    assert(f[207] == 0);
}

/// Writing a name of displayable bytes and reading it back gives the same text.
pub proof fn lemma_name_roundtrip(bytes: Seq<u8>)
    requires
        bytes.len() <= 207,
        forall|i: int| 0 <= i < bytes.len() ==> name_byte_ok(#[trigger] bytes[i]),
    ensures
        displayed_name(stored_name(bytes)) == ascii_chars(bytes),
{
    let f = stored_name(bytes);
    lemma_nul_pos_bounds(f);
    assert forall|j: int| 0 <= j < bytes.len() implies f[j] != 0 by {
        assert(f[j] == bytes[j]);
        assert(name_byte_ok(bytes[j]));
    }
    if nul_pos(f) < bytes.len() {
        assert(f[nul_pos(f) as int] != 0);
    }
    assert(f[bytes.len() as int] == 0);
    assert(name_text(f) =~= bytes);
}

} // verus!

verus! {

// ── Inode records ────────────────────────────────────────────────────────────

pub const INODE_BYTES: usize = 256;

/// One 256-byte inode slot of the inode table.
#[derive(Debug, Clone)]
pub struct InodeRaw {
    pub ino: u64,
    pub size: u64,
    pub data_offset: u64,
    pub created_at: u64,
    pub modified_at: u64,
    pub is_used: u8,
    pub is_dir: u8,
    pub name: [u8; 208],
}

/// The 42 checksummed bytes of an inode.
pub open spec fn inode_fields(i: InodeRaw) -> Seq<u8> {
    spec_u64_to_le_bytes(i.ino) + spec_u64_to_le_bytes(i.size) + spec_u64_to_le_bytes(
        i.data_offset,
    ) + spec_u64_to_le_bytes(i.created_at) + spec_u64_to_le_bytes(i.modified_at) + seq![
        i.is_used,
        i.is_dir,
    ]
}

/// The full 256-byte image of an inode slot.
pub open spec fn inode_image(i: InodeRaw) -> Seq<u8> {
    inode_fields(i) + spec_u32_to_le_bytes(crc32_checksum(inode_fields(i))) + zeros(2) + i.name@
}

/// The checksum check that decoding a 256-byte inode image performs.
pub open spec fn inode_check(b: Seq<u8>) -> DiskResult<()> {
    crc_check(b.subrange(0, 42), le32_at(b, 42))
}

/// `i` holds the fields stored in the inode image `b`.
pub open spec fn inode_decodes(b: Seq<u8>, i: InodeRaw) -> bool {
    &&& i.ino == le64_at(b, 0)
    &&& i.size == le64_at(b, 8)
    &&& i.data_offset == le64_at(b, 16)
    &&& i.created_at == le64_at(b, 24)
    &&& i.modified_at == le64_at(b, 32)
    &&& i.is_used == b[40]
    &&& i.is_dir == b[41]
    &&& i.name@ == b.subrange(48, 256)
}

/// Every field of two inodes is the same.
pub open spec fn inode_same(a: InodeRaw, b: InodeRaw) -> bool {
    &&& a.ino == b.ino
    &&& a.size == b.size
    &&& a.data_offset == b.data_offset
    &&& a.created_at == b.created_at
    &&& a.modified_at == b.modified_at
    &&& a.is_used == b.is_used
    &&& a.is_dir == b.is_dir
    &&& a.name@ == b.name@
}

/// An inode slot counts as live when it is marked used and its name starts
/// with a printable, non-space ASCII byte.
pub open spec fn inode_is_valid(i: InodeRaw) -> bool {
    i.is_used != 0 && i.name@[0] != 0 && 0x21 <= i.name@[0] <= 0x7e
}

impl InodeRaw {
    pub fn empty() -> (r: Self)
        ensures
            r.ino == 0 && r.size == 0 && r.data_offset == 0,
            r.created_at == 0 && r.modified_at == 0,
            r.is_used == 0 && r.is_dir == 0,
            r.name@ == zeros(208),
    {
        let r = Self {
            ino: 0,
            size: 0,
            data_offset: 0,
            created_at: 0,
            modified_at: 0,
            is_used: 0,
            is_dir: 0,
            name: [0u8; 208],
        };
        assert(r.name@ =~= zeros(208));
        r
    }

    pub fn to_bytes(&self) -> (r: [u8; INODE_BYTES])
        ensures
            r@ == inode_image(*self),
    {
        let mut v: Vec<u8> = Vec::new();
        append_u64(&mut v, self.ino);
        append_u64(&mut v, self.size);
        append_u64(&mut v, self.data_offset);
        append_u64(&mut v, self.created_at);
        append_u64(&mut v, self.modified_at);
        v.push(self.is_used);
        v.push(self.is_dir);
        proof {
            lemma_auto_spec_u64_to_from_le_bytes();
            assert(v@ =~= inode_fields(*self));
        }
        let checksum = crc32(v.as_slice());
        append_u32(&mut v, checksum);
        append_bytes(&mut v, &[0u8; 2]);
        append_bytes(&mut v, self.name.as_slice());
        proof {
            lemma_auto_spec_u32_to_from_le_bytes();
            assert(v@ =~= inode_image(*self));
        }
        to_array::<INODE_BYTES>(v.as_slice())
    }

    pub fn from_bytes(b: &[u8; INODE_BYTES]) -> (r: DiskResult<Self>)
        ensures
            r is Ok <==> inode_check(b@) is Ok,
            r matches Err(e) ==> inode_check(b@) == Err::<(), DiskError>(e),
            r matches Ok(i) ==> inode_decodes(b@, i),
    {
        let s = b.as_slice();
        let stored = read_le32(s, 42);
        match verify_crc32(slice_subrange(s, 0, 42), stored) {
            Err(e) => Err(e),
            Ok(_) => {
                let name = to_array::<208>(slice_subrange(s, 48, 256));
                Ok(
                    Self {
                        ino: read_le64(s, 0),
                        size: read_le64(s, 8),
                        data_offset: read_le64(s, 16),
                        created_at: read_le64(s, 24),
                        modified_at: read_le64(s, 32),
                        is_used: s[40],
                        is_dir: s[41],
                        name,
                    },
                )
            },
        }
    }

    pub fn is_valid(&self) -> (r: bool)
        ensures
            r == inode_is_valid(*self),
    {
        if self.is_used == 0 {
            return false;
        }
        let first = self.name[0];
        if first == 0 {
            return false;
        }
        if !(0x21 <= first && first <= 0x7e) {
            return false;
        }
        true
    }

    pub fn get_name(&self) -> (r: String)
        ensures
            r@ == displayed_name(self.name@),
    {
        name_from_field(self.name.as_slice())
    }

    pub fn set_name(&mut self, name: &str)
        ensures
            final(self).name@ == stored_name(name.spec_bytes()),
            inode_same(InodeRaw { name: old(self).name, ..*final(self) }, *old(self)),
    {
        self.name = field_for_name(name);
    }
}

/// Decoding an encoded inode passes the checksum and gives back every field.
pub proof fn lemma_inode_roundtrip(i: InodeRaw)
    ensures
        inode_check(inode_image(i)) is Ok,
        inode_decodes(inode_image(i), i),
{
    lemma_auto_spec_u64_to_from_le_bytes();
    lemma_auto_spec_u32_to_from_le_bytes();
    let b = inode_image(i);
    let f = inode_fields(i);
    assert(b.subrange(0, 42) =~= f);
    assert(b.subrange(0, 8) =~= spec_u64_to_le_bytes(i.ino));
    assert(b.subrange(8, 16) =~= spec_u64_to_le_bytes(i.size));
    assert(b.subrange(16, 24) =~= spec_u64_to_le_bytes(i.data_offset));
    assert(b.subrange(24, 32) =~= spec_u64_to_le_bytes(i.created_at));
    assert(b.subrange(32, 40) =~= spec_u64_to_le_bytes(i.modified_at));
    assert(b.subrange(42, 46) =~= spec_u32_to_le_bytes(crc32_checksum(f)));
    assert(b.subrange(48, 256) =~= i.name@);
}

// ── Snapshot records ─────────────────────────────────────────────────────────

pub const SNAPSHOT_BYTES: usize = 512;

/// One 512-byte slot of the on-disk snapshot table.
#[derive(Debug, Clone)]
pub struct SnapshotRaw {
    pub magic: u64,
    pub ino: u64,
    pub size: u64,
    pub data_offset: u64,
    pub timestamp: u64,
    pub id: u32,
    pub is_used: u8,
    pub name: [u8; 208],
}

/// The 45 checksummed bytes of a snapshot record.
pub open spec fn snapshot_fields(s: SnapshotRaw) -> Seq<u8> {
    spec_u64_to_le_bytes(s.magic) + spec_u64_to_le_bytes(s.ino) + spec_u64_to_le_bytes(s.size)
        + spec_u64_to_le_bytes(s.data_offset) + spec_u64_to_le_bytes(s.timestamp)
        + spec_u32_to_le_bytes(s.id) + seq![s.is_used]
}

/// The full 512-byte image of a snapshot record.
pub open spec fn snapshot_image(s: SnapshotRaw) -> Seq<u8> {
    snapshot_fields(s) + spec_u32_to_le_bytes(crc32_checksum(snapshot_fields(s))) + s.name@ + zeros(
        255,
    )
}

/// The checksum check that decoding a 512-byte snapshot image performs.
pub open spec fn snapshot_check(b: Seq<u8>) -> DiskResult<()> {
    crc_check(b.subrange(0, 45), le32_at(b, 45))
}

/// `s` holds the fields stored in the snapshot image `b`.
pub open spec fn snapshot_decodes(b: Seq<u8>, s: SnapshotRaw) -> bool {
    &&& s.magic == le64_at(b, 0)
    &&& s.ino == le64_at(b, 8)
    &&& s.size == le64_at(b, 16)
    &&& s.data_offset == le64_at(b, 24)
    &&& s.timestamp == le64_at(b, 32)
    &&& s.id == le32_at(b, 40)
    &&& s.is_used == b[44]
    &&& s.name@ == b.subrange(49, 257)
}

impl SnapshotRaw {
    pub fn empty() -> (r: Self)
        ensures
            r.magic == 0 && r.ino == 0 && r.size == 0 && r.data_offset == 0,
            r.timestamp == 0 && r.id == 0 && r.is_used == 0,
            r.name@ == zeros(208),
    {
        let r = Self {
            magic: 0,
            ino: 0,
            size: 0,
            data_offset: 0,
            timestamp: 0,
            id: 0,
            is_used: 0,
            name: [0u8; 208],
        };
        assert(r.name@ =~= zeros(208));
        r
    }

    pub fn to_bytes(&self) -> (r: [u8; SNAPSHOT_BYTES])
        ensures
            r@ == snapshot_image(*self),
    {
        let mut v: Vec<u8> = Vec::new();
        append_u64(&mut v, self.magic);
        append_u64(&mut v, self.ino);
        append_u64(&mut v, self.size);
        append_u64(&mut v, self.data_offset);
        append_u64(&mut v, self.timestamp);
        append_u32(&mut v, self.id);
        v.push(self.is_used);
        proof {
            lemma_auto_spec_u64_to_from_le_bytes();
            lemma_auto_spec_u32_to_from_le_bytes();
            assert(v@ =~= snapshot_fields(*self));
        }
        let checksum = crc32(v.as_slice());
        append_u32(&mut v, checksum);
        append_bytes(&mut v, self.name.as_slice());
        append_bytes(&mut v, &[0u8; 255]);
        proof {
            assert(v@ =~= snapshot_image(*self));
        }
        to_array::<SNAPSHOT_BYTES>(v.as_slice())
    }

    pub fn from_bytes(b: &[u8; SNAPSHOT_BYTES]) -> (r: DiskResult<Self>)
        ensures
            r is Ok <==> snapshot_check(b@) is Ok,
            r matches Err(e) ==> snapshot_check(b@) == Err::<(), DiskError>(e),
            r matches Ok(s) ==> snapshot_decodes(b@, s),
    {
        let s = b.as_slice();
        let stored = read_le32(s, 45);
        match verify_crc32(slice_subrange(s, 0, 45), stored) {
            Err(e) => Err(e),
            Ok(_) => {
                let name = to_array::<208>(slice_subrange(s, 49, 257));
                Ok(
                    Self {
                        magic: read_le64(s, 0),
                        ino: read_le64(s, 8),
                        size: read_le64(s, 16),
                        data_offset: read_le64(s, 24),
                        timestamp: read_le64(s, 32),
                        id: read_le32(s, 40),
                        is_used: s[44],
                        name,
                    },
                )
            },
        }
    }

    pub fn is_valid(&self, magic: u64) -> (r: bool)
        ensures
            r == (self.magic == magic && self.is_used == 1),
    {
        self.magic == magic && self.is_used == 1
    }

    pub fn get_name(&self) -> (r: String)
        ensures
            r@ == displayed_name(self.name@),
    {
        name_from_field(self.name.as_slice())
    }

    pub fn set_name(&mut self, name: &str)
        ensures
            final(self).name@ == stored_name(name.spec_bytes()),
            final(self).magic == old(self).magic && final(self).ino == old(self).ino,
            final(self).size == old(self).size && final(self).data_offset == old(
                self,
            ).data_offset,
            final(self).timestamp == old(self).timestamp && final(self).id == old(self).id,
            final(self).is_used == old(self).is_used,
    {
        self.name = field_for_name(name);
    }
}

/// Decoding an encoded snapshot record passes the checksum and gives back every field.
pub proof fn lemma_snapshot_roundtrip(s: SnapshotRaw)
    ensures
        snapshot_check(snapshot_image(s)) is Ok,
        snapshot_decodes(snapshot_image(s), s),
{
    lemma_auto_spec_u64_to_from_le_bytes();
    lemma_auto_spec_u32_to_from_le_bytes();
    let b = snapshot_image(s);
    let f = snapshot_fields(s);
    assert(b.subrange(0, 45) =~= f);
    assert(b.subrange(0, 8) =~= spec_u64_to_le_bytes(s.magic));
    assert(b.subrange(8, 16) =~= spec_u64_to_le_bytes(s.ino));
    assert(b.subrange(16, 24) =~= spec_u64_to_le_bytes(s.size));
    assert(b.subrange(24, 32) =~= spec_u64_to_le_bytes(s.data_offset));
    assert(b.subrange(32, 40) =~= spec_u64_to_le_bytes(s.timestamp));
    assert(b.subrange(40, 44) =~= spec_u32_to_le_bytes(s.id));
    assert(b.subrange(45, 49) =~= spec_u32_to_le_bytes(crc32_checksum(f)));
    assert(b.subrange(49, 257) =~= s.name@);
}

} // verus!
