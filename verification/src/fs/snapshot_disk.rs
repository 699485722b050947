//! Fixed 512-byte snapshot record as laid out in the snapshot table.
use vstd::prelude::*;
use vstd::string::*;
use crate::codec::zeros;
use crate::fs::disk::{displayed_name, field_for_name, name_from_field, stored_name};

verus! {

pub const SNAPSHOT_MAGIC: u64 = 0x534E415000000001;
pub const SNAPSHOT_RECORD_SIZE: usize = 512;
pub const MAX_SNAPSHOTS: usize = 256;
pub const SNAPSHOT_TABLE_OFFSET: u64 = 266240;

/// One snapshot record: header fields, a 208-byte name and reserved space.
#[derive(Debug, Clone, Copy)]
pub struct DiskSnapshot {
    pub magic: u64,
    pub ino: u64,
    pub size: u64,
    pub data_offset: u64,
    pub timestamp: u64,
    pub id: u32,
    pub is_used: u8,
    /// Alignment padding, zero.
    pub _pad: [u8; 3],
    pub name: [u8; 208],
    /// Reserved for future fields, zero.
    pub _reserved: [u8; 256],
}

impl DiskSnapshot {
    pub fn empty() -> (r: Self)
        ensures
            r.magic == 0 && r.ino == 0 && r.size == 0 && r.data_offset == 0,
            r.timestamp == 0 && r.id == 0 && r.is_used == 0,
            r.name@ == zeros(208),
    {
        let r = Self {
            magic: 0,
            ino: 0,
            size: 0,
            data_offset: 0,
            timestamp: 0,
            id: 0,
            is_used: 0,
            _pad: [0u8; 3],
            name: [0u8; 208],
            _reserved: [0u8; 256],
        };
        assert(r.name@ =~= zeros(208));
        r
    }

    /// A record in use carrying the snapshot magic.
    pub fn is_valid(&self) -> (r: bool)
        ensures
            r == (self.magic == SNAPSHOT_MAGIC && self.is_used == 1),
    {
        self.magic == SNAPSHOT_MAGIC && self.is_used == 1
    }

    /// The stored name when every byte is displayable, else the empty string.
    pub fn get_name(&self) -> (r: String)
        ensures
            r@ == displayed_name(self.name@),
    {
        name_from_field(self.name.as_slice())
    }

    /// Store at most 207 bytes of `name`, zero-filled.
    pub fn set_name(&mut self, name: &str)
        ensures
            final(self).name@ == stored_name(name.spec_bytes()),
            final(self).magic == old(self).magic && final(self).ino == old(self).ino,
            final(self).size == old(self).size && final(self).data_offset == old(self).data_offset,
            final(self).timestamp == old(self).timestamp && final(self).id == old(self).id,
            final(self).is_used == old(self).is_used,
    {
        self.name = field_for_name(name);
    }
}

} // verus!
