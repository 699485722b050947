//! The mounted volume's directory and the files behind its names. Every
//! name lives in the root directory; the B+ tree maps a name to its inode
//! number, and the file table holds what is known of each inode in memory.
use vstd::prelude::*;
use std::collections::HashMap;
use vstd::string::*;
use vstd::utf8::encode_utf8;
use crate::cache::ArcCache;
use crate::fs::btree::{pairs_view, BPlusTree, EntryView, Key, KeyView, Value, in_dir};
use crate::codec::copy_range;
use crate::fs::compress::{compress, compressed_form, decompressed, has_magic, shrinks, MIN_COMPRESS_LEN};
use crate::fs::disk::{displayed_name, inode_is_valid, stored_name, InodeRaw};
use crate::fs::layout::DATA_OFFSET;
use crate::fs::mount::{spliced, virtual_ino, virtual_name, virtual_named, write_window, Errno, VirtualFile, ROOT_INO};

verus! {

broadcast use {vstd::std_specs::hash::group_hash_axioms, vstd::string::group_string_axioms};

/// A file or directory of the mounted volume, as it is held in memory.
#[derive(Debug)]
pub struct MountedFile {
    pub name: String,
    pub ino: u64,
    pub size: u64,
    pub is_dir: bool,
    /// Its slot in the inode table.
    pub disk_index: usize,
    /// Changed since it was last written to disk.
    pub dirty: bool,
    /// When it was last looked up or created, in seconds since the epoch.
    pub open_since: Option<u64>,
    /// Where its data last went on disk.
    pub data_offset: u64,
    /// When it was last written through the mount; `None` when never.
    pub modified_at: Option<u64>,
}

/// What a name in the root directory stands for.
#[derive(Debug, Clone, Copy, PartialEq, Eq, Structural)]
pub enum Lookup {
    /// One of the virtual files.
    Virtual(VirtualFile),
    /// A stored file, with the size its index entry records.
    Stored { ino: u64, size: u64 },
}

/// The index key of `name` in the root directory.
pub open spec fn root_key(name: Seq<u8>) -> KeyView {
    (ROOT_INO, name)
}

/// `f` is a file just made under `name` with inode number `ino`: empty,
/// dirty, its data placed at the start of the data region, and opened now
/// unless it is a directory.
pub open spec fn is_new_file(
    f: MountedFile,
    name: Seq<char>,
    ino: u64,
    disk_index: usize,
    is_dir: bool,
    now: u64,
) -> bool {
    &&& f.name@ == name
    &&& f.ino == ino
    &&& f.size == 0
    &&& f.is_dir == is_dir
    &&& f.disk_index == disk_index
    &&& f.dirty
    &&& f.open_since == (if is_dir {
        None
    } else {
        Some(now)
    })
    &&& f.data_offset == DATA_OFFSET
    &&& f.modified_at is None
}

/// `f` is the in-memory file for inode slot `slot` read back at mount time.
pub open spec fn is_loaded_file(f: MountedFile, slot: usize, i: InodeRaw) -> bool {
    &&& f.name@ == displayed_name(i.name@)
    &&& f.ino == i.ino
    &&& f.size == i.size
    &&& f.is_dir == (i.is_dir == 1)
    &&& f.disk_index == slot
    &&& !f.dirty
    &&& f.open_since is None
    &&& f.data_offset == i.data_offset
    &&& f.modified_at is None
}

/// Two files agree on everything but their name and dirty mark.
pub open spec fn same_but_name(a: MountedFile, b: MountedFile) -> bool {
    &&& a.ino == b.ino
    &&& a.size == b.size
    &&& a.is_dir == b.is_dir
    &&& a.disk_index == b.disk_index
    &&& a.open_since == b.open_since
    &&& a.data_offset == b.data_offset
    &&& a.modified_at == b.modified_at
}

/// The directory listing's stored part: for each index entry, in key
/// order, the file it names when the file table has it.
pub open spec fn listing(es: Seq<EntryView>, files: Map<u64, MountedFile>) -> Seq<(u64, bool, Seq<char>)>
    decreases es.len(),
{
    if es.len() == 0 {
        Seq::empty()
    } else {
        let ino = es.last().1.ino;
        listing(es.drop_last(), files) + if files.contains_key(ino) {
            seq![(ino, files[ino].is_dir, files[ino].name@)]
        } else {
            Seq::empty()
        }
    }
}

/// A listing entry as text.
pub open spec fn listed(e: (u64, bool, String)) -> (u64, bool, Seq<char>) {
    (e.0, e.1, e.2@)
}

/// The volume's directory and file table.
pub struct MountTable {
    index: BPlusTree,
    files: HashMap<u64, MountedFile>,
    next_inode: u64,
}

impl MountTable {
    /// Name → index entry, for the names of the root directory.
    pub closed spec fn entries(&self) -> Map<KeyView, Value> {
        self.index@
    }

    /// The index entries in key order.
    pub closed spec fn ordered_entries(&self) -> Seq<EntryView> {
        self.index.entries()
    }

    /// Inode number → file.
    pub closed spec fn files(&self) -> Map<u64, MountedFile> {
        self.files@
    }

    /// The inode number the next new file gets.
    pub closed spec fn next_ino(&self) -> u64 {
        self.next_inode
    }

    /// The table's invariant: a well-formed index, and every file held
    /// under its own number, which is below the next number handed out.
    pub closed spec fn wf(&self) -> bool {
        &&& self.index.wf()
        &&& forall|ino: u64| #[trigger] self.files@.contains_key(ino) ==> ino < self.next_inode
            && self.files@[ino].ino == ino
    }

    /// What looking up `name` under `parent` answers.
    pub open spec fn lookup_outcome(&self, parent: u64, name: &str) -> Result<Lookup, Errno> {
        let key = root_key(name.spec_bytes());
        if parent != ROOT_INO {
            Err(Errno::NotFound)
        } else if virtual_named(name@) is Some {
            Ok(Lookup::Virtual(virtual_named(name@).unwrap()))
        } else if self.entries().contains_key(key) && self.files().contains_key(self.entries()[key].ino) {
            Ok(Lookup::Stored { ino: self.entries()[key].ino, size: self.entries()[key].size })
        } else {
            Err(Errno::NotFound)
        }
    }

    /// An empty volume; numbering starts at 2, 1 being the root.
    pub fn new() -> (r: Self)
        ensures
            r.wf(),
            r.entries() == Map::<KeyView, Value>::empty(),
            r.files() == Map::<u64, MountedFile>::empty(),
            r.next_ino() == 2,
    {
        MountTable { index: BPlusTree::new(), files: HashMap::new(), next_inode: 2 }
    }

    /// How many names the directory holds.
    pub fn entry_count(&self) -> (r: usize)
        requires
            self.wf(),
        ensures
            r == self.entries().len(),
    {
        self.index.len()
    }

    /// How many files the table holds.
    pub fn file_count(&self) -> (r: usize)
        ensures
            r == self.files().len(),
    {
        self.files.len()
    }

    /// The inode number the next new file gets.
    pub fn next_inode(&self) -> (r: u64)
        ensures
            r == self.next_ino(),
    {
        self.next_inode
    }

    /// The file with inode number `ino`.
    pub fn file(&self, ino: u64) -> (r: Option<&MountedFile>)
        ensures
            match r {
                Some(f) => self.files().contains_key(ino) && *f == self.files()[ino],
                None => !self.files().contains_key(ino),
            },
    {
        self.files.get(&ino)
    }

    /// Look up `name` under `parent`. A stored file found is marked opened now.
    pub fn lookup(&mut self, parent: u64, name: &str, now: u64) -> (r: Result<Lookup, Errno>)
        requires
            old(self).wf(),
        ensures
            final(self).wf(),
            r == old(self).lookup_outcome(parent, name),
            final(self).entries() == old(self).entries(),
            final(self).next_ino() == old(self).next_ino(),
            final(self).files() == (match r {
                Ok(Lookup::Stored { ino, size }) => old(self).files().insert(
                    ino,
                    MountedFile { open_since: Some(now), ..old(self).files()[ino] },
                ),
                _ => old(self).files(),
            }),
    {
        if parent != ROOT_INO {
            return Err(Errno::NotFound);
        }
        match VirtualFile::by_name(name) {
            Some(v) => {
                return Ok(Lookup::Virtual(v));
            },
            None => {},
        }
        let found: Option<Value> = match self.index.get(ROOT_INO, name) {
            Some(v) => Some(*v),
            None => None,
        };
        match found {
            None => Err(Errno::NotFound),
            Some(v) => {
                let ino = v.ino;
                match self.files.remove(&ino) {
                    None => Err(Errno::NotFound),
                    Some(f) => {
                        let f2 = MountedFile { open_since: Some(now), ..f };
                        self.files.insert(ino, f2);
                        proof {
                            assert(self.files@ =~= old(self).files@.insert(
                                ino,
                                MountedFile { open_since: Some(now), ..old(self).files@[ino] },
                            ));
                        }
                        Ok(Lookup::Stored { ino, size: v.size })
                    },
                }
            },
        }
    }

    /// Whether a new entry `name` may be made under `parent`.
    pub fn check_new_entry(&self, parent: u64, name: &str) -> (r: Result<(), Errno>)
        requires
            self.wf(),
        ensures
            r == (if parent != ROOT_INO {
                Err(Errno::NotFound)
            } else if self.entries().contains_key(root_key(name.spec_bytes())) {
                Err(Errno::Exists)
            } else {
                Ok(())
            }),
    {
        if parent != ROOT_INO {
            return Err(Errno::NotFound);
        }
        if self.index.get(ROOT_INO, name).is_some() {
            Err(Errno::Exists)
        } else {
            Ok(())
        }
    }

    /// Make a new file (or directory) `name` in inode slot `disk_index`,
    /// numbered with the next free inode number.
    pub fn add_entry(&mut self, name: &str, disk_index: usize, is_dir: bool, now: u64) -> (ino: u64)
        requires
            old(self).wf(),
            old(self).next_ino() < u64::MAX,
            old(self).entries().len() < usize::MAX,
        ensures
            final(self).wf(),
            ino == old(self).next_ino(),
            !old(self).files().contains_key(ino),
            final(self).next_ino() == ino + 1,
            final(self).entries() == old(self).entries().insert(
                root_key(name.spec_bytes()),
                Value { ino, size: 0, is_dir, disk_index },
            ),
            final(self).files().dom() == old(self).files().dom().insert(ino),
            is_new_file(final(self).files()[ino], name@, ino, disk_index, is_dir, now),
            forall|k: u64| k != ino ==> #[trigger] final(self).files().get(k) == old(self).files().get(k),
    {
        let ino = self.next_inode;
        self.next_inode = ino + 1;
        self.index.insert(ROOT_INO, name, Value { ino, size: 0, is_dir, disk_index });
        let f = MountedFile {
            name: name.to_owned(),
            ino,
            size: 0,
            is_dir,
            disk_index,
            dirty: true,
            open_since: if is_dir {
                None
            } else {
                Some(now)
            },
            data_offset: DATA_OFFSET,
            modified_at: None,
        };
        self.files.insert(ino, f);
        proof {
            assert(self.files@.dom() =~= old(self).files@.dom().insert(ino));
            assert forall|k: u64| k != ino implies #[trigger] self.files@.get(k) == old(self).files@.get(k) by {}
        }
        ino
    }

    /// Remove the file `name` under `parent`, handing it back.
    pub fn unlink(&mut self, parent: u64, name: &str) -> (r: Result<MountedFile, Errno>)
        requires
            old(self).wf(),
        ensures
            final(self).wf(),
            final(self).next_ino() == old(self).next_ino(),
            ({
                let key = root_key(name.spec_bytes());
                if parent != ROOT_INO || !old(self).entries().contains_key(key) {
                    &&& r == Err::<MountedFile, Errno>(Errno::NotFound)
                    &&& final(self).entries() == old(self).entries()
                    &&& final(self).files() == old(self).files()
                } else {
                    let ino = old(self).entries()[key].ino;
                    &&& final(self).entries() == old(self).entries().remove(key)
                    &&& final(self).files() == old(self).files().remove(ino)
                    &&& (if old(self).files().contains_key(ino) {
                        r == Ok::<MountedFile, Errno>(old(self).files()[ino])
                    } else {
                        r == Err::<MountedFile, Errno>(Errno::NotFound)
                    })
                }
            }),
    {
        if parent != ROOT_INO {
            return Err(Errno::NotFound);
        }
        match self.index.remove(ROOT_INO, name) {
            None => Err(Errno::NotFound),
            Some(v) => {
                let removed = self.files.remove(&v.ino);
                proof {
                    assert(self.files@ =~= old(self).files@.remove(v.ino));
                }
                match removed {
                    Some(f) => Ok(f),
                    None => Err(Errno::NotFound),
                }
            },
        }
    }

    /// Remove the directory `name` under `parent`, handing back its inode slot.
    pub fn rmdir(&mut self, parent: u64, name: &str) -> (r: Result<usize, Errno>)
        requires
            old(self).wf(),
        ensures
            final(self).wf(),
            final(self).next_ino() == old(self).next_ino(),
            ({
                let key = root_key(name.spec_bytes());
                if parent != ROOT_INO || !old(self).entries().contains_key(key) || !old(self).entries()[key].is_dir {
                    &&& r == (if parent == ROOT_INO && old(self).entries().contains_key(key) {
                        Err::<usize, Errno>(Errno::NotDir)
                    } else {
                        Err::<usize, Errno>(Errno::NotFound)
                    })
                    &&& final(self).entries() == old(self).entries()
                    &&& final(self).files() == old(self).files()
                } else {
                    let ino = old(self).entries()[key].ino;
                    &&& final(self).entries() == old(self).entries().remove(key)
                    &&& final(self).files() == old(self).files().remove(ino)
                    &&& (if old(self).files().contains_key(ino) {
                        r == Ok::<usize, Errno>(old(self).files()[ino].disk_index)
                    } else {
                        r == Err::<usize, Errno>(Errno::NotFound)
                    })
                }
            }),
    {
        if parent != ROOT_INO {
            return Err(Errno::NotFound);
        }
        let found: Option<Value> = match self.index.get(ROOT_INO, name) {
            Some(v) => Some(*v),
            None => None,
        };
        match found {
            None => Err(Errno::NotFound),
            Some(v) => {
                if !v.is_dir {
                    return Err(Errno::NotDir);
                }
                self.index.remove(ROOT_INO, name);
                let removed = self.files.remove(&v.ino);
                proof {
                    assert(self.files@ =~= old(self).files@.remove(v.ino));
                }
                match removed {
                    Some(f) => Ok(f.disk_index),
                    None => Err(Errno::NotFound),
                }
            },
        }
    }

    /// Move the entry `name` to `newname`. Only the root directory exists,
    /// so both parents must be the root.
    pub fn rename(&mut self, parent: u64, name: &str, newparent: u64, newname: &str) -> (r: Result<(), Errno>)
        requires
            old(self).wf(),
        ensures
            final(self).wf(),
            final(self).next_ino() == old(self).next_ino(),
            ({
                let key = root_key(name.spec_bytes());
                let new_key = root_key(newname.spec_bytes());
                if parent != ROOT_INO || newparent != ROOT_INO || !old(self).entries().contains_key(key) {
                    &&& r == Err::<(), Errno>(Errno::NotFound)
                    &&& final(self).entries() == old(self).entries()
                    &&& final(self).files() == old(self).files()
                } else {
                    let v = old(self).entries()[key];
                    &&& final(self).entries() == old(self).entries().remove(key).insert(new_key, v)
                    &&& (if old(self).files().contains_key(v.ino) {
                        &&& r == Ok::<(), Errno>(())
                        &&& final(self).files().dom() == old(self).files().dom()
                        &&& final(self).files()[v.ino].name@ == newname@
                        &&& final(self).files()[v.ino].dirty
                        &&& same_but_name(final(self).files()[v.ino], old(self).files()[v.ino])
                        &&& forall|k: u64| k != v.ino ==> #[trigger] final(self).files().get(k) == old(self).files().get(k)
                    } else {
                        &&& r == Err::<(), Errno>(Errno::NotFound)
                        &&& final(self).files() == old(self).files()
                    })
                }
            }),
    {
        if parent != ROOT_INO || newparent != ROOT_INO {
            return Err(Errno::NotFound);
        }
        let before = self.index.len();
        proof {
            self.index.lemma_entries();
        }
        match self.index.remove(ROOT_INO, name) {
            None => Err(Errno::NotFound),
            Some(v) => {
                proof {
                    let k = root_key(name.spec_bytes());
                    assert(old(self).index@.contains_key(k));
                    assert(self.index@.dom() =~= old(self).index@.dom().remove(k));
                    assert(self.index@.len() == before - 1);
                }
                self.index.insert(ROOT_INO, newname, v);
                match self.files.remove(&v.ino) {
                    None => Err(Errno::NotFound),
                    Some(f) => {
                        let f2 = MountedFile { name: newname.to_owned(), dirty: true, ..f };
                        self.files.insert(v.ino, f2);
                        proof {
                            assert(self.files@.dom() =~= old(self).files@.dom());
                            assert forall|k: u64| k != v.ino implies #[trigger] self.files@.get(k) == old(self).files@.get(k) by {}
                        }
                        Ok(())
                    },
                }
            },
        }
    }

    /// Set the size of file `ino` when `size` asks for a different one.
    /// Returns `None` when there is no such file, else whether it changed
    /// (the caller then resizes the cached contents).
    pub fn set_size(&mut self, ino: u64, size: Option<u64>) -> (r: Option<bool>)
        requires
            old(self).wf(),
        ensures
            final(self).wf(),
            final(self).entries() == old(self).entries(),
            final(self).next_ino() == old(self).next_ino(),
            !old(self).files().contains_key(ino) ==> r is None && final(self).files() == old(self).files(),
            old(self).files().contains_key(ino) ==> {
                let f = old(self).files()[ino];
                let changed = size is Some && size.unwrap() != f.size;
                &&& r == Some(changed)
                &&& final(self).files() == (if changed {
                    old(self).files().insert(ino, MountedFile { size: size.unwrap(), dirty: true, ..f })
                } else {
                    old(self).files()
                })
            },
    {
        match self.files.remove(&ino) {
            None => {
                proof {
                    assert(self.files@ =~= old(self).files@);
                }
                None
            },
            Some(f) => {
                let changed = match size {
                    Some(s) => s != f.size,
                    None => false,
                };
                let f2 = if changed {
                    MountedFile { size: size.unwrap(), dirty: true, ..f }
                } else {
                    f
                };
                self.files.insert(ino, f2);
                proof {
                    if !changed {
                        assert(self.files@ =~= old(self).files@);
                    }
                }
                Some(changed)
            },
        }
    }

    /// Write `data` at `offset` into file `ino`, whose contents are those
    /// cached under its number (none cached reads as empty). Returns the new
    /// contents for the caller to cache, or `None` when there is no such file.
    pub fn write(&mut self, cache: &mut ArcCache, ino: u64, offset: usize, data: &[u8], now: u64) -> (r: Option<Vec<u8>>)
        requires
            old(self).wf(),
            old(cache).wf(),
            offset + data@.len() <= usize::MAX,
        ensures
            final(self).wf(),
            final(cache).wf(),
            final(cache)@ == old(cache)@,
            final(self).entries() == old(self).entries(),
            final(self).next_ino() == old(self).next_ino(),
            !old(self).files().contains_key(ino) ==> r is None && final(self).files() == old(self).files(),
            old(self).files().contains_key(ino) ==> {
                let current = if old(cache)@.contains_key(ino) {
                    old(cache)@[ino]
                } else {
                    Seq::<u8>::empty()
                };
                let new_data = spliced(current, offset as int, data@);
                &&& r is Some
                &&& r.unwrap()@ == new_data
                &&& final(self).files() == old(self).files().insert(
                    ino,
                    MountedFile {
                        size: new_data.len() as u64,
                        dirty: true,
                        modified_at: Some(now),
                        ..old(self).files()[ino]
                    },
                )
            },
    {
        match self.files.remove(&ino) {
            None => {
                proof {
                    assert(self.files@ =~= old(self).files@);
                }
                None
            },
            Some(f) => {
                let mut contents: Vec<u8> = match cache.get(ino) {
                    Some(d) => d.clone(),
                    None => Vec::new(),
                };
                write_window(&mut contents, offset, data);
                let len = contents.len() as u64;
                self.files.insert(ino, MountedFile { size: len, dirty: true, modified_at: Some(now), ..f });
                proof {
                    assert(self.files@ =~= old(self).files@.insert(
                        ino,
                        MountedFile {
                            size: contents@.len() as u64,
                            dirty: true,
                            modified_at: Some(now),
                            ..old(self).files@[ino]
                        },
                    ));
                }
                Some(contents)
            },
        }
    }

    /// Take in inode slot `slot` read back at mount time: a valid inode
    /// with a displayable name joins the directory and the file table, and
    /// numbering moves past its number. Returns whether it was taken in.
    pub fn add_loaded(&mut self, slot: usize, inode: &InodeRaw) -> (loaded: bool)
        requires
            old(self).wf(),
            inode.ino < u64::MAX,
            old(self).entries().len() < usize::MAX,
        ensures
            final(self).wf(),
            loaded == (inode_is_valid(*inode) && displayed_name(inode.name@).len() > 0),
            !loaded ==> final(self).entries() == old(self).entries() && final(self).files() == old(self).files() && final(self).next_ino() == old(self).next_ino(),
            loaded ==> {
                &&& final(self).entries() == old(self).entries().insert(
                    root_key(encode_utf8(displayed_name(inode.name@))),
                    Value { ino: inode.ino, size: inode.size, is_dir: inode.is_dir == 1, disk_index: slot },
                )
                &&& final(self).files().dom() == old(self).files().dom().insert(inode.ino)
                &&& is_loaded_file(final(self).files()[inode.ino], slot, *inode)
                &&& forall|k: u64| k != inode.ino ==> #[trigger] final(self).files().get(k) == old(self).files().get(k)
                &&& final(self).next_ino() == (if inode.ino >= old(self).next_ino() {
                    (inode.ino + 1) as u64
                } else {
                    old(self).next_ino()
                })
            },
    {
        if !inode.is_valid() {
            return false;
        }
        let name = inode.get_name();
        if name.as_str().is_empty() {
            return false;
        }
        let ino = inode.ino;
        self.index.insert(
            ROOT_INO,
            name.as_str(),
            Value { ino, size: inode.size, is_dir: inode.is_dir == 1, disk_index: slot },
        );
        if ino >= self.next_inode {
            self.next_inode = ino + 1;
        }
        let f = MountedFile {
            name,
            ino,
            size: inode.size,
            is_dir: inode.is_dir == 1,
            disk_index: slot,
            dirty: false,
            open_since: None,
            data_offset: inode.data_offset,
            modified_at: None,
        };
        self.files.insert(ino, f);
        proof {
            assert(self.files@.dom() =~= old(self).files@.dom().insert(ino));
            assert forall|k: u64| k != ino implies #[trigger] self.files@.get(k) == old(self).files@.get(k) by {}
        }
        true
    }

    /// The stored files of the root directory in name order: for each
    /// index entry whose file the table holds, its number, kind and name.
    pub fn stored_entries(&self) -> (r: Vec<(u64, bool, String)>)
        requires
            self.wf(),
        ensures
            listing_view(r@) == listing(
                self.ordered_entries().filter(in_dir(ROOT_INO)),
                self.files(),
            ),
    {
        let mut out: Vec<(u64, bool, String)> = Vec::new();
        let children = self.index.list_dir(ROOT_INO);
        let ghost es = pairs_view(children@);
        proof {
            assert(listing_view(out@) =~= Seq::<(u64, bool, Seq<char>)>::empty());
            assert(es.subrange(0, 0) =~= Seq::<EntryView>::empty());
        }
        let mut i: usize = 0;
        while i < children.len()
            invariant
                i <= children@.len(),
                es == pairs_view(children@),
                es.len() == children@.len(),
                listing_view(out@) == listing(es.subrange(0, i as int), self.files@),
            decreases children@.len() - i,
        {
            let val: Value = *children[i].1;
            let ghost before = out@;
            proof {
                assert(es[i as int].1 == val);
                assert(es.subrange(0, i + 1).drop_last() =~= es.subrange(0, i as int));
            }
            match self.files.get(&val.ino) {
                Some(f) => {
                    let entry = (val.ino, f.is_dir, f.name.clone());
                    let ghost e = entry;
                    out.push(entry);
                    proof {
                        lemma_listing_push(before, e);
                    }
                },
                None => {},
            }
            i = i + 1;
        }
        proof {
            assert(es.subrange(0, es.len() as int) =~= es);
        }
        out
    }

    /// The directory listing of `ino`: `.`, `..`, the virtual files, then
    /// each stored file of the root directory in name order.
    pub fn dir_listing(&self, ino: u64) -> (r: Result<Vec<(u64, bool, String)>, Errno>)
        requires
            self.wf(),
        ensures
            ino != ROOT_INO ==> r == Err::<Vec<(u64, bool, String)>, Errno>(Errno::NotFound),
            ino == ROOT_INO ==> r is Ok && listing_view(r.unwrap()@) == fixed_entries() + listing(
                self.ordered_entries().filter(in_dir(ROOT_INO)),
                self.files(),
            ),
    {
        if ino != ROOT_INO {
            return Err(Errno::NotFound);
        }
        let mut out: Vec<(u64, bool, String)> = Vec::new();
        out.push((ROOT_INO, true, ".".to_owned()));
        out.push((ROOT_INO, true, "..".to_owned()));
        let search = VirtualFile::Search;
        let telemetry = VirtualFile::Telemetry;
        let ask = VirtualFile::Ask;
        let context = VirtualFile::Context;
        out.push((search.ino(), false, search.name().to_owned()));
        out.push((telemetry.ino(), false, telemetry.name().to_owned()));
        out.push((ask.ino(), false, ask.name().to_owned()));
        out.push((context.ino(), false, context.name().to_owned()));
        proof {
            assert(listing_view(out@) =~= fixed_entries());
        }
        let mut stored = self.stored_entries();
        let ghost head = out@;
        let ghost tail = stored@;
        out.append(&mut stored);
        proof {
            assert(listing_view(head + tail) =~= listing_view(head) + listing_view(tail));
        }
        Ok(out)
    }

    /// Clear the dirty mark of file `ino` when it is set, handing back its
    /// name and inode slot for writing it out.
    pub fn take_dirty(&mut self, ino: u64) -> (r: Option<(String, usize)>)
        requires
            old(self).wf(),
        ensures
            final(self).wf(),
            final(self).entries() == old(self).entries(),
            final(self).next_ino() == old(self).next_ino(),
            (old(self).files().contains_key(ino) && old(self).files()[ino].dirty) ==> {
                let f = old(self).files()[ino];
                &&& r is Some
                &&& r.unwrap().0@ == f.name@
                &&& r.unwrap().1 == f.disk_index
                &&& final(self).files() == old(self).files().insert(ino, MountedFile { dirty: false, ..f })
            },
            !(old(self).files().contains_key(ino) && old(self).files()[ino].dirty) ==> r is None && final(self).files() == old(self).files(),
    {
        match self.files.remove(&ino) {
            None => {
                proof {
                    assert(self.files@ =~= old(self).files@);
                }
                None
            },
            Some(f) => {
                if f.dirty {
                    let out = (f.name.clone(), f.disk_index);
                    self.files.insert(ino, MountedFile { dirty: false, ..f });
                    Some(out)
                } else {
                    self.files.insert(ino, f);
                    proof {
                        assert(self.files@ =~= old(self).files@);
                    }
                    None
                }
            },
        }
    }

    /// Note where the data of file `ino` now lies on disk.
    pub fn set_data_offset(&mut self, ino: u64, offset: u64)
        requires
            old(self).wf(),
        ensures
            final(self).wf(),
            final(self).entries() == old(self).entries(),
            final(self).next_ino() == old(self).next_ino(),
            final(self).files() == (if old(self).files().contains_key(ino) {
                old(self).files().insert(ino, MountedFile { data_offset: offset, ..old(self).files()[ino] })
            } else {
                old(self).files()
            }),
    {
        match self.files.remove(&ino) {
            None => {
                proof {
                    assert(self.files@ =~= old(self).files@);
                }
            },
            Some(f) => {
                self.files.insert(ino, MountedFile { data_offset: offset, ..f });
            },
        }
    }

    /// The disk extent that file `ino`'s data last occupied, which a new
    /// write of it frees: only when it has a place and a size.
    pub fn old_extent(&self, ino: u64) -> (r: Option<(u64, u64)>)
        ensures
            r == (if self.files().contains_key(ino) && self.files()[ino].data_offset > 0
                && self.files()[ino].size > 0 {
                Some((self.files()[ino].data_offset, self.files()[ino].size))
            } else {
                None
            }),
    {
        match self.files.get(&ino) {
            Some(f) => if f.data_offset > 0 && f.size > 0 {
                Some((f.data_offset, f.size))
            } else {
                None
            },
            None => None,
        }
    }

    /// Seconds file `ino` has been open at `now`: none when it is unknown or
    /// was not opened, and none when the clock went back.
    pub fn open_duration(&self, ino: u64, now: u64) -> (r: u64)
        ensures
            r == (if self.files().contains_key(ino) && self.files()[ino].open_since is Some {
                let t = self.files()[ino].open_since.unwrap();
                if now >= t {
                    (now - t) as u64
                } else {
                    0
                }
            } else {
                0
            }),
    {
        match self.files.get(&ino) {
            Some(f) => match f.open_since {
                Some(t) => now.saturating_sub(t),
                None => 0,
            },
            None => 0,
        }
    }

    /// Inode slots reported free to `statfs`: a fixed 1024 less the files held.
    pub fn free_inode_estimate(&self) -> (r: u64)
        ensures
            r == (if self.files().len() < 1024 {
                (1024 - self.files().len()) as u64
            } else {
                0
            }),
    {
        let used = self.files.len();
        if used < 1024 {
            (1024 - used) as u64
        } else {
            0
        }
    }
}

/// A directory listing as text.
pub open spec fn listing_view(v: Seq<(u64, bool, String)>) -> Seq<(u64, bool, Seq<char>)> {
    Seq::new(v.len(), |k: int| listed(v[k]))
}

/// The entries every listing of the root starts with.
pub open spec fn fixed_entries() -> Seq<(u64, bool, Seq<char>)> {
    seq![
        (ROOT_INO, true, "."@),
        (ROOT_INO, true, ".."@),
        (virtual_ino(VirtualFile::Search), false, virtual_name(VirtualFile::Search)),
        (virtual_ino(VirtualFile::Telemetry), false, virtual_name(VirtualFile::Telemetry)),
        (virtual_ino(VirtualFile::Ask), false, virtual_name(VirtualFile::Ask)),
        (virtual_ino(VirtualFile::Context), false, virtual_name(VirtualFile::Context)),
    ]
}

proof fn lemma_listing_push(v: Seq<(u64, bool, String)>, e: (u64, bool, String))
    ensures
        listing_view(v.push(e)) == listing_view(v).push(listed(e)),
{
    assert(listing_view(v.push(e)) =~= listing_view(v).push(listed(e)));
}

} // verus!

verus! {

/// What looking up a stored name answers when no virtual file owns it.
pub open spec fn stored_outcome(t: MountTable, name: &str) -> Result<Lookup, Errno> {
    if virtual_named(name@) is Some {
        Ok(Lookup::Virtual(virtual_named(name@).unwrap()))
    } else {
        let key = root_key(name.spec_bytes());
        if t.entries().contains_key(key) && t.files().contains_key(t.entries()[key].ino) {
            Ok(Lookup::Stored { ino: t.entries()[key].ino, size: t.entries()[key].size })
        } else {
            Err(Errno::NotFound)
        }
    }
}

/// A name just made resolves to the new file, unless a virtual file owns
/// the name, in which case the virtual file keeps answering.
pub proof fn lemma_lookup_after_add(
    before: MountTable,
    after: MountTable,
    name: &str,
    ino: u64,
    disk_index: usize,
    is_dir: bool,
)
    requires
        after.entries() == before.entries().insert(
            root_key(name.spec_bytes()),
            Value { ino, size: 0, is_dir, disk_index },
        ),
        after.files().contains_key(ino),
    ensures
        after.lookup_outcome(ROOT_INO, name) == (if virtual_named(name@) is Some {
            Ok(Lookup::Virtual(virtual_named(name@).unwrap()))
        } else {
            Ok::<Lookup, Errno>(Lookup::Stored { ino, size: 0 })
        }),
{
}

/// A name just removed no longer resolves to a stored file.
pub proof fn lemma_lookup_after_remove(before: MountTable, after: MountTable, name: &str)
    requires
        after.entries() == before.entries().remove(root_key(name.spec_bytes())),
        virtual_named(name@) is None,
    ensures
        after.lookup_outcome(ROOT_INO, name) == Err::<Lookup, Errno>(Errno::NotFound),
{
}

/// After a rename the new name resolves to the moved file, the old name to
/// nothing, and every other name as before.
pub proof fn lemma_lookup_after_rename(
    before: MountTable,
    after: MountTable,
    name: &str,
    newname: &str,
    other: &str,
)
    requires
        before.entries().contains_key(root_key(name.spec_bytes())),
        after.entries() == before.entries().remove(root_key(name.spec_bytes())).insert(
            root_key(newname.spec_bytes()),
            before.entries()[root_key(name.spec_bytes())],
        ),
        after.files().dom() == before.files().dom(),
        name.spec_bytes() != newname.spec_bytes(),
        other.spec_bytes() != name.spec_bytes(),
        other.spec_bytes() != newname.spec_bytes(),
        virtual_named(name@) is None,
        virtual_named(newname@) is None,
    ensures
        before.files().contains_key(before.entries()[root_key(name.spec_bytes())].ino) ==> after.lookup_outcome(
            ROOT_INO,
            newname,
        ) == stored_outcome(before, name),
        after.lookup_outcome(ROOT_INO, name) == Err::<Lookup, Errno>(Errno::NotFound),
        after.lookup_outcome(ROOT_INO, other) == stored_outcome(before, other),
{
    let k = root_key(name.spec_bytes());
    let nk = root_key(newname.spec_bytes());
    let ok = root_key(other.spec_bytes());
    assert(k != nk);
    assert(ok != k && ok != nk);
    assert(after.entries().contains_key(ok) == before.entries().contains_key(ok));
    if before.entries().contains_key(ok) {
        assert(after.entries()[ok] == before.entries()[ok]);
    }
}

} // verus!

verus! {

/// The bytes written out for a file's data: compressed when the file is
/// cold and compression shrinks it, otherwise the data as it is.
pub fn stored_bytes(cold: bool, data: &[u8]) -> (r: Vec<u8>)
    ensures
        !cold ==> r@ == data@,
        cold ==> r@ == compressed_form(data@),
        (!has_magic(data@) || (cold && shrinks(data@))) ==> decompressed(r@) == data@,
        r@ != data@ ==> data@.len() >= MIN_COMPRESS_LEN,
{
    if cold {
        compress(data)
    } else {
        let r = copy_range(data, 0, data.len());
        assert(r@ =~= data@);
        r
    }
}

/// The inode record written for a file's data: used, not a directory,
/// created and modified now.
pub fn stored_inode(ino: u64, name: &str, len: u64, data_offset: u64, now: u64) -> (r: InodeRaw)
    ensures
        r.ino == ino,
        r.size == len,
        r.data_offset == data_offset,
        r.is_used == 1,
        r.is_dir == 0,
        r.created_at == now,
        r.modified_at == now,
        r.name@ == stored_name(name.spec_bytes()),
{
    let mut i = InodeRaw::empty();
    i.ino = ino;
    i.size = len;
    i.data_offset = data_offset;
    i.is_used = 1;
    i.is_dir = 0;
    i.created_at = now;
    i.modified_at = now;
    i.set_name(name);
    i
}

/// The inode record written for a new directory: used, a directory, empty.
pub fn directory_inode(ino: u64, name: &str) -> (r: InodeRaw)
    ensures
        r.ino == ino,
        r.size == 0,
        r.data_offset == 0,
        r.is_used == 1,
        r.is_dir == 1,
        r.created_at == 0,
        r.modified_at == 0,
        r.name@ == stored_name(name.spec_bytes()),
{
    let mut i = InodeRaw::empty();
    i.ino = ino;
    i.is_dir = 1;
    i.is_used = 1;
    i.set_name(name);
    i
}

} // verus!
