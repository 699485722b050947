//! The events the filesystem hands to the learning components.
use vstd::prelude::*;

verus! {

pub enum FsEvent {
    Open { ino: u64, name: String, size: u64 },
    Write { ino: u64, name: String, data: Vec<u8> },
    Close { ino: u64, name: String, duration: u64 },
    Delete { ino: u64, name: String },
    SyncCacheSize { used: u64, max: u64 },
    SearchQuery { query: String },
    AskQuery { query: String, file_list: Vec<String> },
    /// Trigger a full sync for persistence.
    SyncAI,
    /// Unmount: close and archive the current session.
    EndSession,
}

/// The transition an open makes: from the file opened before to this one,
/// when there was one and it is another file.
pub open spec fn transition_of(last_opened: Option<u64>, ino: u64) -> Option<(u64, u64)> {
    match last_opened {
        Some(prev) => if prev != ino {
            Some((prev, ino))
        } else {
            None
        },
        None => None,
    }
}

/// Which transition opening `ino` records, given the file opened last.
pub fn open_transition(last_opened: Option<u64>, ino: u64) -> (r: Option<(u64, u64)>)
    ensures
        r == transition_of(last_opened, ino),
{
    match last_opened {
        Some(prev) => if prev != ino {
            Some((prev, ino))
        } else {
            None
        },
        None => None,
    }
}

/// Add written bytes to what a file has been written since it was opened.
pub fn accumulate_write(acc: &mut Vec<u8>, data: &[u8])
    ensures
        final(acc)@ == old(acc)@ + data@,
{
    let mut i: usize = 0;
    while i < data.len()
        invariant
            i <= data@.len(),
            acc@ == old(acc)@ + data@.subrange(0, i as int),
        decreases data@.len() - i,
    {
        acc.push(data[i]);
        proof {
            assert(acc@ =~= old(acc)@ + data@.subrange(0, i + 1));
        }
        i = i + 1;
    }
    proof {
        assert(data@.subrange(0, data@.len() as int) =~= data@);
    }
}

} // verus!
