//! What a walk through the directories of a volume tells of an entry.

use crate::index::builder::Listed;
use crate::text::lower_utf8;
use vstd::prelude::*;
use vstd::string::StrSliceExecFns;
use vstd::utf8::encode_utf8;

verus! {

/// Name, path, whether it is a directory, whether it is hidden, size, and time of the last change
/// in seconds since 1970.
pub type WalkedEntry = (String, String, bool, bool, u64, u64);

/// The size and the time of the last change, as far as the file system tells them.
#[derive(Clone, Copy)]
pub struct WalkedMeta {
    pub size: u64,
    pub modified: Option<u64>,
}

/// A walked entry as it is listed.
pub open spec fn listed(entry: WalkedEntry) -> Listed {
    Listed {
        name: encode_utf8(entry.0@),
        lower: lower_utf8(entry.0@),
        path: encode_utf8(entry.1@),
        is_dir: entry.2,
        is_hidden: entry.3,
        size: entry.4,
        modified: entry.5,
    }
}

/// The walked entries as they are listed.
pub open spec fn all_listed(entries: Seq<WalkedEntry>) -> Seq<Listed> {
    Seq::new(entries.len(), |i: int| listed(entries[i]))
}

/// What is kept of an entry. Names that begin with a dot count as hidden, directories have no size,
/// and what is not known is zero.
pub fn walked_entry(name: String, path: String, is_dir: bool, meta: Option<WalkedMeta>) -> (entry:
    WalkedEntry)
    ensures
        entry.0@ == name@,
        entry.1@ == path@,
        entry.2 == is_dir,
        entry.3 == (name@.len() > 0 && name@[0] == '.'),
        entry.4 == match meta {
            Some(m) if !is_dir => m.size,
            _ => 0,
        },
        entry.5 == match meta {
            Some(m) => match m.modified {
                Some(secs) => secs,
                None => 0,
            },
            None => 0,
        },
{
    let is_hidden = name.as_str().unicode_len() > 0 && name.as_str().get_char(0) == '.';
    let (size, modified): (u64, u64) = match meta {
        Some(m) => {
            let size: u64 = if is_dir {
                0
            } else {
                m.size
            };
            let modified: u64 = match m.modified {
                Some(secs) => secs,
                None => 0,
            };
            (size, modified)
        },
        None => (0, 0),
    };
    (name, path, is_dir, is_hidden, size, modified)
}

} // verus!
