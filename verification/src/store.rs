//! The registry service over an injected backing-store state.
//!
//! The backing store is a single resource that either does not exist or
//! holds serialized content. `MemStore` models it as an optional string;
//! each operation loads the full list, applies one mutation, and persists
//! the result, exactly as the service does against a real store. A
//! filesystem shell reproduces an operation by reading the resource into
//! a `MemStore`, invoking the operation, and syncing the resource to the
//! resulting state (writing the content, or deleting the resource when
//! the state is `None`).
//!
//! "Corrupt" means anything outside the codec's canonical grammar (see
//! `codec`): that covers content a hand edit or a foreign writer left in
//! another JSON shape, not only non-JSON. A corrupt store fails a read
//! with `ParseError` and is silently replaced on the next mutation.

use vstd::prelude::*;

use crate::clock::chrono_timestamp;
use crate::codec::enc_registry;
use crate::codec::serialize_registry;
use crate::codec::sp_registry;
use crate::entry::EntryView;
use crate::entry::RecentFile;
use crate::parse::parse_registry;
use crate::parse::ParseError;
use crate::registry::remove_path;
use crate::registry::remove_list;
use crate::registry::upsert_list;
use crate::registry::upsert_model;

verus! {

/// What a reader of the given backing-store state obtains: the parsed
/// registry, or the empty registry when the resource is absent or its
/// content is corrupt (the self-heal rule of the mutating operations).
pub open spec fn loaded_or_empty(c: Option<Seq<char>>) -> Seq<EntryView> {
    match c {
        None => Seq::empty(),
        Some(cs) => match sp_registry(cs) {
            Some(es) => es,
            None => Seq::empty(),
        },
    }
}

/// The backing store's state: `None` when the resource does not exist,
/// `Some` with its full content otherwise.
pub struct MemStore {
    pub content: Option<String>,
}

impl View for MemStore {
    type V = Option<Seq<char>>;

    open spec fn view(&self) -> Option<Seq<char>> {
        match self.content {
            None => None,
            Some(s) => Some(s@),
        }
    }
}

impl MemStore {
    /// A backing store whose resource does not exist yet.
    pub fn new() -> (r: MemStore)
        ensures
            r@ is None,
    {
        MemStore { content: None }
    }

    /// Pure read: the persisted registry, in order; the empty registry
    /// when the resource is absent; a `ParseError` when its content is
    /// corrupt. Unlike the mutating operations, the read path surfaces
    /// corruption instead of healing it.
    pub fn get_recent_files(&self) -> (r: Result<Vec<RecentFile>, ParseError>)
        ensures
            self@ is None ==> (r matches Ok(files) && files.deep_view() == Seq::<EntryView>::empty()),
            self@ matches Some(c) ==> match sp_registry(c) {
                Some(es) => (r matches Ok(files) && files.deep_view() == es),
                None => r is Err,
            },
    {
        match &self.content {
            None => {
                let files: Vec<RecentFile> = Vec::new();
                proof {
                    assert(files.deep_view() =~= Seq::<EntryView>::empty());
                }
                Ok(files)
            },
            Some(c) => parse_registry(c.as_str()),
        }
    }

    /// Records that `path` (displayed as `name`) was opened at time
    /// `last_opened`: loads the current list (healing corrupt content to
    /// the empty list), drops any entry for `path`, inserts the new entry
    /// at the front, cuts the list to capacity, and persists it.
    pub fn add_recent_file_at(&mut self, path: String, name: String, last_opened: i64)
        ensures
            final(self)@ == Some(
                enc_registry(
                    upsert_model(loaded_or_empty(old(self)@), path@, name@, last_opened as int),
                ),
            ),
    {
        let files = self.load_or_empty();
        let new_files = upsert_list(&files, path, name, last_opened);
        self.content = Some(serialize_registry(&new_files));
    }

    /// Records that `path` (displayed as `name`) was opened now. The
    /// clock decides the stored time; everything else follows
    /// `add_recent_file_at`.
    pub fn add_recent_file(&mut self, path: String, name: String)
        ensures
            exists|ts: i64|
                ts >= 0 && final(self)@ == Some(
                    enc_registry(
                        #[trigger] upsert_model(
                            loaded_or_empty(old(self)@),
                            path@,
                            name@,
                            ts as int,
                        ),
                    ),
                ),
    {
        let ts = chrono_timestamp();
        self.add_recent_file_at(path, name, ts);
    }

    /// Removes every entry for `path`, preserving the order of the rest,
    /// and persists the result — which leaves the resource in existence
    /// even when the list becomes empty. A missing resource stays
    /// missing; corrupt content heals to the empty list.
    pub fn remove_recent_file(&mut self, path: &String)
        ensures
            old(self)@ is None ==> final(self)@ is None,
            old(self)@ matches Some(c) ==> final(self)@ == Some(
                enc_registry(remove_path(loaded_or_empty(old(self)@), path@)),
            ),
    {
        if self.content.is_none() {
            return ;
        }
        let files = self.load_or_empty();
        let new_files = remove_list(&files, path);
        self.content = Some(serialize_registry(&new_files));
    }

    /// Deletes the backing-store resource entirely; afterwards it does
    /// not exist, unlike after a `remove` that empties the list.
    pub fn clear_recent_files(&mut self)
        ensures
            final(self)@ is None,
    {
        self.content = None;
    }

    /// The current list, healing a missing resource or corrupt content
    /// to the empty list.
    fn load_or_empty(&self) -> (r: Vec<RecentFile>)
        ensures
            r.deep_view() == loaded_or_empty(self@),
    {
        match &self.content {
            None => {
                let files: Vec<RecentFile> = Vec::new();
                proof {
                    assert(files.deep_view() =~= Seq::<EntryView>::empty());
                }
                files
            },
            Some(c) => match parse_registry(c.as_str()) {
                Ok(files) => files,
                Err(_) => {
                    let files: Vec<RecentFile> = Vec::new();
                    proof {
                        assert(files.deep_view() =~= Seq::<EntryView>::empty());
                    }
                    files
                },
            },
        }
    }
}

} // verus!
