//! What is known of each scanned image, and the state of the scan.

use vstd::prelude::*;
use crate::assoc::{
    assoc_map, keys_unique, keys_of, lemma_assoc_dom, lemma_assoc_value, lemma_assoc_update,
    lemma_assoc_push_unique, lemma_assoc_len, lemma_assoc_keys, lemma_assoc_of_listing,
};

verus! {

/// The hashes computed so far for one image.
#[derive(Clone, Copy, Debug, PartialEq, Eq, Structural)]
pub struct ImageData {
    pub a_hash: Option<u64>,
    pub d_hash: Option<u64>,
}

impl Default for ImageData {
    fn default() -> (data: Self)
        ensures
            data == (ImageData { a_hash: None, d_hash: None }),
    {
        ImageData { a_hash: None, d_hash: None }
    }
}

impl ImageData {
    /// Both hashes are known.
    pub fn is_complete(&self) -> (complete: bool)
        ensures
            complete == (self.a_hash is Some && self.d_hash is Some),
    {
        self.a_hash.is_some() && self.d_hash.is_some()
    }
}

/// The data of an image not seen before.
pub open spec fn no_data() -> ImageData {
    ImageData { a_hash: None, d_hash: None }
}

/// A hash computed for the image at a path.
#[derive(Debug)]
pub enum StatusMgrMsg {
    AHash(String, u64),
    DHash(String, u64),
}

/// The abstract state of a `StatusMgr`.
pub struct StatusView {
    /// What is known of each image, by path.
    pub data: Map<Seq<char>, ImageData>,
    pub scan_finished: bool,
    pub last_scanned: Option<Seq<char>>,
    /// Something changed since the data was last saved.
    pub dirty: bool,
    /// Where the data is saved.
    pub cache_path: Seq<char>,
}

impl StatusView {
    /// The data of the image at `path`, or no data where there is none.
    pub open spec fn data_or_default(self, path: Seq<char>) -> ImageData {
        if self.data.dom().contains(path) {
            self.data[path]
        } else {
            no_data()
        }
    }

    /// The state after `data` was stored as the data of the image at
    /// `path`: the path is the last scanned one and the state is dirty.
    pub open spec fn recorded(self, path: Seq<char>, data: ImageData) -> StatusView {
        StatusView {
            data: self.data.insert(path, data),
            last_scanned: Some(path),
            dirty: true,
            ..self
        }
    }

    /// The state after the average hash `hash` of the image at `path` was
    /// stored.
    pub open spec fn with_ahash(self, path: Seq<char>, hash: u64) -> StatusView {
        self.recorded(path, ImageData { a_hash: Some(hash), ..self.data_or_default(path) })
    }

    /// The state after the difference hash `hash` of the image at `path`
    /// was stored.
    pub open spec fn with_dhash(self, path: Seq<char>, hash: u64) -> StatusView {
        self.recorded(path, ImageData { d_hash: Some(hash), ..self.data_or_default(path) })
    }
}

/// Reading after storing: the stored data is read back at its path, every
/// other path reads as before, and the path joins the known paths.
pub proof fn lemma_recorded_reads(state: StatusView, path: Seq<char>, data: ImageData, other: Seq<char>)
    ensures
        state.recorded(path, data).data_or_default(path) == data,
        other != path ==> state.recorded(path, data).data_or_default(other) == state.data_or_default(
            other,
        ),
        state.recorded(path, data).data.dom() == state.data.dom().insert(path),
{
    assert(state.recorded(path, data).data.dom() =~= state.data.dom().insert(path));
}

/// Saving and restoring: when `entries` lists each path of `state` once
/// with its data (as `paths` and `get_image_data` give them), the data that
/// `StatusMgr::restore` builds from the entries is the data of `state`.
pub proof fn lemma_restore_listing(state: StatusView, entries: Seq<(String, ImageData)>)
    requires
        keys_unique(view_pairs(entries)),
        forall|i: int|
            0 <= i < entries.len() ==> state.data.dom().contains(#[trigger] entries[i].0@)
                && state.data[entries[i].0@] == entries[i].1,
        forall|p: Seq<char>|
            state.data.dom().contains(p) ==> exists|i: int| 0 <= i < entries.len() && #[trigger] entries[i].0@ == p,
    ensures
        assoc_map(view_pairs(entries)) == state.data,
{
    let pairs = view_pairs(entries);
    assert forall|i: int| 0 <= i < pairs.len() implies state.data.dom().contains(#[trigger] pairs[i].0)
        && state.data[pairs[i].0] == pairs[i].1 by {
        assert(pairs[i] == (entries[i].0@, entries[i].1));
    }
    assert forall|p: Seq<char>| state.data.dom().contains(p) implies exists|i: int|
        0 <= i < pairs.len() && #[trigger] pairs[i].0 == p by {
        let i = choose|i: int| 0 <= i < entries.len() && #[trigger] entries[i].0@ == p;
        assert(pairs[i].0 == p);
    }
    lemma_assoc_of_listing(state.data, pairs);
}

/// Storing the average and the difference hash of an image, in either
/// order, leaves its data complete with both hashes.
pub proof fn lemma_both_hashes_complete(state: StatusView, path: Seq<char>, a: u64, d: u64)
    ensures
        state.with_ahash(path, a).with_dhash(path, d).data_or_default(path) == (ImageData {
            a_hash: Some(a),
            d_hash: Some(d),
        }),
        state.with_dhash(path, d).with_ahash(path, a).data_or_default(path) == (ImageData {
            a_hash: Some(a),
            d_hash: Some(d),
        }),
{
}

/// The pairs of path view and image data.
pub open spec fn view_pairs(entries: Seq<(String, ImageData)>) -> Seq<(Seq<char>, ImageData)> {
    entries.map_values(|e: (String, ImageData)| (e.0@, e.1))
}

/// Keeps, per image path, the hashes computed so far, and tracks the scan.
pub struct StatusMgr {
    entries: Vec<(String, ImageData)>,
    scan_finished: bool,
    last_scanned: Option<String>,
    dirty: bool,
    cache_path: String,
}

impl View for StatusMgr {
    type V = StatusView;

    closed spec fn view(&self) -> StatusView {
        StatusView {
            data: assoc_map(view_pairs(self.entries@)),
            scan_finished: self.scan_finished,
            last_scanned: match self.last_scanned {
                Some(p) => Some(p@),
                None => None,
            },
            dirty: self.dirty,
            cache_path: self.cache_path@,
        }
    }
}

impl Default for StatusMgr {
    fn default() -> (mgr: Self)
        ensures
            mgr@.data == Map::<Seq<char>, ImageData>::empty(),
            !mgr@.scan_finished,
            mgr@.last_scanned is None,
            !mgr@.dirty,
            mgr@.cache_path == Seq::<char>::empty(),
    {
        let mgr = StatusMgr {
            entries: Vec::new(),
            scan_finished: false,
            last_scanned: None,
            dirty: false,
            cache_path: String::new(),
        };
        assert(mgr@.data =~= Map::<Seq<char>, ImageData>::empty());
        mgr
    }
}

impl StatusMgr {
    #[verifier::type_invariant]
    closed spec fn keys_are_unique(self) -> bool {
        keys_unique(view_pairs(self.entries@))
    }

    /// The index of the entry of `path`.
    fn find(&self, path: &String) -> (found: Option<usize>)
        ensures
            match found {
                Some(i) => i < self.entries@.len() && self.entries@[i as int].0@ == path@,
                None => !self@.data.dom().contains(path@),
            },
    {
        let mut i: usize = 0;
        while i < self.entries.len()
            invariant
                i <= self.entries@.len(),
                forall|j: int| 0 <= j < i ==> self.entries@[j].0@ != path@,
            decreases self.entries@.len() - i,
        {
            if self.entries[i].0 == *path {
                return Some(i);
            }
            i += 1;
        }
        proof {
            lemma_assoc_dom(view_pairs(self.entries@), path@);
        }
        None
    }

    /// Sets the data of `path`, adding an entry when there is none.
    fn set_data(&mut self, path: String, data: ImageData)
        ensures
            final(self)@ == (StatusView { data: old(self)@.data.insert(path@, data), ..old(self)@ }),
    {
        proof {
            use_type_invariant(&*self);
        }
        let ghost pairs = view_pairs(self.entries@);
        let found = self.find(&path);
        let mut entries: Vec<(String, ImageData)> = Vec::new();
        core::mem::swap(&mut entries, &mut self.entries);
        assert(entries@ == old(self).entries@);
        match found {
            Some(i) => {
                proof {
                    lemma_assoc_update(pairs, i as int, data);
                    assert(view_pairs(entries@.update(i as int, (entries@[i as int].0, data)))
                        =~= pairs.update(i as int, (pairs[i as int].0, data)));
                }
                let key = entries[i].0.clone();
                entries.set(i, (key, data));
            },
            None => {
                proof {
                    lemma_assoc_push_unique(pairs, path@, data);
                    assert(view_pairs(entries@.push((path, data))) =~= pairs.push((path@, data)));
                }
                entries.push((path, data));
            },
        }
        self.entries = entries;
    }

    /// A manager with no data that saves to `cache_path`, filled with the
    /// given entries in order (a later entry of a path wins).
    pub fn restore(entries: Vec<(String, ImageData)>, cache_path: String) -> (mgr: Self)
        ensures
            mgr@.data == assoc_map(view_pairs(entries@)),
            !mgr@.scan_finished,
            mgr@.last_scanned is None,
            !mgr@.dirty,
            mgr@.cache_path == cache_path@,
    {
        let mut mgr = StatusMgr::default();
        proof {
            use_type_invariant(&mgr);
        }
        mgr.cache_path = cache_path;
        let n = entries.len();
        let mut i: usize = 0;
        while i < n
            invariant
                n == entries@.len(),
                i <= n,
                mgr@.data == assoc_map(view_pairs(entries@.take(i as int))),
                !mgr@.scan_finished,
                mgr@.last_scanned is None,
                !mgr@.dirty,
                mgr@.cache_path == cache_path@,
            decreases n - i,
        {
            let path = entries[i].0.clone();
            let data = entries[i].1;
            mgr.set_data(path, data);
            assert(view_pairs(entries@.take(i as int + 1)).drop_last() =~= view_pairs(entries@.take(i as int)));
            i += 1;
        }
        assert(entries@.take(n as int) =~= entries@);
        mgr
    }

    /// The number of images with data.
    pub fn len(&self) -> (n: usize)
        ensures
            n == self@.data.dom().len(),
    {
        proof {
            use_type_invariant(self);
            lemma_assoc_len(view_pairs(self.entries@));
        }
        self.entries.len()
    }

    /// The paths of the images with data, each once, in no stated order.
    pub fn paths(&self) -> (paths: Vec<String>)
        ensures
            paths@.map_values(|p: String| p@).to_set() == self@.data.dom(),
            paths@.map_values(|p: String| p@).no_duplicates(),
            paths@.len() == self@.data.dom().len(),
    {
        proof {
            use_type_invariant(self);
        }
        let ghost pairs = view_pairs(self.entries@);
        let mut paths: Vec<String> = Vec::new();
        let mut i: usize = 0;
        while i < self.entries.len()
            invariant
                i <= self.entries@.len(),
                pairs == view_pairs(self.entries@),
                paths@.map_values(|p: String| p@) =~= keys_of(pairs).take(i as int),
            decreases self.entries@.len() - i,
        {
            let ghost before = paths@;
            paths.push(self.entries[i].0.clone());
            proof {
                assert(keys_of(pairs)[i as int] == self.entries@[i as int].0@);
                assert(paths@.map_values(|p: String| p@) =~= before.map_values(|p: String| p@).push(
                    self.entries@[i as int].0@));
                assert(keys_of(pairs).take(i as int + 1) =~= keys_of(pairs).take(i as int).push(
                    keys_of(pairs)[i as int]));
            }
            i += 1;
        }
        proof {
            assert(keys_of(pairs).take(i as int) =~= keys_of(pairs));
            lemma_assoc_keys(pairs);
            lemma_assoc_len(pairs);
        }
        paths
    }

    /// Each path with data, once, with its data, in no stated order: what is
    /// saved, and what `restore` builds the same data from.
    pub fn entries(&self) -> (entries: Vec<(String, ImageData)>)
        ensures
            keys_unique(view_pairs(entries@)),
            assoc_map(view_pairs(entries@)) == self@.data,
    {
        proof {
            use_type_invariant(self);
        }
        let mut entries: Vec<(String, ImageData)> = Vec::new();
        let mut i: usize = 0;
        while i < self.entries.len()
            invariant
                i <= self.entries@.len(),
                view_pairs(entries@) =~= view_pairs(self.entries@).take(i as int),
            decreases self.entries@.len() - i,
        {
            let ghost before = entries@;
            entries.push((self.entries[i].0.clone(), self.entries[i].1));
            assert(view_pairs(entries@) =~= view_pairs(before).push(view_pairs(self.entries@)[i as int]));
            i += 1;
        }
        assert(view_pairs(self.entries@).take(i as int) =~= view_pairs(self.entries@));
        entries
    }

    /// Stores `data` as the data of `path`, which becomes the last scanned
    /// path; the state becomes dirty.
    fn record(&mut self, path: String, data: ImageData)
        ensures
            final(self)@ == old(self)@.recorded(path@, data),
    {
        proof {
            use_type_invariant(&*self);
        }
        self.last_scanned = Some(path.clone());
        self.set_data(path, data);
        proof {
            use_type_invariant(&*self);
        }
        self.dirty = true;
    }

    /// Stores the average hash of the image at `path`.
    pub fn ahash(&mut self, path: String, hsh: u64)
        ensures
            final(self)@ == old(self)@.with_ahash(path@, hsh),
    {
        let old_data = self.data_or_default(&path);
        self.record(path, ImageData { a_hash: Some(hsh), ..old_data });
    }

    /// Stores the difference hash of the image at `path`.
    pub fn dhash(&mut self, path: String, hsh: u64)
        ensures
            final(self)@ == old(self)@.with_dhash(path@, hsh),
    {
        let old_data = self.data_or_default(&path);
        self.record(path, ImageData { d_hash: Some(hsh), ..old_data });
    }

    /// The data of `path`, or no data where there is none.
    fn data_or_default(&self, path: &String) -> (data: ImageData)
        ensures
            data == self@.data_or_default(path@),
    {
        match self.get_image_data(path) {
            Some(d) => *d,
            None => ImageData::default(),
        }
    }

    /// Stores the hash that `msg` carries.
    pub fn apply(&mut self, msg: StatusMgrMsg)
        ensures
            final(self)@ == match msg {
                StatusMgrMsg::AHash(path, hsh) => old(self)@.with_ahash(path@, hsh),
                StatusMgrMsg::DHash(path, hsh) => old(self)@.with_dhash(path@, hsh),
            },
    {
        match msg {
            StatusMgrMsg::AHash(path, hsh) => self.ahash(path, hsh),
            StatusMgrMsg::DHash(path, hsh) => self.dhash(path, hsh),
        }
    }

    /// The path whose hash was stored last, if any.
    pub fn last_scanned(&self) -> (last: Option<String>)
        ensures
            match last {
                Some(p) => self@.last_scanned == Some(p@),
                None => self@.last_scanned is None,
            },
    {
        match &self.last_scanned {
            Some(p) => Some(p.clone()),
            None => None,
        }
    }

    /// The scan has finished.
    pub fn scan_finished(&self) -> (finished: bool)
        ensures
            finished == self@.scan_finished,
    {
        self.scan_finished
    }

    /// Marks the scan finished; saving is left to the caller.
    pub fn finish_scan(&mut self)
        ensures
            final(self)@ == (StatusView { scan_finished: true, ..old(self)@ }),
    {
        proof {
            use_type_invariant(&*self);
        }
        self.scan_finished = true;
    }

    /// Something changed since the data was last saved.
    pub fn is_dirty(&self) -> (dirty: bool)
        ensures
            dirty == self@.dirty,
    {
        self.dirty
    }

    /// Records that the data was saved.
    pub fn mark_saved(&mut self)
        ensures
            final(self)@ == (StatusView { dirty: false, ..old(self)@ }),
    {
        proof {
            use_type_invariant(&*self);
        }
        self.dirty = false;
    }

    /// Where the data is saved.
    pub fn cache_path(&self) -> (path: &String)
        ensures
            path@ == self@.cache_path,
    {
        &self.cache_path
    }

    /// The data of the image at `path`, if any.
    pub fn get_image_data(&self, path: &String) -> (data: Option<&ImageData>)
        ensures
            match data {
                Some(d) => self@.data.dom().contains(path@) && *d == self@.data[path@],
                None => !self@.data.dom().contains(path@),
            },
    {
        proof {
            use_type_invariant(self);
        }
        match self.find(path) {
            Some(i) => {
                proof {
                    lemma_assoc_value(view_pairs(self.entries@), i as int);
                }
                Some(&self.entries[i].1)
            },
            None => None,
        }
    }
}

} // verus!
