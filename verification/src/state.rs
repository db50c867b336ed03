//! The service state: the result cache, the table of running chapter jobs,
//! and the counters that the status page shows.

use vstd::prelude::*;
use vstd::string::*;
use crate::logic::{clone_lines, views, OcrResult, OcrResultView};
use crate::table::StringTable;

verus! {

/// How far a chapter job has come: `current` of `total` pages are done.
#[derive(Clone, Copy, Debug, PartialEq, Eq, Structural)]
pub struct JobProgress {
    pub current: usize,
    pub total: usize,
}

/// The cached result of one page: the regions found on it, and the context
/// of the request that had them computed.
#[derive(Debug, PartialEq, Eq)]
pub struct CacheEntry {
    pub context: String,
    pub data: Vec<OcrResult>,
}

/// What a `CacheEntry` says.
pub struct CacheEntryView {
    pub context: Seq<char>,
    pub data: Seq<OcrResultView>,
}

impl View for CacheEntry {
    type V = CacheEntryView;

    open spec fn view(&self) -> CacheEntryView {
        CacheEntryView { context: self.context@, data: views(self.data@) }
    }
}

impl Clone for CacheEntry {
    fn clone(&self) -> (copy: Self)
        ensures
            copy@ == self@,
    {
        CacheEntry { context: self.context.clone(), data: clone_lines(&self.data) }
    }
}

/// A step in saving the cache to its file. The cache is written to a
/// temporary file beside the cache file, and that file takes the place of
/// the cache file in one move, so that the cache file always holds one
/// complete state.
#[derive(Clone, Copy, Debug, PartialEq, Eq, Structural)]
pub enum SaveStep {
    /// Create the temporary file.
    CreateTemp,
    /// Write the whole cache to it.
    WriteAll,
    /// Have the file reach the disk.
    Sync,
    /// Move the temporary file over the cache file.
    Rename,
    /// Nothing more is done.
    Stop,
}

/// The step that follows `step`, given whether `step` succeeded. The cache
/// file is replaced only after the whole cache was written; a failure to
/// reach the disk does not hold the move back.
pub open spec fn step_after(step: SaveStep, succeeded: bool) -> SaveStep {
    match step {
        SaveStep::CreateTemp => if succeeded {
            SaveStep::WriteAll
        } else {
            SaveStep::Stop
        },
        SaveStep::WriteAll => if succeeded {
            SaveStep::Sync
        } else {
            SaveStep::Stop
        },
        SaveStep::Sync => SaveStep::Rename,
        SaveStep::Rename => SaveStep::Stop,
        SaveStep::Stop => SaveStep::Stop,
    }
}

/// The contents of the cache file and of the temporary file beside it;
/// `None` where a file does not exist.
pub struct Disk {
    pub cache_file: Option<Seq<u8>>,
    pub temp_file: Option<Seq<u8>>,
}

/// The files after `step` was taken in a save of `data`, in a file system
/// in which a move replaces its target all at once. A creation that
/// succeeds leaves an empty temporary file; a write that succeeds leaves
/// `data` in it, and one that fails leaves `partial`, which may be
/// anything; a move that succeeds makes the temporary file the cache file.
pub open spec fn disk_after(
    disk: Disk,
    step: SaveStep,
    succeeded: bool,
    data: Seq<u8>,
    partial: Seq<u8>,
) -> Disk {
    match step {
        SaveStep::CreateTemp => if succeeded {
            Disk { cache_file: disk.cache_file, temp_file: Some(Seq::<u8>::empty()) }
        } else {
            disk
        },
        SaveStep::WriteAll => Disk {
            cache_file: disk.cache_file,
            temp_file: Some(
                if succeeded {
                    data
                } else {
                    partial
                },
            ),
        },
        SaveStep::Sync => disk,
        SaveStep::Rename => if succeeded {
            Disk { cache_file: disk.temp_file, temp_file: None }
        } else {
            disk
        },
        SaveStep::Stop => disk,
    }
}

/// The files, and the step that is due, after the first `k` steps of a
/// save of `data` that starts on `disk`. `outcomes[i]` says whether step
/// `i` succeeded and what a failed write left behind.
pub open spec fn save_run(
    disk: Disk,
    data: Seq<u8>,
    outcomes: Seq<(bool, Seq<u8>)>,
    k: int,
) -> (Disk, SaveStep)
    decreases k,
{
    if k <= 0 {
        (disk, SaveStep::CreateTemp)
    } else {
        let (before, step) = save_run(disk, data, outcomes, k - 1);
        (
            disk_after(before, step, outcomes[k - 1].0, data, outcomes[k - 1].1),
            step_after(step, outcomes[k - 1].0),
        )
    }
}

/// A save that is cut short after any number of steps, whatever the steps
/// came to, leaves a cache file that holds what it held before the save or
/// all of the new data, never a part of it.
pub proof fn lemma_save_is_all_or_nothing(
    disk: Disk,
    data: Seq<u8>,
    outcomes: Seq<(bool, Seq<u8>)>,
    k: int,
)
    requires
        0 <= k <= outcomes.len(),
    ensures
        save_run(disk, data, outcomes, k).0.cache_file == disk.cache_file || save_run(
            disk,
            data,
            outcomes,
            k,
        ).0.cache_file == Some(data),
        save_run(disk, data, outcomes, k).1 == SaveStep::Sync || save_run(disk, data, outcomes, k).1
            == SaveStep::Rename ==> save_run(disk, data, outcomes, k).0.temp_file == Some(data),
    decreases k,
{
    if k > 0 {
        lemma_save_is_all_or_nothing(disk, data, outcomes, k - 1);
    }
}

/// The state of the service. It is made once, when the process starts, and
/// handed to every request and job.
pub struct AppState {
    /// Results by cache key.
    pub cache: StringTable<CacheEntry>,
    /// Progress of the running chapter jobs, by chapter URL.
    pub active_chapter_jobs: StringTable<JobProgress>,
    /// Number of recognition requests answered. It wraps at the largest
    /// number.
    pub requests_processed: usize,
}

/// The cache after the first `k` of `entries` were put into `map`, each
/// under its key, a later entry taking the place of an earlier one with the
/// same key.
pub open spec fn filled(
    map: Map<Seq<char>, CacheEntry>,
    entries: Seq<(String, CacheEntry)>,
    k: int,
) -> Map<Seq<char>, CacheEntry>
    decreases k,
{
    if k <= 0 {
        map
    } else {
        filled(map, entries, k - 1).insert(entries[k - 1].0@, entries[k - 1].1)
    }
}

/// The cache after the first `k` of `entries` were imported into `map`: an
/// entry is added where its key has none yet, and changes nothing where it
/// has one.
pub open spec fn imported(
    map: Map<Seq<char>, CacheEntry>,
    entries: Seq<(String, CacheEntry)>,
    k: int,
) -> Map<Seq<char>, CacheEntry>
    decreases k,
{
    if k <= 0 {
        map
    } else {
        let before = imported(map, entries, k - 1);
        if before.contains_key(entries[k - 1].0@) {
            before
        } else {
            before.insert(entries[k - 1].0@, entries[k - 1].1)
        }
    }
}

/// Number of the first `k` of `entries` that an import into `map` adds.
pub open spec fn imported_count(
    map: Map<Seq<char>, CacheEntry>,
    entries: Seq<(String, CacheEntry)>,
    k: int,
) -> nat
    decreases k,
{
    if k <= 0 {
        0
    } else {
        let before = imported(map, entries, k - 1);
        imported_count(map, entries, k - 1) + if before.contains_key(entries[k - 1].0@) {
            0nat
        } else {
            1nat
        }
    }
}

/// An import leaves every entry that was there as it was.
pub proof fn lemma_import_keeps_entries(
    map: Map<Seq<char>, CacheEntry>,
    entries: Seq<(String, CacheEntry)>,
    k: int,
    key: Seq<char>,
)
    requires
        map.contains_key(key),
    ensures
        imported(map, entries, k).contains_key(key),
        imported(map, entries, k)[key] == map[key],
    decreases k,
{
    if k > 0 {
        lemma_import_keeps_entries(map, entries, k - 1, key);
    }
}

/// Puts the entries in the order in which `Vec::pop` hands them out last
/// to first, so that they can be taken from the front one by one.
fn reversed(entries: Vec<(String, CacheEntry)>) -> (stack: Vec<(String, CacheEntry)>)
    ensures
        stack@.len() == entries@.len(),
        forall|i: int|
            0 <= i < stack@.len() ==> #[trigger] stack@[i] == entries@[entries@.len() - 1 - i],
{
    let ghost all = entries@;
    let mut entries: Vec<(String, CacheEntry)> = entries;
    let mut stack: Vec<(String, CacheEntry)> = Vec::new();
    while entries.len() > 0
        invariant
            entries@.len() + stack@.len() == all.len(),
            forall|i: int| 0 <= i < entries@.len() ==> #[trigger] entries@[i] == all[i],
            forall|i: int| 0 <= i < stack@.len() ==> #[trigger] stack@[i] == all[all.len() - 1 - i],
        decreases entries@.len(),
    {
        match entries.pop() {
            Some(entry) => {
                stack.push(entry);
            },
            None => {},
        }
    }
    stack
}

impl AppState {
    /// The state of a fresh process. `loaded` holds the entries of the cache
    /// file, or nothing where there is no file or none that can be read:
    /// the cache then starts empty.
    pub fn new(loaded: Option<Vec<(String, CacheEntry)>>) -> (state: Self)
        ensures
            state.requests_processed == 0,
            state.active_chapter_jobs.count() == 0,
            state.active_chapter_jobs.map() == Map::<Seq<char>, JobProgress>::empty(),
            state.cache.map() == match loaded {
                Some(entries) => filled(Map::empty(), entries@, entries@.len() as int),
                None => Map::<Seq<char>, CacheEntry>::empty(),
            },
    {
        let mut cache: StringTable<CacheEntry> = StringTable::new();
        match loaded {
            Some(entries) => {
                let ghost all = entries@;
                let total: usize = entries.len();
                let mut stack: Vec<(String, CacheEntry)> = reversed(entries);
                let mut k: usize = 0;
                while stack.len() > 0
                    invariant
                        all.len() == total,
                        k + stack@.len() == all.len(),
                        forall|i: int|
                            0 <= i < stack@.len() ==> #[trigger] stack@[i] == all[all.len() - 1 - i],
                        cache.map() == filled(Map::empty(), all, k as int),
                    decreases stack@.len(),
                {
                    let ghost before = stack@;
                    match stack.pop() {
                        Some(entry) => {
                            assert(entry == before[before.len() - 1]);
                            assert(entry == all[k as int]);
                            cache.insert(entry.0, entry.1);
                            k = k + 1;
                        },
                        None => {},
                    }
                }
            },
            None => {},
        }
        AppState {
            cache,
            active_chapter_jobs: StringTable::new(),
            requests_processed: 0,
        }
    }

    /// Says which step of a save follows `step`; the caller performs it
    /// and reports whether it succeeded. A save starts with
    /// `SaveStep::CreateTemp` and is over at `SaveStep::Stop`.
    pub fn save_cache(step: SaveStep, succeeded: bool) -> (next: SaveStep)
        ensures
            next == step_after(step, succeeded),
            next == SaveStep::Rename ==> step == SaveStep::Sync,
            next == SaveStep::Sync ==> step == SaveStep::WriteAll && succeeded,
    {
        match step {
            SaveStep::CreateTemp => if succeeded {
                SaveStep::WriteAll
            } else {
                SaveStep::Stop
            },
            SaveStep::WriteAll => if succeeded {
                SaveStep::Sync
            } else {
                SaveStep::Stop
            },
            SaveStep::Sync => SaveStep::Rename,
            SaveStep::Rename => SaveStep::Stop,
            SaveStep::Stop => SaveStep::Stop,
        }
    }

    /// Number of running chapter jobs.
    pub fn active_jobs(&self) -> (n: usize)
        ensures
            n == self.active_chapter_jobs.count(),
    {
        self.active_chapter_jobs.len()
    }

    /// Counts one answered request.
    pub fn count_request(&mut self)
        ensures
            final(self).cache == old(self).cache,
            final(self).active_chapter_jobs == old(self).active_chapter_jobs,
            final(self).requests_processed == if old(self).requests_processed == usize::MAX {
                0usize
            } else {
                (old(self).requests_processed + 1) as usize
            },
    {
        if self.requests_processed == usize::MAX {
            self.requests_processed = 0;
        } else {
            self.requests_processed = self.requests_processed + 1;
        }
    }

    /// Puts `data` into the cache under `key`, in place of what was there.
    pub fn put(&mut self, key: String, context: String, data: Vec<OcrResult>)
        ensures
            final(self).cache.map() == old(self).cache.map().insert(
                key@,
                CacheEntry { context, data },
            ),
            final(self).active_chapter_jobs == old(self).active_chapter_jobs,
            final(self).requests_processed == old(self).requests_processed,
    {
        self.cache.insert(key, CacheEntry { context, data });
    }

    /// The cached entry of `key`. Nothing is computed.
    pub fn get(&self, key: &str) -> (entry: Option<&CacheEntry>)
        ensures
            match entry {
                Some(e) => self.cache.map().contains_key(key@) && *e == self.cache.map()[key@],
                None => !self.cache.map().contains_key(key@),
            },
    {
        self.cache.get(key)
    }

    /// Empties the cache.
    pub fn purge(&mut self)
        ensures
            final(self).cache.map() == Map::<Seq<char>, CacheEntry>::empty(),
            final(self).active_chapter_jobs == old(self).active_chapter_jobs,
            final(self).requests_processed == old(self).requests_processed,
    {
        self.cache.clear();
    }

    /// Adds the entries whose keys the cache does not hold yet and returns
    /// their number. An entry whose key is present is dropped: what the
    /// cache holds is never overwritten.
    pub fn import(&mut self, entries: Vec<(String, CacheEntry)>) -> (added: usize)
        ensures
            final(self).cache.map() == imported(
                old(self).cache.map(),
                entries@,
                entries@.len() as int,
            ),
            added == imported_count(old(self).cache.map(), entries@, entries@.len() as int),
            forall|key: Seq<char>|
                #![trigger old(self).cache.map().contains_key(key)]
                old(self).cache.map().contains_key(key) ==> final(self).cache.map().contains_key(
                    key,
                ) && final(self).cache.map()[key] == old(self).cache.map()[key],
            final(self).active_chapter_jobs == old(self).active_chapter_jobs,
            final(self).requests_processed == old(self).requests_processed,
    {
        let ghost all = entries@;
        let ghost start = self.cache.map();
        let total: usize = entries.len();
        let mut stack: Vec<(String, CacheEntry)> = reversed(entries);
        let mut added: usize = 0;
        let mut k: usize = 0;
        while stack.len() > 0
            invariant
                all.len() == total,
                self.active_chapter_jobs == old(self).active_chapter_jobs,
                self.requests_processed == old(self).requests_processed,
                k + stack@.len() == all.len(),
                forall|i: int| 0 <= i < stack@.len() ==> #[trigger] stack@[i] == all[all.len() - 1 - i],
                self.cache.map() == imported(start, all, k as int),
                added == imported_count(start, all, k as int),
                added <= k,
            decreases stack@.len(),
        {
            let ghost before = stack@;
            match stack.pop() {
                Some(entry) => {
                    assert(entry == before[before.len() - 1]);
                    assert(entry == all[k as int]);
                    if !self.cache.contains_key(entry.0.as_str()) {
                        self.cache.insert(entry.0, entry.1);
                        added = added + 1;
                    }
                    k = k + 1;
                },
                None => {},
            }
        }
        proof {
            assert(k == all.len());
            assert(start == old(self).cache.map());
            let result = self.cache.map();
            assert(result == imported(start, all, all.len() as int));
            assert forall|key: Seq<char>| #[trigger] start.contains_key(key) implies result.contains_key(
                key,
            ) && result[key] == start[key] by {
                lemma_import_keeps_entries(start, all, all.len() as int, key);
            }
        }
        added
    }

    /// Copies of all entries, in the order in which their keys first came.
    pub fn export(&self) -> (entries: Vec<(String, CacheEntry)>)
        ensures
            entries@.len() == self.cache.count(),
            forall|i: int|
                0 <= i < entries@.len() ==> (#[trigger] entries@[i]).0@ == self.cache.key_order()[i]
                    && entries@[i].1@ == self.cache.map()[self.cache.key_order()[i]]@,
    {
        let n: usize = self.cache.len();
        let mut entries: Vec<(String, CacheEntry)> = Vec::new();
        let mut i: usize = 0;
        while i < n
            invariant
                n == self.cache.count(),
                i <= n,
                entries@.len() == i,
                forall|k: int|
                    0 <= k < i ==> (#[trigger] entries@[k]).0@ == self.cache.key_order()[k]
                        && entries@[k].1@ == self.cache.map()[self.cache.key_order()[k]]@,
            decreases n - i,
        {
            let key: String = self.cache.key_at(i).clone();
            let entry: CacheEntry = self.cache.value_at(i).clone();
            entries.push((key, entry));
            i = i + 1;
        }
        entries
    }
}

} // verus!
