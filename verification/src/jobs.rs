//! The state machine of a chapter job: which page is taken up next, how
//! many pipelines run at once, when the cache is saved, and when the job
//! is over. The caller runs the pipelines and the saves, and reports back.

use vstd::prelude::*;
use vstd::string::*;
use crate::logic::{cache_key, get_cache_key, url_path_of, OcrResult};
use crate::state::{AppState, CacheEntry, JobProgress};

verus! {

/// Most page pipelines that one job runs at a time.
pub const MAX_CONCURRENT_PAGES: usize = 6;

/// A save of the cache is attempted after every fifth finished page.
pub const SAVE_INTERVAL: usize = 5;

/// A page's pipeline is tried at most this often.
pub const MAX_ATTEMPTS: u32 = 3;

/// A chapter to precompute: its pages, and how far the work has come.
pub struct ChapterJob {
    /// The URL that names the chapter.
    pub base_url: String,
    /// The URLs of the pages, in order.
    pub pages: Vec<String>,
    /// Recorded with every result.
    pub context: String,
    /// Index of the next page to take up.
    pub next: usize,
    /// Number of pipelines that run.
    pub in_flight: usize,
    /// Number of pages that are done: computed, found in the cache, or
    /// given up.
    pub completed: usize,
    /// Whether a periodic save runs.
    pub saving: bool,
}

/// What became of a request to start a job.
#[derive(Clone, Copy, Debug, PartialEq, Eq, Structural)]
pub enum JobStart {
    Started,
    AlreadyProcessing,
}

/// What the job does next.
#[derive(Clone, Copy, Debug, PartialEq, Eq, Structural)]
pub enum PageTurn {
    /// Run the pipeline on the page with this index.
    Fetch(usize),
    /// The page was in the cache and counts as done; `save_due` says
    /// whether a periodic save is to be attempted.
    Skipped { save_due: bool },
    /// All slots are taken, or only running pages are left: wait for one.
    Wait,
    /// Every page is done: finish the job.
    Done,
}

/// What a status query learns of a chapter.
#[derive(Clone, Copy, Debug, PartialEq, Eq, Structural)]
pub enum ChapterStatus {
    Processing { current: usize, total: usize },
    Processed,
    Idle,
}

/// The cache key of a URL.
pub open spec fn key_of(url: Seq<char>) -> Seq<char> {
    cache_key(url, url_path_of(url))
}

/// The table of jobs after the progress of `base_url`, if it has one, was
/// set to `done` pages.
pub open spec fn with_progress(jobs: Map<Seq<char>, JobProgress>, base_url: Seq<char>, done: usize) -> Map<
    Seq<char>,
    JobProgress,
> {
    if jobs.contains_key(base_url) {
        jobs.insert(base_url, JobProgress { current: done, total: jobs[base_url].total })
    } else {
        jobs
    }
}

/// How long to wait before the next attempt, in seconds, after `failed`
/// attempts have failed in a row: one second after the first, two after
/// the second, and no further attempt after the third.
pub fn retry_delay(failed: u32) -> (delay: Option<u32>)
    ensures
        delay == if 1 <= failed < MAX_ATTEMPTS {
            Some(failed)
        } else {
            None::<u32>
        },
{
    if 1 <= failed && failed < MAX_ATTEMPTS {
        Some(failed)
    } else {
        None
    }
}

impl AppState {
    /// Sets the progress of a running job.
    fn set_progress(&mut self, base_url: &str, done: usize)
        ensures
            final(self).active_chapter_jobs.map() == with_progress(
                old(self).active_chapter_jobs.map(),
                base_url@,
                done,
            ),
            final(self).cache == old(self).cache,
            final(self).requests_processed == old(self).requests_processed,
    {
        let found: Option<usize> = match self.active_chapter_jobs.get(base_url) {
            Some(progress) => Some(progress.total),
            None => None,
        };
        match found {
            Some(total) => {
                self.active_chapter_jobs.insert(
                    String::from_str(base_url),
                    JobProgress { current: done, total },
                );
            },
            None => {},
        }
    }

    /// What is known of the chapter `base_url`: the progress of its job
    /// while one runs; else whether its first page, the page at `base_url`
    /// followed by `0`, is in the cache.
    pub fn chapter_status(&self, base_url: &str) -> (status: ChapterStatus)
        ensures
            status == if self.active_chapter_jobs.map().contains_key(base_url@) {
                ChapterStatus::Processing {
                    current: self.active_chapter_jobs.map()[base_url@].current,
                    total: self.active_chapter_jobs.map()[base_url@].total,
                }
            } else if self.cache.map().contains_key(key_of(base_url@ + "0"@)) {
                ChapterStatus::Processed
            } else {
                ChapterStatus::Idle
            },
    {
        match self.active_chapter_jobs.get(base_url) {
            Some(progress) => ChapterStatus::Processing {
                current: progress.current,
                total: progress.total,
            },
            None => {
                let mut first_page: String = String::from_str(base_url);
                first_page.append("0");
                let key: String = get_cache_key(first_page.as_str());
                if self.cache.contains_key(key.as_str()) {
                    ChapterStatus::Processed
                } else {
                    ChapterStatus::Idle
                }
            },
        }
    }
}

impl ChapterJob {
    /// The counters fit the pages: pages are taken up in order, at most
    /// `MAX_CONCURRENT_PAGES` run at once, and every page taken up either
    /// runs or is done.
    pub open spec fn wf(&self) -> bool {
        &&& self.next <= self.pages@.len()
        &&& self.in_flight <= MAX_CONCURRENT_PAGES
        &&& self.completed + self.in_flight == self.next
    }

    /// Tests `wf`.
    pub fn check_wf(&self) -> (ok: bool)
        ensures
            ok == self.wf(),
    {
        self.next <= self.pages.len() && self.in_flight <= MAX_CONCURRENT_PAGES && self.completed
            <= self.next && self.next - self.completed == self.in_flight
    }

    /// No page is left to take up and none runs.
    pub open spec fn all_done(&self) -> bool {
        self.next == self.pages@.len() && self.in_flight == 0
    }

    /// A job that has not begun.
    pub fn new(base_url: String, pages: Vec<String>, context: String) -> (job: Self)
        ensures
            job.wf(),
            job.base_url == base_url,
            job.pages == pages,
            job.context == context,
            job.next == 0,
            job.in_flight == 0,
            job.completed == 0,
            !job.saving,
    {
        ChapterJob { base_url, pages, context, next: 0, in_flight: 0, completed: 0, saving: false }
    }

    /// Registers the job. A chapter that has a running job gets no second
    /// one: the state is then left as it is.
    pub fn begin(&self, state: &mut AppState) -> (start: JobStart)
        ensures
            old(state).active_chapter_jobs.map().contains_key(self.base_url@) ==> start
                == JobStart::AlreadyProcessing && *final(state) == *old(state),
            !old(state).active_chapter_jobs.map().contains_key(self.base_url@) ==> start
                == JobStart::Started && final(state).active_chapter_jobs.map() == old(
                state,
            ).active_chapter_jobs.map().insert(
                self.base_url@,
                JobProgress { current: 0, total: self.pages@.len() as usize },
            ) && final(state).active_chapter_jobs.count() == old(state).active_chapter_jobs.count()
                + 1 && final(state).cache == old(state).cache && final(state).requests_processed
                == old(state).requests_processed,
    {
        if state.active_chapter_jobs.contains_key(self.base_url.as_str()) {
            return JobStart::AlreadyProcessing;
        }
        state.active_chapter_jobs.insert(
            self.base_url.clone(),
            JobProgress { current: 0, total: self.pages.len() },
        );
        JobStart::Started
    }

    /// Decides what the job does next. A page is taken up while one is left
    /// and fewer than `MAX_CONCURRENT_PAGES` run; a page whose result is in
    /// the cache is done at once, without a pipeline.
    pub fn next_page(&mut self, state: &mut AppState) -> (turn: PageTurn)
        requires
            old(self).wf(),
        ensures
            final(self).wf(),
            final(self).base_url == old(self).base_url,
            final(self).pages == old(self).pages,
            final(self).context == old(self).context,
            final(self).saving == old(self).saving,
            final(state).cache == old(state).cache,
            final(state).requests_processed == old(state).requests_processed,
            match turn {
                PageTurn::Fetch(index) => {
                    &&& old(self).next < old(self).pages@.len()
                    &&& old(self).in_flight < MAX_CONCURRENT_PAGES
                    &&& !old(state).cache.map().contains_key(key_of(old(self).pages@[index as int]@))
                    &&& index == old(self).next
                    &&& final(self).next == old(self).next + 1
                    &&& final(self).in_flight == old(self).in_flight + 1
                    &&& final(self).completed == old(self).completed
                    &&& final(state).active_chapter_jobs == old(state).active_chapter_jobs
                },
                PageTurn::Skipped { save_due } => {
                    &&& old(self).next < old(self).pages@.len()
                    &&& old(self).in_flight < MAX_CONCURRENT_PAGES
                    &&& old(state).cache.map().contains_key(
                        key_of(old(self).pages@[old(self).next as int]@),
                    )
                    &&& final(self).next == old(self).next + 1
                    &&& final(self).in_flight == old(self).in_flight
                    &&& final(self).completed == old(self).completed + 1
                    &&& save_due == (final(self).completed % SAVE_INTERVAL == 0)
                    &&& final(state).active_chapter_jobs.map() == with_progress(
                        old(state).active_chapter_jobs.map(),
                        old(self).base_url@,
                        final(self).completed,
                    )
                },
                PageTurn::Wait => {
                    &&& old(self).in_flight > 0
                    &&& old(self).next == old(self).pages@.len() || old(self).in_flight
                        == MAX_CONCURRENT_PAGES
                    &&& *final(self) == *old(self)
                    &&& *final(state) == *old(state)
                },
                PageTurn::Done => {
                    &&& old(self).all_done()
                    &&& *final(self) == *old(self)
                    &&& *final(state) == *old(state)
                },
            },
    {
        if self.next < self.pages.len() && self.in_flight < MAX_CONCURRENT_PAGES {
            let index: usize = self.next;
            let key: String = get_cache_key(self.pages[index].as_str());
            self.next = index + 1;
            if state.cache.contains_key(key.as_str()) {
                self.completed = self.completed + 1;
                state.set_progress(self.base_url.as_str(), self.completed);
                PageTurn::Skipped { save_due: self.completed % SAVE_INTERVAL == 0 }
            } else {
                self.in_flight = self.in_flight + 1;
                PageTurn::Fetch(index)
            }
        } else if self.in_flight > 0 {
            PageTurn::Wait
        } else {
            PageTurn::Done
        }
    }

    /// Takes note that the pipeline of page `index` has ended, with the
    /// regions of the page or, after the last attempt has failed, without.
    /// A result goes into the cache; a failure leaves the page uncached and
    /// the job running. Returns whether a periodic save is to be attempted.
    pub fn page_finished(
        &mut self,
        state: &mut AppState,
        index: usize,
        data: Option<Vec<OcrResult>>,
    ) -> (save_due: bool)
        requires
            old(self).wf(),
            old(self).in_flight > 0,
            index < old(self).pages@.len(),
        ensures
            final(self).wf(),
            final(self).base_url == old(self).base_url,
            final(self).pages == old(self).pages,
            final(self).context == old(self).context,
            final(self).saving == old(self).saving,
            final(self).next == old(self).next,
            final(self).in_flight == old(self).in_flight - 1,
            final(self).completed == old(self).completed + 1,
            save_due == (final(self).completed % SAVE_INTERVAL == 0),
            final(state).cache.map() == match data {
                Some(regions) => old(state).cache.map().insert(
                    key_of(old(self).pages@[index as int]@),
                    CacheEntry { context: old(self).context, data: regions },
                ),
                None => old(state).cache.map(),
            },
            final(state).active_chapter_jobs.map() == with_progress(
                old(state).active_chapter_jobs.map(),
                old(self).base_url@,
                final(self).completed,
            ),
            final(state).requests_processed == old(state).requests_processed,
    {
        match data {
            Some(regions) => {
                let key: String = get_cache_key(self.pages[index].as_str());
                state.put(key, self.context.clone(), regions);
            },
            None => {},
        }
        self.in_flight = self.in_flight - 1;
        self.completed = self.completed + 1;
        state.set_progress(self.base_url.as_str(), self.completed);
        self.completed % SAVE_INTERVAL == 0
    }

    /// Asks for a periodic save. It is granted unless one runs already: a
    /// save that would have to wait is skipped.
    pub fn begin_save(&mut self) -> (granted: bool)
        ensures
            granted == !old(self).saving,
            final(self).saving,
            final(self).base_url == old(self).base_url,
            final(self).pages == old(self).pages,
            final(self).context == old(self).context,
            final(self).next == old(self).next,
            final(self).in_flight == old(self).in_flight,
            final(self).completed == old(self).completed,
    {
        let granted: bool = !self.saving;
        self.saving = true;
        granted
    }

    /// Takes note that the periodic save has ended.
    pub fn end_save(&mut self)
        ensures
            !final(self).saving,
            final(self).base_url == old(self).base_url,
            final(self).pages == old(self).pages,
            final(self).context == old(self).context,
            final(self).next == old(self).next,
            final(self).in_flight == old(self).in_flight,
            final(self).completed == old(self).completed,
    {
        self.saving = false;
    }

    /// Ends the job: its progress is removed, and with it the job leaves
    /// the count of running jobs, whatever became of the single pages. The caller then saves the
    /// cache.
    pub fn finish(&self, state: &mut AppState)
        requires
            self.wf(),
            self.all_done(),
        ensures
            final(state).active_chapter_jobs.map() == old(state).active_chapter_jobs.map().remove(
                self.base_url@,
            ),
            final(state).active_chapter_jobs.count() == if old(
                state,
            ).active_chapter_jobs.map().contains_key(self.base_url@) {
                (old(state).active_chapter_jobs.count() - 1) as nat
            } else {
                old(state).active_chapter_jobs.count()
            },
            final(state).cache == old(state).cache,
            final(state).requests_processed == old(state).requests_processed,
    {
        state.active_chapter_jobs.remove(self.base_url.as_str());
    }
}

} // verus!
