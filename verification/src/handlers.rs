//! The decisions behind the service's endpoints. Each function takes the
//! state and what a request carries, and says what is to be answered and
//! done; transport and persistence are the caller's.

use vstd::prelude::*;
use vstd::string::*;
use crate::jobs::{key_of, ChapterJob, ChapterStatus, JobStart};
use crate::logic::{clone_lines, get_cache_key, views, OcrResult};
use crate::state::{imported, imported_count, AppState, CacheEntry, JobProgress};

verus! {

/// Query of a single-page recognition request.
pub struct OcrRequest {
    pub url: String,
    pub user: Option<String>,
    pub pass: Option<String>,
    pub context: String,
}

/// Body of a chapter request: a status query or a precomputation order.
pub struct JobRequest {
    pub base_url: String,
    pub user: Option<String>,
    pub pass: Option<String>,
    pub context: String,
    pub pages: Option<Vec<String>>,
}

/// The context recorded for a request that names none.
pub fn default_context() -> (context: String)
    ensures
        context@ == "No Context"@,
{
    String::from_str("No Context")
}

/// The numbers of the status page.
#[derive(Clone, Copy, Debug, PartialEq, Eq, Structural)]
pub struct ServiceStatus {
    pub requests_processed: usize,
    pub items_in_cache: usize,
    pub active_jobs: usize,
}

/// What a recognition request is answered with at once.
pub enum OcrReply {
    /// The page is in the cache: these are its regions.
    Cached(Vec<OcrResult>),
    /// The page is not in the cache: its pipeline has to run.
    Compute,
}

/// What a precomputation order is answered with.
pub enum PreprocessReply {
    /// The order names no pages.
    NoPages,
    /// The chapter has a running job.
    AlreadyProcessing,
    /// The job was registered and is to be run.
    Started(ChapterJob),
}

/// What an import is answered with.
#[derive(Clone, Copy, Debug, PartialEq, Eq, Structural)]
pub struct ImportReply {
    /// Number of entries added.
    pub added: usize,
    /// Whether the cache changed and is to be saved.
    pub save: bool,
}

/// Reports the counters and the size of the cache.
pub fn status_handler(state: &AppState) -> (status: ServiceStatus)
    ensures
        status == (ServiceStatus {
            requests_processed: state.requests_processed,
            items_in_cache: state.cache.count() as usize,
            active_jobs: state.active_chapter_jobs.count() as usize,
        }),
{
    ServiceStatus {
        requests_processed: state.requests_processed,
        items_in_cache: state.cache.len(),
        active_jobs: state.active_jobs(),
    }
}

/// Takes a recognition request. A page in the cache is answered from it,
/// and the request is counted; nothing is computed again. For any other
/// page the state stays as it is and the pipeline is asked for.
pub fn ocr_handler(state: &mut AppState, req: &OcrRequest) -> (reply: OcrReply)
    ensures
        final(state).cache == old(state).cache,
        final(state).active_chapter_jobs == old(state).active_chapter_jobs,
        match reply {
            OcrReply::Cached(regions) => {
                &&& old(state).cache.map().contains_key(key_of(req.url@))
                &&& views(regions@) == old(state).cache.map()[key_of(req.url@)]@.data
                &&& final(state).requests_processed == if old(state).requests_processed
                    == usize::MAX {
                    0usize
                } else {
                    (old(state).requests_processed + 1) as usize
                }
            },
            OcrReply::Compute => {
                &&& !old(state).cache.map().contains_key(key_of(req.url@))
                &&& final(state).requests_processed == old(state).requests_processed
            },
        },
{
    let key: String = get_cache_key(req.url.as_str());
    let found: Option<Vec<OcrResult>> = match state.get(key.as_str()) {
        Some(entry) => Some(clone_lines(&entry.data)),
        None => None,
    };
    match found {
        Some(regions) => {
            state.count_request();
            OcrReply::Cached(regions)
        },
        None => OcrReply::Compute,
    }
}

/// Takes the regions that the pipeline has computed for a request: they go
/// into the cache under the key of the request's URL, with the request's
/// context, and the request is counted. Returns the regions for the reply;
/// the caller saves the cache.
pub fn ocr_finished(state: &mut AppState, req: OcrRequest, data: Vec<OcrResult>) -> (reply: Vec<
    OcrResult,
>)
    ensures
        views(reply@) == views(data@),
        final(state).cache.map() == old(state).cache.map().insert(
            key_of(req.url@),
            CacheEntry { context: req.context, data },
        ),
        final(state).active_chapter_jobs == old(state).active_chapter_jobs,
        final(state).requests_processed == if old(state).requests_processed == usize::MAX {
            0usize
        } else {
            (old(state).requests_processed + 1) as usize
        },
{
    let reply: Vec<OcrResult> = clone_lines(&data);
    let key: String = get_cache_key(req.url.as_str());
    state.count_request();
    state.put(key, req.context, data);
    reply
}

/// Answers a status query for a chapter.
pub fn is_chapter_preprocessed_handler(state: &AppState, req: &JobRequest) -> (status: ChapterStatus)
    ensures
        status == if state.active_chapter_jobs.map().contains_key(req.base_url@) {
            ChapterStatus::Processing {
                current: state.active_chapter_jobs.map()[req.base_url@].current,
                total: state.active_chapter_jobs.map()[req.base_url@].total,
            }
        } else if state.cache.map().contains_key(key_of(req.base_url@ + "0"@)) {
            ChapterStatus::Processed
        } else {
            ChapterStatus::Idle
        },
{
    state.chapter_status(req.base_url.as_str())
}

/// Takes a precomputation order. An order without pages is refused. A
/// chapter that has a running job gets no second one, and the state stays
/// as it is. Any other order registers a job with no page done, which the
/// caller runs.
pub fn preprocess_handler(state: &mut AppState, req: JobRequest) -> (reply: PreprocessReply)
    ensures
        match reply {
            PreprocessReply::NoPages => req.pages is None && *final(state) == *old(state),
            PreprocessReply::AlreadyProcessing => {
                &&& req.pages is Some
                &&& old(state).active_chapter_jobs.map().contains_key(req.base_url@)
                &&& *final(state) == *old(state)
            },
            PreprocessReply::Started(job) => {
                &&& req.pages is Some
                &&& !old(state).active_chapter_jobs.map().contains_key(req.base_url@)
                &&& job.wf()
                &&& job.base_url == req.base_url
                &&& job.pages == req.pages->0
                &&& job.context == req.context
                &&& job.next == 0
                &&& job.in_flight == 0
                &&& job.completed == 0
                &&& !job.saving
                &&& final(state).active_chapter_jobs.map() == old(
                    state,
                ).active_chapter_jobs.map().insert(
                    req.base_url@,
                    JobProgress { current: 0, total: job.pages@.len() as usize },
                )
                &&& final(state).active_chapter_jobs.count() == old(
                    state,
                ).active_chapter_jobs.count() + 1
                &&& final(state).cache == old(state).cache
                &&& final(state).requests_processed == old(state).requests_processed
            },
        },
{
    let pages: Vec<String> = match req.pages {
        Some(pages) => pages,
        None => {
            return PreprocessReply::NoPages;
        },
    };
    let job: ChapterJob = ChapterJob::new(req.base_url, pages, req.context);
    match job.begin(state) {
        JobStart::AlreadyProcessing => PreprocessReply::AlreadyProcessing,
        JobStart::Started => PreprocessReply::Started(job),
    }
}

/// Empties the cache; the caller saves it.
pub fn purge_cache_handler(state: &mut AppState)
    ensures
        final(state).cache.map() == Map::<Seq<char>, CacheEntry>::empty(),
        final(state).active_chapter_jobs == old(state).active_chapter_jobs,
        final(state).requests_processed == old(state).requests_processed,
{
    state.purge();
}

/// Copies the whole cache for transport.
pub fn export_cache_handler(state: &AppState) -> (entries: Vec<(String, CacheEntry)>)
    ensures
        entries@.len() == state.cache.count(),
        forall|i: int|
            0 <= i < entries@.len() ==> (#[trigger] entries@[i]).0@ == state.cache.key_order()[i]
                && entries@[i].1@ == state.cache.map()[state.cache.key_order()[i]]@,
{
    state.export()
}

/// Imports entries into the cache. Only keys that the cache does not hold
/// are added; what it holds stays untouched. The cache is to be saved when
/// something was added.
pub fn import_cache_handler(state: &mut AppState, data: Vec<(String, CacheEntry)>) -> (reply:
    ImportReply)
    ensures
        final(state).cache.map() == imported(old(state).cache.map(), data@, data@.len() as int),
        reply.added == imported_count(old(state).cache.map(), data@, data@.len() as int),
        reply.save == (reply.added > 0),
        forall|key: Seq<char>|
            #![trigger old(state).cache.map().contains_key(key)]
            old(state).cache.map().contains_key(key) ==> final(state).cache.map().contains_key(key)
                && final(state).cache.map()[key] == old(state).cache.map()[key],
        final(state).active_chapter_jobs == old(state).active_chapter_jobs,
        final(state).requests_processed == old(state).requests_processed,
{
    let added: usize = state.import(data);
    ImportReply { added, save: added > 0 }
}

} // verus!
