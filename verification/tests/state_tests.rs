use mangatan_ocr_server::handlers::{
    default_context, export_cache_handler, import_cache_handler, is_chapter_preprocessed_handler,
    ocr_finished, ocr_handler, preprocess_handler, purge_cache_handler, status_handler, ImportReply,
    JobRequest, OcrReply, OcrRequest, PreprocessReply, ServiceStatus,
};
use mangatan_ocr_server::jobs::{retry_delay, ChapterJob, ChapterStatus, JobStart, PageTurn};
use mangatan_ocr_server::logic::{BoundingBox, OcrResult};
use mangatan_ocr_server::platform::{get_asset_target_string, TargetArch, TargetOs};
use mangatan_ocr_server::state::{AppState, CacheEntry, JobProgress, SaveStep};
use mangatan_ocr_server::table::StringTable;

fn region(text: &str) -> OcrResult {
    OcrResult {
        text: text.to_string(),
        tight_bounding_box: BoundingBox { x: 1, y: 2, width: 3, height: 4, rotation: None },
        is_merged: None,
        forced_orientation: None,
    }
}

fn entry(context: &str, text: &str) -> CacheEntry {
    CacheEntry { context: context.to_string(), data: vec![region(text)] }
}

fn texts(entry: &CacheEntry) -> Vec<String> {
    entry.data.iter().map(|r| r.text.clone()).collect()
}

fn job_request(base: &str, pages: Option<Vec<&str>>) -> JobRequest {
    JobRequest {
        base_url: base.to_string(),
        user: None,
        pass: None,
        context: "ctx".to_string(),
        pages: pages.map(|p| p.iter().map(|s| s.to_string()).collect()),
    }
}

#[test]
fn table_keeps_one_value_per_key() {
    let mut t: StringTable<u32> = StringTable::new();
    assert_eq!(t.len(), 0);
    t.insert("a".to_string(), 1);
    t.insert("b".to_string(), 2);
    t.insert("a".to_string(), 3);
    assert_eq!(t.len(), 2);
    assert_eq!(t.get("a"), Some(&3));
    assert_eq!(t.get("b"), Some(&2));
    assert_eq!(t.get("c"), None);
    assert_eq!(t.find("b"), Some(1));
    assert_eq!(t.key_at(0), "a");
    assert_eq!(*t.value_at(1), 2);
    t.remove("a");
    assert!(!t.contains_key("a"));
    assert_eq!(t.len(), 1);
    assert_eq!(t.key_at(0), "b");
    t.remove("zz");
    assert_eq!(t.len(), 1);
    t.clear();
    assert_eq!(t.len(), 0);
}

#[test]
fn fresh_state_without_a_file_is_empty() {
    let state = AppState::new(None);
    assert_eq!(
        status_handler(&state),
        ServiceStatus { requests_processed: 0, items_in_cache: 0, active_jobs: 0 }
    );
}

#[test]
fn fresh_state_holds_what_was_loaded() {
    let state = AppState::new(Some(vec![
        ("/a".to_string(), entry("one", "x")),
        ("/b".to_string(), entry("two", "y")),
        ("/a".to_string(), entry("three", "z")),
    ]));
    assert_eq!(state.cache.len(), 2);
    assert_eq!(state.get("/a").unwrap().context, "three");
    assert_eq!(texts(state.get("/b").unwrap()), vec!["y"]);
    assert!(state.get("/c").is_none());
}

#[test]
fn import_never_overwrites() {
    let mut state = AppState::new(None);
    state.put("/a".to_string(), "mine".to_string(), vec![region("kept")]);
    let reply = import_cache_handler(
        &mut state,
        vec![
            ("/a".to_string(), entry("theirs", "lost")),
            ("/b".to_string(), entry("theirs", "new")),
            ("/b".to_string(), entry("late", "late")),
        ],
    );
    assert_eq!(reply, ImportReply { added: 1, save: true });
    assert_eq!(state.get("/a").unwrap().context, "mine");
    assert_eq!(texts(state.get("/a").unwrap()), vec!["kept"]);
    assert_eq!(state.get("/b").unwrap().context, "theirs");
    let again = import_cache_handler(&mut state, vec![("/a".to_string(), entry("x", "y"))]);
    assert_eq!(again, ImportReply { added: 0, save: false });
}

#[test]
fn export_lists_every_entry() {
    let mut state = AppState::new(None);
    state.put("/b".to_string(), "c1".to_string(), vec![region("1")]);
    state.put("/a".to_string(), "c2".to_string(), vec![region("2")]);
    let out = export_cache_handler(&state);
    assert_eq!(out.len(), 2);
    assert_eq!(out[0].0, "/b");
    assert_eq!(out[0].1.context, "c1");
    assert_eq!(out[1].0, "/a");
    assert_eq!(texts(&out[1].1), vec!["2"]);
}

#[test]
fn purge_empties_the_cache() {
    let mut state = AppState::new(None);
    state.put("/a".to_string(), "c".to_string(), vec![]);
    purge_cache_handler(&mut state);
    assert_eq!(state.cache.len(), 0);
    assert!(state.get("/a").is_none());
}

#[test]
fn recognition_is_answered_from_the_cache() {
    let mut state = AppState::new(None);
    let req = || OcrRequest {
        url: "http://host:1/pages/7?token=1".to_string(),
        user: None,
        pass: None,
        context: default_context(),
    };
    assert!(matches!(ocr_handler(&mut state, &req()), OcrReply::Compute));
    assert_eq!(state.requests_processed, 0);
    let reply = ocr_finished(&mut state, req(), vec![region("seen")]);
    assert_eq!(reply.len(), 1);
    assert_eq!(reply[0].text, "seen");
    assert_eq!(state.requests_processed, 1);
    assert_eq!(state.get("/pages/7").unwrap().context, "No Context");
    let other_host = OcrRequest {
        url: "https://elsewhere:99/pages/7".to_string(),
        user: None,
        pass: None,
        context: "c".to_string(),
    };
    match ocr_handler(&mut state, &other_host) {
        OcrReply::Cached(regions) => assert_eq!(regions[0].text, "seen"),
        OcrReply::Compute => panic!("the page is cached"),
    }
    assert_eq!(state.requests_processed, 2);
}

#[test]
fn request_counter_wraps() {
    let mut state = AppState::new(None);
    state.requests_processed = usize::MAX;
    state.count_request();
    assert_eq!(state.requests_processed, 0);
}

#[test]
fn order_without_pages_is_refused() {
    let mut state = AppState::new(None);
    assert!(matches!(
        preprocess_handler(&mut state, job_request("http://h/ch/1/", None)),
        PreprocessReply::NoPages
    ));
    assert_eq!(state.active_jobs(), 0);
}

#[test]
fn second_order_for_a_running_chapter_starts_nothing() {
    let mut state = AppState::new(None);
    let first = preprocess_handler(&mut state, job_request("http://h/ch/1/", Some(vec!["http://h/ch/1/0"])));
    assert!(matches!(first, PreprocessReply::Started(_)));
    assert_eq!(state.active_jobs(), 1);
    let second = preprocess_handler(&mut state, job_request("http://h/ch/1/", Some(vec!["http://h/ch/1/0"])));
    assert!(matches!(second, PreprocessReply::AlreadyProcessing));
    assert_eq!(state.active_jobs(), 1);
    assert_eq!(state.active_chapter_jobs.len(), 1);
    let other = preprocess_handler(&mut state, job_request("http://h/ch/2/", Some(vec![])));
    assert!(matches!(other, PreprocessReply::Started(_)));
    assert_eq!(state.active_jobs(), 2);
}

#[test]
fn chapter_status_goes_from_idle_to_processing_to_processed() {
    let mut state = AppState::new(None);
    let base = "http://h/ch/1/";
    let query = job_request(base, None);
    assert_eq!(is_chapter_preprocessed_handler(&state, &query), ChapterStatus::Idle);
    let mut job = match preprocess_handler(&mut state, job_request(base, Some(vec!["http://h/ch/1/0", "http://h/ch/1/1"]))) {
        PreprocessReply::Started(job) => job,
        _ => panic!("the job starts"),
    };
    assert_eq!(
        is_chapter_preprocessed_handler(&state, &query),
        ChapterStatus::Processing { current: 0, total: 2 }
    );
    assert_eq!(job.next_page(&mut state), PageTurn::Fetch(0));
    assert_eq!(job.next_page(&mut state), PageTurn::Fetch(1));
    assert_eq!(job.next_page(&mut state), PageTurn::Wait);
    assert!(!job.page_finished(&mut state, 1, None));
    assert_eq!(
        is_chapter_preprocessed_handler(&state, &query),
        ChapterStatus::Processing { current: 1, total: 2 }
    );
    assert!(!job.page_finished(&mut state, 0, Some(vec![region("first page")])));
    assert_eq!(job.next_page(&mut state), PageTurn::Done);
    job.finish(&mut state);
    assert_eq!(state.active_jobs(), 0);
    assert_eq!(is_chapter_preprocessed_handler(&state, &query), ChapterStatus::Processed);
    // The failed page stays uncached.
    assert!(state.get("/ch/1/1").is_none());
    assert_eq!(state.get("/ch/1/0").unwrap().context, "ctx");
}

#[test]
fn at_most_six_pages_run_at_once() {
    let mut state = AppState::new(None);
    let pages: Vec<String> = (0..10).map(|i| format!("http://h/c/{}", i)).collect();
    let mut job = ChapterJob::new("http://h/c/".to_string(), pages, "ctx".to_string());
    assert_eq!(job.begin(&mut state), JobStart::Started);
    for i in 0..6 {
        assert_eq!(job.next_page(&mut state), PageTurn::Fetch(i));
    }
    assert_eq!(job.next_page(&mut state), PageTurn::Wait);
    assert_eq!(job.in_flight, 6);
    assert!(!job.page_finished(&mut state, 3, Some(vec![])));
    assert_eq!(job.next_page(&mut state), PageTurn::Fetch(6));
    assert_eq!(job.next_page(&mut state), PageTurn::Wait);
}

#[test]
fn every_fifth_page_asks_for_a_save() {
    let mut state = AppState::new(None);
    let pages: Vec<String> = (0..12).map(|i| format!("http://h/c/{}", i)).collect();
    let mut job = ChapterJob::new("http://h/c/".to_string(), pages, "ctx".to_string());
    job.begin(&mut state);
    let mut due = Vec::new();
    for i in 0..12 {
        assert_eq!(job.next_page(&mut state), PageTurn::Fetch(i));
        due.push(job.page_finished(&mut state, i, Some(vec![])));
    }
    let expected: Vec<bool> = (1..=12).map(|n| n % 5 == 0).collect();
    assert_eq!(due, expected);
    assert_eq!(state.active_chapter_jobs.get("http://h/c/"), Some(&JobProgress { current: 12, total: 12 }));
}

#[test]
fn cached_pages_are_skipped() {
    let mut state = AppState::new(None);
    state.put("/c/1".to_string(), "old".to_string(), vec![region("old")]);
    let pages: Vec<String> = (0..3).map(|i| format!("http://h/c/{}", i)).collect();
    let mut job = ChapterJob::new("http://h/c/".to_string(), pages, "ctx".to_string());
    job.begin(&mut state);
    assert_eq!(job.next_page(&mut state), PageTurn::Fetch(0));
    assert_eq!(job.next_page(&mut state), PageTurn::Skipped { save_due: false });
    assert_eq!(job.next_page(&mut state), PageTurn::Fetch(2));
    assert_eq!(job.completed, 1);
    assert_eq!(job.in_flight, 2);
    assert_eq!(state.get("/c/1").unwrap().context, "old");
}

#[test]
fn a_running_save_is_not_joined() {
    let mut job = ChapterJob::new("b".to_string(), vec![], "c".to_string());
    assert!(job.begin_save());
    assert!(!job.begin_save());
    job.end_save();
    assert!(job.begin_save());
}

#[test]
fn retries_back_off_linearly() {
    assert_eq!(retry_delay(0), None);
    assert_eq!(retry_delay(1), Some(1));
    assert_eq!(retry_delay(2), Some(2));
    assert_eq!(retry_delay(3), None);
    assert_eq!(retry_delay(u32::MAX), None);
}

#[test]
fn cache_file_is_replaced_only_after_a_full_write() {
    assert_eq!(AppState::save_cache(SaveStep::CreateTemp, true), SaveStep::WriteAll);
    assert_eq!(AppState::save_cache(SaveStep::CreateTemp, false), SaveStep::Stop);
    assert_eq!(AppState::save_cache(SaveStep::WriteAll, true), SaveStep::Sync);
    assert_eq!(AppState::save_cache(SaveStep::WriteAll, false), SaveStep::Stop);
    assert_eq!(AppState::save_cache(SaveStep::Sync, true), SaveStep::Rename);
    assert_eq!(AppState::save_cache(SaveStep::Sync, false), SaveStep::Rename);
    assert_eq!(AppState::save_cache(SaveStep::Rename, true), SaveStep::Stop);
    assert_eq!(AppState::save_cache(SaveStep::Rename, false), SaveStep::Stop);
    assert_eq!(AppState::save_cache(SaveStep::Stop, true), SaveStep::Stop);
}

#[test]
fn asset_names_by_platform() {
    assert_eq!(get_asset_target_string(TargetOs::Windows, TargetArch::X86_64), "Windows-x64");
    assert_eq!(get_asset_target_string(TargetOs::Windows, TargetArch::Aarch64), "Windows-x64");
    assert_eq!(get_asset_target_string(TargetOs::MacOs, TargetArch::Aarch64), "macOS-Silicon");
    assert_eq!(get_asset_target_string(TargetOs::MacOs, TargetArch::X86_64), "macOS-Intel");
    assert_eq!(get_asset_target_string(TargetOs::Linux, TargetArch::Aarch64), "Linux-arm64.tar");
    assert_eq!(get_asset_target_string(TargetOs::Linux, TargetArch::X86_64), "Linux-amd64.tar");
}
