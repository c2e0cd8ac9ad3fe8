//! The rescan policy: whether to scan at all, and what to scan.

use vstd::prelude::*;
use crate::entry::copy_string;
use crate::text::push_char;
use crate::lazy::LazyCache;

verus! {

/// How long a completed scan stays fresh, in milliseconds (one hour).
pub const FRESHNESS_WINDOW_MS: i64 = 3_600_000;

/// What a run scans.
#[derive(Debug, PartialEq, Eq)]
pub enum ScanScope {
    /// Nothing: the cache is fresh and is served as it is.
    Skip,
    /// The whole requested root: the cache is empty, so this is a first run.
    Full(String),
    /// Only the working directory.
    Partial(String),
}

pub enum ScopeView {
    Skip,
    Full(Seq<char>),
    Partial(Seq<char>),
}

impl View for ScanScope {
    type V = ScopeView;

    open spec fn view(&self) -> ScopeView {
        match self {
            ScanScope::Skip => ScopeView::Skip,
            ScanScope::Full(r) => ScopeView::Full(r@),
            ScanScope::Partial(c) => ScopeView::Partial(c@),
        }
    }
}

/// A scan that ended at `last_scan` is fresh at `now` when less than the
/// freshness window has passed (a clock that went back counts as fresh).
pub open spec fn is_fresh(last_scan: i64, now: i64) -> bool {
    now - last_scan < FRESHNESS_WINDOW_MS
}

/// The scope of a run: skip when not forced, the cache holds entries and its
/// last scan is fresh; otherwise the whole root when the cache is empty, and
/// the working directory when it is not.
pub open spec fn scope_of(
    is_empty: bool,
    last_scan: i64,
    now: i64,
    force: bool,
    root: Seq<char>,
    cwd: Seq<char>,
) -> ScopeView {
    if !force && !is_empty && is_fresh(last_scan, now) {
        ScopeView::Skip
    } else if is_empty {
        ScopeView::Full(root)
    } else {
        ScopeView::Partial(cwd)
    }
}

/// Decides what a run scans.
pub fn decide_scope(
    is_empty: bool,
    last_scan: i64,
    now: i64,
    force: bool,
    root: &String,
    cwd: &String,
) -> (r: ScanScope)
    ensures
        r@ == scope_of(is_empty, last_scan, now, force, root@, cwd@),
{
    let age = now as i128 - last_scan as i128;
    if !force && !is_empty && age < FRESHNESS_WINDOW_MS as i128 {
        ScanScope::Skip
    } else if is_empty {
        ScanScope::Full(copy_string(root))
    } else {
        ScanScope::Partial(copy_string(cwd))
    }
}

/// Relies on chrono's Utc::now and DateTime::timestamp_millis: the current
/// time in milliseconds since the Unix epoch. Nothing is promised of its value.
#[verifier::external_body]
fn now_millis() -> (r: i64) {
    chrono::Utc::now().timestamp_millis()
}

/// The current time, in milliseconds since the Unix epoch.
pub fn current_time_ms() -> (r: i64) {
    now_millis()
}

impl<'a> LazyCache<'a> {
    /// Decides what this run scans, at the current time; returns the scope and
    /// the time it was decided at.
    pub fn plan_scan(&self, force: bool, root: &String, cwd: &String) -> (r: (ScanScope, i64))
        ensures
            r.0@ == scope_of(
                self.index_view().offsets.len() == 0,
                self.index_view().last_scan,
                r.1,
                force,
                root@,
                cwd@,
            ),
    {
        let now = now_millis();
        (decide_scope(self.is_empty(), self.last_scan(), now, force, root, cwd), now)
    }
}

/// The root of a drive: its letter, a colon and a backslash.
pub fn drive_root(drive: char) -> (r: String)
    ensures
        r@ == seq![drive, ':', '\\'],
{
    let mut s = String::new();
    push_char(&mut s, drive);
    push_char(&mut s, ':');
    push_char(&mut s, '\\');
    assert(s@ =~= seq![drive, ':', '\\']);
    s
}

/// Relies on num_cpus::get: the number of logical cores, at least one.
#[verifier::external_body]
fn logical_cpus() -> (r: usize)
    ensures
        r >= 1,
{
    num_cpus::get()
}

/// Twice `cpus`, saturating at the largest `usize`.
pub open spec fn doubled(cpus: usize) -> int {
    if cpus > usize::MAX / 2 {
        usize::MAX as int
    } else {
        2 * cpus
    }
}

/// The default number of workers for `cpus` logical cores: twice as many,
/// saturating.
pub fn default_workers(cpus: usize) -> (r: usize)
    ensures
        r == doubled(cpus),
{
    if cpus > usize::MAX / 2 {
        usize::MAX
    } else {
        cpus * 2
    }
}

/// The number of workers: the one asked for, else `default_workers` of the
/// machine's logical core count.
pub fn worker_count(requested: Option<usize>) -> (r: usize)
    ensures
        requested is Some ==> r == requested->0,
        requested is None ==> exists|cpus: usize| cpus >= 1 && r == #[trigger] doubled(cpus),
{
    match requested {
        Some(n) => n,
        None => {
            let cpus = logical_cpus();
            default_workers(cpus)
        },
    }
}

/// What a run did, for the timing summary.
#[derive(Debug)]
pub struct DebugInfo {
    pub is_first_run: bool,
    pub scan_root: String,
    /// Whether the fresh cache was served without a scan.
    pub cache_used: bool,
    /// Milliseconds spent scanning.
    pub traversal_time: u64,
    /// Milliseconds spent saving the index.
    pub save_time: u64,
    pub total_dirs: usize,
    pub threads_used: usize,
}

impl DebugInfo {
    /// The summary of a run that served the fresh cache.
    pub fn from_cache(scan_root: &String, total_dirs: usize) -> (r: DebugInfo)
        ensures
            !r.is_first_run,
            r.cache_used,
            r.scan_root@ == scan_root@,
            r.traversal_time == 0,
            r.save_time == 0,
            r.total_dirs == total_dirs,
            r.threads_used == 0,
    {
        DebugInfo {
            is_first_run: false,
            scan_root: copy_string(scan_root),
            cache_used: true,
            traversal_time: 0,
            save_time: 0,
            total_dirs,
            threads_used: 0,
        }
    }
}

/// Without force, a fresh non-empty cache is never rescanned; with force, a
/// scan always runs, whatever the cache's age.
pub proof fn lemma_fresh_cache_is_served(
    is_empty: bool,
    last_scan: i64,
    now: i64,
    root: Seq<char>,
    cwd: Seq<char>,
)
    ensures
        !is_empty && is_fresh(last_scan, now) ==> scope_of(is_empty, last_scan, now, false, root, cwd)
            == ScopeView::Skip,
        scope_of(is_empty, last_scan, now, true, root, cwd) != ScopeView::Skip,
{
}

} // verus!
