//! From what a command line asks for to what is run with which options.
use vstd::prelude::*;

use crate::dedup::DedupOptions;
use crate::diff::{DiffFormat, DiffOptions};
use crate::fileops::OpOptions;
use crate::hash::HashAlgo;
use crate::inventory::{by_path, duplicates, record_hashes, record_views};
use crate::inventory::{retain_dups, sort_records, InventoryRecord, RecordView};
use crate::meta::opt_view;
use crate::options::{build_options, collect_ignores, fileop_scan_opts, ignores_of, ScanFlags};
use crate::scan::{first_invalid, stats_text, ScanOptions, ScanStats};
use crate::sync::{Direction, SyncOptions};
use crate::text::{concat2, views};

verus! {

/// A command, without the paths it is for.
#[derive(Debug)]
pub enum Command {
    Scan { flags: ScanFlags, dry_run: bool },
    Inventory { flags: ScanFlags, no_scan: bool, dups_only: bool },
    Watch { flags: ScanFlags, index: bool },
    Dedup { flags: ScanFlags, auto: bool, no_dedup_link: bool, dry_run: bool },
    Diff { flags: ScanFlags, format: DiffFormat, show_common: bool, no_scan: bool },
    Sync { flags: ScanFlags, direction: Direction, no_scan: bool, dry_run: bool },
    /// Copies, moves or removes files.
    FileOp { algo: HashAlgo, ignores: Vec<String>, recursive: bool, force: bool, quiet: bool },
    Index { flags: ScanFlags, no_scan: bool, reindex: bool },
}

/// What to run.
pub enum Job {
    Scan,
    Inventory { scan_first: bool, dups_only: bool },
    Watch { index: bool },
    Dedup { options: DedupOptions },
    Diff { options: DiffOptions },
    Sync { options: SyncOptions },
    FileOp { options: OpOptions },
    Index { scan_first: bool, reindex: bool },
}

/// What to run, and with which scan options.
pub struct Plan {
    pub scan: ScanOptions,
    pub job: Job,
}

/// The options of a scan are those that flags and the environment ask for. The
/// commands that print a report take none of the details of single files into it.
pub open spec fn as_asked(
    o: ScanOptions,
    flags: ScanFlags,
    env: Option<Seq<char>>,
    details: bool,
    dry_run: bool,
) -> bool {
    &&& o.algo == flags.algo
    &&& o.follow_symlinks == flags.follow_symlinks
    &&& views(o.excludes@) == views(flags.excludes@)
    &&& views(o.ignores@) == ignores_of(env, views(flags.ignores@))
    &&& o.quiet == flags.quiet
    &&& o.verbose == (details && flags.verbose)
    &&& o.status == (details && flags.status)
    &&& o.skip_apple_double == !flags.include_apple_double
    &&& o.dry_run == dry_run
}

/// The patterns of a command to leave files out by.
pub open spec fn patterns_of(c: Command) -> Seq<Seq<char>> {
    match c {
        Command::Scan { flags, .. } => views(flags.excludes@),
        Command::Inventory { flags, .. } => views(flags.excludes@),
        Command::Watch { flags, .. } => views(flags.excludes@),
        Command::Dedup { flags, .. } => views(flags.excludes@),
        Command::Diff { flags, .. } => views(flags.excludes@),
        Command::Sync { flags, .. } => views(flags.excludes@),
        Command::FileOp { .. } => Seq::empty(),
        Command::Index { flags, .. } => views(flags.excludes@),
    }
}

/// The scan options are those of the command. The scan before a removal of duplicates
/// writes even where nothing is to be removed.
pub open spec fn scans_as(o: ScanOptions, c: Command, env: Option<Seq<char>>) -> bool {
    match c {
        Command::Scan { flags, dry_run } => as_asked(o, flags, env, true, dry_run),
        Command::Inventory { flags, .. } => as_asked(o, flags, env, false, false),
        Command::Watch { flags, .. } => as_asked(o, flags, env, true, false),
        Command::Dedup { flags, .. } => as_asked(o, flags, env, true, false),
        Command::Diff { flags, .. } => as_asked(o, flags, env, false, false),
        Command::Sync { flags, .. } => as_asked(o, flags, env, false, false),
        Command::FileOp { algo, ignores, quiet, .. } => {
            &&& o.algo == algo
            &&& !o.follow_symlinks
            &&& o.excludes@.len() == 0
            &&& views(o.ignores@) == ignores_of(env, views(ignores@))
            &&& o.quiet == quiet
            &&& !o.verbose
            &&& !o.status
            &&& o.skip_apple_double
            &&& !o.dry_run
        },
        Command::Index { flags, .. } => as_asked(o, flags, env, true, false),
    }
}

/// What a command runs.
pub open spec fn job_of(c: Command) -> Job {
    match c {
        Command::Scan { .. } => Job::Scan,
        Command::Inventory { no_scan, dups_only, .. } => Job::Inventory {
            scan_first: !no_scan,
            dups_only,
        },
        Command::Watch { index, .. } => Job::Watch { index },
        Command::Dedup { auto, no_dedup_link, dry_run, .. } => Job::Dedup {
            options: DedupOptions { interactive: !auto, write_links: !no_dedup_link, dry_run },
        },
        Command::Diff { format, show_common, no_scan, .. } => Job::Diff {
            options: DiffOptions { format, show_common, scan_first: !no_scan },
        },
        Command::Sync { direction, no_scan, dry_run, .. } => Job::Sync {
            options: SyncOptions { direction, scan_first: !no_scan, dry_run },
        },
        Command::FileOp { recursive, force, quiet, .. } => Job::FileOp {
            options: OpOptions { recursive, force, quiet },
        },
        Command::Index { no_scan, reindex, .. } => Job::Index { scan_first: !no_scan, reindex },
    }
}

fn scan_as_asked(flags: &ScanFlags, env: &Option<String>, details: bool, dry_run: bool) -> (r:
    Result<ScanOptions, String>)
    ensures
        match first_invalid(views(flags.excludes@)) {
            Some(g) => r matches Err(e) && e@ == g,
            None => r matches Ok(o) && as_asked(o, *flags, opt_view(*env), details, dry_run),
        },
{
    match build_options(flags, env, dry_run) {
        Ok(o) => Ok(
            ScanOptions { verbose: details && o.verbose, status: details && o.status, ..o },
        ),
        Err(g) => Err(g),
    }
}

/// What a command runs and with which options, or the first of its patterns that is
/// none. `env` is what the environment says to ignore.
pub fn run(command: &Command, env: &Option<String>) -> (r: Result<Plan, String>)
    ensures
        match r {
            Ok(p) => {
                &&& first_invalid(patterns_of(*command)) is None
                &&& scans_as(p.scan, *command, opt_view(*env))
                &&& p.job == job_of(*command)
            },
            Err(g) => first_invalid(patterns_of(*command)) == Some(g@),
        },
{
    let scan: Result<ScanOptions, String> = match command {
        Command::Scan { flags, dry_run } => scan_as_asked(flags, env, true, *dry_run),
        Command::Inventory { flags, .. } => scan_as_asked(flags, env, false, false),
        Command::Watch { flags, .. } => scan_as_asked(flags, env, true, false),
        Command::Dedup { flags, .. } => scan_as_asked(flags, env, true, false),
        Command::Diff { flags, .. } => scan_as_asked(flags, env, false, false),
        Command::Sync { flags, .. } => scan_as_asked(flags, env, false, false),
        Command::FileOp { algo, ignores, quiet, .. } => Ok(
            fileop_scan_opts(*algo, *quiet, collect_ignores(env, ignores)),
        ),
        Command::Index { flags, .. } => scan_as_asked(flags, env, true, false),
    };
    let scan: ScanOptions = match scan {
        Ok(o) => o,
        Err(g) => return Err(g),
    };
    let job: Job = match command {
        Command::Scan { .. } => Job::Scan,
        Command::Inventory { no_scan, dups_only, .. } => Job::Inventory {
            scan_first: !*no_scan,
            dups_only: *dups_only,
        },
        Command::Watch { index, .. } => Job::Watch { index: *index },
        Command::Dedup { auto, no_dedup_link, dry_run, .. } => Job::Dedup {
            options: DedupOptions {
                interactive: !*auto,
                write_links: !*no_dedup_link,
                dry_run: *dry_run,
            },
        },
        Command::Diff { format, show_common, no_scan, .. } => Job::Diff {
            options: DiffOptions {
                format: *format,
                show_common: *show_common,
                scan_first: !*no_scan,
            },
        },
        Command::Sync { direction, no_scan, dry_run, .. } => Job::Sync {
            options: SyncOptions {
                direction: *direction,
                scan_first: !*no_scan,
                dry_run: *dry_run,
            },
        },
        Command::FileOp { recursive, force, quiet, .. } => Job::FileOp {
            options: OpOptions { recursive: *recursive, force: *force, quiet: *quiet },
        },
        Command::Index { no_scan, reindex, .. } => Job::Index {
            scan_first: !*no_scan,
            reindex: *reindex,
        },
    };
    Ok(Plan { scan, job })
}

/// What to tell of a pattern that is none.
pub fn invalid_exclude(pattern: &str) -> (r: String)
    ensures
        r@ == "invalid exclude glob: "@ + pattern@,
{
    concat2("invalid exclude glob: ", pattern)
}

/// The line that a scan ends with.
pub fn scan_line(stats: &ScanStats, dry_run: bool) -> (r: String)
    ensures
        r@ == (if dry_run {
            "dry-run: "@
        } else {
            ""@
        }) + stats_text(*stats),
{
    concat2(
        if dry_run {
            "dry-run: "
        } else {
            ""
        },
        stats.to_text().as_str(),
    )
}

/// The records of a report on some roots: all of them by path, or only those whose
/// hash occurs more than once among them.
pub open spec fn report_of(records: Seq<RecordView>, dups_only: bool) -> Seq<RecordView> {
    let sorted = by_path(records);
    if dups_only {
        duplicates(sorted, record_hashes(sorted))
    } else {
        sorted
    }
}

/// The records of a report on some roots.
pub fn report(records: &Vec<InventoryRecord>, dups_only: bool) -> (r: Vec<InventoryRecord>)
    ensures
        record_views(r@) == report_of(record_views(records@), dups_only),
{
    let mut sorted: Vec<InventoryRecord> = sort_records(records);
    if dups_only {
        retain_dups(&mut sorted);
    }
    sorted
}

/// What a command scans with: what its flags say; details of single files only where it
/// does not print a report of its own; without writing only where a scan is a dry run.
pub proof fn law_commands_scan_as_flagged(
    c: &Command,
    env: &Option<String>,
    r: Result<Plan, String>,
)
    requires
        call_ensures(run, (c, env), r),
        r is Ok,
    ensures
        *c matches Command::Scan { flags, dry_run } ==> {
            &&& r->Ok_0.scan.verbose == flags.verbose
            &&& r->Ok_0.scan.status == flags.status
            &&& r->Ok_0.scan.dry_run == dry_run
            &&& r->Ok_0.scan.algo == flags.algo
            &&& r->Ok_0.scan.follow_symlinks == flags.follow_symlinks
            &&& r->Ok_0.scan.quiet == flags.quiet
            &&& r->Ok_0.scan.skip_apple_double != flags.include_apple_double
        },
        *c matches Command::Inventory { flags, .. } ==> {
            &&& !r->Ok_0.scan.verbose && !r->Ok_0.scan.status && !r->Ok_0.scan.dry_run
            &&& r->Ok_0.scan.algo == flags.algo
            &&& r->Ok_0.scan.follow_symlinks == flags.follow_symlinks
        },
        *c matches Command::Watch { flags, .. } ==> {
            &&& r->Ok_0.scan.verbose == flags.verbose
            &&& r->Ok_0.scan.status == flags.status
            &&& !r->Ok_0.scan.dry_run
        },
        *c matches Command::Dedup { flags, .. } ==> {
            &&& r->Ok_0.scan.verbose == flags.verbose
            &&& r->Ok_0.scan.status == flags.status
            &&& !r->Ok_0.scan.dry_run
        },
        *c is Diff || *c is Sync ==> !r->Ok_0.scan.verbose && !r->Ok_0.scan.status
            && !r->Ok_0.scan.dry_run,
        *c is FileOp ==> !r->Ok_0.scan.follow_symlinks && r->Ok_0.scan.excludes@.len() == 0
            && r->Ok_0.scan.skip_apple_double && !r->Ok_0.scan.dry_run,
{
}

/// What a command runs: the job of its name, with the switches turned round that say
/// what not to do.
pub proof fn law_commands_run_their_jobs(c: &Command, env: &Option<String>, r: Result<Plan, String>)
    requires
        call_ensures(run, (c, env), r),
        r is Ok,
    ensures
        *c is Scan <==> r->Ok_0.job is Scan,
        *c matches Command::Inventory { no_scan, dups_only, .. } ==> (
        r->Ok_0.job matches Job::Inventory { scan_first, dups_only: d } && scan_first != no_scan
            && d == dups_only),
        *c matches Command::Watch { index, .. } ==> (r->Ok_0.job matches Job::Watch { index: i } && i
            == index),
        *c matches Command::Dedup { auto, no_dedup_link, dry_run, .. } ==> (
        r->Ok_0.job matches Job::Dedup { options } && options.interactive != auto
            && options.write_links != no_dedup_link && options.dry_run == dry_run),
        *c matches Command::Diff { format, show_common, no_scan, .. } ==> (
        r->Ok_0.job matches Job::Diff { options } && options.format == format && options.show_common
            == show_common && options.scan_first != no_scan),
        *c matches Command::Sync { direction, no_scan, dry_run, .. } ==> (
        r->Ok_0.job matches Job::Sync { options } && options.direction == direction
            && options.scan_first != no_scan && options.dry_run == dry_run),
        *c matches Command::FileOp { recursive, force, quiet, .. } ==> (
        r->Ok_0.job matches Job::FileOp { options } && options.recursive == recursive
            && options.force == force && options.quiet == quiet),
        *c matches Command::Index { no_scan, reindex, .. } ==> (r->Ok_0.job matches Job::Index {
            scan_first,
            reindex: x,
        } && scan_first != no_scan && x == reindex),
{
}

/// An inventory is printed by path, whole or without the files that share no hash.
pub proof fn law_report_is_the_sorted_inventory(records: Seq<RecordView>)
    ensures
        report_of(records, false) == by_path(records),
        report_of(records, true) == duplicates(
            by_path(records),
            record_hashes(by_path(records)),
        ),
{
}

} // verus!
