//! Options that come from the command line and the environment.
use vstd::prelude::*;

use crate::hash::HashAlgo;
use crate::meta::opt_view;
use crate::paths::{join, joined_path};
use crate::scan::{first_invalid, parse_excludes, ScanOptions};
use crate::text::{lemma_views_push, pieces, split_all, views};

verus! {

/// The parts of a list that are not empty.
pub open spec fn solid_parts(parts: Seq<Seq<char>>) -> Seq<Seq<char>>
    decreases parts.len(),
{
    if parts.len() == 0 {
        Seq::empty()
    } else if parts.last().len() == 0 {
        solid_parts(parts.drop_last())
    } else {
        solid_parts(parts.drop_last()).push(parts.last())
    }
}

/// The parts of some texts between bars, without the empty ones.
pub open spec fn barred_parts(texts: Seq<Seq<char>>) -> Seq<Seq<char>>
    decreases texts.len(),
{
    if texts.len() == 0 {
        Seq::empty()
    } else {
        barred_parts(texts.drop_last()) + solid_parts(pieces(texts.last(), '|'))
    }
}

/// What to ignore: the parts of the environment's text, then those of the command
/// line. An empty part, which would match every path, is dropped.
pub open spec fn ignores_of(env: Option<Seq<char>>, cli: Seq<Seq<char>>) -> Seq<Seq<char>> {
    (match env {
        Some(e) => solid_parts(pieces(e, '|')),
        None => Seq::empty(),
    }) + barred_parts(cli)
}

/// The parts of a text between bars, without the empty ones.
fn bar_parts(s: &str) -> (r: Vec<String>)
    ensures
        views(r@) == solid_parts(pieces(s@, '|')),
{
    let parts: Vec<String> = split_all(s, '|');
    let ghost pv = pieces(s@, '|');
    let mut out: Vec<String> = Vec::new();
    let mut i: usize = 0;
    assert(views(out@) =~= solid_parts(pv.take(0)));
    while i < parts.len()
        invariant
            i <= parts@.len(),
            pv == pieces(s@, '|'),
            views(parts@) == pv,
            views(out@) == solid_parts(pv.take(i as int)),
        decreases parts@.len() - i,
    {
        proof {
            assert(pv[i as int] == parts@[i as int]@);
            assert(pv.take(i + 1).drop_last() =~= pv.take(i as int));
            assert(pv.take(i + 1).last() == parts@[i as int]@);
        }
        if !parts[i].as_str().is_empty() {
            let copy: String = parts[i].clone();
            proof {
                lemma_views_push(out@, copy);
            }
            out.push(copy);
        }
        i += 1;
    }
    assert(pv.take(pv.len() as int) =~= pv);
    out
}

/// What to ignore, from `$HASHIT_IGNORE` and the command line.
pub fn collect_ignores(env: &Option<String>, cli: &Vec<String>) -> (r: Vec<String>)
    ensures
        views(r@) == ignores_of(opt_view(*env), views(cli@)),
{
    let mut out: Vec<String> = match env {
        Some(e) => bar_parts(e.as_str()),
        None => {
            let none: Vec<String> = Vec::new();
            assert(views(none@) =~= Seq::<Seq<char>>::empty());
            none
        },
    };
    let ghost first = views(out@);
    let ghost cv = views(cli@);
    let mut i: usize = 0;
    assert(first + barred_parts(cv.take(0)) =~= first);
    while i < cli.len()
        invariant
            i <= cli@.len(),
            cv == views(cli@),
            views(out@) == first + barred_parts(cv.take(i as int)),
        decreases cli@.len() - i,
    {
        let mut more: Vec<String> = bar_parts(cli[i].as_str());
        let ghost before = out@;
        let ghost add = more@;
        proof {
            assert(cv[i as int] == cli@[i as int]@);
            assert(cv.take(i + 1).drop_last() =~= cv.take(i as int));
            assert(cv.take(i + 1).last() == cli@[i as int]@);
        }
        out.append(&mut more);
        assert(views(out@) =~= views(before) + views(add));
        assert(views(out@) =~= first + barred_parts(cv.take(i + 1)));
        i += 1;
    }
    assert(cv.take(cv.len() as int) =~= cv);
    out
}

/// What a command says of how to scan.
#[derive(Clone, Debug)]
pub struct ScanFlags {
    pub algo: HashAlgo,
    pub follow_symlinks: bool,
    pub excludes: Vec<String>,
    pub ignores: Vec<String>,
    pub quiet: bool,
    pub verbose: bool,
    pub status: bool,
    pub include_apple_double: bool,
}

/// The options of a scan, or the first text that is no glob pattern.
pub fn build_options(c: &ScanFlags, env_ignores: &Option<String>, dry_run: bool) -> (r: Result<
    ScanOptions,
    String,
>)
    ensures
        match first_invalid(views(c.excludes@)) {
            Some(g) => r matches Err(e) && e@ == g,
            None => {
                &&& r is Ok
                &&& r->Ok_0.algo == c.algo
                &&& r->Ok_0.follow_symlinks == c.follow_symlinks
                &&& views(r->Ok_0.excludes@) == views(c.excludes@)
                &&& views(r->Ok_0.ignores@) == ignores_of(opt_view(*env_ignores), views(c.ignores@))
                &&& r->Ok_0.quiet == c.quiet
                &&& r->Ok_0.verbose == c.verbose
                &&& r->Ok_0.status == c.status
                &&& r->Ok_0.skip_apple_double == !c.include_apple_double
                &&& r->Ok_0.dry_run == dry_run
            },
        },
{
    let excludes: Vec<String> = match parse_excludes(&c.excludes) {
        Ok(v) => v,
        Err(g) => return Err(g),
    };
    Ok(
        ScanOptions {
            algo: c.algo,
            follow_symlinks: c.follow_symlinks,
            excludes,
            ignores: collect_ignores(env_ignores, &c.ignores),
            quiet: c.quiet,
            verbose: c.verbose,
            status: c.status,
            skip_apple_double: !c.include_apple_double,
            dry_run,
        },
    )
}

/// The options of the scans that file operations make: they reconcile manifests,
/// and say nothing of single files.
pub fn fileop_scan_opts(hash: HashAlgo, quiet: bool, ignores: Vec<String>) -> (r: ScanOptions)
    ensures
        r.algo == hash,
        !r.follow_symlinks,
        r.excludes@.len() == 0,
        r.ignores == ignores,
        r.quiet == quiet,
        !r.verbose,
        !r.status,
        r.skip_apple_double,
        !r.dry_run,
{
    ScanOptions {
        algo: hash,
        follow_symlinks: false,
        excludes: Vec::new(),
        ignores,
        quiet,
        verbose: false,
        status: false,
        skip_apple_double: true,
        dry_run: false,
    }
}

/// The options of a silent scan that reconciles what an operation changed.
pub fn refresh_opts(opts: &ScanOptions) -> (r: ScanOptions)
    ensures
        r.algo == opts.algo,
        r.follow_symlinks == opts.follow_symlinks,
        views(r.excludes@) == views(opts.excludes@),
        views(r.ignores@) == views(opts.ignores@),
        r.quiet,
        !r.verbose,
        !r.status,
        r.skip_apple_double == opts.skip_apple_double,
        r.dry_run == opts.dry_run,
{
    ScanOptions {
        algo: opts.algo,
        follow_symlinks: opts.follow_symlinks,
        excludes: crate::manifest::copy_texts(&opts.excludes),
        ignores: crate::manifest::copy_texts(&opts.ignores),
        quiet: true,
        verbose: false,
        status: false,
        skip_apple_double: opts.skip_apple_double,
        dry_run: opts.dry_run,
    }
}

/// Where the search index is: in the directory of the environment, else in
/// `.hashit` in the home directory, else in the current directory.
pub open spec fn db_path_of(env: Option<Seq<char>>, home: Option<Seq<char>>) -> Seq<char> {
    match (env, home) {
        (Some(p), _) => joined_path(p, "index.db"@),
        (None, Some(h)) => joined_path(joined_path(h, ".hashit"@), "index.db"@),
        (None, None) => ".hashit-index.db"@,
    }
}

/// Where the search index is, from `$HASHIT_HOME` and `$HOME`.
pub fn default_db(env: Option<String>, home: Option<String>) -> (r: String)
    ensures
        r@ == db_path_of(opt_view(env), opt_view(home)),
{
    if let Some(p) = env {
        return join(p.as_str(), "index.db");
    }
    if let Some(h) = home {
        let d: String = join(h.as_str(), ".hashit");
        return join(d.as_str(), "index.db");
    }
    ".hashit-index.db".to_owned()
}

/// No text to ignore is empty.
pub proof fn law_no_empty_ignores(env: Option<Seq<char>>, cli: Seq<Seq<char>>, i: int)
    requires
        0 <= i < ignores_of(env, cli).len(),
    ensures
        ignores_of(env, cli)[i].len() > 0,
{
    let first = match env {
        Some(e) => solid_parts(pieces(e, '|')),
        None => Seq::empty(),
    };
    if let Some(e) = env {
        lemma_solid(pieces(e, '|'));
    }
    lemma_barred(cli);
    if i < first.len() {
        assert(first[i].len() > 0);
    } else {
        assert(barred_parts(cli)[i - first.len()].len() > 0);
    }
}

proof fn lemma_solid(parts: Seq<Seq<char>>)
    ensures
        forall|i: int| 0 <= i < solid_parts(parts).len() ==> (#[trigger] solid_parts(parts)[i]).len() > 0,
    decreases parts.len(),
{
    if parts.len() > 0 {
        let before = solid_parts(parts.drop_last());
        lemma_solid(parts.drop_last());
        assert forall|i: int| 0 <= i < solid_parts(parts).len() implies (#[trigger] solid_parts(
            parts,
        )[i]).len() > 0 by {
            if i < before.len() {
                assert(before[i].len() > 0);
            }
        }
    }
}

proof fn lemma_barred(texts: Seq<Seq<char>>)
    ensures
        forall|i: int|
            0 <= i < barred_parts(texts).len() ==> (#[trigger] barred_parts(texts)[i]).len() > 0,
    decreases texts.len(),
{
    if texts.len() > 0 {
        let init = barred_parts(texts.drop_last());
        let last = solid_parts(pieces(texts.last(), '|'));
        lemma_barred(texts.drop_last());
        lemma_solid(pieces(texts.last(), '|'));
        assert forall|i: int| 0 <= i < barred_parts(texts).len() implies (#[trigger] barred_parts(
            texts,
        )[i]).len() > 0 by {
            if i < init.len() {
                assert(init[i].len() > 0);
            } else {
                assert(last[i - init.len()].len() > 0);
            }
        }
    }
}

/// What is ignored is what stands between the bars of the environment's text and of the
/// texts of the command line, and is not empty; nothing else.
pub proof fn law_ignores_stand_between_bars(
    env: Option<Seq<char>>,
    cli: Seq<Seq<char>>,
    part: Seq<char>,
)
    requires
        part.len() > 0,
    ensures
        ignores_of(env, cli).contains(part) <==> (env is Some && pieces(env->0, '|').contains(part))
            || exists|i: int| 0 <= i < cli.len() && pieces(#[trigger] cli[i], '|').contains(part),
{
    let first = match env {
        Some(e) => solid_parts(pieces(e, '|')),
        None => Seq::empty(),
    };
    let rest = barred_parts(cli);
    let all = ignores_of(env, cli);
    assert(all =~= first + rest);
    if let Some(e) = env {
        lemma_solid_holds(pieces(e, '|'), part);
    }
    lemma_barred_holds(cli, part);
    if first.contains(part) {
        let k = choose|k: int| 0 <= k < first.len() && first[k] == part;
        assert(all[k] == part);
    }
    if rest.contains(part) {
        let k = choose|k: int| 0 <= k < rest.len() && rest[k] == part;
        assert(all[first.len() + k] == part);
    }
    if all.contains(part) {
        let k = choose|k: int| 0 <= k < all.len() && all[k] == part;
        if k < first.len() {
            assert(first[k] == part);
        } else {
            assert(rest[k - first.len()] == part);
        }
    }
}

proof fn lemma_solid_holds(parts: Seq<Seq<char>>, part: Seq<char>)
    requires
        part.len() > 0,
    ensures
        solid_parts(parts).contains(part) <==> parts.contains(part),
    decreases parts.len(),
{
    if parts.len() > 0 {
        let init = parts.drop_last();
        let (before, all) = (solid_parts(init), solid_parts(parts));
        lemma_solid_holds(init, part);
        if parts.contains(part) {
            let k = choose|k: int| 0 <= k < parts.len() && parts[k] == part;
            if k < init.len() {
                assert(init[k] == part);
                let x = choose|x: int| 0 <= x < before.len() && before[x] == part;
                assert(all[x] == part);
            } else {
                assert(all[before.len() as int] == part);
            }
        }
        if all.contains(part) {
            let x = choose|x: int| 0 <= x < all.len() && all[x] == part;
            if x < before.len() {
                assert(before[x] == part);
                let k = choose|k: int| 0 <= k < init.len() && init[k] == part;
                assert(parts[k] == part);
            } else {
                assert(parts[parts.len() - 1] == part);
            }
        }
    }
}

proof fn lemma_barred_holds(texts: Seq<Seq<char>>, part: Seq<char>)
    requires
        part.len() > 0,
    ensures
        barred_parts(texts).contains(part) <==> exists|i: int|
            0 <= i < texts.len() && pieces(#[trigger] texts[i], '|').contains(part),
    decreases texts.len(),
{
    if texts.len() > 0 {
        let init = texts.drop_last();
        let (before, last) = (barred_parts(init), solid_parts(pieces(texts.last(), '|')));
        let all = barred_parts(texts);
        lemma_barred_holds(init, part);
        lemma_solid_holds(pieces(texts.last(), '|'), part);
        if all.contains(part) {
            let x = choose|x: int| 0 <= x < all.len() && all[x] == part;
            if x < before.len() {
                assert(before[x] == part);
                let i = choose|i: int|
                    0 <= i < init.len() && pieces(#[trigger] init[i], '|').contains(part);
                assert(texts[i] == init[i]);
            } else {
                assert(last[x - before.len()] == part);
                assert(texts[texts.len() - 1] == texts.last());
            }
        }
        if exists|i: int| 0 <= i < texts.len() && pieces(#[trigger] texts[i], '|').contains(part) {
            let i = choose|i: int|
                0 <= i < texts.len() && pieces(#[trigger] texts[i], '|').contains(part);
            if i < init.len() {
                assert(init[i] == texts[i]);
                let x = choose|x: int| 0 <= x < before.len() && before[x] == part;
                assert(all[x] == part);
            } else {
                let x = choose|x: int| 0 <= x < last.len() && last[x] == part;
                assert(all[before.len() + x] == part);
            }
        }
    }
}

/// Flags become the options of the same meaning; sidecars are left out unless they are
/// asked for. They are refused exactly where an exclude is no pattern.
pub proof fn law_flags_become_options(
    c: &ScanFlags,
    env: &Option<String>,
    dry_run: bool,
    r: Result<ScanOptions, String>,
)
    requires
        call_ensures(build_options, (c, env, dry_run), r),
    ensures
        r is Err <==> first_invalid(views(c.excludes@)) is Some,
        r is Ok ==> {
            let o = r->Ok_0;
            &&& o.algo == c.algo
            &&& o.follow_symlinks == c.follow_symlinks
            &&& o.quiet == c.quiet
            &&& o.verbose == c.verbose
            &&& o.status == c.status
            &&& o.dry_run == dry_run
            &&& o.skip_apple_double != c.include_apple_double
            &&& views(o.excludes@) == views(c.excludes@)
            &&& views(o.ignores@) == ignores_of(opt_view(*env), views(c.ignores@))
        },
{
}

/// A refresh looks at the files that the scan looks at, and says nothing of them.
pub proof fn law_refresh_is_the_scan_without_words(opts: &ScanOptions, r: ScanOptions)
    requires
        call_ensures(refresh_opts, (opts,), r),
    ensures
        r.algo == opts.algo,
        r.follow_symlinks == opts.follow_symlinks,
        r.skip_apple_double == opts.skip_apple_double,
        r.dry_run == opts.dry_run,
        r.quiet && !r.verbose && !r.status,
        forall|path: Seq<char>, root: Seq<char>|
            #[trigger] r.skips(path, root) == opts.skips(path, root),
{
}

/// A file operation scans with the algorithm and the ignores that it is given, follows
/// no links, excludes nothing and leaves sidecars out.
pub proof fn law_file_operations_scan_plainly(
    hash: HashAlgo,
    quiet: bool,
    ignores: Vec<String>,
    r: ScanOptions,
)
    requires
        call_ensures(fileop_scan_opts, (hash, quiet, ignores), r),
    ensures
        r.algo == hash,
        r.quiet == quiet,
        r.ignores@ == ignores@,
        r.excludes@.len() == 0,
        r.skip_apple_double,
        !r.follow_symlinks && !r.verbose && !r.status && !r.dry_run,
{
}

/// The index lies in the directory that the environment names, else in `.hashit` of the
/// home directory, else beside the caller.
pub proof fn law_where_the_index_lies(env: Option<Seq<char>>, home: Option<Seq<char>>)
    ensures
        env is Some ==> db_path_of(env, home) == joined_path(env->0, "index.db"@),
        env is None && home is Some ==> db_path_of(env, home) == db_path_of(
            Some(joined_path(home->0, ".hashit"@)),
            None,
        ),
        env is None && home is None ==> db_path_of(env, home) == ".hashit-index.db"@,
{
}

} // verus!
