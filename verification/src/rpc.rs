//! What the file operation service decides, apart from the operations themselves.
use vstd::prelude::*;

use crate::fileops::OpOptions;
use crate::hash::HashAlgo;
use crate::manifest::copy_texts;
use crate::metacmd::MetaView;
use crate::number::{decimal, usize_text};
use crate::options::fileop_scan_opts;
use crate::scan::ScanOptions;
use crate::search::{or_empty, text_or_empty};
use crate::text::{concat3, views};
use crate::textmap::TextMap;

verus! {

/// What the service is started with.
#[derive(Clone, Debug)]
pub struct ServeConfig {
    pub meta_folder: String,
    pub algo: HashAlgo,
}

impl ServeConfig {
    /// The options of the scans that the operations make.
    pub fn scan_opts(&self) -> (r: ScanOptions)
        ensures
            r.algo == self.algo,
            r.quiet,
            !r.follow_symlinks,
            r.excludes@.len() == 0,
            r.ignores@.len() == 0,
            !r.verbose,
            !r.status,
            r.skip_apple_double,
            !r.dry_run,
    {
        fileop_scan_opts(self.algo, true, Vec::new())
    }
}

/// The paths of a request.
pub fn paths(strings: &Vec<String>) -> (r: Vec<String>)
    ensures
        views(r@) == views(strings@),
{
    copy_texts(strings)
}

/// An operation that a client asks for.
#[derive(Clone, Debug)]
pub enum OpRequest {
    Cp { sources: Vec<String>, dest: String, recursive: bool, force: bool },
    Mv { sources: Vec<String>, dest: String, force: bool },
    Rm { paths: Vec<String>, recursive: bool, force: bool },
}

/// How to run an operation, and what to answer when it is done.
#[derive(Debug)]
pub struct OpPlan {
    pub paths: Vec<String>,
    pub recursive: bool,
    pub force: bool,
    pub message: String,
}

impl OpPlan {
    /// The options of the operation.
    pub fn options(&self) -> (r: OpOptions)
        ensures
            r.recursive == self.recursive,
            r.force == self.force,
            r.quiet,
    {
        OpOptions { recursive: self.recursive, force: self.force, quiet: true }
    }
}

/// What to answer when files were copied or moved.
pub open spec fn done_text(verb: Seq<char>, n: nat, dest: Seq<char>) -> Seq<char> {
    verb + decimal(n) + " item(s) to "@ + dest
}

/// What to answer when files were removed.
pub open spec fn removed_text(n: nat) -> Seq<char> {
    "removed "@ + decimal(n) + " path(s)"@
}

/// The request names something to copy or to move, or asks to remove.
pub open spec fn names_sources(r: OpRequest) -> bool {
    match r {
        OpRequest::Cp { sources, .. } => sources@.len() > 0,
        OpRequest::Mv { sources, .. } => sources@.len() > 0,
        OpRequest::Rm { .. } => true,
    }
}

/// The plan for a request: the destination follows the sources, and a move takes
/// directories whole.
pub open spec fn is_plan(p: OpPlan, r: OpRequest) -> bool {
    match r {
        OpRequest::Cp { sources, dest, recursive, force } => {
            &&& views(p.paths@) == views(sources@).push(dest@)
            &&& p.recursive == recursive
            &&& p.force == force
            &&& p.message@ == done_text("copied "@, sources@.len(), dest@)
        },
        OpRequest::Mv { sources, dest, force } => {
            &&& views(p.paths@) == views(sources@).push(dest@)
            &&& p.recursive
            &&& p.force == force
            &&& p.message@ == done_text("moved "@, sources@.len(), dest@)
        },
        OpRequest::Rm { paths, recursive, force } => {
            &&& views(p.paths@) == views(paths@)
            &&& p.recursive == recursive
            &&& p.force == force
            &&& p.message@ == removed_text(paths@.len())
        },
    }
}

fn with_dest(sources: &Vec<String>, dest: &String) -> (r: Vec<String>)
    ensures
        views(r@) == views(sources@).push(dest@),
{
    let mut p: Vec<String> = paths(sources);
    let ghost before = p@;
    p.push(dest.clone());
    assert(views(p@) =~= views(before).push(dest@));
    p
}

fn done_message(verb: &str, n: usize, dest: &str) -> (r: String)
    ensures
        r@ == done_text(verb@, n as nat, dest@),
{
    let mut out: String = concat3(verb, usize_text(n).as_str(), " item(s) to ");
    out.append(dest);
    out
}

/// How to run an operation, or what to refuse it with.
pub fn plan_op(r: &OpRequest) -> (p: Result<OpPlan, &'static str>)
    ensures
        match p {
            Ok(p) => names_sources(*r) && is_plan(p, *r),
            Err(e) => !names_sources(*r) && e@ == "no sources given"@,
        },
{
    match r {
        OpRequest::Cp { sources, dest, recursive, force } => {
            if sources.len() == 0 {
                return Err("no sources given");
            }
            Ok(
                OpPlan {
                    paths: with_dest(sources, dest),
                    recursive: *recursive,
                    force: *force,
                    message: done_message("copied ", sources.len(), dest.as_str()),
                },
            )
        },
        OpRequest::Mv { sources, dest, force } => {
            if sources.len() == 0 {
                return Err("no sources given");
            }
            Ok(
                OpPlan {
                    paths: with_dest(sources, dest),
                    recursive: true,
                    force: *force,
                    message: done_message("moved ", sources.len(), dest.as_str()),
                },
            )
        },
        OpRequest::Rm { paths: list, recursive, force } => Ok(
            OpPlan {
                paths: paths(list),
                recursive: *recursive,
                force: *force,
                message: concat3("removed ", usize_text(list.len()).as_str(), " path(s)"),
            },
        ),
    }
}

/// What to answer when the metadata of some contents was changed.
pub fn updated_message(n: usize) -> (r: String)
    ensures
        r@ == "updated "@ + decimal(n as nat) + " hash(es)"@,
{
    concat3("updated ", usize_text(n).as_str(), " hash(es)")
}

/// The metadata of one path, as a response has it: empty texts and zero stand for
/// what is not known.
#[derive(Debug)]
pub struct MetaEntry {
    pub path: String,
    pub error: String,
    pub hash: String,
    pub algo: String,
    pub size: u64,
    pub file_type: String,
    pub ext: String,
    pub tags: TextMap<String>,
    pub properties: TextMap<String>,
    pub thumbnail: String,
    pub preview: String,
}

/// The metadata of one path as a response has it.
pub fn view_to_entry(v: MetaView) -> (r: MetaEntry)
    ensures
        r.path == v.path,
        r.error@ == text_or_empty(v.error),
        r.hash@ == text_or_empty(v.hash),
        r.algo@ == text_or_empty(v.algo),
        r.size == (match v.size {
            Some(n) => n,
            None => 0,
        }),
        r.file_type@ == text_or_empty(v.file_type),
        r.ext@ == text_or_empty(v.ext),
        r.tags == v.tags,
        r.properties == v.properties,
        r.thumbnail@ == text_or_empty(v.thumbnail),
        r.preview@ == text_or_empty(v.preview),
{
    MetaEntry {
        error: or_empty(&v.error),
        hash: or_empty(&v.hash),
        algo: or_empty(&v.algo),
        size: match v.size {
            Some(n) => n,
            None => 0,
        },
        file_type: or_empty(&v.file_type),
        ext: or_empty(&v.ext),
        thumbnail: or_empty(&v.thumbnail),
        preview: or_empty(&v.preview),
        path: v.path,
        tags: v.tags,
        properties: v.properties,
    }
}

/// A request is run as it is asked for: a copy and a move on its sources and then its
/// destination, a removal on its paths; a move takes directories whole. Without sources
/// there is nothing to copy or move.
pub proof fn law_requests_run_as_asked(r: &OpRequest, p: Result<OpPlan, &'static str>)
    requires
        call_ensures(plan_op, (r,), p),
    ensures
        *r matches OpRequest::Cp { sources, dest, recursive, force } ==> {
            &&& p is Ok <==> sources@.len() > 0
            &&& p is Ok ==> {
                &&& p->Ok_0.paths@.len() == sources@.len() + 1
                &&& p->Ok_0.paths@.last()@ == dest@
                &&& forall|i: int|
                    0 <= i < sources@.len() ==> (#[trigger] p->Ok_0.paths@[i])@ == sources@[i]@
                &&& p->Ok_0.recursive == recursive
                &&& p->Ok_0.force == force
            }
        },
        *r matches OpRequest::Mv { sources, dest, force } ==> {
            &&& p is Ok <==> sources@.len() > 0
            &&& p is Ok ==> {
                &&& p->Ok_0.paths@.len() == sources@.len() + 1
                &&& p->Ok_0.paths@.last()@ == dest@
                &&& forall|i: int|
                    0 <= i < sources@.len() ==> (#[trigger] p->Ok_0.paths@[i])@ == sources@[i]@
                &&& p->Ok_0.recursive
                &&& p->Ok_0.force == force
            }
        },
        *r matches OpRequest::Rm { paths, recursive, force } ==> {
            &&& p is Ok
            &&& p->Ok_0.paths@.len() == paths@.len()
            &&& forall|i: int|
                0 <= i < paths@.len() ==> (#[trigger] p->Ok_0.paths@[i])@ == paths@[i]@
            &&& p->Ok_0.recursive == recursive
            &&& p->Ok_0.force == force
        },
{
    if p is Ok {
        let all = views(p->Ok_0.paths@);
        assert(all.len() == p->Ok_0.paths@.len());
        assert forall|i: int| 0 <= i < all.len() implies (#[trigger] p->Ok_0.paths@[i])@ == all[i] by {}
        match *r {
            OpRequest::Cp { sources, dest, .. } => {
                assert(views(sources@).len() == sources@.len());
                assert(all[sources@.len() as int] == dest@);
                assert forall|i: int| 0 <= i < sources@.len() implies (
                #[trigger] p->Ok_0.paths@[i])@ == sources@[i]@ by {
                    assert(all[i] == views(sources@)[i]);
                }
            },
            OpRequest::Mv { sources, dest, .. } => {
                assert(views(sources@).len() == sources@.len());
                assert(all[sources@.len() as int] == dest@);
                assert forall|i: int| 0 <= i < sources@.len() implies (
                #[trigger] p->Ok_0.paths@[i])@ == sources@[i]@ by {
                    assert(all[i] == views(sources@)[i]);
                }
            },
            OpRequest::Rm { paths, .. } => {
                assert(views(paths@).len() == paths@.len());
                assert forall|i: int| 0 <= i < paths@.len() implies (
                #[trigger] p->Ok_0.paths@[i])@ == paths@[i]@ by {
                    assert(all[i] == views(paths@)[i]);
                }
            },
        }
    }
}

/// An answer says how many it was for: sources copied or moved and where to, or paths
/// removed.
pub proof fn law_answers_count_what_was_asked(r: &OpRequest, p: Result<OpPlan, &'static str>)
    requires
        call_ensures(plan_op, (r,), p),
        p is Ok,
    ensures
        *r matches OpRequest::Cp { sources, dest, .. } ==> p->Ok_0.message@ == "copied "@ + decimal(
            sources@.len(),
        ) + " item(s) to "@ + dest@,
        *r matches OpRequest::Mv { sources, dest, .. } ==> p->Ok_0.message@ == "moved "@ + decimal(
            sources@.len(),
        ) + " item(s) to "@ + dest@,
        *r matches OpRequest::Rm { paths, .. } ==> p->Ok_0.message@ == "removed "@ + decimal(
            paths@.len(),
        ) + " path(s)"@,
{
}

/// The metadata of a path is answered field by field, with nothing for what is missing.
pub proof fn law_metadata_is_answered_by_fields(v: MetaView, r: MetaEntry)
    requires
        call_ensures(view_to_entry, (v,), r),
    ensures
        r.path@ == v.path@,
        r.tags@ == v.tags@,
        r.properties@ == v.properties@,
        v.hash is Some ==> r.hash@ == v.hash->0@,
        v.algo is Some ==> r.algo@ == v.algo->0@,
        v.size is Some ==> r.size == v.size->0,
        v.file_type is Some ==> r.file_type@ == v.file_type->0@,
        v.ext is Some ==> r.ext@ == v.ext->0@,
        v.error is Some ==> r.error@ == v.error->0@,
        v.thumbnail is Some ==> r.thumbnail@ == v.thumbnail->0@,
        v.preview is Some ==> r.preview@ == v.preview->0@,
        v.hash is None ==> r.hash@.len() == 0,
        v.size is None ==> r.size == 0,
        v.error is None ==> r.error@.len() == 0,
        v.thumbnail is None ==> r.thumbnail@.len() == 0,
        v.preview is None ==> r.preview@.len() == 0,
{
}

} // verus!
