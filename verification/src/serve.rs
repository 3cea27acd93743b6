//! What the HTTP service decides: who may ask, what a query asks for, and what kind of
//! content a file is served as.
use vstd::prelude::*;

use crate::paths::{extension, extension_of};
use crate::store::QueryFilter;
use crate::text::{
    chars_of, has_prefix, lowered, pieces, split_all, starts_with, text_between, text_eq, to_lower,
    views,
};

verus! {

/// What follows a prefix.
pub open spec fn after_prefix(s: Seq<char>, prefix: Seq<char>) -> Option<Seq<char>> {
    if has_prefix(s, prefix) {
        Some(s.skip(prefix.len() as int))
    } else {
        None
    }
}

fn strip_front(s: &str, prefix: &str) -> (r: Option<String>)
    ensures
        match r {
            Some(t) => after_prefix(s@, prefix@) == Some(t@),
            None => after_prefix(s@, prefix@) is None,
        },
{
    if !starts_with(s, prefix) {
        return None;
    }
    let c: Vec<char> = chars_of(s);
    let p: Vec<char> = chars_of(prefix);
    let t: String = text_between(&c, p.len(), c.len());
    assert(t@ =~= s@.skip(prefix@.len() as int));
    Some(t)
}

/// The first token of some parameters.
pub open spec fn first_token(params: Seq<Seq<char>>) -> Option<Seq<char>>
    decreases params.len(),
{
    if params.len() == 0 {
        None
    } else {
        match after_prefix(params[0], "token="@) {
            Some(t) => Some(t),
            None => first_token(params.skip(1)),
        }
    }
}

/// The token of a query string.
pub open spec fn query_token(query: Seq<char>) -> Option<Seq<char>> {
    first_token(pieces(query, '&'))
}

fn token_in(query: &str) -> (r: Option<String>)
    ensures
        match r {
            Some(t) => query_token(query@) == Some(t@),
            None => query_token(query@) is None,
        },
{
    let params: Vec<String> = split_all(query, '&');
    let ghost pv = views(params@);
    let mut i: usize = 0;
    assert(pv.skip(0) =~= pv);
    while i < params.len()
        invariant
            i <= params@.len(),
            pv == views(params@),
            pv == pieces(query@, '&'),
            first_token(pv) == first_token(pv.skip(i as int)),
        decreases params@.len() - i,
    {
        proof {
            assert(pv[i as int] == params@[i as int]@);
            assert(pv.skip(i as int)[0] == pv[i as int]);
            assert(pv.skip(i as int).skip(1) =~= pv.skip(i + 1));
        }
        if let Some(t) = strip_front(params[i].as_str(), "token=") {
            return Some(t);
        }
        i += 1;
    }
    None
}

/// A request may pass: no token is asked for, or it has the token behind `Bearer ` in
/// its header, or as the first token of its query string.
pub open spec fn may_pass(
    expected: Option<Seq<char>>,
    header: Option<Seq<char>>,
    query: Option<Seq<char>>,
) -> bool {
    match expected {
        None => true,
        Some(e) => (header is Some && after_prefix(header->0, "Bearer "@) == Some(e)) || (query
            is Some && query_token(query->0) == Some(e)),
    }
}

pub open spec fn str_view(s: Option<&str>) -> Option<Seq<char>> {
    match s {
        Some(t) => Some(t@),
        None => None,
    }
}

/// Whether a request may pass.
pub fn auth(expected: Option<&str>, header: Option<&str>, query: Option<&str>) -> (r: bool)
    ensures
        r == may_pass(str_view(expected), str_view(header), str_view(query)),
{
    let e: &str = match expected {
        Some(e) => e,
        None => return true,
    };
    if let Some(h) = header {
        if let Some(t) = strip_front(h, "Bearer ") {
            if text_eq(t.as_str(), e) {
                return true;
            }
        }
    }
    if let Some(q) = query {
        if let Some(t) = token_in(q) {
            if text_eq(t.as_str(), e) {
                return true;
            }
        }
    }
    false
}

/// The parameters of a query.
#[derive(Clone, Debug)]
pub struct QueryParams {
    pub file_type: Option<String>,
    pub ext: Option<String>,
    pub hash: Option<String>,
    pub drive: Option<String>,
    pub offline: bool,
    pub key: Option<String>,
    pub value: Option<String>,
    pub tag: Option<String>,
    pub favorite: bool,
    pub limit: Option<i64>,
    pub offset: Option<i64>,
}

/// The number of rows to send: a hundred unless asked otherwise, at least one and at
/// most a thousand.
pub open spec fn limit_of(asked: Option<i64>) -> i64 {
    match asked {
        None => 100,
        Some(n) => if n < 1 {
            1
        } else if n > 1000 {
            1000
        } else {
            n
        },
    }
}

/// The number of rows to leave out: none unless asked otherwise.
pub open spec fn offset_of(asked: Option<i64>) -> i64 {
    match asked {
        Some(n) if n > 0 => n,
        _ => 0,
    }
}

/// What the parameters of a query ask for.
pub fn query(p: QueryParams) -> (r: QueryFilter)
    ensures
        r.file_type == p.file_type,
        r.ext == p.ext,
        r.hash_prefix == p.hash,
        r.drive_id == p.drive,
        r.offline_only == p.offline,
        r.key == p.key,
        r.value == p.value,
        r.tag == p.tag,
        r.favorite == p.favorite,
        r.limit == limit_of(p.limit),
        r.offset == offset_of(p.offset),
        1 <= r.limit <= 1000,
        r.offset >= 0,
{
    let limit: i64 = match p.limit {
        None => 100,
        Some(n) => if n < 1 {
            1
        } else if n > 1000 {
            1000
        } else {
            n
        },
    };
    let mut offset: i64 = 0;
    if let Some(n) = p.offset {
        if n > 0 {
            offset = n;
        }
    }
    QueryFilter {
        file_type: p.file_type,
        ext: p.ext,
        hash_prefix: p.hash,
        drive_id: p.drive,
        offline_only: p.offline,
        key: p.key,
        value: p.value,
        tag: p.tag,
        favorite: p.favorite,
        limit,
        offset,
    }
}

/// The content type that goes with an extension in lower case.
pub open spec fn type_of_ext(ext: Seq<char>) -> Seq<char> {
    if ext == "jpg"@ || ext == "jpeg"@ {
        "image/jpeg"@
    } else if ext == "png"@ {
        "image/png"@
    } else if ext == "gif"@ {
        "image/gif"@
    } else if ext == "webp"@ {
        "image/webp"@
    } else if ext == "heic"@ {
        "image/heic"@
    } else if ext == "tif"@ || ext == "tiff"@ {
        "image/tiff"@
    } else if ext == "pdf"@ {
        "application/pdf"@
    } else if ext == "mp4"@ || ext == "mov"@ {
        "video/mp4"@
    } else if ext == "txt"@ {
        "text/plain; charset=utf-8"@
    } else if ext == "json"@ {
        "application/json"@
    } else {
        "application/octet-stream"@
    }
}

/// The content type that a file is served as.
pub open spec fn content_type_of(path: Seq<char>) -> Seq<char> {
    match extension_of(path) {
        Some(e) => type_of_ext(lowered(e)),
        None => "application/octet-stream"@,
    }
}

/// The content type that a file is served as, by its extension in any case.
pub fn content_type_for(path: &str) -> (r: &'static str)
    ensures
        r@ == content_type_of(path@),
{
    let ext: String = match extension(path) {
        Some(e) => to_lower(e.as_str()),
        None => return "application/octet-stream",
    };
    let e: &str = ext.as_str();
    if text_eq(e, "jpg") || text_eq(e, "jpeg") {
        "image/jpeg"
    } else if text_eq(e, "png") {
        "image/png"
    } else if text_eq(e, "gif") {
        "image/gif"
    } else if text_eq(e, "webp") {
        "image/webp"
    } else if text_eq(e, "heic") {
        "image/heic"
    } else if text_eq(e, "tif") || text_eq(e, "tiff") {
        "image/tiff"
    } else if text_eq(e, "pdf") {
        "application/pdf"
    } else if text_eq(e, "mp4") || text_eq(e, "mov") {
        "video/mp4"
    } else if text_eq(e, "txt") {
        "text/plain; charset=utf-8"
    } else if text_eq(e, "json") {
        "application/json"
    } else {
        "application/octet-stream"
    }
}

/// A request without a token, in its header or its query string, never passes where
/// one is asked for.
pub proof fn law_no_token_no_entry(
    expected: Seq<char>,
    header: Option<Seq<char>>,
    query: Option<Seq<char>>,
)
    requires
        header is Some ==> !has_prefix(header->0, "Bearer "@),
        query is Some ==> query_token(query->0) is None,
    ensures
        !may_pass(Some(expected), header, query),
{
}

/// A request with the token in its header passes whatever its query string is.
pub proof fn law_header_token_passes(expected: Seq<char>, query: Option<Seq<char>>)
    ensures
        may_pass(Some(expected), Some("Bearer "@ + expected), query),
{
    let h = "Bearer "@ + expected;
    assert(h.take("Bearer "@.len() as int) =~= "Bearer "@);
    assert(h.skip("Bearer "@.len() as int) =~= expected);
}

/// A request passes exactly where no token is asked for, or its header is `Bearer `
/// with the token, or the first `token=` among its parameters is that of the token.
pub proof fn law_only_the_token_passes(
    expected: Seq<char>,
    header: Option<Seq<char>>,
    query: Option<Seq<char>>,
)
    ensures
        may_pass(None, header, query),
        header == Some("Bearer "@ + expected) ==> may_pass(Some(expected), header, query),
        query is Some && query_token(query->0) == Some(expected) ==> may_pass(
            Some(expected),
            header,
            query,
        ),
        may_pass(Some(expected), header, query) ==> header == Some("Bearer "@ + expected) || (query
            is Some && query_token(query->0) == Some(expected)),
{
    law_header_token_passes(expected, query);
    if let Some(h) = header {
        let b = "Bearer "@;
        if after_prefix(h, b) == Some(expected) {
            assert(h =~= h.subrange(0, b.len() as int) + h.skip(b.len() as int));
        }
    }
}

/// The token of a query string is what stands behind `token=` in the first of its
/// parameters that starts so.
pub proof fn law_first_token_counts(
    before: Seq<Seq<char>>,
    token: Seq<char>,
    after: Seq<Seq<char>>,
)
    requires
        forall|i: int| 0 <= i < before.len() ==> !has_prefix(#[trigger] before[i], "token="@),
    ensures
        first_token(before) is None,
        first_token(before + seq!["token="@ + token] + after) == Some(token),
    decreases before.len(),
{
    let all = before + seq!["token="@ + token] + after;
    let t = "token="@;
    if before.len() == 0 {
        assert(all[0] == t + token);
        assert((t + token).subrange(0, t.len() as int) =~= t);
        assert((t + token).skip(t.len() as int) =~= token);
    } else {
        let less = before.skip(1);
        assert(all[0] == before[0]);
        assert(!has_prefix(before[0], t));
        assert(all.skip(1) =~= less + seq![t + token] + after);
        assert forall|i: int| 0 <= i < less.len() implies !has_prefix(#[trigger] less[i], t) by {
            assert(less[i] == before[i + 1]);
        }
        law_first_token_counts(less, token, after);
    }
}

/// A page has as many rows as asked for, from one to a thousand, and a hundred where
/// nothing is asked; it starts where asked for, and at the first row otherwise.
pub proof fn law_pages_are_bounded(n: i64)
    ensures
        limit_of(None) == 100,
        1 <= limit_of(Some(n)) <= 1000,
        1 <= n <= 1000 ==> limit_of(Some(n)) == n,
        n < 1 ==> limit_of(Some(n)) == 1,
        n > 1000 ==> limit_of(Some(n)) == 1000,
        offset_of(None) == 0,
        n >= 0 ==> offset_of(Some(n)) == n,
        n < 0 ==> offset_of(Some(n)) == 0,
{
}

/// A request is handed on as it is, each of its parameters under its own name.
pub proof fn law_request_is_handed_on(p: QueryParams, r: QueryFilter)
    requires
        call_ensures(query, (p,), r),
    ensures
        r.file_type == p.file_type,
        r.ext == p.ext,
        r.hash_prefix == p.hash,
        r.drive_id == p.drive,
        r.offline_only == p.offline,
        r.key == p.key,
        r.value == p.value,
        r.tag == p.tag,
        r.favorite == p.favorite,
        p.limit is None ==> r.limit == 100,
        p.limit matches Some(n) ==> (1 <= n <= 1000 ==> r.limit == n) && 1 <= r.limit <= 1000,
        p.offset matches Some(n) ==> (n >= 0 ==> r.offset == n) && r.offset >= 0,
{
}

/// What files are served as, by their extensions.
pub proof fn law_content_types(ext: Seq<char>)
    ensures
        ext == "jpg"@ || ext == "jpeg"@ ==> type_of_ext(ext) == "image/jpeg"@,
        ext == "png"@ ==> type_of_ext(ext) == "image/png"@,
        ext == "gif"@ ==> type_of_ext(ext) == "image/gif"@,
        ext == "webp"@ ==> type_of_ext(ext) == "image/webp"@,
        ext == "heic"@ ==> type_of_ext(ext) == "image/heic"@,
        ext == "tif"@ || ext == "tiff"@ ==> type_of_ext(ext) == "image/tiff"@,
        ext == "pdf"@ ==> type_of_ext(ext) == "application/pdf"@,
        ext == "mp4"@ || ext == "mov"@ ==> type_of_ext(ext) == "video/mp4"@,
        ext == "txt"@ ==> type_of_ext(ext) == "text/plain; charset=utf-8"@,
        ext == "json"@ ==> type_of_ext(ext) == "application/json"@,
        type_of_ext(ext) == "application/octet-stream"@ || ext == "jpg"@ || ext == "jpeg"@ || ext
            == "png"@ || ext == "gif"@ || ext == "webp"@ || ext == "heic"@ || ext == "tif"@ || ext
            == "tiff"@ || ext == "pdf"@ || ext == "mp4"@ || ext == "mov"@ || ext == "txt"@ || ext
            == "json"@,
{
    reveal_strlit("jpg");
    reveal_strlit("jpeg");
    reveal_strlit("png");
    reveal_strlit("gif");
    reveal_strlit("webp");
    reveal_strlit("heic");
    reveal_strlit("tif");
    reveal_strlit("tiff");
    reveal_strlit("pdf");
    reveal_strlit("mp4");
    reveal_strlit("mov");
    reveal_strlit("txt");
    reveal_strlit("json");
    assert("jpg"@[0] == 'j' && "jpeg"@[1] == 'p' && "png"@[0] == 'p' && "png"@[1] == 'n'
        && "gif"@[0] == 'g' && "webp"@[0] == 'w' && "heic"@[0] == 'h' && "tif"@[0] == 't'
        && "tif"@[1] == 'i' && "pdf"@[0] == 'p' && "pdf"@[1] == 'd' && "mp4"@[0] == 'm'
        && "mp4"@[1] == 'p' && "mov"@[1] == 'o' && "txt"@[0] == 't' && "txt"@[1] == 'x'
        && "json"@[0] == 'j' && "json"@[1] == 's' && "tiff"@[1] == 'i' && "jpeg"@[0] == 'j'
        && "tiff"@[0] == 't' && "mov"@[0] == 'm');
}

/// The case of an extension does not count, and a file without one is plain bytes.
pub proof fn law_content_type_in_any_case(a: Seq<char>, b: Seq<char>)
    ensures
        extension_of(a) is None ==> content_type_of(a) == "application/octet-stream"@,
        extension_of(a) is Some && extension_of(b) is Some && lowered(extension_of(a)->0)
            == lowered(extension_of(b)->0) ==> content_type_of(a) == content_type_of(b),
        extension_of(a) is Some && lowered(extension_of(a)->0) == extension_of(a)->0
            ==> content_type_of(a) == type_of_ext(extension_of(a)->0),
{
}

/// Where no token is asked for every request passes; where one is, only one that has it
/// in its header or its query string.
pub proof fn law_requests_need_the_token(
    expected: Option<&str>,
    header: Option<&str>,
    query: Option<&str>,
    r: bool,
)
    requires
        call_ensures(auth, (expected, header, query), r),
    ensures
        expected is None ==> r,
        expected is Some && header is None && query is None ==> !r,
        expected is Some && header is Some && header->0@ == "Bearer "@ + expected->0@ ==> r,
        expected is Some && r ==> (header is Some && header->0@ == "Bearer "@ + expected->0@) || (
        query is Some && query_token(query->0@) == Some(expected->0@)),
{
    if let Some(e) = expected {
        law_only_the_token_passes(e@, str_view(header), str_view(query));
    }
}

} // verus!
