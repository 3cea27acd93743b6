//! What is read from files, once for each content.
use vstd::prelude::*;

use crate::meta::opt_view;
use crate::number::{decimal, i64_text, signed_decimal, u64_text, usize_text};
use crate::paths::{extension, extension_of};
use crate::store::{ContentMeta, MetaTag, TagView};
use crate::text::{
    concat3, join_all, joined, lemma_pieces_concat, lemma_pieces_of_plain, lowered, pieces, split_all,
    text_eq, to_lower, views,
};

verus! {

/// The version of the extraction, which stored data is compared with.
pub const EXTRACTOR_VERSION: i64 = 1;

/// How many bytes at the start of a file tell its type.
pub const HEADER_BYTES: usize = 65536;

/// The box that a thumbnail fits in; smaller images stay as they are.
pub const THUMB_GEOMETRY: &'static str = "512x512>";

/// The box that a preview fits in; smaller images stay as they are.
pub const PREVIEW_GEOMETRY: &'static str = "2048x2048>";

/// All that is read from a file.
#[derive(Clone, Debug)]
pub struct Extracted {
    pub file_type: Option<String>,
    pub ext: Option<String>,
    pub extractor_version: i64,
    pub tags: Vec<MetaTag>,
}

/// The part of a media type before its slash, the whole where it has none.
pub open spec fn category(mime: Seq<char>) -> Seq<char> {
    pieces(mime, '/')[0]
}

/// The category of a media type, where one is known.
pub open spec fn category_of(mime: Option<Seq<char>>) -> Option<Seq<char>> {
    match mime {
        Some(m) => Some(category(m)),
        None => None,
    }
}

/// The extension of a path in lower case.
pub open spec fn lower_ext(path: Seq<char>) -> Option<Seq<char>> {
    match extension_of(path) {
        Some(e) => Some(lowered(e)),
        None => None,
    }
}

/// The extension of a path in lower case.
pub fn file_ext(path: &str) -> (r: Option<String>)
    ensures
        opt_view(r) == lower_ext(path@),
{
    match extension(path) {
        Some(e) => Some(to_lower(e.as_str())),
        None => None,
    }
}

/// The category and the extension of a file, given the media type that its header
/// and its extension tell.
pub fn identify(path: &str, mime: Option<&str>) -> (r: (Option<String>, Option<String>))
    ensures
        opt_view(r.0) == category_of(
            match mime {
                Some(m) => Some(m@),
                None => None,
            },
        ),
        opt_view(r.1) == lower_ext(path@),
{
    let cat: Option<String> = match mime {
        Some(m) => {
            let parts: Vec<String> = split_all(m, '/');
            proof {
                crate::text::lemma_pieces_nonempty(m@, '/');
                assert(views(parts@)[0] == parts@[0]@);
            }
            Some(parts[0].clone())
        },
        None => None,
    };
    (cat, file_ext(path))
}

/// The file is an image.
pub open spec fn is_image_type(file_type: Option<Seq<char>>) -> bool {
    file_type == Some("image"@)
}

/// Whether a category is that of images.
pub fn is_image(file_type: &Option<String>) -> (r: bool)
    ensures
        r == is_image_type(opt_view(*file_type)),
{
    match file_type {
        Some(t) => text_eq(t.as_str(), "image"),
        None => false,
    }
}

/// What is read from a file: its type, and the tags of an image. Tags that cannot
/// be read are none.
pub fn extract_tags(path: &str, mime: Option<&str>, read: Option<Vec<MetaTag>>) -> (r: Extracted)
    ensures
        ({
            let ft = category_of(
                match mime {
                    Some(m) => Some(m@),
                    None => None,
                },
            );
            &&& opt_view(r.file_type) == ft
            &&& opt_view(r.ext) == lower_ext(path@)
            &&& r.extractor_version == EXTRACTOR_VERSION
            &&& r.tags@ == (match read {
                Some(t) => if is_image_type(ft) {
                    t@
                } else {
                    Seq::empty()
                },
                None => Seq::empty(),
            })
        }),
{
    let (file_type, ext): (Option<String>, Option<String>) = identify(path, mime);
    let tags: Vec<MetaTag> = if is_image(&file_type) {
        match read {
            Some(t) => t,
            None => Vec::new(),
        }
    } else {
        Vec::new()
    };
    Extracted { file_type, ext, extractor_version: EXTRACTOR_VERSION, tags }
}

/// All that is known of a content once its file was read: only images have tags and
/// a thumbnail.
pub fn extract_all(
    path: &str,
    size: u64,
    mime: Option<&str>,
    read: Option<Vec<MetaTag>>,
    made_thumb: bool,
) -> (r: ContentMeta)
    ensures
        ({
            let ft = category_of(
                match mime {
                    Some(m) => Some(m@),
                    None => None,
                },
            );
            &&& r.size == size
            &&& opt_view(r.file_type) == ft
            &&& opt_view(r.ext) == lower_ext(path@)
            &&& r.extractor_version == EXTRACTOR_VERSION
            &&& r.has_thumb == (is_image_type(ft) && made_thumb)
            &&& r.tags@ == (match read {
                Some(t) => if is_image_type(ft) {
                    t@
                } else {
                    Seq::empty()
                },
                None => Seq::empty(),
            })
        }),
{
    let ex: Extracted = extract_tags(path, mime, read);
    let image: bool = is_image(&ex.file_type);
    let Extracted { file_type, ext, extractor_version, tags } = ex;
    ContentMeta { size, file_type, ext, extractor_version, has_thumb: image && made_thumb, tags }
}

// ---- values ----------------------------------------------------------------

/// A raw value of a tag.
#[derive(Clone, Debug)]
pub enum TagValue {
    Text(String),
    Unsigned(Vec<u64>),
    Signed(Vec<i64>),
    /// Numbers that are already written out.
    Written(Vec<String>),
    Ratio(Vec<(i64, i64)>),
    /// A number of bytes.
    Bytes(usize),
}

/// What a raw value reads as.
pub open spec fn value_text(v: TagValue) -> Seq<char> {
    match v {
        TagValue::Text(s) => s@,
        TagValue::Unsigned(xs) => joined(xs@.map_values(|n: u64| decimal(n as nat)), " "@),
        TagValue::Signed(xs) => joined(xs@.map_values(|n: i64| signed_decimal(n as int)), " "@),
        TagValue::Written(xs) => joined(views(xs@), " "@),
        TagValue::Ratio(xs) => joined(
            xs@.map_values(
                |r: (i64, i64)| signed_decimal(r.0 as int) + "/"@ + signed_decimal(r.1 as int),
            ),
            " "@,
        ),
        TagValue::Bytes(n) => "["@ + decimal(n as nat) + " bytes]"@,
    }
}

/// Unsigned numbers with blanks between them.
fn join_unsigned(xs: &Vec<u64>) -> (r: String)
    ensures
        r@ == joined(xs@.map_values(|n: u64| decimal(n as nat)), " "@),
{
    let mut parts: Vec<String> = Vec::new();
    let mut i: usize = 0;
    while i < xs.len()
        invariant
            i <= xs@.len(),
            parts@.len() == i,
            forall|k: int| 0 <= k < i ==> (#[trigger] parts@[k])@ == decimal(xs@[k] as nat),
        decreases xs@.len() - i,
    {
        parts.push(u64_text(xs[i]));
        i += 1;
    }
    assert(views(parts@) =~= xs@.map_values(|n: u64| decimal(n as nat)));
    join_all(&parts, " ")
}

/// Signed numbers with blanks between them.
fn join_signed(xs: &Vec<i64>) -> (r: String)
    ensures
        r@ == joined(xs@.map_values(|n: i64| signed_decimal(n as int)), " "@),
{
    let mut parts: Vec<String> = Vec::new();
    let mut i: usize = 0;
    while i < xs.len()
        invariant
            i <= xs@.len(),
            parts@.len() == i,
            forall|k: int| 0 <= k < i ==> (#[trigger] parts@[k])@ == signed_decimal(xs@[k] as int),
        decreases xs@.len() - i,
    {
        parts.push(i64_text(xs[i]));
        i += 1;
    }
    assert(views(parts@) =~= xs@.map_values(|n: i64| signed_decimal(n as int)));
    join_all(&parts, " ")
}

/// Ratios with blanks between them.
fn join_ratios(xs: &Vec<(i64, i64)>) -> (r: String)
    ensures
        r@ == joined(
            xs@.map_values(
                |r: (i64, i64)| signed_decimal(r.0 as int) + "/"@ + signed_decimal(r.1 as int),
            ),
            " "@,
        ),
{
    let mut parts: Vec<String> = Vec::new();
    let mut i: usize = 0;
    while i < xs.len()
        invariant
            i <= xs@.len(),
            parts@.len() == i,
            forall|k: int|
                0 <= k < i ==> (#[trigger] parts@[k])@ == signed_decimal(xs@[k].0 as int) + "/"@
                    + signed_decimal(xs@[k].1 as int),
        decreases xs@.len() - i,
    {
        let (n, d): (i64, i64) = xs[i];
        parts.push(concat3(i64_text(n).as_str(), "/", i64_text(d).as_str()));
        i += 1;
    }
    assert(views(parts@) =~= xs@.map_values(
        |r: (i64, i64)| signed_decimal(r.0 as int) + "/"@ + signed_decimal(r.1 as int),
    ));
    join_all(&parts, " ")
}

/// What a raw value reads as.
pub fn render_value(v: &TagValue) -> (r: String)
    ensures
        r@ == value_text(*v),
{
    match v {
        TagValue::Text(s) => s.clone(),
        TagValue::Unsigned(xs) => join_unsigned(xs),
        TagValue::Signed(xs) => join_signed(xs),
        TagValue::Written(xs) => join_all(xs, " "),
        TagValue::Ratio(xs) => join_ratios(xs),
        TagValue::Bytes(n) => concat3("[", usize_text(*n).as_str(), " bytes]"),
    }
}

/// The tag of a value that was read: as it is printed, else as it reads raw.
pub fn make_tag(group: String, key: String, print: String, raw: &TagValue) -> (r: MetaTag)
    ensures
        r@ == (TagView {
            group: group@,
            key: key@,
            value: if print@.len() > 0 {
                print@
            } else {
                value_text(*raw)
            },
        }),
{
    let value: String = if print.as_str().is_empty() {
        render_value(raw)
    } else {
        print
    };
    MetaTag { group, key, value }
}

/// The type of a file is what stands before the slash of its media type.
pub proof fn law_type_is_the_start_of_the_media_type(kind: Seq<char>, sub: Seq<char>)
    requires
        !kind.contains('/'),
    ensures
        category(kind) == kind,
        category(kind + seq!['/'] + sub) == kind,
{
    lemma_pieces_of_plain(kind, '/');
    lemma_pieces_concat(kind, sub, '/');
    assert((pieces(kind, '/') + pieces(sub, '/'))[0] == kind);
}

/// What is known of a file: its type by its content, its extension in lower case by its
/// name, its tags and its thumbnail only where it is an image.
pub proof fn law_only_images_have_tags_and_thumbnails(
    path: &str,
    size: u64,
    mime: Option<&str>,
    read: Option<Vec<MetaTag>>,
    made_thumb: bool,
    r: ContentMeta,
    x: Extracted,
)
    requires
        call_ensures(extract_all, (path, size, mime, read, made_thumb), r),
        call_ensures(extract_tags, (path, mime, read), x),
    ensures
        r.size == size,
        mime is None ==> r.file_type is None && !r.has_thumb && r.tags@.len() == 0,
        mime matches Some(m) ==> opt_view(r.file_type) == Some(category(m@)),
        mime matches Some(m) ==> (category(m@) != "image"@ ==> !r.has_thumb && r.tags@.len() == 0),
        mime matches Some(m) ==> (category(m@) == "image"@ ==> r.has_thumb == made_thumb),
        mime matches Some(m) ==> (category(m@) == "image"@ && read is Some ==> r.tags@ == read->0@),
        read is None ==> r.tags@.len() == 0,
        opt_view(r.ext) == opt_view(x.ext),
        opt_view(r.file_type) == opt_view(x.file_type),
        r.tags@ == x.tags@,
        r.extractor_version == 1 && x.extractor_version == 1,
        extension_of(path@) is Some ==> opt_view(r.ext) == Some(lowered(extension_of(path@)->0)),
        extension_of(path@) is None ==> r.ext is None,
{
}

/// Numbers of a tag are written with a blank between each two, ratios with a slash, and
/// bytes as how many there are; a text is itself.
pub proof fn law_values_are_written_out(a: u64, b: u64, c: i64, d: i64, s: String)
    ensures
        forall|xs: Vec<u64>|
            xs@ == seq![a] ==> #[trigger] value_text(TagValue::Unsigned(xs)) == decimal(a as nat),
        forall|xs: Vec<u64>|
            xs@ == seq![a, b] ==> #[trigger] value_text(TagValue::Unsigned(xs)) == decimal(a as nat)
                + seq![' '] + decimal(b as nat),
        forall|xs: Vec<i64>|
            xs@ == seq![c, d] ==> #[trigger] value_text(TagValue::Signed(xs)) == signed_decimal(
                c as int,
            ) + seq![' '] + signed_decimal(d as int),
        forall|xs: Vec<(i64, i64)>|
            xs@ == seq![(c, d)] ==> #[trigger] value_text(TagValue::Ratio(xs)) == signed_decimal(
                c as int,
            ) + seq!['/'] + signed_decimal(d as int),
        value_text(TagValue::Text(s)) == s@,
{
    reveal_strlit(" ");
    reveal_strlit("/");
    assert(" "@ =~= seq![' ']);
    assert("/"@ =~= seq!['/']);
    reveal_with_fuel(joined, 3);
    assert forall|xs: Vec<u64>| xs@ == seq![a, b] implies #[trigger] value_text(
        TagValue::Unsigned(xs),
    ) == decimal(a as nat) + seq![' '] + decimal(b as nat) by {
        let parts = xs@.map_values(|n: u64| decimal(n as nat));
        assert(parts.drop_last() =~= seq![decimal(a as nat)]);
    }
    assert forall|xs: Vec<i64>| xs@ == seq![c, d] implies #[trigger] value_text(
        TagValue::Signed(xs),
    ) == signed_decimal(c as int) + seq![' '] + signed_decimal(d as int) by {
        let parts = xs@.map_values(|n: i64| signed_decimal(n as int));
        assert(parts.drop_last() =~= seq![signed_decimal(c as int)]);
    }
}

/// A tag has the value that is meant for people, or else the raw one.
pub proof fn law_printed_value_is_preferred(
    group: String,
    key: String,
    print: String,
    raw: &TagValue,
    r: MetaTag,
)
    requires
        call_ensures(make_tag, (group, key, print, raw), r),
    ensures
        r@.group == group@,
        r@.key == key@,
        print@.len() > 0 ==> r@.value == print@,
        print@.len() == 0 ==> r@.value == value_text(*raw),
{
}

/// A file is identified by the start of its media type, where one is known, and by its
/// extension in lower case, where it has one.
pub proof fn law_file_is_identified_by_type_and_extension(
    path: &str,
    mime: Option<&str>,
    r: (Option<String>, Option<String>),
)
    requires
        call_ensures(identify, (path, mime), r),
    ensures
        r.0 is Some <==> mime is Some,
        mime is Some && r.0 is Some ==> r.0->0@.len() <= mime->0@.len() && mime->0@.take(
            r.0->0@.len() as int,
        ) == r.0->0@ && !r.0->0@.contains('/') && (r.0->0@.len() < mime->0@.len()
            ==> mime->0@[r.0->0@.len() as int] == '/'),
        r.1 is Some <==> crate::paths::extension_of(path@) is Some,
        r.1 is Some ==> r.1->0@ == lowered(crate::paths::extension_of(path@)->0),
{
    if mime is Some {
        lemma_category(mime->0@);
    }
}

/// The first part of a media type is followed by a slash, or is all of it.
proof fn lemma_category(m: Seq<char>)
    ensures
        ({
            let k = category(m);
            &&& pieces(m, '/').len() > 0
            &&& pieces(m, '/').len() == 1 ==> k == m
            &&& pieces(m, '/').len() > 1 ==> k.len() < m.len() && m[k.len() as int] == '/'
            &&& k.len() <= m.len()
            &&& m.take(k.len() as int) == k
            &&& !k.contains('/')
        }),
    decreases m.len(),
{
    crate::text::lemma_pieces_nonempty(m, '/');
    crate::text::lemma_pieces_plain(m, '/', 0);
    if m.len() > 0 {
        let init = m.drop_last();
        lemma_category(init);
        let before = pieces(init, '/');
        if m.last() != '/' && before.len() == 1 {
            assert(before.drop_last() =~= Seq::<Seq<char>>::empty());
            assert(category(m) =~= m);
        } else {
            assert(category(m) == category(init));
        }
        assert(m.take(category(m).len() as int) =~= category(m));
    }
}

} // verus!
