//! Preview pane content: text head, images, thumbnails or plain metadata.

use crate::dates::{human_date, shows_date};
use crate::doctext::{extension_of_path, is_document, path_extension, DOCUMENT_FORMATS};
use crate::media::{is_media, summary_parts, InfoView, MediaInfo, MEDIA};
use crate::search::{Hit, HitView};
use crate::text::{join, listed, lower_all, lower_text, occurs, occurs_at, texts};
use crate::thumbnail::Thumbnail;
use crate::util::{
    bytes, human_size, is_image_ext, is_texty, lower_extension, size_text, CODE, PLAIN_TEXT,
    SHOWN_IMAGES,
};
use vstd::prelude::*;
use vstd::string::*;
use vstd::utf8::*;

verus! {

/// Bytes of text that are shown.
pub const TEXT_PREVIEW_BYTES: usize = 131_072;

/// Bytes of the largest image that is shown.
pub const IMAGE_PREVIEW_MAX: u64 = 31_457_280;

/// Bytes of the largest document that text is extracted from.
pub const DOC_PREVIEW_MAX: u64 = 8_388_608;

/// Leading bytes that must not hold a NUL in a text.
pub const BINARY_CHECK: usize = 4096;

pub const MARKDOWN: [&'static str; 2] = ["md", "markdown"];

pub enum PreviewContent {
    Empty,
    Text { text: String, truncated: bool },
    Markdown { text: String, truncated: bool },
    /// Image bytes, decoded where they are shown.
    Image { uri: String, bytes: Vec<u8> },
    /// Decoded pixels from the thumbnail provider (video frames etc).
    Thumbnail { uri: String, width: u32, height: u32, rgba: Vec<u8>, caption: String },
    Info(String),
}

pub enum PreviewView {
    Empty,
    Text { text: Seq<char>, truncated: bool },
    Markdown { text: Seq<char>, truncated: bool },
    Image { uri: Seq<char>, bytes: Seq<u8> },
    Thumbnail { uri: Seq<char>, width: u32, height: u32, rgba: Seq<u8>, caption: Seq<char> },
    Info(Seq<char>),
}

impl View for PreviewContent {
    type V = PreviewView;

    open spec fn view(&self) -> PreviewView {
        match self {
            PreviewContent::Empty => PreviewView::Empty,
            PreviewContent::Text { text, truncated } => PreviewView::Text {
                text: text@,
                truncated: *truncated,
            },
            PreviewContent::Markdown { text, truncated } => PreviewView::Markdown {
                text: text@,
                truncated: *truncated,
            },
            PreviewContent::Image { uri, bytes } => PreviewView::Image { uri: uri@, bytes: bytes@ },
            PreviewContent::Thumbnail { uri, width, height, rgba, caption } => {
                PreviewView::Thumbnail {
                    uri: uri@,
                    width: *width,
                    height: *height,
                    rgba: rgba@,
                    caption: caption@,
                }
            },
            PreviewContent::Info(text) => PreviewView::Info(text@),
        }
    }
}

// ---------------------------------------------------------------------------
// Text
// ---------------------------------------------------------------------------

/// The text that `String::from_utf8_lossy` makes of bytes.
pub uninterp spec fn lossy_text(bytes: Seq<u8>) -> Seq<char>;

/// `String::from_utf8_lossy` decodes UTF-8, with a replacement character for what
/// is not valid. What is valid decodes to its text.
#[verifier::external_body]
fn from_utf8_lossy(bytes: &[u8]) -> (r: String)
    ensures
        r@ == lossy_text(bytes@),
        valid_utf8(bytes@) ==> r@ == decode_utf8(bytes@),
{
    String::from_utf8_lossy(bytes).into_owned()
}

/// The longest prefix of a text that takes at most `max` bytes.
pub open spec fn fitting(s: Seq<char>, max: nat) -> Seq<char>
    decreases s.len(),
{
    if s.len() == 0 || bytes(s).len() <= max {
        s
    } else {
        fitting(s.drop_last(), max)
    }
}

/// The bytes that a character takes.
fn width_of(c: char) -> (r: usize)
    ensures
        r == encode_scalar(c as u32).len(),
        1 <= r <= 4,
{
    proof {
        char_is_scalar(c);
    }
    let n = c as u32;
    if n < 0x80 {
        1
    } else if n < 0x800 {
        2
    } else if n < 0x10000 {
        3
    } else {
        4
    }
}

proof fn lemma_bytes_push(s: Seq<char>, c: char)
    ensures
        bytes(s.push(c)) == bytes(s) + encode_scalar(c as u32),
    decreases s.len(),
{
    let all = s.push(c);
    if s.len() == 0 {
        assert(all.drop_first() =~= Seq::<char>::empty());
        assert(encode_utf8(all.drop_first()) =~= Seq::<u8>::empty());
        assert(bytes(all) =~= bytes(s) + encode_scalar(c as u32));
    } else {
        lemma_bytes_push(s.drop_first(), c);
        assert(all.drop_first() =~= s.drop_first().push(c));
        assert(all[0] == s[0]);
        assert(bytes(all) =~= bytes(s) + encode_scalar(c as u32));
    }
}

proof fn lemma_bytes_grow(s: Seq<char>, k: int, j: int)
    requires
        0 <= k <= j <= s.len(),
    ensures
        bytes(s.take(k)).len() <= bytes(s.take(j)).len(),
    decreases j - k,
{
    if k < j {
        lemma_bytes_grow(s, k, j - 1);
        assert(s.take(j) =~= s.take(j - 1).push(s[j - 1]));
        lemma_bytes_push(s.take(j - 1), s[j - 1]);
    }
}

proof fn lemma_fitting(s: Seq<char>, k: int, j: int, max: nat)
    requires
        0 <= k <= j <= s.len(),
        bytes(s.take(k)).len() <= max,
        k < s.len() ==> bytes(s.take(k + 1)).len() > max,
    ensures
        fitting(s.take(j), max) == s.take(k),
    decreases j - k,
{
    if k < j {
        lemma_bytes_grow(s, k + 1, j);
        lemma_fitting(s, k, j - 1, max);
        assert(s.take(j).drop_last() =~= s.take(j - 1));
    }
}

/// Cuts a text to at most `max` bytes, at the end of a character; says whether
/// anything was cut off.
pub fn truncate_text(text: String, max: usize) -> (r: (String, bool))
    ensures
        r.0@ == fitting(text@, max as nat),
        r.1 == (bytes(text@).len() > max),
{
    let mut kept = String::new();
    let mut used: usize = 0;
    assert(bytes(text@.take(0)).len() == 0);
    for c in it: text.as_str().chars()
        invariant
            it.seq() == text@,
            kept@ == text@.take(it.index() as int),
            used == bytes(kept@).len(),
            used <= max,
    {
        let ghost n = it.index() as int;
        proof {
            assert(text@.take(n + 1) =~= text@.take(n).push(c));
            lemma_bytes_push(text@.take(n), c);
        }
        let w: usize = width_of(c);
        if w > max - used {
            proof {
                lemma_fitting(text@, n, text@.len() as int, max as nat);
                assert(text@.take(text@.len() as int) =~= text@);
                lemma_bytes_grow(text@, n + 1, text@.len() as int);
            }
            return (kept, true);
        }
        kept.push(c);
        used = used + w;
    }
    assert(text@.take(text@.len() as int) =~= text@);
    (kept, false)
}

/// Whether bytes look binary: one of the first is a NUL.
pub open spec fn looks_binary(b: Seq<u8>) -> bool {
    exists|i: int| 0 <= i < b.len() && i < BINARY_CHECK && #[trigger] b[i] == 0
}

/// Whether bytes look binary.
pub fn is_binary(b: &[u8]) -> (r: bool)
    ensures
        r == looks_binary(b@),
{
    let n: usize = if b.len() < BINARY_CHECK {
        b.len()
    } else {
        BINARY_CHECK
    };
    for i in 0..n
        invariant
            n <= b@.len(),
            n == b@.len() || n == BINARY_CHECK,
            n <= BINARY_CHECK,
            forall|j: int| 0 <= j < i ==> b@[j] != 0,
    {
        if b[i] == 0 {
            return true;
        }
    }
    false
}

/// What is shown of the head of a file, which was read to one byte more than is
/// shown at most: its bytes, and whether there are more.
pub fn read_head(read: Vec<u8>) -> (r: (Vec<u8>, bool))
    ensures
        r.0@ == (if read@.len() > TEXT_PREVIEW_BYTES {
            read@.take(TEXT_PREVIEW_BYTES as int)
        } else {
            read@
        }),
        r.1 == (read@.len() > TEXT_PREVIEW_BYTES),
{
    let truncated = read.len() > TEXT_PREVIEW_BYTES;
    let mut kept = read;
    if truncated {
        kept.truncate(TEXT_PREVIEW_BYTES);
    }
    (kept, truncated)
}

/// Whether a name is that of a Markdown file.
pub open spec fn markdown_name(name: Seq<char>) -> bool {
    path_extension(name) matches Some(e) && texts(MARKDOWN@).contains(lower_all(e))
}

pub fn is_markdown(name: &str) -> (r: bool)
    ensures
        r == markdown_name(name@),
{
    match extension_of_path(name) {
        Some(e) => {
            let low = lower_text(e.as_str());
            listed(&MARKDOWN, low.as_str())
        },
        None => false,
    }
}

// ---------------------------------------------------------------------------
// Captions
// ---------------------------------------------------------------------------

/// The path of a file, its size and its date.
pub open spec fn caption_text(h: HitView, date: Seq<char>) -> Seq<char> {
    h.path + "\n"@ + size_text(h.size as nat) + " \u{2022} "@ + date
}

/// What is shown of a folder.
pub open spec fn folder_text(h: HitView, date: Seq<char>) -> Seq<char> {
    "Folder\n\n"@ + h.path + "\nModified: "@ + date
}

/// What is shown of a file that cannot be previewed.
pub open spec fn info_text(h: HitView, date: Seq<char>) -> Seq<char> {
    h.path + "\n\nSize: "@ + size_text(h.size as nat) + "\nModified: "@ + date
        + "\n\nNo preview available for this file type."@
}

/// What is shown of a media file.
pub open spec fn media_text(h: HitView, info: InfoView, date: Seq<char>) -> Seq<char> {
    let head = if info.duration_secs is None && info.width is None && info.format is None {
        Seq::empty()
    } else {
        join(summary_parts(info), "  \u{2022}  "@) + "\n"@
    };
    head + caption_text(h, date) + "\n\nDouble-click to play in your default player."@
}

fn caption(hit: &Hit, date: &str) -> (r: String)
    ensures
        r@ == caption_text(hit@, date@),
{
    let mut r = hit.path.clone();
    r.append("\n");
    let size = human_size(hit.size);
    r.append(size.as_str());
    r.append(" \u{2022} ");
    r.append(date);
    r
}

fn folder_info(hit: &Hit, date: &str) -> (r: String)
    ensures
        r@ == folder_text(hit@, date@),
{
    let mut r = "Folder\n\n".to_owned();
    r.append(hit.path.as_str());
    r.append("\nModified: ");
    r.append(date);
    r
}

fn file_info(hit: &Hit, date: &str) -> (r: String)
    ensures
        r@ == info_text(hit@, date@),
{
    let mut r = hit.path.clone();
    r.append("\n\nSize: ");
    let size = human_size(hit.size);
    r.append(size.as_str());
    r.append("\nModified: ");
    r.append(date);
    r.append("\n\nNo preview available for this file type.");
    r
}

fn media_caption(hit: &Hit, info: &MediaInfo, date: &str) -> (r: String)
    ensures
        r@ == media_text(hit@, info@, date@),
{
    let mut r = String::new();
    if !info.is_empty() {
        let summary = info.summary();
        r.append(summary.as_str());
        r.append("\n");
        assert(r@ =~= join(summary_parts(info@), "  \u{2022}  "@) + "\n"@);
    }
    let about = caption(hit, date);
    r.append(about.as_str());
    r.append("\n\nDouble-click to play in your default player.");
    r
}

// ---------------------------------------------------------------------------
// Loading
// ---------------------------------------------------------------------------

/// What has to be read before a preview can be made.
#[derive(Clone, Copy, Debug, PartialEq, Eq, Structural)]
pub enum Needed {
    Nothing,
    /// The bytes of an image.
    Bytes,
    /// What a media file says of itself.
    Media,
    /// The text of a document.
    Document,
    /// The first bytes of a text.
    Head,
}

/// What was read for a preview.
pub struct Found {
    /// The bytes of an image.
    pub bytes: Option<Vec<u8>>,
    pub media: MediaInfo,
    /// The text of a document.
    pub document: Option<String>,
    /// The first bytes of a text: one more than are shown, if there are as many.
    pub head: Option<Vec<u8>>,
    /// What the thumbnail provider made of the file, where there is one.
    pub thumbnail: Option<Thumbnail>,
}

/// What a preview shows.
#[derive(Clone, Copy, Debug, PartialEq, Eq, Structural)]
pub enum Shown {
    Folder,
    Image,
    Media,
    Document,
    Text,
    Info,
}

pub open spec fn shown_image(name: Seq<char>) -> bool {
    lower_extension(name) matches Some(e) && texts(SHOWN_IMAGES@).contains(e)
}

pub open spec fn media_name(name: Seq<char>) -> bool {
    lower_extension(name) matches Some(e) && texts(MEDIA@).contains(e)
}

pub open spec fn document_name(name: Seq<char>) -> bool {
    lower_extension(name) matches Some(e) && texts(DOCUMENT_FORMATS@).contains(e)
}

pub open spec fn text_name(name: Seq<char>) -> bool {
    match lower_extension(name) {
        Some(e) => texts(CODE@).contains(e) || texts(PLAIN_TEXT@).contains(e),
        None => true,
    }
}

/// What has to be read for a preview of a hit.
pub open spec fn need_of(h: HitView) -> Needed {
    if h.dir {
        Needed::Nothing
    } else if shown_image(h.name) && h.size <= IMAGE_PREVIEW_MAX {
        Needed::Bytes
    } else if media_name(h.name) {
        Needed::Media
    } else if document_name(h.name) && h.size <= DOC_PREVIEW_MAX {
        Needed::Document
    } else if text_name(h.name) {
        Needed::Head
    } else {
        Needed::Nothing
    }
}

/// What a preview of a hit shows, given what was read.
pub open spec fn shown(h: HitView, found: Found) -> Shown {
    match need_of(h) {
        Needed::Nothing => if h.dir {
            Shown::Folder
        } else {
            Shown::Info
        },
        Needed::Bytes => if found.bytes is Some {
            Shown::Image
        } else {
            Shown::Info
        },
        Needed::Media => Shown::Media,
        Needed::Document => if found.document is Some {
            Shown::Document
        } else if text_name(h.name) {
            shown_head(found)
        } else {
            Shown::Info
        },
        Needed::Head => shown_head(found),
    }
}

/// What is shown of the head of a file. Binary-looking data is refused even if
/// the extension says text.
pub open spec fn shown_head(found: Found) -> Shown {
    match found.head {
        Some(head) if !looks_binary(head@) => Shown::Text,
        _ => Shown::Info,
    }
}

/// A preview made of a thumbnail.
pub open spec fn thumbnail_view(h: HitView, t: Thumbnail, caption: Seq<char>) -> PreviewView {
    PreviewView::Thumbnail {
        uri: "thumb://"@ + h.path,
        width: t.width,
        height: t.height,
        rgba: t.rgba@,
        caption,
    }
}

/// The preview of a hit, given what was read and how its date is shown.
pub open spec fn previewed(h: HitView, found: Found, date: Seq<char>) -> PreviewView {
    match shown(h, found) {
        Shown::Folder => PreviewView::Info(folder_text(h, date)),
        Shown::Image => PreviewView::Image {
            uri: "bytes://preview/"@ + h.path,
            bytes: found.bytes->0@,
        },
        Shown::Media => match found.thumbnail {
            Some(t) => thumbnail_view(h, t, media_text(h, found.media@, date)),
            None => PreviewView::Info(media_text(h, found.media@, date)),
        },
        Shown::Document => PreviewView::Text {
            text: fitting(found.document->0@, TEXT_PREVIEW_BYTES as nat),
            truncated: bytes(found.document->0@).len() > TEXT_PREVIEW_BYTES,
        },
        Shown::Text => {
            let read = found.head->0@;
            let truncated = read.len() > TEXT_PREVIEW_BYTES;
            let text = lossy_text(
                if truncated {
                    read.take(TEXT_PREVIEW_BYTES as int)
                } else {
                    read
                },
            );
            if markdown_name(h.name) {
                PreviewView::Markdown { text, truncated }
            } else {
                PreviewView::Text { text, truncated }
            }
        },
        Shown::Info => match found.thumbnail {
            Some(t) if h.size > 0 => thumbnail_view(h, t, caption_text(h, date)),
            _ => PreviewView::Info(info_text(h, date)),
        },
    }
}

/// What has to be read for a preview of a hit.
pub fn needed(hit: &Hit) -> (r: Needed)
    ensures
        r == need_of(hit@),
{
    let name = hit.name.as_str();
    if hit.is_dir {
        Needed::Nothing
    } else if is_image_ext(name) && hit.size <= IMAGE_PREVIEW_MAX {
        Needed::Bytes
    } else if is_media(name) {
        Needed::Media
    } else if is_document(name) && hit.size <= DOC_PREVIEW_MAX {
        Needed::Document
    } else if is_texty(name) {
        Needed::Head
    } else {
        Needed::Nothing
    }
}

fn head_kind(found: &Found) -> (r: Shown)
    ensures
        r == shown_head(*found),
{
    match &found.head {
        Some(head) => if is_binary(head.as_slice()) {
            Shown::Info
        } else {
            Shown::Text
        },
        None => Shown::Info,
    }
}

/// What a preview of a hit shows, given what was read.
pub fn kind_shown(hit: &Hit, found: &Found) -> (r: Shown)
    ensures
        r == shown(hit@, *found),
{
    match needed(hit) {
        Needed::Nothing => if hit.is_dir {
            Shown::Folder
        } else {
            Shown::Info
        },
        Needed::Bytes => if found.bytes.is_some() {
            Shown::Image
        } else {
            Shown::Info
        },
        Needed::Media => Shown::Media,
        Needed::Document => if found.document.is_some() {
            Shown::Document
        } else if is_texty(hit.name.as_str()) {
            head_kind(found)
        } else {
            Shown::Info
        },
        Needed::Head => head_kind(found),
    }
}

/// Whether a thumbnail would be shown if the provider made one: of media, and as
/// a last resort of anything that is not empty.
pub fn wants_thumbnail(hit: &Hit, found: &Found) -> (r: bool)
    ensures
        r == (shown(hit@, *found) == Shown::Media || (shown(hit@, *found) == Shown::Info
            && hit@.size > 0)),
{
    match kind_shown(hit, found) {
        Shown::Media => true,
        Shown::Info => hit.size > 0,
        _ => false,
    }
}

fn thumbnail_preview(hit: &Hit, t: Thumbnail, caption: String) -> (r: PreviewContent)
    ensures
        r@ == thumbnail_view(hit@, t, caption@),
{
    let mut uri = "thumb://".to_owned();
    uri.append(hit.path.as_str());
    PreviewContent::Thumbnail { uri, width: t.width, height: t.height, rgba: t.rgba, caption }
}

fn text_preview(name: &str, head: Vec<u8>) -> (r: PreviewContent)
    ensures
        r@ == ({
            let truncated = head@.len() > TEXT_PREVIEW_BYTES;
            let text = lossy_text(
                if truncated {
                    head@.take(TEXT_PREVIEW_BYTES as int)
                } else {
                    head@
                },
            );
            if markdown_name(name@) {
                PreviewView::Markdown { text, truncated }
            } else {
                PreviewView::Text { text, truncated }
            }
        }),
{
    let (kept, truncated) = read_head(head);
    let text = from_utf8_lossy(kept.as_slice());
    if is_markdown(name) {
        PreviewContent::Markdown { text, truncated }
    } else {
        PreviewContent::Text { text, truncated }
    }
}

/// The preview of a hit, given what was read and how its date is shown.
pub fn preview_dated(hit: &Hit, found: Found, date: &str) -> (r: PreviewContent)
    ensures
        r@ == previewed(hit@, found, date@),
{
    match kind_shown(hit, &found) {
        Shown::Folder => PreviewContent::Info(folder_info(hit, date)),
        Shown::Image => match found.bytes {
            Some(bytes) => {
                let mut uri = "bytes://preview/".to_owned();
                uri.append(hit.path.as_str());
                PreviewContent::Image { uri, bytes }
            },
            None => PreviewContent::Empty,
        },
        Shown::Media => {
            let caption = media_caption(hit, &found.media, date);
            match found.thumbnail {
                Some(t) => thumbnail_preview(hit, t, caption),
                None => PreviewContent::Info(caption),
            }
        },
        Shown::Document => match found.document {
            Some(document) => {
                let (text, truncated) = truncate_text(document, TEXT_PREVIEW_BYTES);
                PreviewContent::Text { text, truncated }
            },
            None => PreviewContent::Empty,
        },
        Shown::Text => match found.head {
            Some(head) => text_preview(hit.name.as_str(), head),
            None => PreviewContent::Empty,
        },
        Shown::Info => match found.thumbnail {
            Some(t) => if hit.size > 0 {
                let about = caption(hit, date);
                thumbnail_preview(hit, t, about)
            } else {
                PreviewContent::Info(file_info(hit, date))
            },
            None => PreviewContent::Info(file_info(hit, date)),
        },
    }
}

/// The preview of a hit, given what was read.
pub fn load(hit: &Hit, found: Found) -> (r: PreviewContent)
    ensures
        exists|date: Seq<char>|
            shows_date(hit@.modified, date) && r@ == #[trigger] previewed(hit@, found, date),
{
    let date = human_date(hit.modified);
    let r = preview_dated(hit, found, date.as_str());
    assert(r@ == previewed(hit@, found, date@));
    r
}

// ---------------------------------------------------------------------------
// Laws
// ---------------------------------------------------------------------------

proof fn lemma_fitting_prefix(s: Seq<char>, max: nat)
    ensures
        fitting(s, max).is_prefix_of(s),
        bytes(fitting(s, max)).len() <= max,
    decreases s.len(),
{
    if s.len() > 0 && bytes(s).len() > max {
        lemma_fitting_prefix(s.drop_last(), max);
    } else if s.len() == 0 {
        assert(s =~= Seq::<char>::empty());
    }
}

/// The text of a document is shown from its start, within the limit, and whole
/// unless it is marked as cut.
pub proof fn law_document_previews_are_prefixes(h: HitView, found: Found, date: Seq<char>)
    requires
        shown(h, found) == Shown::Document,
    ensures
        previewed(h, found, date) matches PreviewView::Text { text, truncated } && {
            &&& text.is_prefix_of(found.document->0@)
            &&& bytes(text).len() <= TEXT_PREVIEW_BYTES
            &&& truncated || text == found.document->0@
        },
{
    lemma_fitting_prefix(found.document->0@, TEXT_PREVIEW_BYTES as nat);
}

/// Whether a text is a name with one of the extensions of images that are shown.
pub open spec fn ends_like_an_image(name: Seq<char>) -> bool {
    lower_extension(name) matches Some(e) && (e == "jpg"@ || e == "jpeg"@ || e == "png"@ || e
        == "gif"@ || e == "bmp"@ || e == "webp"@ || e == "ico"@ || e == "tif"@ || e == "tiff"@)
}

/// An image of at most 30 megabytes that could be read is shown as it is.
pub proof fn law_images_are_shown_whole(h: HitView, found: Found, date: Seq<char>)
    requires
        !h.dir,
        ends_like_an_image(h.name),
        h.size <= 30 * 1024 * 1024,
    ensures
        need_of(h) == Needed::Bytes,
        found.bytes matches Some(b) ==> (previewed(h, found, date) matches PreviewView::Image {
            uri: _,
            bytes: shown,
        } && shown == b@),
{
    let all = texts(SHOWN_IMAGES@);
    assert(all[0] == "jpg"@ && all[1] == "jpeg"@ && all[2] == "png"@ && all[3] == "gif"@ && all[4]
        == "bmp"@ && all[5] == "webp"@ && all[6] == "ico"@ && all[7] == "tif"@ && all[8]
        == "tiff"@);
}

/// Of a folder, its path and its date are shown, and nothing has to be read.
pub proof fn law_folders_show_their_path(h: HitView, found: Found, date: Seq<char>)
    requires
        h.dir,
    ensures
        need_of(h) == Needed::Nothing,
        previewed(h, found, date) matches PreviewView::Info(text) && occurs(text, h.path) && occurs(
            text,
            date,
        ),
{
    let a = "Folder\n\n"@;
    let b = "\nModified: "@;
    let text = folder_text(h, date);
    assert(text.subrange(a.len() as int, (a.len() + h.path.len()) as int) =~= h.path);
    assert(occurs_at(text, h.path, a.len() as int));
    let at = (a.len() + h.path.len() + b.len()) as int;
    assert(text.subrange(at, at + date.len()) =~= date);
    assert(occurs_at(text, date, at));
}

/// A file without an extension is shown as text: its first 131072 bytes, marked as
/// cut where there are more. It is not shown as text where one of the first 4096
/// bytes is zero.
pub proof fn law_plain_files_are_shown_as_text(h: HitView, found: Found, date: Seq<char>)
    requires
        !h.dir,
        lower_extension(h.name) is None,
        found.head is Some,
    ensures
        need_of(h) == Needed::Head,
        (forall|i: int| 0 <= i < found.head->0@.len() && i < 4096 ==> found.head->0@[i] != 0) ==> (
        match previewed(h, found, date) {
            PreviewView::Text { text, truncated } => shows_head(found.head->0@, text, truncated),
            PreviewView::Markdown { text, truncated } => shows_head(
                found.head->0@,
                text,
                truncated,
            ),
            _ => false,
        }),
        (exists|i: int| 0 <= i < found.head->0@.len() && i < 4096 && found.head->0@[i] == 0) ==> (
        match previewed(h, found, date) {
            PreviewView::Info(_) => true,
            PreviewView::Thumbnail { .. } => true,
            _ => false,
        }),
{
}

/// Whether a text is what is shown of bytes: all of them up to 131072.
pub open spec fn shows_head(read: Seq<u8>, text: Seq<char>, truncated: bool) -> bool {
    &&& read.len() <= 131_072 ==> !truncated && text == lossy_text(read)
    &&& read.len() > 131_072 ==> truncated && text == lossy_text(read.take(131_072))
}

/// The text of a document of at most 8 megabytes is shown: all of it where it takes
/// at most 131072 bytes, and else as many of its first characters as that.
pub proof fn law_documents_show_their_text(h: HitView, found: Found, date: Seq<char>)
    requires
        shown(h, found) == Shown::Document,
    ensures
        h.size <= 8 * 1024 * 1024,
        found.document matches Some(d) && (previewed(h, found, date) matches PreviewView::Text {
            text,
            truncated,
        } && {
            &&& bytes(d@).len() <= 131_072 ==> text == d@ && !truncated
            &&& bytes(d@).len() > 131_072 ==> {
                &&& truncated
                &&& text.len() < d@.len()
                &&& text == d@.take(text.len() as int)
                &&& bytes(text).len() <= 131_072
                &&& bytes(d@.take(text.len() as int + 1)).len() > 131_072
            }
        }),
{
    lemma_longest_fit(found.document->0@, 131_072);
}

proof fn lemma_longest_fit(s: Seq<char>, max: nat)
    ensures
        bytes(s).len() <= max ==> fitting(s, max) == s,
        bytes(s).len() > max ==> {
            let n = fitting(s, max).len() as int;
            &&& n < s.len()
            &&& fitting(s, max) == s.take(n)
            &&& bytes(s.take(n)).len() <= max
            &&& bytes(s.take(n + 1)).len() > max
        },
    decreases s.len(),
{
    if bytes(s).len() > max {
        if s.len() == 0 {
            assert(s =~= Seq::<char>::empty());
            assert(bytes(s) =~= Seq::<u8>::empty());
        } else {
            let front = s.drop_last();
            lemma_longest_fit(front, max);
            assert(s.take(s.len() as int) =~= s);
            assert(s.take(s.len() - 1) =~= front);
            if bytes(front).len() > max {
                let n = fitting(front, max).len() as int;
                assert(front.take(n) =~= s.take(n));
                assert(front.take(n + 1) =~= s.take(n + 1));
            }
        }
    }
}

/// A media file is shown with what was read of it, with its thumbnail where there
/// is one.
pub proof fn law_media_show_their_thumbnail(h: HitView, found: Found, date: Seq<char>)
    requires
        need_of(h) == Needed::Media,
    ensures
        found.thumbnail is None ==> previewed(h, found, date) == PreviewView::Info(
            media_text(h, found.media@, date),
        ),
        found.thumbnail matches Some(t) ==> (previewed(h, found, date) matches PreviewView::Thumbnail {
            uri: _,
            width,
            height,
            rgba,
            caption,
        } && width == t.width && height == t.height && rgba == t.rgba@ && caption == media_text(
            h,
            found.media@,
            date,
        )),
{
}

/// The head of a file that is read for its text is shown as Markdown where the name
/// says so, and else as it is.
pub proof fn law_heads_are_shown_as_text_or_markdown(h: HitView, found: Found, date: Seq<char>)
    requires
        need_of(h) == Needed::Head,
        found.head matches Some(read) && forall|i: int|
            0 <= i < read@.len() && i < 4096 ==> read@[i] != 0,
    ensures
        ({
            let e = path_extension(h.name);
            if e is Some && (lower_all(e->0) == "md"@ || lower_all(e->0) == "markdown"@) {
                previewed(h, found, date) matches PreviewView::Markdown { text, truncated }
                    && shows_head(found.head->0@, text, truncated)
            } else {
                previewed(h, found, date) matches PreviewView::Text { text, truncated }
                    && shows_head(found.head->0@, text, truncated)
            }
        }),
{
    let all = texts(MARKDOWN@);
    assert(all.len() == 2 && all[0] == "md"@ && all[1] == "markdown"@);
}

/// What cannot be shown otherwise is described: with its thumbnail where there is one
/// and the file is not empty, and else by its path, size and date.
pub proof fn law_other_files_are_described(h: HitView, found: Found, date: Seq<char>)
    requires
        shown(h, found) == Shown::Info,
    ensures
        found.thumbnail is None || h.size == 0 ==> (previewed(h, found, date) matches PreviewView::Info(
            text,
        ) && h.path.is_prefix_of(text) && occurs(text, size_text(h.size as nat)) && occurs(
            text,
            date,
        )),
        h.size > 0 ==> (found.thumbnail matches Some(t) ==> (previewed(
            h,
            found,
            date,
        ) matches PreviewView::Thumbnail { uri: _, width, height, rgba, caption } && width
            == t.width && height == t.height && rgba == t.rgba@ && h.path.is_prefix_of(caption))),
{
    let size = size_text(h.size as nat);
    let a = "\n\nSize: "@;
    let b = "\nModified: "@;
    let text = info_text(h, date);
    assert(h.path =~= text.subrange(0, h.path.len() as int));
    let at = (h.path.len() + a.len()) as int;
    assert(text.subrange(at, at + size.len()) =~= size);
    assert(occurs_at(text, size, at));
    let on = (at + size.len() + b.len()) as int;
    assert(text.subrange(on, on + date.len()) =~= date);
    assert(occurs_at(text, date, on));
    let caption = caption_text(h, date);
    assert(h.path =~= caption.subrange(0, h.path.len() as int));
}

/// Audio and video are probed, and documents of at most 8 megabytes have their text
/// extracted.
pub proof fn law_media_and_documents_are_read_for_what_they_hold(h: HitView)
    requires
        !h.dir,
    ensures
        lower_extension(h.name) == Some("mp4"@) || lower_extension(h.name) == Some("mkv"@)
            || lower_extension(h.name) == Some("mp3"@) ==> need_of(h) == Needed::Media,
        (lower_extension(h.name) == Some("pdf"@) || lower_extension(h.name) == Some("docx"@)
            || lower_extension(h.name) == Some("odt"@)) && h.size <= 8 * 1024 * 1024 ==> need_of(h)
            == Needed::Document,
        (lower_extension(h.name) == Some("pdf"@) || lower_extension(h.name) == Some("docx"@)
            || lower_extension(h.name) == Some("odt"@)) && h.size > 8 * 1024 * 1024 ==> need_of(h)
            != Needed::Document,
{
    let media = texts(MEDIA@);
    assert(media.len() == 15);
    assert(media[0] == "mp4"@ && media[4] == "mkv"@ && media[9] == "mp3"@);
    let docs = texts(DOCUMENT_FORMATS@);
    assert(docs.len() == 7);
    assert(docs[0] == "pdf"@ && docs[1] == "docx"@ && docs[4] == "odt"@);
    lemma_other_images();
    lemma_other_media();
}

proof fn lemma_other_images()
    ensures
        forall|e: Seq<char>|
            (e == "mp4"@ || e == "mkv"@ || e == "mp3"@ || e == "pdf"@ || e == "docx"@ || e == "odt"@)
                ==> !#[trigger] texts(SHOWN_IMAGES@).contains(e),
{
    reveal_strlit("mp4");
    reveal_strlit("mkv");
    reveal_strlit("mp3");
    reveal_strlit("pdf");
    reveal_strlit("docx");
    reveal_strlit("odt");
    reveal_strlit("jpg");
    reveal_strlit("jpeg");
    reveal_strlit("png");
    reveal_strlit("gif");
    reveal_strlit("bmp");
    reveal_strlit("webp");
    reveal_strlit("ico");
    reveal_strlit("tif");
    reveal_strlit("tiff");
    let all = texts(SHOWN_IMAGES@);
    assert(all.len() == 9);
    assert(all[0] == "jpg"@ && all[1] == "jpeg"@ && all[2] == "png"@ && all[3] == "gif"@ && all[4]
        == "bmp"@ && all[5] == "webp"@ && all[6] == "ico"@ && all[7] == "tif"@ && all[8]
        == "tiff"@);
    assert("mp4"@[0] == 'm' && "mkv"@[0] == 'm' && "mp3"@[0] == 'm' && "docx"@[0] == 'd' && "odt"@[0]
        == 'o');
    assert("pdf"@[1] == 'd' && "png"@[1] == 'n');
    assert("jpg"@[0] == 'j' && "jpeg"@[0] == 'j' && "png"@[0] == 'p' && "gif"@[0] == 'g' && "bmp"@[0]
        == 'b' && "webp"@[0] == 'w' && "ico"@[0] == 'i' && "tif"@[0] == 't' && "tiff"@[0] == 't');
    assert("pdf"@[0] == 'p');
}

proof fn lemma_other_media()
    ensures
        forall|e: Seq<char>|
            (e == "pdf"@ || e == "docx"@ || e == "odt"@) ==> !#[trigger] texts(MEDIA@).contains(e),
{
    reveal_strlit("pdf");
    reveal_strlit("docx");
    reveal_strlit("odt");
    reveal_strlit("mp4");
    reveal_strlit("mov");
    reveal_strlit("m4v");
    reveal_strlit("m4a");
    reveal_strlit("mkv");
    reveal_strlit("webm");
    reveal_strlit("avi");
    reveal_strlit("wmv");
    reveal_strlit("flv");
    reveal_strlit("mp3");
    reveal_strlit("flac");
    reveal_strlit("wav");
    reveal_strlit("ogg");
    reveal_strlit("opus");
    reveal_strlit("aac");
    let all = texts(MEDIA@);
    assert(all.len() == 15);
    assert(all[0] == "mp4"@ && all[1] == "mov"@ && all[2] == "m4v"@ && all[3] == "m4a"@ && all[4]
        == "mkv"@ && all[5] == "webm"@ && all[6] == "avi"@ && all[7] == "wmv"@ && all[8] == "flv"@
        && all[9] == "mp3"@ && all[10] == "flac"@ && all[11] == "wav"@ && all[12] == "ogg"@
        && all[13] == "opus"@ && all[14] == "aac"@);
    assert("pdf"@[0] == 'p' && "docx"@[0] == 'd' && "odt"@[0] == 'o' && "odt"@[1] == 'd');
    assert("mp4"@[0] == 'm' && "mov"@[0] == 'm' && "m4v"@[0] == 'm' && "m4a"@[0] == 'm' && "mkv"@[0]
        == 'm' && "webm"@[0] == 'w' && "avi"@[0] == 'a' && "wmv"@[0] == 'w' && "flv"@[0] == 'f'
        && "mp3"@[0] == 'm' && "flac"@[0] == 'f' && "wav"@[0] == 'w' && "ogg"@[1] == 'g'
        && "opus"@[1] == 'p' && "aac"@[0] == 'a');
    assert("ogg"@[0] == 'o' && "opus"@[0] == 'o');
}

}
