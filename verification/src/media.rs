//! Lightweight media inspection for the preview pane: reads container headers
//! to report duration, resolution and format without decoding.
//!
//! Supported: MP4/MOV/M4V (ISO base media) and Matroska/WebM. Other formats
//! fall back to plain file info.

use crate::dates::two_digits;
use crate::doctext::{extension_of_path, path_extension};
use crate::numbers::{decimal, decimal_text, digit_of, push_decimal};
use crate::text::{join, joined, listed, lower_all, lower_text, opt_text, texts, views};
use crate::util::{has_extension, lower_extension};
use vstd::prelude::*;
use vstd::string::*;

verus! {

pub struct MediaInfo {
    /// Duration, rounded to whole seconds.
    pub duration_secs: Option<u64>,
    pub width: Option<u32>,
    pub height: Option<u32>,
    pub format: Option<String>,
}

#[verifier::ext_equal]
pub struct InfoView {
    pub duration_secs: Option<u64>,
    pub width: Option<u32>,
    pub height: Option<u32>,
    pub format: Option<Seq<char>>,
}

impl View for MediaInfo {
    type V = InfoView;

    open spec fn view(&self) -> InfoView {
        InfoView {
            duration_secs: self.duration_secs,
            width: self.width,
            height: self.height,
            format: opt_text(self.format),
        }
    }
}

/// Nothing is known.
pub open spec fn no_info() -> InfoView {
    InfoView { duration_secs: None, width: None, height: None, format: None }
}

impl Default for MediaInfo {
    fn default() -> (r: Self)
        ensures
            r@ == no_info(),
    {
        MediaInfo { duration_secs: None, width: None, height: None, format: None }
    }
}

/// A duration such as `3:42` or `1:02:05`.
pub open spec fn clock_text(total: nat) -> Seq<char> {
    let h = total / 3600;
    let m = total % 3600 / 60;
    let s = total % 60;
    if h > 0 {
        decimal(h) + seq![':'] + two_digits(m) + seq![':'] + two_digits(s)
    } else {
        decimal(m) + seq![':'] + two_digits(s)
    }
}

/// The parts of a summary: duration, dimensions and format, as far as known.
pub open spec fn summary_parts(i: InfoView) -> Seq<Seq<char>> {
    let a = match i.duration_secs {
        Some(d) => seq![clock_text(d as nat)],
        None => Seq::empty(),
    };
    let b = match (i.width, i.height) {
        (Some(w), Some(h)) => a.push(decimal(w as nat) + seq!['\u{d7}'] + decimal(h as nat)),
        _ => a,
    };
    match i.format {
        Some(f) => b.push(f),
        None => b,
    }
}

fn push_two_digits(out: &mut String, n: u64)
    ensures
        final(out)@ == old(out)@ + two_digits(n as nat),
{
    out.push(digit_of((n / 10 % 10) as u8));
    out.push(digit_of((n % 10) as u8));
    assert(out@ =~= old(out)@ + two_digits(n as nat));
}

/// Shows a duration.
pub fn show_clock(total: u64) -> (r: String)
    ensures
        r@ == clock_text(total as nat),
{
    let h: u64 = total / 3600;
    let m: u64 = total % 3600 / 60;
    let s: u64 = total % 60;
    let mut r = String::new();
    if h > 0 {
        push_decimal(&mut r, h as u128);
        r.push(':');
        push_two_digits(&mut r, m);
    } else {
        push_decimal(&mut r, m as u128);
    }
    r.push(':');
    push_two_digits(&mut r, s);
    assert(r@ =~= clock_text(total as nat));
    r
}

impl MediaInfo {
    pub fn is_empty(&self) -> (r: bool)
        ensures
            r == (self@.duration_secs is None && self@.width is None && self@.format is None),
    {
        self.duration_secs.is_none() && self.width.is_none() && self.format.is_none()
    }

    /// A summary such as `3:42  •  1920×1080  •  MP4`.
    pub fn summary(&self) -> (r: String)
        ensures
            r@ == join(summary_parts(self@), "  \u{2022}  "@),
    {
        let mut parts: Vec<String> = Vec::new();
        if let Some(d) = self.duration_secs {
            parts.push(show_clock(d));
        }
        assert(views(parts@) =~= match self.duration_secs {
            Some(d) => seq![clock_text(d as nat)],
            None => Seq::empty(),
        });
        if let (Some(w), Some(h)) = (self.width, self.height) {
            let mut dims = decimal_text(w as u64);
            dims.push('\u{d7}');
            push_decimal(&mut dims, h as u128);
            let ghost before = parts@;
            parts.push(dims);
            assert(dims@ =~= decimal(w as nat) + seq!['\u{d7}'] + decimal(h as nat));
            assert(views(parts@) =~= views(before).push(dims@));
        }
        if let Some(f) = &self.format {
            let ghost before = parts@;
            let text = f.clone();
            parts.push(text);
            assert(views(parts@) =~= views(before).push(text@));
        }
        assert(views(parts@) =~= summary_parts(self@));
        joined(parts.as_slice(), "  \u{2022}  ")
    }
}

pub const MEDIA: [&'static str; 15] = [
    "mp4", "mov", "m4v", "m4a", "mkv", "webm", "avi", "wmv", "flv", "mp3", "flac", "wav", "ogg",
    "opus", "aac",
];

/// Whether a file is audio or video.
pub fn is_media(name: &str) -> (r: bool)
    ensures
        r == (lower_extension(name@) matches Some(e) && texts(MEDIA@).contains(e)),
{
    has_extension(name, &MEDIA)
}

// ---------------------------------------------------------------------------
// Kinds of container
// ---------------------------------------------------------------------------

/// How a media file is inspected.
#[derive(Clone, Copy, Debug, PartialEq, Eq, Structural)]
pub enum Container {
    Mp4,
    Matroska,
    Other,
}

pub const MP4_LIKE: [&'static str; 4] = ["mp4", "mov", "m4v", "m4a"];

pub const MATROSKA_LIKE: [&'static str; 2] = ["mkv", "webm"];

/// The extension of a path in lower case; empty where there is none.
pub open spec fn path_ext(path: Seq<char>) -> Seq<char> {
    match path_extension(path) {
        Some(e) => lower_all(e),
        None => Seq::empty(),
    }
}

pub open spec fn container_for(ext: Seq<char>) -> Container {
    if texts(MP4_LIKE@).contains(ext) {
        Container::Mp4
    } else if texts(MATROSKA_LIKE@).contains(ext) {
        Container::Matroska
    } else {
        Container::Other
    }
}

/// What `str::to_uppercase` makes of a text.
pub uninterp spec fn uppercase(s: Seq<char>) -> Seq<char>;

/// `str::to_uppercase` by the rules of Unicode; what comes out depends on the
/// text alone.
#[verifier::external_body]
fn to_uppercase(s: &str) -> (r: String)
    ensures
        r@ == uppercase(s@),
{
    s.to_uppercase()
}

fn lower_path_ext(path: &str) -> (r: String)
    ensures
        r@ == path_ext(path@),
{
    match extension_of_path(path) {
        Some(e) => lower_text(e.as_str()),
        None => String::new(),
    }
}

/// How a media file is inspected, judged by its extension.
pub fn container(path: &str) -> (r: Container)
    ensures
        r == container_for(path_ext(path@)),
{
    let ext = lower_path_ext(path);
    if listed(&MP4_LIKE, ext.as_str()) {
        Container::Mp4
    } else if listed(&MATROSKA_LIKE, ext.as_str()) {
        Container::Matroska
    } else {
        Container::Other
    }
}

/// What is known of a media file, given what was read from its container. Where
/// the container names no format, the extension in upper case stands for it.
pub open spec fn probed(path: Seq<char>, read: Option<InfoView>) -> InfoView {
    let ext = path_ext(path);
    let info = match read {
        Some(i) if container_for(ext) != Container::Other => i,
        _ => no_info(),
    };
    if info.format is None && ext.len() > 0 {
        InfoView { format: Some(uppercase(ext)), ..info }
    } else {
        info
    }
}

/// What is known of a media file, given what was read from its container.
pub fn probe(path: &str, read: Option<MediaInfo>) -> (r: MediaInfo)
    ensures
        r@ == probed(
            path@,
            match read {
                Some(i) => Some(i@),
                None => None,
            },
        ),
{
    let mut info = match (container(path), read) {
        (Container::Other, _) => MediaInfo::default(),
        (_, Some(i)) => i,
        (_, None) => MediaInfo::default(),
    };
    if info.format.is_none() {
        let ext = lower_path_ext(path);
        if !ext.as_str().is_empty() {
            assert(ext@.len() > 0);
            info.format = Some(to_uppercase(ext.as_str()));
        } else {
            assert(ext@.len() == 0);
        }
    }
    info
}

// ---------------------------------------------------------------------------
// Numbers in files
// ---------------------------------------------------------------------------

/// The number that `n` bytes from `at` on stand for, most significant first.
pub open spec fn big_endian(b: Seq<u8>, at: int, n: nat) -> nat
    decreases n,
{
    if n == 0 {
        0
    } else {
        big_endian(b, at, (n - 1) as nat) * 256 + b[at + n - 1] as nat
    }
}

proof fn lemma_big_endian_bound(b: Seq<u8>, at: int, n: nat)
    ensures
        n <= 4 ==> big_endian(b, at, n) <= 0xffff_ffff,
        n <= 7 ==> big_endian(b, at, n) <= 0xff_ffff_ffff_ffff,
        n <= 8 ==> big_endian(b, at, n) <= 0xffff_ffff_ffff_ffff,
{
    reveal_with_fuel(big_endian, 9);
}

/// The number that `n` bytes from `at` on stand for.
fn read_be(b: &[u8], at: usize, n: usize) -> (r: u64)
    requires
        n <= 8,
        at + n <= b@.len(),
    ensures
        r == big_endian(b@, at as int, n as nat),
{
    let mut r: u64 = 0;
    let len: usize = b.len();
    for k in 0..n
        invariant
            n <= 8,
            len == b@.len(),
            at + n <= len,
            r == big_endian(b@, at as int, k as nat),
    {
        proof {
            lemma_big_endian_bound(b@, at as int, k as nat);
            lemma_big_endian_bound(b@, at as int, (k + 1) as nat);
        }
        r = r * 256 + b[at + k] as u64;
    }
    r
}

// ---------------------------------------------------------------------------
// ISO base media
// ---------------------------------------------------------------------------

/// Boxes that are looked at before the inspection gives up.
pub const MAX_BOXES: u32 = 4096;

/// Bytes of a box that are looked at together: the longest header and what is
/// needed of a movie header.
pub const WINDOW: usize = 48;

#[derive(Clone, Copy, Debug, PartialEq, Eq, Structural)]
pub enum Phase {
    /// More of the file has to be looked at.
    Running,
    /// The inspection came to its end.
    Finished,
    /// The file is not what it claims to be.
    Failed,
}

/// An inspection under way.
#[verifier::ext_equal]
pub struct Mp4View {
    /// Where the next box starts, and where the boxes around it end.
    pub pos: u64,
    pub end: u64,
    /// Containers still to be entered.
    pub stack: Seq<(u64, u64)>,
    pub visited: u32,
    /// Where the dimensions of the track at hand stand, if they are wanted next.
    pub tail: Option<u64>,
    pub info: InfoView,
    pub phase: Phase,
}

/// The sum, or the largest number where it does not fit.
pub open spec fn sum_capped(a: u64, b: u64) -> u64 {
    if a + b > u64::MAX {
        u64::MAX
    } else {
        (a + b) as u64
    }
}

/// Seconds of `dur` units of which `scale` make a second, rounded half up.
pub open spec fn rounded_secs(dur: nat, scale: nat) -> u64 {
    ((2 * dur + scale) / (2 * scale)) as u64
}

/// The units per second of a movie header whose contents start at `head`. In its
/// long form, version 1, the times before it take eight bytes each.
pub open spec fn timescale(w: Seq<u8>, head: int) -> nat {
    if w[head] == 1 {
        big_endian(w, head + 20, 4)
    } else {
        big_endian(w, head + 12, 4)
    }
}

/// The duration of a movie header whose contents start at `head`, in its units:
/// eight bytes in the long form, four otherwise.
pub open spec fn movie_duration(w: Seq<u8>, head: int) -> nat {
    if w[head] == 1 {
        big_endian(w, head + 24, 8)
    } else {
        big_endian(w, head + 16, 4)
    }
}

impl Mp4View {
    /// Before anything was looked at.
    pub open spec fn start(len: u64) -> Mp4View {
        Mp4View {
            pos: 0,
            end: len,
            stack: Seq::empty(),
            visited: 0,
            tail: None,
            info: InfoView { format: Some("MP4"@), ..no_info() },
            phase: Phase::Running,
        }
    }

    /// Goes on to the next place that has room for a box. The inspection ends
    /// where there is none, or where too many boxes were looked at.
    pub open spec fn settled(self) -> Mp4View
        decreases self.stack.len(),
    {
        if self.end < 8 || self.pos > self.end - 8 {
            if self.stack.len() == 0 {
                Mp4View { phase: Phase::Finished, ..self }
            } else {
                Mp4View {
                    pos: self.stack.last().0,
                    end: self.stack.last().1,
                    stack: self.stack.drop_last(),
                    ..self
                }.settled()
            }
        } else if self.visited >= MAX_BOXES {
            Mp4View { phase: Phase::Finished, ..self }
        } else {
            self
        }
    }

    /// Leaves the boxes at hand.
    pub open spec fn left(self) -> Mp4View {
        Mp4View { pos: self.end, ..self }.settled()
    }

    /// After looking at the start of a box: up to `WINDOW` bytes from `pos` on,
    /// fewer where the file ends.
    pub open spec fn seen(self, w: Seq<u8>) -> Mp4View {
        let m = Mp4View { visited: (self.visited + 1) as u32, ..self };
        let size = big_endian(w, 0, 4);
        if w.len() < 8 {
            m.left()
        } else if size == 1 && w.len() < 16 {
            Mp4View { phase: Phase::Failed, ..m }
        } else if 1 < size < 8 {
            m.left()
        } else {
            let head: u64 = if size == 1 {
                16
            } else {
                8
            };
            let len: u64 = if size == 0 {
                (self.end - self.pos) as u64
            } else if size == 1 {
                big_endian(w, 8, 8) as u64
            } else {
                size as u64
            };
            let next = Mp4View {
                pos: sum_capped(
                    self.pos,
                    if len < 8 {
                        8
                    } else {
                        len
                    },
                ),
                ..m
            };
            next.entered(self.pos, head, len, w)
        }
    }

    /// After looking at a box with the given header and length: containers are
    /// entered later, a movie header gives the duration, and a track header has
    /// the dimensions at its end.
    pub open spec fn entered(self, pos: u64, head: u64, len: u64, w: Seq<u8>) -> Mp4View {
        let kind = w.subrange(4, 8);
        let box_end = sum_capped(pos, len);
        if kind == seq![109u8, 111, 111, 118] || kind == seq![116u8, 114, 97, 107] || kind
            == seq![109u8, 100, 105, 97] {
            // "moov", "trak", "mdia"
            Mp4View {
                stack: self.stack.push(
                    (
                        sum_capped(pos, head),
                        if box_end < self.end {
                            box_end
                        } else {
                            self.end
                        },
                    ),
                ),
                ..self
            }.settled()
        } else if kind == seq![109u8, 118, 104, 100] {
            // "mvhd"
            let long = w[head as int] == 1;
            if w.len() < head + 20 {
                self.settled()
            } else if long && w.len() < head + 24 {
                Mp4View { phase: Phase::Failed, ..self }
            } else if long && w.len() < head + 32 {
                self.settled()
            } else {
                let scale = timescale(w, head as int);
                let dur = movie_duration(w, head as int);
                if scale > 0 && dur > 0 {
                    Mp4View {
                        info: InfoView {
                            duration_secs: Some(rounded_secs(dur, scale)),
                            ..self.info
                        },
                        ..self
                    }.settled()
                } else {
                    self.settled()
                }
            }
        } else if kind == seq![116u8, 107, 104, 100] && len >= head + 8 {
            // "tkhd"
            let at = (box_end - 8) as u64;
            if at > i64::MAX {
                Mp4View { phase: Phase::Failed, ..self }
            } else {
                Mp4View { tail: Some(at), ..self }
            }
        } else {
            self.settled()
        }
    }

    /// After looking at the end of a track header: width and height in 16.16
    /// fixed point.
    pub open spec fn measured(self, t: Seq<u8>) -> Mp4View {
        let w = big_endian(t, 0, 2) as u32;
        let h = big_endian(t, 4, 2) as u32;
        let m = Mp4View { tail: None, ..self };
        if t.len() >= 8 && w > 0 && h > 0 {
            Mp4View { info: InfoView { width: Some(w), height: Some(h), ..self.info }, ..m }.settled()
        } else {
            m.settled()
        }
    }

    /// After looking at what was asked for.
    pub open spec fn after(self, data: Seq<u8>) -> Mp4View {
        if self.phase != Phase::Running {
            self
        } else if self.tail is Some {
            self.measured(data)
        } else {
            self.seen(data)
        }
    }

    /// What is asked for: a place in the file and a number of bytes.
    pub open spec fn wanted(self) -> Option<(u64, usize)> {
        if self.phase != Phase::Running {
            None
        } else {
            match self.tail {
                Some(at) => Some((at, 8)),
                None => Some((self.pos, WINDOW)),
            }
        }
    }
}

/// The bytes of a file from `at` on, at most `n`, fewer where it ends.
pub open spec fn file_part(file: Seq<u8>, at: u64, n: usize) -> Seq<u8> {
    if at >= file.len() {
        Seq::empty()
    } else if at + n <= file.len() {
        file.subrange(at as int, at + n)
    } else {
        file.skip(at as int)
    }
}

/// An inspection of an MP4 file that asks for the parts of the file it wants to
/// see.
pub struct Mp4Probe {
    pos: u64,
    end: u64,
    stack: Vec<(u64, u64)>,
    visited: u32,
    tail: Option<u64>,
    info: MediaInfo,
    phase: Phase,
}

impl View for Mp4Probe {
    type V = Mp4View;

    closed spec fn view(&self) -> Mp4View {
        Mp4View {
            pos: self.pos,
            end: self.end,
            stack: self.stack@,
            visited: self.visited,
            tail: self.tail,
            info: self.info@,
            phase: self.phase,
        }
    }
}

/// Compares four bytes.
fn kind_is(w: &[u8], a: u8, b: u8, c: u8, d: u8) -> (r: bool)
    requires
        w@.len() >= 8,
    ensures
        r == (w@.subrange(4, 8) == seq![a, b, c, d]),
{
    let r = w[4] == a && w[5] == b && w[6] == c && w[7] == d;
    proof {
        let k = w@.subrange(4, 8);
        let want = seq![a, b, c, d];
        assert(k[0] == w@[4] && k[1] == w@[5] && k[2] == w@[6] && k[3] == w@[7]);
        if r {
            assert(k =~= want);
        } else if k == want {
            assert(want[0] == a && want[1] == b && want[2] == c && want[3] == d);
        }
    }
    r
}

/// The number that two bytes stand for, as the high half of four.
fn read_be16(b: &[u8], at: usize) -> (r: u32)
    requires
        at + 2 <= b@.len(),
    ensures
        r == big_endian(b@, at as int, 2),
        r <= 0xffff,
{
    reveal_with_fuel(big_endian, 3);
    let len: usize = b.len();
    b[at] as u32 * 256 + b[at + 1] as u32
}

impl Mp4Probe {
    /// An inspection is within its limits.
    pub closed spec fn wf(self) -> bool {
        self.phase == Phase::Running ==> {
            &&& self.tail is None ==> self.end >= 8 && self.pos <= self.end - 8 && self.visited
                < MAX_BOXES
            &&& self.visited <= MAX_BOXES
        }
    }

    /// Starts the inspection of a file of the given length.
    pub fn start(len: u64) -> (r: Mp4Probe)
        ensures
            r.wf(),
            r@ == Mp4View::start(len).settled(),
    {
        let mut r = Mp4Probe {
            pos: 0,
            end: len,
            stack: Vec::new(),
            visited: 0,
            tail: None,
            info: MediaInfo {
                duration_secs: None,
                width: None,
                height: None,
                format: Some("MP4".to_owned()),
            },
            phase: Phase::Running,
        };
        assert(r@ =~= Mp4View::start(len));
        r.settle();
        r
    }

    /// The part of the file that is wanted next: where it starts and how many
    /// bytes; nothing where the inspection is over.
    pub fn wants(&self) -> (r: Option<(u64, usize)>)
        ensures
            r == self@.wanted(),
    {
        if self.phase != Phase::Running {
            None
        } else {
            match self.tail {
                Some(at) => Some((at, 8)),
                None => Some((self.pos, WINDOW)),
            }
        }
    }

    /// The result: nothing where the file is not what it claims to be.
    pub fn finish(self) -> (r: Option<MediaInfo>)
        ensures
            self@.phase == Phase::Failed ==> r is None,
            self@.phase != Phase::Failed ==> (r matches Some(i) && i@ == self@.info),
    {
        if self.phase == Phase::Failed {
            None
        } else {
            Some(self.info)
        }
    }

    fn settle(&mut self)
        requires
            old(self)@.tail is None,
            old(self)@.phase == Phase::Running,
            old(self)@.visited <= MAX_BOXES,
        ensures
            final(self)@ == old(self)@.settled(),
            final(self).wf(),
    {
        let ghost start = self@;
        while self.end < 8 || self.pos > self.end - 8
            invariant
                start == old(self)@,
                start.settled() == self@.settled(),
                self@.tail is None,
                self@.phase == Phase::Running,
                self@.visited <= MAX_BOXES,
            decreases self.stack@.len(),
        {
            let ghost before = self@;
            match self.stack.pop() {
                Some((pos, end)) => {
                    self.pos = pos;
                    self.end = end;
                    assert(self@ =~= Mp4View {
                        pos: before.stack.last().0,
                        end: before.stack.last().1,
                        stack: before.stack.drop_last(),
                        ..before
                    });
                },
                None => {
                    assert(self@ =~= before);
                    self.phase = Phase::Finished;
                    assert(self@ =~= Mp4View { phase: Phase::Finished, ..before });
                    return ;
                },
            }
        }
        if self.visited >= MAX_BOXES {
            self.phase = Phase::Finished;
        }
    }

    fn leave(&mut self)
        requires
            old(self)@.tail is None,
            old(self)@.phase == Phase::Running,
            old(self)@.visited <= MAX_BOXES,
        ensures
            final(self)@ == old(self)@.left(),
            final(self).wf(),
    {
        let end = self.end;
        self.pos = end;
        assert(self@ =~= Mp4View { pos: old(self)@.end, ..old(self)@ });
        self.settle();
    }

    /// Hands over the part of the file that was wanted; fewer bytes mean that
    /// the file ends, or cannot be read, before all of it.
    pub fn feed(&mut self, data: &[u8])
        requires
            old(self).wf(),
        ensures
            final(self).wf(),
            final(self)@ == old(self)@.after(data@),
    {
        if self.phase != Phase::Running {
            return ;
        }
        if self.tail.is_some() {
            self.measure(data);
        } else {
            self.look(data);
        }
    }

    fn measure(&mut self, t: &[u8])
        requires
            old(self).wf(),
            old(self)@.phase == Phase::Running,
        ensures
            final(self).wf(),
            final(self)@ == old(self)@.measured(t@),
    {
        self.tail = None;
        if t.len() >= 8 {
            let w = read_be16(t, 0);
            let h = read_be16(t, 4);
            if w > 0 && h > 0 {
                self.info.width = Some(w);
                self.info.height = Some(h);
            }
        }
        self.settle();
    }

    fn look(&mut self, w: &[u8])
        requires
            old(self).wf(),
            old(self)@.phase == Phase::Running,
            old(self)@.tail is None,
        ensures
            final(self).wf(),
            final(self)@ == old(self)@.seen(w@),
    {
        self.visited = self.visited + 1;
        if w.len() < 8 {
            self.leave();
            return ;
        }
        let size = read_be(w, 0, 4);
        if size == 1 && w.len() < 16 {
            self.phase = Phase::Failed;
            return ;
        }
        if 1 < size && size < 8 {
            self.leave();
            return ;
        }
        let head: u64 = if size == 1 {
            16
        } else {
            8
        };
        let len: u64 = if size == 0 {
            self.end - self.pos
        } else if size == 1 {
            read_be(w, 8, 8)
        } else {
            size
        };
        let pos = self.pos;
        self.pos = pos.saturating_add(
            if len < 8 {
                8
            } else {
                len
            },
        );
        self.enter(pos, head, len, w);
    }

    fn enter(&mut self, pos: u64, head: u64, len: u64, w: &[u8])
        requires
            old(self)@.tail is None,
            old(self)@.phase == Phase::Running,
            old(self)@.visited <= MAX_BOXES,
            w@.len() >= 8,
            head == 8 || head == 16,
            old(self)@.end >= 8,
        ensures
            final(self).wf(),
            final(self)@ == old(self)@.entered(pos, head, len, w@),
    {
        let box_end = pos.saturating_add(len);
        if kind_is(w, 109, 111, 111, 118) || kind_is(w, 116, 114, 97, 107) || kind_is(
            w,
            109,
            100,
            105,
            97,
        ) {
            let stop = if box_end < self.end {
                box_end
            } else {
                self.end
            };
            self.stack.push((pos.saturating_add(head), stop));
            self.settle();
        } else if kind_is(w, 109, 118, 104, 100) {
            let h = head as usize;
            let n: usize = w.len();
            if n >= h + 20 {
                let long = w[h] == 1;
                if long && n < h + 24 {
                    self.phase = Phase::Failed;
                    return ;
                }
                if !long || n >= h + 32 {
                    let (scale, dur): (u64, u64) = if long {
                        (read_be(w, h + 20, 4), read_be(w, h + 24, 8))
                    } else {
                        (read_be(w, h + 12, 4), read_be(w, h + 16, 4))
                    };
                    if scale > 0 && dur > 0 {
                        proof {
                            lemma_secs_fit(dur as nat, scale as nat);
                        }
                        let secs: u128 = (2 * dur as u128 + scale as u128) / (2 * scale as u128);
                        self.info.duration_secs = Some(secs as u64);
                    }
                }
            }
            self.settle();
        } else if kind_is(w, 116, 107, 104, 100) && len >= head + 8 {
            let at: u64 = box_end - 8;
            if at > i64::MAX as u64 {
                self.phase = Phase::Failed;
            } else {
                self.tail = Some(at);
            }
        } else {
            self.settle();
        }
    }
}

/// The seconds are no more than the units.
proof fn lemma_secs_fit(dur: nat, scale: nat)
    requires
        scale > 0,
    ensures
        (2 * dur + scale) / (2 * scale) <= dur,
{
    let q = (2 * dur + scale) / (2 * scale);
    if q > dur {
        vstd::arithmetic::div_mod::lemma_fundamental_div_mod(
            (2 * dur + scale) as int,
            (2 * scale) as int,
        );
        assert((2 * scale) * q >= 2 * dur + 2 * scale) by (nonlinear_arith)
            requires
                q >= dur + 1,
                scale >= 1,
        ;
    }
}

/// What remains to be looked at, as a measure of progress.
pub open spec fn mp4_left(m: Mp4View) -> nat {
    if m.phase != Phase::Running {
        0
    } else {
        (2 * (MAX_BOXES + 1 - m.visited) + (if m.tail is Some {
            1int
        } else {
            0int
        })) as nat
    }
}

/// Whether an inspection that is under way has room for a box, or waits for the
/// end of a track header.
pub open spec fn mp4_ready(m: Mp4View) -> bool {
    m.phase == Phase::Running ==> m.visited <= MAX_BOXES && (m.tail is None ==> m.end >= 8 && m.pos
        <= m.end - 8 && m.visited < MAX_BOXES)
}

proof fn lemma_settled(m: Mp4View)
    requires
        m.tail is None,
        m.phase == Phase::Running,
        m.visited <= MAX_BOXES,
    ensures
        mp4_ready(m.settled()),
        m.settled().visited == m.visited,
        m.settled().tail is None,
        m.settled().info == m.info,
        m.settled().phase != Phase::Failed,
    decreases m.stack.len(),
{
    if m.end < 8 || m.pos > m.end - 8 {
        if m.stack.len() > 0 {
            lemma_settled(
                Mp4View {
                    pos: m.stack.last().0,
                    end: m.stack.last().1,
                    stack: m.stack.drop_last(),
                    ..m
                },
            );
        }
    }
}

/// Every look at the file brings the inspection nearer to its end.
pub proof fn law_mp4_probe_ends(m: Mp4View, data: Seq<u8>)
    requires
        mp4_ready(m),
        m.phase == Phase::Running,
    ensures
        mp4_ready(m.after(data)),
        mp4_left(m.after(data)) < mp4_left(m),
{
    if m.tail is Some {
        let w = big_endian(data, 0, 2) as u32;
        let h = big_endian(data, 4, 2) as u32;
        let a = Mp4View { tail: None, ..m };
        lemma_settled(a);
        lemma_settled(
            Mp4View { info: InfoView { width: Some(w), height: Some(h), ..m.info }, ..a },
        );
    } else {
        let size = big_endian(data, 0, 4);
        let a = Mp4View { visited: (m.visited + 1) as u32, ..m };
        lemma_settled(Mp4View { pos: a.end, ..a });
        if data.len() >= 8 && !(size == 1 && data.len() < 16) && !(1 < size < 8) {
            let head: u64 = if size == 1 {
                16
            } else {
                8
            };
            let len: u64 = if size == 0 {
                (m.end - m.pos) as u64
            } else if size == 1 {
                big_endian(data, 8, 8) as u64
            } else {
                size as u64
            };
            let next = Mp4View {
                pos: sum_capped(
                    m.pos,
                    if len < 8 {
                        8
                    } else {
                        len
                    },
                ),
                ..a
            };
            lemma_entered(next, m.pos, head, len, data);
        }
    }
}

proof fn lemma_entered(m: Mp4View, pos: u64, head: u64, len: u64, w: Seq<u8>)
    requires
        m.tail is None,
        m.phase == Phase::Running,
        m.visited <= MAX_BOXES,
    ensures
        mp4_ready(m.entered(pos, head, len, w)),
        m.entered(pos, head, len, w).visited == m.visited,
{
    let box_end = sum_capped(pos, len);
    lemma_settled(m);
    lemma_settled(
        Mp4View {
            stack: m.stack.push(
                (
                    sum_capped(pos, head),
                    if box_end < m.end {
                        box_end
                    } else {
                        m.end
                    },
                ),
            ),
            ..m
        },
    );
    let scale = timescale(w, head as int);
    let dur = movie_duration(w, head as int);
    lemma_settled(
        Mp4View {
            info: InfoView { duration_secs: Some(rounded_secs(dur, scale)), ..m.info },
            ..m
        },
    );
}

/// The result of inspecting a file, from a given state on.
pub open spec fn mp4_outcome(m: Mp4View, file: Seq<u8>) -> Option<InfoView>
    decreases mp4_left(m),
    when mp4_ready(m)
    via mp4_outcome_decreases
{
    if m.phase == Phase::Failed {
        None
    } else if m.phase == Phase::Finished {
        Some(m.info)
    } else {
        let (at, n) = m.wanted()->0;
        mp4_outcome(m.after(file_part(file, at, n)), file)
    }
}

#[via_fn]
proof fn mp4_outcome_decreases(m: Mp4View, file: Seq<u8>) {
    if m.phase == Phase::Running {
        let (at, n) = m.wanted()->0;
        law_mp4_probe_ends(m, file_part(file, at, n));
    }
}

/// What the box tree of an MP4 file says of duration and dimensions.
pub open spec fn mp4_info(file: Seq<u8>) -> Option<InfoView> {
    mp4_outcome(Mp4View::start(file.len() as u64).settled(), file)
}

/// Walks the box tree of an MP4 file held in memory for its movie header
/// (duration) and track headers (dimensions).
pub fn probe_mp4(file: &[u8]) -> (r: Option<MediaInfo>)
    ensures
        (match r {
            Some(i) => mp4_info(file@) == Some(i@),
            None => mp4_info(file@) is None,
        }),
{
    let len: usize = file.len();
    let mut probe = Mp4Probe::start(len as u64);
    proof {
        lemma_settled(Mp4View::start(len as u64));
    }
    let mut want = probe.wants();
    while want.is_some()
        invariant
            len == file@.len(),
            probe.wf(),
            want == probe@.wanted(),
            mp4_ready(probe@),
            mp4_outcome(probe@, file@) == mp4_info(file@),
        decreases mp4_left(probe@),
    {
        let (at, n) = want.unwrap();
        let start: usize = if at >= len as u64 {
            len
        } else {
            at as usize
        };
        let stop: usize = if len - start <= n {
            len
        } else {
            start + n
        };
        let part = vstd::slice::slice_subrange(file, start, stop);
        assert(part@ =~= file_part(file@, at, n));
        proof {
            law_mp4_probe_ends(probe@, part@);
        }
        probe.feed(part);
        want = probe.wants();
    }
    probe.finish()
}

// ---------------------------------------------------------------------------
// Matroska
// ---------------------------------------------------------------------------

/// Bytes at the start of a Matroska file that are looked at.
pub const MKV_HEAD: usize = 1_048_576;

/// Bytes that a length descriptor takes, judged by its first byte: the position
/// of the highest bit, counted from the left; nothing for a zero byte.
pub open spec fn descriptor_len(first: u8) -> Option<nat> {
    if first >= 128 {
        Some(1)
    } else if first >= 64 {
        Some(2)
    } else if first >= 32 {
        Some(3)
    } else if first >= 16 {
        Some(4)
    } else if first >= 8 {
        Some(5)
    } else if first >= 4 {
        Some(6)
    } else if first >= 2 {
        Some(7)
    } else if first >= 1 {
        Some(8)
    } else {
        None
    }
}

/// A byte without its highest bit.
pub open spec fn low_bits(first: u8) -> u8 {
    if first >= 128 {
        (first - 128) as u8
    } else if first >= 64 {
        (first - 64) as u8
    } else if first >= 32 {
        (first - 32) as u8
    } else if first >= 16 {
        (first - 16) as u8
    } else if first >= 8 {
        (first - 8) as u8
    } else if first >= 4 {
        (first - 4) as u8
    } else if first >= 2 {
        (first - 2) as u8
    } else {
        0
    }
}

/// The length descriptor at `pos`: the length, and where the payload starts.
pub open spec fn length_at(buf: Seq<u8>, pos: int) -> Option<(nat, int)> {
    if !(0 <= pos < buf.len()) {
        None
    } else {
        match descriptor_len(buf[pos]) {
            Some(n) if pos + n <= buf.len() => Some(
                (big_endian(buf.update(pos, low_bits(buf[pos])), pos, n), pos + n),
            ),
            _ => None,
        }
    }
}

/// The unsigned integer at `pos`, of 1 to 8 bytes behind a length descriptor, and
/// where it ends.
pub open spec fn uint_at(buf: Seq<u8>, pos: int) -> Option<(nat, int)> {
    match length_at(buf, pos) {
        Some((len, start)) if 1 <= len <= 8 && start + len <= buf.len() => Some(
            (big_endian(buf, start, len), start + len),
        ),
        _ => None,
    }
}

/// The length descriptor at `pos`: the length, and where the payload starts.
pub fn read_len(buf: &[u8], pos: usize) -> (r: Option<(u64, usize)>)
    ensures
        length_at(buf@, pos as int) == (match r {
            Some((len, start)) => Some((len as nat, start as int)),
            None => None,
        }),
        r matches Some((len, start)) ==> start <= buf@.len(),
{
    let size: usize = buf.len();
    if pos >= size {
        return None;
    }
    let first = buf[pos];
    let (n, low): (usize, u8) = if first >= 128 {
        (1, first - 128)
    } else if first >= 64 {
        (2, first - 64)
    } else if first >= 32 {
        (3, first - 32)
    } else if first >= 16 {
        (4, first - 16)
    } else if first >= 8 {
        (5, first - 8)
    } else if first >= 4 {
        (6, first - 4)
    } else if first >= 2 {
        (7, first - 2)
    } else if first >= 1 {
        (8, 0)
    } else {
        return None;
    };
    if n > size - pos {
        return None;
    }
    let ghost clean = buf@.update(pos as int, low);
    let mut value: u64 = low as u64;
    reveal_with_fuel(big_endian, 2);
    assert(value == big_endian(clean, pos as int, 1));
    for k in 1..n
        invariant
            1 <= n <= 8,
            size == buf@.len(),
            n <= size - pos,
            pos < size,
            clean == buf@.update(pos as int, low),
            value == big_endian(clean, pos as int, k as nat),
    {
        proof {
            lemma_big_endian_bound(clean, pos as int, k as nat);
            lemma_big_endian_bound(clean, pos as int, (k + 1) as nat);
            assert(clean[pos + k] == buf@[pos + k]);
        }
        value = value * 256 + buf[pos + k] as u64;
    }
    Some((value, pos + n))
}

/// The unsigned integer at `pos`, and where it ends.
pub fn read_uint(buf: &[u8], pos: usize) -> (r: Option<(u64, usize)>)
    ensures
        uint_at(buf@, pos as int) == (match r {
            Some((v, end)) => Some((v as nat, end as int)),
            None => None,
        }),
{
    let size: usize = buf.len();
    let (len, start) = match read_len(buf, pos) {
        Some(x) => x,
        None => return None,
    };
    if len == 0 || len > 8 {
        return None;
    }
    let n = len as usize;
    if n > size - start {
        return None;
    }
    Some((read_be(buf, start, n), start + n))
}

/// A duration as a Matroska file states it: the bits of a floating-point number
/// of 4 or 8 bytes, and the nanoseconds that its unit takes.
#[derive(Clone, Copy, Debug, PartialEq, Eq, Structural)]
pub struct RawDuration {
    pub bits: u64,
    pub wide: bool,
    pub unit: u64,
}

/// What the header of a Matroska file says.
#[derive(Clone, Copy, Debug, PartialEq, Eq, Structural)]
pub struct MkvInfo {
    /// Nanoseconds of a time unit.
    pub unit: u64,
    pub duration: Option<RawDuration>,
    pub width: Option<u32>,
    pub height: Option<u32>,
}

/// A dimension that makes sense.
pub open spec fn dimension(v: Option<(nat, int)>) -> Option<u32> {
    match v {
        Some((n, _)) if 0 < n < 100_000 => Some(n as u32),
        _ => None,
    }
}

/// What is known after looking at position `i` as well. The elements are told by
/// their identifiers: time unit 2AD7B1, duration 4489, width B0, height BA.
pub open spec fn mkv_step(buf: Seq<u8>, i: int, m: MkvInfo) -> MkvInfo {
    if buf[i] == 0x2A && buf[i + 1] == 0xD7 && buf[i + 2] == 0xB1 {
        match uint_at(buf, i + 3) {
            Some((v, _)) => MkvInfo { unit: v as u64, ..m },
            None => m,
        }
    } else if buf[i] == 0x44 && buf[i + 1] == 0x89 {
        match length_at(buf, i + 2) {
            Some((len, start)) if (len == 4 || len == 8) && start + len <= buf.len() => MkvInfo {
                duration: Some(
                    RawDuration {
                        bits: big_endian(buf, start, len) as u64,
                        wide: len == 8,
                        unit: m.unit,
                    },
                ),
                ..m
            },
            _ => m,
        }
    } else if buf[i] == 0xB0 && m.width is None {
        MkvInfo { width: dimension(uint_at(buf, i + 1)), ..m }
    } else if buf[i] == 0xBA && m.height is None {
        MkvInfo { height: dimension(uint_at(buf, i + 1)), ..m }
    } else {
        m
    }
}

/// What is known after looking at the first `n` positions.
pub open spec fn mkv_upto(buf: Seq<u8>, n: nat) -> MkvInfo
    decreases n,
{
    if n == 0 {
        MkvInfo { unit: 1_000_000, duration: None, width: None, height: None }
    } else {
        mkv_step(buf, n - 1, mkv_upto(buf, (n - 1) as nat))
    }
}

/// What the header of a Matroska file says; the last four bytes start no
/// element.
pub open spec fn mkv_info(buf: Seq<u8>) -> MkvInfo {
    mkv_upto(
        buf,
        if buf.len() <= 4 {
            0
        } else {
            (buf.len() - 4) as nat
        },
    )
}

/// Scans the header of a Matroska file for duration and dimensions.
pub fn probe_matroska(buf: &[u8]) -> (r: MkvInfo)
    ensures
        r == mkv_info(buf@),
{
    let size: usize = buf.len();
    let stop: usize = if size <= 4 {
        0
    } else {
        size - 4
    };
    let mut m = MkvInfo { unit: 1_000_000, duration: None, width: None, height: None };
    for i in 0..stop
        invariant
            size == buf@.len(),
            stop == (if size <= 4 {
                0
            } else {
                size - 4
            }),
            m == mkv_upto(buf@, i as nat),
    {
        let a = buf[i];
        let b = buf[i + 1];
        let ghost before = m;
        if a == 0x2A && b == 0xD7 && buf[i + 2] == 0xB1 {
            if let Some((v, _)) = read_uint(buf, i + 3) {
                m.unit = v;
            }
        } else if a == 0x44 && b == 0x89 {
            if let Some((len, start)) = read_len(buf, i + 2) {
                if (len == 4 || len == 8) && len as usize <= size - start {
                    m.duration = Some(
                        RawDuration {
                            bits: read_be(buf, start, len as usize),
                            wide: len == 8,
                            unit: m.unit,
                        },
                    );
                }
            }
        } else if a == 0xB0 && m.width.is_none() {
            if let Some((v, _)) = read_uint(buf, i + 1) {
                if 0 < v && v < 100_000 {
                    m.width = Some(v as u32);
                }
            }
        } else if a == 0xBA && m.height.is_none() {
            if let Some((v, _)) = read_uint(buf, i + 1) {
                if 0 < v && v < 100_000 {
                    m.height = Some(v as u32);
                }
            }
        }
        assert(m == mkv_step(buf@, i as int, before));
    }
    m
}

/// What is known of a Matroska file, given its duration in whole seconds.
pub fn mkv_media(m: &MkvInfo, duration_secs: Option<u64>) -> (r: MediaInfo)
    ensures
        r@ == (InfoView {
            duration_secs,
            width: m.width,
            height: m.height,
            format: Some("MKV"@),
        }),
{
    MediaInfo {
        duration_secs,
        width: m.width,
        height: m.height,
        format: Some("MKV".to_owned()),
    }
}

// ---------------------------------------------------------------------------
// What headers say
// ---------------------------------------------------------------------------

/// A duration is shown as hours, minutes and seconds that add up to it, or as
/// minutes and seconds where it is less than an hour.
pub proof fn law_clocks_add_up(total: nat)
    ensures
        total < 3600 ==> exists|m: nat, s: nat|
            m < 60 && s < 60 && 60 * m + s == total && clock_text(total) == #[trigger] decimal(m)
                + seq![':'] + #[trigger] two_digits(s),
        total >= 3600 ==> exists|h: nat, m: nat, s: nat|
            h > 0 && m < 60 && s < 60 && 3600 * h + 60 * m + s == total && clock_text(total)
                == #[trigger] decimal(h) + seq![':'] + #[trigger] two_digits(m) + seq![':']
                + #[trigger] two_digits(s),
{
    let h = total / 3600;
    let m = total % 3600 / 60;
    let s = total % 60;
    assert(3600 * h + 60 * m + s == total);
    if total < 3600 {
        assert(clock_text(total) == decimal(m) + seq![':'] + two_digits(s));
    } else {
        assert(clock_text(total) == decimal(h) + seq![':'] + two_digits(m) + seq![':']
            + two_digits(s));
    }
}

/// The number that four bytes stand for, the most significant first.
pub open spec fn word_at(b: Seq<u8>, at: int) -> nat {
    (b[at] * 0x100_0000 + b[at + 1] * 0x1_0000 + b[at + 2] * 0x100 + b[at + 3]) as nat
}

proof fn lemma_word(b: Seq<u8>, at: int)
    ensures
        big_endian(b, at, 4) == word_at(b, at),
        big_endian(b, at, 2) == b[at] * 0x100 + b[at + 1],
        big_endian(b, at, 8) == word_at(b, at) * 0x1_0000_0000 + word_at(b, at + 4),
{
    reveal_with_fuel(big_endian, 9);
}

/// A movie header tells how long a movie is, to the nearest second: its length in
/// units, and how many units make a second. In its long form the numbers lie
/// further behind, and the length takes eight bytes.
pub proof fn law_movie_headers_tell_the_duration(m: Mp4View, w: Seq<u8>, scale: nat, dur: nat)
    requires
        m.phase == Phase::Running,
        m.tail is None,
        m.visited < MAX_BOXES,
        w.len() >= 40,
        word_at(w, 0) >= 8,
        w[4] == 109 && w[5] == 118 && w[6] == 104 && w[7] == 100,
        w[8] != 1 ==> scale == word_at(w, 20) && dur == word_at(w, 24),
        w[8] == 1 ==> scale == word_at(w, 28) && dur == word_at(w, 32) * 0x1_0000_0000 + word_at(
            w,
            36,
        ),
        scale > 0,
        dur > 0,
        2 * dur + scale < 0x1_0000_0000_0000_0000,
    ensures
        m.seen(w).info.duration_secs matches Some(secs) && {
            &&& 2 * secs * scale <= 2 * dur + scale
            &&& 2 * dur < 2 * secs * scale + scale
        },
        m.seen(w).info.width == m.info.width,
        m.seen(w).info.height == m.info.height,
        m.seen(w).phase != Phase::Failed,
{
    lemma_word(w, 0);
    lemma_word(w, 20);
    lemma_word(w, 24);
    lemma_word(w, 28);
    lemma_word(w, 32);
    let kind = w.subrange(4, 8);
    assert(kind =~= seq![109u8, 118, 104, 100]);
    assert(kind[1] == 118);
    assert(seq![109u8, 111, 111, 118][1] == 111 && seq![116u8, 114, 97, 107][1] == 114
        && seq![109u8, 100, 105, 97][1] == 100);
    assert(timescale(w, 8) == scale);
    assert(movie_duration(w, 8) == dur);
    let n = 2 * dur + scale;
    let d = 2 * scale;
    let q = n / d;
    vstd::arithmetic::div_mod::lemma_fundamental_div_mod(n as int, d as int);
    vstd::arithmetic::div_mod::lemma_mod_bound(n as int, d as int);
    assert(q <= n) by {
        vstd::arithmetic::div_mod::lemma_div_is_ordered_by_denominator(n as int, 1, d as int);
    }
    assert(rounded_secs(dur, scale) == q);
    assert(d * q == 2 * q * scale) by (nonlinear_arith)
        requires
            d == 2 * scale,
    ;
    let size = big_endian(w, 0, 4);
    let len = size as u64;
    let next = Mp4View {
        pos: sum_capped(
            m.pos,
            if len < 8 {
                8
            } else {
                len
            },
        ),
        visited: (m.visited + 1) as u32,
        ..m
    };
    let told = Mp4View {
        info: InfoView { duration_secs: Some(rounded_secs(dur, scale)), ..m.info },
        ..next
    };
    lemma_settled(told);
    assert(next.entered(m.pos, 8, len, w) == told.settled());
    assert(m.seen(w) == told.settled());
}

/// The end of a track header tells the width and the height, if neither is zero.
/// What was known of the duration stays.
pub proof fn law_track_headers_tell_the_dimensions(m: Mp4View, t: Seq<u8>)
    requires
        m.phase == Phase::Running,
        m.visited <= MAX_BOXES,
        t.len() >= 8,
    ensures
        ({
            let width = t[0] * 256 + t[1];
            let height = t[4] * 256 + t[5];
            let now = m.measured(t).info;
            &&& width > 0 && height > 0 ==> now.width == Some(width as u32) && now.height == Some(
                height as u32,
            )
            &&& width == 0 || height == 0 ==> now.width == m.info.width && now.height
                == m.info.height
            &&& now.duration_secs == m.info.duration_secs
        }),
{
    lemma_word(t, 0);
    lemma_word(t, 4);
    let w = big_endian(t, 0, 2) as u32;
    let h = big_endian(t, 4, 2) as u32;
    let plain = Mp4View { tail: None, ..m };
    lemma_settled(plain);
    lemma_settled(
        Mp4View { info: InfoView { width: Some(w), height: Some(h), ..m.info }, ..plain },
    );
}

/// A track header is looked at where it ends: at its last eight bytes.
pub proof fn law_track_headers_are_read_at_their_end(m: Mp4View, w: Seq<u8>)
    requires
        m.phase == Phase::Running,
        m.tail is None,
        m.visited < MAX_BOXES,
        w.len() >= 8,
        word_at(w, 0) >= 16,
        w[4] == 116 && w[5] == 107 && w[6] == 104 && w[7] == 100,
        m.pos + word_at(w, 0) <= 0x7fff_ffff_ffff_ffff,
    ensures
        m.seen(w).wanted() == Some(((m.pos + word_at(w, 0) - 8) as u64, 8usize)),
        m.seen(w).info == m.info,
{
    lemma_word(w, 0);
    let kind = w.subrange(4, 8);
    assert(kind =~= seq![116u8, 107, 104, 100]);
    assert(kind[0] == 116 && kind[1] == 107);
    assert(seq![109u8, 111, 111, 118][0] == 109 && seq![116u8, 114, 97, 107][1] == 114
        && seq![109u8, 100, 105, 97][0] == 109 && seq![109u8, 118, 104, 100][0] == 109);
}

/// A movie, a track and its media are looked into: what comes next inside them
/// waits on the stack until what follows them has been looked at.
pub proof fn law_containers_are_looked_into(m: Mp4View, w: Seq<u8>)
    requires
        m.phase == Phase::Running,
        m.tail is None,
        m.visited + 1 < MAX_BOXES,
        w.len() >= 8,
        word_at(w, 0) >= 16,
        (w[4] == 109 && w[5] == 111 && w[6] == 111 && w[7] == 118) || (w[4] == 116 && w[5] == 114
            && w[6] == 97 && w[7] == 107) || (w[4] == 109 && w[5] == 100 && w[6] == 105 && w[7]
            == 97),
        m.pos + word_at(w, 0) <= m.end,
    ensures
        m.seen(w).info == m.info,
        m.end - (m.pos + word_at(w, 0)) < 8 ==> m.seen(w).wanted() == Some(
            ((m.pos + 8) as u64, 48usize),
        ),
        m.end - (m.pos + word_at(w, 0)) >= 8 ==> {
            &&& m.seen(w).wanted() == Some(((m.pos + word_at(w, 0)) as u64, 48usize))
            &&& m.seen(w).stack == m.stack.push(
                ((m.pos + 8) as u64, (m.pos + word_at(w, 0)) as u64),
            )
        },
{
    lemma_word(w, 0);
    let kind = w.subrange(4, 8);
    if w[4] == 116 {
        assert(kind =~= seq![116u8, 114, 97, 107]);
    } else if w[5] == 111 {
        assert(kind =~= seq![109u8, 111, 111, 118]);
    } else {
        assert(kind =~= seq![109u8, 100, 105, 97]);
    }
    let size = word_at(w, 0);
    let next = Mp4View { pos: (m.pos + size) as u64, visited: (m.visited + 1) as u32, ..m };
    let item = ((m.pos + 8) as u64, (m.pos + size) as u64);
    let pushed = Mp4View { stack: m.stack.push(item), ..next };
    assert(m.seen(w) == pushed.settled());
    lemma_settled(pushed);
    reveal_with_fuel(Mp4View::settled, 2);
    assert(pushed.stack.drop_last() =~= m.stack);
}

/// A number in a Matroska file has its length before it: a byte with its highest
/// bit set tells how many bytes follow.
pub proof fn law_matroska_numbers_are_read(buf: Seq<u8>, at: int)
    requires
        0 <= at < buf.len(),
    ensures
        buf[at] == 0x81 && at + 1 < buf.len() ==> uint_at(buf, at) == Some(
            (buf[at + 1] as nat, at + 2),
        ),
        buf[at] == 0x82 && at + 2 < buf.len() ==> uint_at(buf, at) == Some(
            ((buf[at + 1] * 256 + buf[at + 2]) as nat, at + 3),
        ),
        buf[at] == 0 ==> uint_at(buf, at) is None,
        at + 1 == buf.len() ==> uint_at(buf, at) is None,
{
    let low = buf.update(at, low_bits(buf[at]));
    reveal_with_fuel(big_endian, 3);
    assert(low[at] == low_bits(buf[at]));
    if buf[at] < 128 && at + 1 == buf.len() {
        assert(descriptor_len(buf[at]) is Some ==> descriptor_len(buf[at])->0 >= 2);
    }
}

/// The number of an element with a one-byte identifier at a place, if there is one.
pub open spec fn element_at(buf: Seq<u8>, id: u8, at: int) -> Option<nat> {
    if buf[at] != id {
        None
    } else {
        match uint_at(buf, at + 1) {
            Some((n, _)) => Some(n),
            None => None,
        }
    }
}

/// Whether a dimension is that of the first element, among the first `n` places,
/// that holds a number from 1 to 99999.
pub open spec fn is_first_dimension(buf: Seq<u8>, id: u8, n: nat, found: Option<u32>) -> bool {
    match found {
        Some(w) => 0 < w < 100_000 && exists|i: int|
            0 <= i < n && #[trigger] element_at(buf, id, i) == Some(w as nat) && forall|k: int|
                0 <= k < i ==> (#[trigger] element_at(buf, id, k) matches Some(x) ==> x == 0 || x
                    >= 100_000),
        None => forall|k: int|
            0 <= k < n ==> (#[trigger] element_at(buf, id, k) matches Some(x) ==> x == 0 || x
                >= 100_000),
    }
}

proof fn lemma_dimension_step(buf: Seq<u8>, i: int, m: MkvInfo)
    ensures
        mkv_step(buf, i, m).width == (if m.width is Some {
            m.width
        } else {
            match element_at(buf, 0xB0, i) {
                Some(x) if 0 < x < 100_000 => Some(x as u32),
                _ => None,
            }
        }),
        mkv_step(buf, i, m).height == (if m.height is Some {
            m.height
        } else {
            match element_at(buf, 0xBA, i) {
                Some(x) if 0 < x < 100_000 => Some(x as u32),
                _ => None,
            }
        }),
{
}

proof fn lemma_first_dimension(
    buf: Seq<u8>,
    id: u8,
    n: nat,
    before: Option<u32>,
    now: Option<u32>,
)
    requires
        is_first_dimension(buf, id, n, before),
        now == (if before is Some {
            before
        } else {
            match element_at(buf, id, n as int) {
                Some(x) if 0 < x < 100_000 => Some(x as u32),
                _ => None,
            }
        }),
    ensures
        is_first_dimension(buf, id, n + 1, now),
{
    if let Some(w) = before {
        let i = choose|i: int|
            0 <= i < n && #[trigger] element_at(buf, id, i) == Some(w as nat) && forall|k: int|
                0 <= k < i ==> (#[trigger] element_at(buf, id, k) matches Some(x) ==> x == 0 || x
                    >= 100_000);
        assert(element_at(buf, id, i) == Some(w as nat));
    } else if let Some(w) = now {
        assert(element_at(buf, id, n as int) == Some(w as nat));
    }
}

/// The width and the height of a Matroska file are those of the first elements
/// that hold a number from 1 to 99999.
pub proof fn law_matroska_dimensions_are_the_first(buf: Seq<u8>, n: nat)
    ensures
        is_first_dimension(buf, 0xB0, n, mkv_upto(buf, n).width),
        is_first_dimension(buf, 0xBA, n, mkv_upto(buf, n).height),
    decreases n,
{
    if n > 0 {
        let m = (n - 1) as nat;
        law_matroska_dimensions_are_the_first(buf, m);
        let before = mkv_upto(buf, m);
        lemma_dimension_step(buf, n - 1, before);
        let now = mkv_upto(buf, n);
        lemma_first_dimension(buf, 0xB0, m, before.width, now.width);
        lemma_first_dimension(buf, 0xBA, m, before.height, now.height);
    }
}

/// MP4 files are told by the extensions `mp4`, `mov`, `m4v` and `m4a`, Matroska files
/// by `mkv` and `webm`. Nothing is read from the container of other files, and the
/// extension stands for the format where the container names none.
pub proof fn law_containers_go_by_extension(path: Seq<char>, read: Option<InfoView>)
    ensures
        ({
            let ext = path_ext(path);
            let mp4 = ext == "mp4"@ || ext == "mov"@ || ext == "m4v"@ || ext == "m4a"@;
            let matroska = ext == "mkv"@ || ext == "webm"@;
            &&& mp4 ==> container_for(ext) == Container::Mp4
            &&& matroska && !mp4 ==> container_for(ext) == Container::Matroska
            &&& !mp4 && !matroska ==> container_for(ext) == Container::Other
            &&& mp4 || matroska ==> (read matches Some(i) ==> {
                &&& probed(path, read).duration_secs == i.duration_secs
                &&& probed(path, read).width == i.width
                &&& probed(path, read).height == i.height
                &&& i.format is Some ==> probed(path, read) == i
            })
            &&& read is None || (!mp4 && !matroska) ==> {
                &&& probed(path, read).duration_secs is None
                &&& probed(path, read).width is None
                &&& probed(path, read).height is None
                &&& ext.len() > 0 ==> probed(path, read).format == Some(uppercase(ext))
            }
        }),
{
    let a = texts(MP4_LIKE@);
    let b = texts(MATROSKA_LIKE@);
    assert(a.len() == 4 && b.len() == 2);
    assert(a[0] == "mp4"@ && a[1] == "mov"@ && a[2] == "m4v"@ && a[3] == "m4a"@);
    assert(b[0] == "mkv"@ && b[1] == "webm"@);
}

/// A summary names what is known, in this order: the duration, the dimensions where
/// both are known, and the format.
pub proof fn law_summaries_name_what_is_known(i: InfoView)
    ensures
        ({
            let parts = summary_parts(i);
            let d: int = if i.duration_secs is Some {
                1
            } else {
                0
            };
            let m: int = if i.width is Some && i.height is Some {
                1
            } else {
                0
            };
            let f: int = if i.format is Some {
                1
            } else {
                0
            };
            &&& parts.len() == d + m + f
            &&& i.duration_secs matches Some(s) ==> parts[0] == clock_text(s as nat)
            &&& m == 1 ==> parts[d] == decimal(i.width->0 as nat) + seq!['\u{d7}'] + decimal(
                i.height->0 as nat,
            )
            &&& i.format matches Some(x) ==> parts[d + m] == x
        }),
{
}

}
