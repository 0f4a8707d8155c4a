//! Small helpers: humanized sizes, case-insensitive matching, file categories,
//! exclusions.

use crate::numbers::{
    all_digits, decimal, decimal_parts, digit_char, digit_of, double_of, grouped,
    law_decimals_read_back, law_rounding_is_to_the_nearest, law_small_numbers_are_doubles,
    parse_scaled, push_decimal, push_grouped, round_double, rounded, scaled_value, ten_to, two_to,
};
use crate::paths::{
    components, components_of, is_name, is_name_component, is_plain_name, joined_path,
    lemma_join_components,
};
use crate::text::{
    from_chars, is_digit, is_letter, listed, lower, lower_all, lower_text, opt_str, owned, same_text, texts,
    to_chars, trim, trimmed, views,
};
use vstd::prelude::*;
use vstd::string::*;
use vstd::utf8::*;

verus! {

// ---------------------------------------------------------------------------
// Case-insensitive matching
// ---------------------------------------------------------------------------

/// ASCII lower case of a byte.
pub open spec fn lower_byte(b: u8) -> u8 {
    if 65 <= b <= 90 {
        (b + 32) as u8
    } else {
        b
    }
}

/// The bytes of a text.
pub open spec fn bytes(s: Seq<char>) -> Seq<u8> {
    encode_utf8(s)
}

/// `n` stands in `h` at position `i`, where `same` says which bytes are taken as
/// equal.
pub open spec fn stands_with(
    same: spec_fn(u8, u8) -> bool,
    h: Seq<u8>,
    n: Seq<u8>,
    i: int,
) -> bool {
    &&& 0 <= i && i + n.len() <= h.len()
    &&& forall|k: int| 0 <= k < n.len() ==> same(#[trigger] h[i + k], n[k])
}

/// Bytes that differ at most in ASCII case.
pub open spec fn same_ignoring_case() -> spec_fn(u8, u8) -> bool {
    |a: u8, b: u8| lower_byte(a) == lower_byte(b)
}

/// Equal bytes.
pub open spec fn same_exactly() -> spec_fn(u8, u8) -> bool {
    |a: u8, b: u8| a == b
}

/// The relation for a search, depending on whether case counts.
pub open spec fn same_byte(case_sensitive: bool) -> spec_fn(u8, u8) -> bool {
    if case_sensitive {
        same_exactly()
    } else {
        same_ignoring_case()
    }
}

/// Whether `i` is the first position of `n` in `h`.
pub open spec fn first_at(
    same: spec_fn(u8, u8) -> bool,
    h: Seq<u8>,
    n: Seq<u8>,
    i: int,
) -> bool {
    stands_with(same, h, n, i) && forall|j: int|
        0 <= j < i ==> !#[trigger] stands_with(same, h, n, j)
}

/// Whether `h` contains `n`.
pub open spec fn contains_with(same: spec_fn(u8, u8) -> bool, h: Seq<u8>, n: Seq<u8>) -> bool {
    exists|i: int| #[trigger] stands_with(same, h, n, i)
}

pub fn lowered(b: u8) -> (r: u8)
    ensures
        r == lower_byte(b),
{
    if 65 <= b && b <= 90 {
        b + 32
    } else {
        b
    }
}

/// Whether `n` stands in `h` at position `i`.
pub fn stands_here(h: &[u8], n: &[u8], i: usize, case_sensitive: bool) -> (r: bool)
    requires
        i + n@.len() <= h@.len(),
    ensures
        r == stands_with(same_byte(case_sensitive), h@, n@, i as int),
{
    let ghost same = same_byte(case_sensitive);
    let len: usize = h.len();
    let mut k: usize = 0;
    while k < n.len() && (h[i + k] == n[k] || (!case_sensitive && lowered(h[i + k]) == lowered(
        n[k],
    )))
        invariant
            len == h@.len(),
            k <= n@.len(),
            i + n@.len() <= h@.len(),
            same == same_byte(case_sensitive),
            forall|j: int| 0 <= j < k ==> same(#[trigger] h@[i + j], n@[j]),
        decreases n@.len() - k,
    {
        k = k + 1;
    }
    assert(k < n@.len() ==> !same(h@[i + k], n@[k as int]));
    k == n.len()
}

/// The first position of `n` in `h`, if any.
pub fn find_bytes(h: &[u8], n: &[u8], case_sensitive: bool) -> (r: Option<usize>)
    ensures
        r is Some <==> contains_with(same_byte(case_sensitive), h@, n@),
        r matches Some(i) ==> first_at(same_byte(case_sensitive), h@, n@, i as int),
{
    let ghost same = same_byte(case_sensitive);
    let len: usize = h.len();
    if n.len() > len {
        return None;
    }
    let mut i: usize = 0;
    while i <= len - n.len()
        invariant
            len == h@.len(),
            n@.len() <= h@.len(),
            i <= h@.len() - n@.len() + 1,
            same == same_byte(case_sensitive),
            forall|j: int| 0 <= j < i ==> !#[trigger] stands_with(same, h@, n@, j),
        decreases h@.len() - i,
    {
        if stands_here(h, n, i, case_sensitive) {
            return Some(i);
        }
        if i == len - n.len() {
            assert forall|j: int| !#[trigger] stands_with(same, h@, n@, j) by {}
            return None;
        }
        i = i + 1;
    }
    None
}

/// Case-insensitive (ASCII) substring test without allocating.
pub fn contains_ignore_case(haystack: &str, needle: &str) -> (r: bool)
    ensures
        r == contains_with(same_ignoring_case(), bytes(haystack@), bytes(needle@)),
{
    find_bytes(haystack.as_bytes(), needle.as_bytes(), false).is_some()
}

/// Case-sensitive substring test.
pub fn contains_text(haystack: &str, needle: &str) -> (r: bool)
    ensures
        r == contains_with(same_exactly(), bytes(haystack@), bytes(needle@)),
{
    find_bytes(haystack.as_bytes(), needle.as_bytes(), true).is_some()
}

/// The byte position of the first case-insensitive (ASCII) occurrence.
pub fn find_ignore_case(haystack: &str, needle: &str) -> (r: Option<usize>)
    ensures
        r is Some <==> contains_with(same_ignoring_case(), bytes(haystack@), bytes(needle@)),
        r matches Some(i) ==> first_at(
            same_ignoring_case(),
            bytes(haystack@),
            bytes(needle@),
            i as int,
        ),
{
    find_bytes(haystack.as_bytes(), needle.as_bytes(), false)
}

/// Every text contains itself and the empty text, and what contains a text
/// exactly contains it when case is ignored.
pub proof fn law_contains(h: Seq<u8>, n: Seq<u8>)
    ensures
        contains_with(same_ignoring_case(), h, h),
        contains_with(same_ignoring_case(), h, Seq::empty()),
        contains_with(same_exactly(), h, n) ==> contains_with(same_ignoring_case(), h, n),
        contains_with(same_ignoring_case(), h, n) ==> n.len() <= h.len(),
{
    assert(stands_with(same_ignoring_case(), h, h, 0));
    assert(stands_with(same_ignoring_case(), h, Seq::empty(), 0));
    if contains_with(same_exactly(), h, n) {
        let i = choose|i: int| #[trigger] stands_with(same_exactly(), h, n, i);
        assert(stands_with(same_ignoring_case(), h, n, i));
    }
}

/// Ignoring case means that lower-casing either side changes nothing.
pub proof fn law_case_is_ignored(h: Seq<u8>, n: Seq<u8>)
    ensures
        contains_with(same_ignoring_case(), h, n) == contains_with(
            same_exactly(),
            h.map_values(|b: u8| lower_byte(b)),
            n.map_values(|b: u8| lower_byte(b)),
        ),
{
    let lh = h.map_values(|b: u8| lower_byte(b));
    let ln = n.map_values(|b: u8| lower_byte(b));
    assert forall|i: int| #[trigger]
        stands_with(same_ignoring_case(), h, n, i) == stands_with(same_exactly(), lh, ln, i) by {
        if stands_with(same_ignoring_case(), h, n, i) {
            assert forall|k: int| 0 <= k < ln.len() implies #[trigger] lh[i + k] == ln[k] by {
                assert(same_ignoring_case()(h[i + k], n[k]));
            }
        }
        if stands_with(same_exactly(), lh, ln, i) {
            assert forall|k: int| 0 <= k < n.len() implies same_ignoring_case()(
                #[trigger] h[i + k],
                n[k],
            ) by {
                assert(same_exactly()(lh[i + k], ln[k]));
            }
        }
    }
    if contains_with(same_exactly(), lh, ln) {
        let i = choose|i: int| #[trigger] stands_with(same_exactly(), lh, ln, i);
        assert(stands_with(same_ignoring_case(), h, n, i));
    }
}

// ---------------------------------------------------------------------------
// Sizes
// ---------------------------------------------------------------------------

pub const UNITS: [&'static str; 6] = ["B", "KB", "MB", "GB", "TB", "PB"];

/// 1024 to the power of `n`.
pub open spec fn kilo_to(n: nat) -> nat
    decreases n,
{
    if n == 0 {
        1
    } else {
        1024 * kilo_to((n - 1) as nat)
    }
}

/// The largest unit, up to the last, that `v` reaches.
pub open spec fn unit_for(v: nat, unit: nat) -> nat
    decreases 5 - unit,
{
    if unit < 5 && v >= kilo_to(unit + 1) {
        unit_for(v, unit + 1)
    } else {
        unit
    }
}

/// A size for people: bytes below one kilobyte; else the number in the largest
/// fitting unit, whole from 100 on and with one decimal below. The number that
/// is shown is the double nearest to the size.
pub open spec fn size_text(n: nat) -> Seq<char> {
    if n < 1024 {
        decimal(n) + seq![' '] + "B"@
    } else {
        let v = double_of(n);
        let unit = unit_for(v, 0);
        let d = kilo_to(unit);
        let number = if v >= 100 * d {
            decimal(rounded(v, d))
        } else {
            let tenths = rounded(10 * v, d);
            decimal(tenths / 10) + seq!['.', digit_char(tenths % 10)]
        };
        number + seq![' '] + UNITS@[unit as int]@
    }
}

/// `n / d` rounded half to even.
fn round_quotient(n: u128, d: u128) -> (r: u128)
    requires
        d > 0,
        n <= 0xffff_ffff_ffff_ffff_ffff_ffff,
        d <= 0xffff_ffff_ffff_ffff_ffff_ffff,
    ensures
        r == rounded(n as nat, d as nat),
        r <= n + 1,
{
    let q: u128 = n / d;
    let rest: u128 = n % d;
    proof {
        vstd::arithmetic::div_mod::lemma_div_is_ordered_by_denominator(n as int, 1, d as int);
    }
    if 2 * rest < d || (2 * rest == d && q % 2 == 0) {
        q
    } else {
        q + 1
    }
}

/// A size for people.
pub fn human_size(bytes: u64) -> (r: String)
    ensures
        r@ == size_text(bytes as nat),
{
    let mut r = String::new();
    if bytes < 1024 {
        push_decimal(&mut r, bytes as u128);
        r.push(' ');
        r.append("B");
        assert(r@ =~= size_text(bytes as nat));
        return r;
    }
    let v = round_double(bytes);
    let mut unit: usize = 0;
    let mut d: u128 = 1;
    while unit < 5 && v >= 1024 * d
        invariant
            unit <= 5,
            d == kilo_to(unit as nat),
            d <= 0x4_0000_0000_0000,
            unit < 5 ==> d <= 0x100_0000_0000,
            unit < 4 ==> d <= 0x4000_0000,
            unit < 3 ==> d <= 0x10_0000,
            unit < 2 ==> d <= 1024,
            unit < 1 ==> d <= 1,
            d > 0,
            unit_for(v as nat, 0) == unit_for(v as nat, unit as nat),
        decreases 5 - unit,
    {
        assert(kilo_to((unit + 1) as nat) == 1024 * d);
        d = 1024 * d;
        unit = unit + 1;
    }
    assert(kilo_to((unit + 1) as nat) == 1024 * d);
    assert(unit_for(v as nat, 0) == unit);
    if v >= 100 * d {
        push_decimal(&mut r, round_quotient(v, d));
        assert(r@ =~= decimal(rounded(v as nat, d as nat)));
    } else {
        let tenths = round_quotient(10 * v, d);
        push_decimal(&mut r, tenths / 10);
        r.push('.');
        r.push(digit_of((tenths % 10) as u8));
        let ghost t = rounded((10 * v) as nat, d as nat);
        assert(r@ =~= decimal(t / 10) + seq!['.', digit_char(t % 10)]);
    }
    r.push(' ');
    let name: &'static str = UNITS[unit];
    r.append(name);
    assert(r@ =~= size_text(bytes as nat));
    r
}

/// Position of the first ASCII letter, or the length where there is none.
pub open spec fn first_letter(s: Seq<char>) -> nat
    decreases s.len(),
{
    if s.len() == 0 || is_letter(s[0]) {
        0
    } else {
        1 + first_letter(s.drop_first())
    }
}

/// The power of two that a unit stands for.
pub open spec fn unit_shift(unit: Seq<char>) -> Option<nat> {
    if unit.len() == 0 || unit == seq!['b'] {
        Some(0)
    } else if unit == seq!['k'] || unit == seq!['k', 'b'] {
        Some(10)
    } else if unit == seq!['m'] || unit == seq!['m', 'b'] {
        Some(20)
    } else if unit == seq!['g'] || unit == seq!['g', 'b'] {
        Some(30)
    } else if unit == seq!['t'] || unit == seq!['t', 'b'] {
        Some(40)
    } else {
        None
    }
}

/// The number of bytes that a text such as `10mb`, `1.5g` or `500k` stands for: a
/// decimal number, then a unit; a number alone counts bytes. Fractions of a byte
/// are dropped, a negative size is none, and too large a size is the largest.
pub open spec fn size_of_text(s: Seq<char>) -> Option<u64> {
    let t = lower_all(trim(s));
    let at = first_letter(t) as int;
    let number = decimal_parts(trim(t.take(at)));
    let shift = unit_shift(trim(t.skip(at)));
    if number is Some && shift is Some {
        Some(scaled_value(number->0, shift->0))
    } else {
        None
    }
}

proof fn lemma_first_letter(s: Seq<char>, n: int)
    requires
        0 <= n <= s.len(),
        forall|i: int| 0 <= i < n ==> !is_letter(s[i]),
        n < s.len() ==> is_letter(s[n]),
    ensures
        first_letter(s) == n,
    decreases s.len(),
{
    if n > 0 {
        assert(!is_letter(s[0]));
        assert forall|i: int| 0 <= i < n - 1 implies !is_letter(s.drop_first()[i]) by {
            assert(s.drop_first()[i] == s[i + 1]);
        }
        lemma_first_letter(s.drop_first(), n - 1);
    }
}

/// The power of two that a unit stands for.
fn shift_of(unit: &[char]) -> (r: Option<u32>)
    ensures
        r is Some <==> unit_shift(unit@) is Some,
        r matches Some(n) ==> unit_shift(unit@) == Some(n as nat) && n <= 40,
{
    if unit.len() == 0 {
        return Some(0);
    }
    if unit.len() > 2 || (unit.len() == 2 && unit[1] != 'b') {
        assert(forall|c: char| unit@ != seq![c, 'b'] && unit@ != seq![c]) by {
            assert forall|c: char| unit@ != seq![c, 'b'] && unit@ != seq![c] by {
                if unit@ == seq![c, 'b'] {
                    assert(unit@.len() == 2 && unit@[1] == 'b');
                }
                if unit@ == seq![c] {
                    assert(unit@.len() == 1);
                }
            }
        }
        return None;
    }
    let c = unit[0];
    let one = unit.len() == 1;
    assert(if one {
        unit@ =~= seq![c]
    } else {
        unit@ =~= seq![c, 'b']
    });
    assert forall|x: char| (unit@ == seq![x]) == (one && x == c) by {
        assert(seq![x].len() == 1 && seq![x][0] == x);
    }
    assert forall|x: char| (unit@ == seq![x, 'b']) == (!one && x == c) by {
        assert(seq![x, 'b'].len() == 2 && seq![x, 'b'][0] == x);
    }
    if c == 'b' && one {
        Some(0)
    } else if c == 'k' {
        Some(10)
    } else if c == 'm' {
        Some(20)
    } else if c == 'g' {
        Some(30)
    } else if c == 't' {
        Some(40)
    } else {
        None
    }
}

/// Reads a size such as `10mb`, `1.5g`, `500k` or `1024` (bytes).
pub fn parse_size(s: &str) -> (r: Option<u64>)
    ensures
        r == size_of_text(s@),
{
    let all = to_chars(s);
    let core = trimmed(all.as_slice());
    let mut t: Vec<char> = Vec::new();
    for i in 0..core.len()
        invariant
            t@ == lower_all(core@.take(i as int)),
    {
        t.push(crate::text::lower_char(core[i]));
        assert(t@ =~= lower_all(core@.take(i + 1)));
    }
    assert(core@.take(core@.len() as int) =~= core@);
    let mut at: usize = 0;
    while at < t.len() && !(('a' <= t[at] && t[at] <= 'z') || ('A' <= t[at] && t[at] <= 'Z'))
        invariant
            at <= t@.len(),
            forall|i: int| 0 <= i < at ==> !is_letter(t@[i]),
        decreases t@.len() - at,
    {
        at = at + 1;
    }
    proof {
        lemma_first_letter(t@, at as int);
    }
    let number = vstd::slice::slice_subrange(t.as_slice(), 0, at);
    let unit = vstd::slice::slice_subrange(t.as_slice(), at, t.len());
    assert(number@ =~= t@.take(at as int));
    assert(unit@ =~= t@.skip(at as int));
    let shift = match shift_of(trimmed(unit)) {
        Some(n) => n,
        None => return None,
    };
    parse_scaled(trimmed(number), shift)
}

/// A number with a comma before each group of three digits.
pub fn thousands(n: usize) -> (r: String)
    ensures
        r@ == grouped(n as nat),
{
    let mut r = String::new();
    push_grouped(&mut r, n as u64);
    assert(r@ =~= grouped(n as nat));
    r
}

// ---------------------------------------------------------------------------
// Extensions and categories
// ---------------------------------------------------------------------------

/// Position of the last `c`, or -1 where there is none.
pub open spec fn last_of(s: Seq<char>, c: char) -> int
    decreases s.len(),
{
    if s.len() == 0 {
        -1
    } else if s.last() == c {
        s.len() - 1
    } else {
        last_of(s.drop_last(), c)
    }
}

/// What follows the last dot of a name. A dot at the very start or end makes no
/// extension.
pub open spec fn extension(name: Seq<char>) -> Option<Seq<char>> {
    let dot = last_of(name, '.');
    if dot <= 0 || dot + 1 == name.len() {
        None
    } else {
        Some(name.skip(dot + 1))
    }
}

/// The extension of a name in lower case.
pub open spec fn lower_extension(name: Seq<char>) -> Option<Seq<char>> {
    match extension(name) {
        Some(e) => Some(lower_all(e)),
        None => None,
    }
}

pub proof fn lemma_last_of(s: Seq<char>, c: char)
    ensures
        -1 <= last_of(s, c) < s.len(),
        last_of(s, c) >= 0 ==> s[last_of(s, c)] == c,
        forall|i: int| last_of(s, c) < i < s.len() ==> s[i] != c,
    decreases s.len(),
{
    if s.len() > 0 && s.last() != c {
        lemma_last_of(s.drop_last(), c);
        let d = last_of(s, c);
        assert forall|i: int| d < i < s.len() implies s[i] != c by {
            if i < s.len() - 1 {
                assert(s.drop_last()[i] == s[i]);
            }
        }
    }
}

/// What follows the last dot of a name.
pub fn extension_of<'a>(name: &'a str) -> (r: Option<&'a str>)
    ensures
        opt_str(r) == extension(name@),
{
    let mut dot: Option<usize> = None;
    let mut n: usize = 0;
    let len: usize = name.unicode_len();
    for c in it: name.chars()
        invariant
            it.seq() == name@,
            n == it.index(),
            len == name@.len(),
            dot is None ==> last_of(name@.take(n as int), '.') == -1,
            dot matches Some(d) ==> last_of(name@.take(n as int), '.') == d,
    {
        assert(name@.take(n + 1).drop_last() =~= name@.take(n as int));
        assert(name@.take(n + 1).last() == c);
        if c == '.' {
            dot = Some(n);
        }
        n = n + 1;
    }
    assert(name@.take(len as int) =~= name@);
    proof {
        lemma_last_of(name@, '.');
    }
    match dot {
        Some(d) => {
            if d == 0 || d + 1 == len {
                None
            } else {
                let ext = name.substring_char(d + 1, len);
                assert(ext@ =~= name@.skip(d + 1));
                Some(ext)
            }
        },
        None => None,
    }
}

/// The extension of a name in lower case.
pub fn lower_extension_of(name: &str) -> (r: Option<String>)
    ensures
        crate::text::opt_text(r) == lower_extension(name@),
{
    match extension_of(name) {
        Some(e) => Some(lower_text(e)),
        None => None,
    }
}

/// Whether a name's extension is one of a list, ignoring case.
pub fn has_extension(name: &str, list: &[&str]) -> (r: bool)
    ensures
        r == (lower_extension(name@) matches Some(e) && texts(list@).contains(e)),
{
    match lower_extension_of(name) {
        Some(e) => listed(list, e.as_str()),
        None => false,
    }
}

pub const DOCUMENTS: [&'static str; 20] = [
    "pdf", "doc", "docx", "xls", "xlsx", "ppt", "pptx", "odt", "ods", "odp", "txt", "rtf", "md",
    "epub", "mobi", "csv", "tex", "pages", "numbers", "key",
];

pub const IMAGES: [&'static str; 18] = [
    "jpg", "jpeg", "png", "gif", "bmp", "webp", "tif", "tiff", "ico", "svg", "heic", "raw", "cr2",
    "nef", "arw", "psd", "ai", "xcf",
];

pub const AUDIO: [&'static str; 11] = [
    "mp3", "wav", "flac", "aac", "ogg", "wma", "m4a", "opus", "aiff", "mid", "midi",
];

pub const VIDEO: [&'static str; 13] = [
    "mp4", "mkv", "avi", "mov", "wmv", "flv", "webm", "m4v", "mpg", "mpeg", "3gp", "ts", "vob",
];

pub const ARCHIVES: [&'static str; 12] = [
    "zip", "rar", "7z", "tar", "gz", "bz2", "xz", "zst", "iso", "cab", "arj", "lz",
];

pub const CODE: [&'static str; 41] = [
    "rs", "py", "js", "ts", "jsx", "tsx", "c", "h", "cpp", "hpp", "cc", "cs", "java", "kt", "go",
    "rb", "php", "swift", "sh", "bat", "ps1", "cmd", "html", "htm", "css", "scss", "json", "xml",
    "yml", "yaml", "toml", "ini", "sql", "lua", "pl", "r", "dart", "scala", "zig", "vue", "svelte",
];

pub const EXECUTABLES: [&'static str; 15] = [
    "exe", "msi", "dll", "sys", "com", "scr", "app", "deb", "rpm", "appimage", "apk", "jar", "bin",
    "so", "dylib",
];

/// Text files beyond program code.
pub const PLAIN_TEXT: [&'static str; 22] = [
    "txt", "md", "log", "csv", "tsv", "cfg", "conf", "env", "rst", "properties", "gitignore",
    "editorconfig", "dockerfile", "makefile", "srt", "sub", "vtt", "nfo", "reg", "inf", "diff",
    "patch",
];

/// Images that can be shown.
pub const SHOWN_IMAGES: [&'static str; 9] = [
    "jpg", "jpeg", "png", "gif", "bmp", "webp", "ico", "tif", "tiff",
];

#[derive(Clone, Copy, Debug, PartialEq, Eq, Structural)]
pub enum Category {
    All,
    Folders,
    Files,
    Documents,
    Images,
    Audio,
    Video,
    Archives,
    Code,
    Executables,
}

impl Default for Category {
    fn default() -> (r: Self)
        ensures
            r == Category::All,
    {
        Category::All
    }
}

impl Category {
    pub const ALL: [Category; 10] = [
        Category::All,
        Category::Folders,
        Category::Files,
        Category::Documents,
        Category::Images,
        Category::Audio,
        Category::Video,
        Category::Archives,
        Category::Code,
        Category::Executables,
    ];

    /// The label shown for a category.
    pub open spec fn label_text(self) -> Seq<char> {
        match self {
            Category::All => "All"@,
            Category::Folders => "Folders"@,
            Category::Files => "Files"@,
            Category::Documents => "Documents"@,
            Category::Images => "Images"@,
            Category::Audio => "Audio"@,
            Category::Video => "Video"@,
            Category::Archives => "Archives"@,
            Category::Code => "Code"@,
            Category::Executables => "Executables"@,
        }
    }

    pub fn label(self) -> (r: &'static str)
        ensures
            r@ == self.label_text(),
    {
        match self {
            Category::All => "All",
            Category::Folders => "Folders",
            Category::Files => "Files",
            Category::Documents => "Documents",
            Category::Images => "Images",
            Category::Audio => "Audio",
            Category::Video => "Video",
            Category::Archives => "Archives",
            Category::Code => "Code",
            Category::Executables => "Executables",
        }
    }

    /// The extensions of a category; none where it does not go by extension.
    pub open spec fn extension_list(self) -> Seq<Seq<char>> {
        match self {
            Category::Documents => texts(DOCUMENTS@),
            Category::Images => texts(IMAGES@),
            Category::Audio => texts(AUDIO@),
            Category::Video => texts(VIDEO@),
            Category::Archives => texts(ARCHIVES@),
            Category::Code => texts(CODE@),
            Category::Executables => texts(EXECUTABLES@),
            _ => Seq::empty(),
        }
    }

    pub fn extensions(self) -> (r: &'static [&'static str])
        ensures
            texts(r@) == self.extension_list(),
    {
        match self {
            Category::Documents => &DOCUMENTS,
            Category::Images => &IMAGES,
            Category::Audio => &AUDIO,
            Category::Video => &VIDEO,
            Category::Archives => &ARCHIVES,
            Category::Code => &CODE,
            Category::Executables => &EXECUTABLES,
            _ => {
                let none: &'static [&'static str] = &[];
                assert(texts(none@) =~= Seq::<Seq<char>>::empty());
                none
            },
        }
    }

    /// Whether something belongs to a category: folders and files by kind, the
    /// rest are files with a fitting extension.
    pub open spec fn holds(self, name: Seq<char>, is_dir: bool) -> bool {
        match self {
            Category::All => true,
            Category::Folders => is_dir,
            Category::Files => !is_dir,
            _ => !is_dir && (lower_extension(name) matches Some(e)
                && self.extension_list().contains(e)),
        }
    }

    pub fn matches(self, name: &str, is_dir: bool) -> (r: bool)
        ensures
            r == self.holds(name@, is_dir),
    {
        match self {
            Category::All => true,
            Category::Folders => is_dir,
            Category::Files => !is_dir,
            other => !is_dir && has_extension(name, other.extensions()),
        }
    }
}

/// Whether a file may be previewed or searched as text. Many text files have no
/// extension (Makefile, LICENSE, README).
pub fn is_texty(name: &str) -> (r: bool)
    ensures
        r == (match lower_extension(name@) {
            Some(e) => texts(CODE@).contains(e) || texts(PLAIN_TEXT@).contains(e),
            None => true,
        }),
{
    match lower_extension_of(name) {
        Some(e) => listed(&CODE, e.as_str()) || listed(&PLAIN_TEXT, e.as_str()),
        None => true,
    }
}

/// Whether a file is an image that can be shown.
pub fn is_image_ext(name: &str) -> (r: bool)
    ensures
        r == (lower_extension(name@) matches Some(e) && texts(SHOWN_IMAGES@).contains(e)),
{
    has_extension(name, &SHOWN_IMAGES)
}

proof fn lemma_last_dot_lower(s: Seq<char>)
    ensures
        last_of(lower_all(s), '.') == last_of(s, '.'),
    decreases s.len(),
{
    if s.len() > 0 {
        assert(lower_all(s).drop_last() =~= lower_all(s.drop_last()));
        lemma_last_dot_lower(s.drop_last());
    }
}

/// Case does not matter to a category: names that differ only in case belong to
/// the same ones.
pub proof fn law_category_ignores_case(c: Category, a: Seq<char>, b: Seq<char>, is_dir: bool)
    requires
        lower_all(a) == lower_all(b),
    ensures
        c.holds(a, is_dir) == c.holds(b, is_dir),
{
    lemma_last_dot_lower(a);
    lemma_last_dot_lower(b);
    lemma_last_of(a, '.');
    assert(lower_all(a).len() == a.len() && lower_all(b).len() == b.len());
    let d = last_of(a, '.');
    if extension(a) is Some {
        assert(lower_all(a).skip(d + 1) =~= lower_all(a.skip(d + 1)));
        assert(lower_all(b).skip(d + 1) =~= lower_all(b.skip(d + 1)));
    }
}

// ---------------------------------------------------------------------------
// Roots and exclusions
// ---------------------------------------------------------------------------

/// Default index roots where there are no drives: the home directory, or the
/// root of the file system where there is none.
pub fn default_roots(home: Option<String>) -> (r: Vec<String>)
    ensures
        views(r@) == seq![
            match home {
                Some(h) => h@,
                None => "/"@,
            },
        ],
{
    let mut r: Vec<String> = Vec::new();
    r.push(match home {
        Some(h) => h,
        None => "/".to_owned(),
    });
    assert(views(r@) =~= seq![r@[0]@]);
    r
}

/// The letter of a drive.
pub open spec fn drive_letter(n: int) -> char {
    (65 + n) as u8 as char
}

/// The roots of the first `n` drives that are present.
pub open spec fn drives(present: Seq<bool>, n: nat) -> Seq<Seq<char>>
    decreases n,
{
    if n == 0 {
        Seq::empty()
    } else if present[n - 1] {
        drives(present, (n - 1) as nat).push(seq![drive_letter(n - 1), ':', '/'])
    } else {
        drives(present, (n - 1) as nat)
    }
}

/// Default index roots where there are drives: every drive that is present.
pub fn drive_roots(present: &[bool]) -> (r: Vec<String>)
    requires
        present@.len() <= 26,
    ensures
        views(r@) == drives(present@, present@.len()),
{
    let mut r: Vec<String> = Vec::new();
    assert(views(r@) =~= drives(present@, 0));
    for i in 0..present.len()
        invariant
            present@.len() <= 26,
            views(r@) == drives(present@, i as nat),
    {
        if present[i] {
            let mut root = String::new();
            root.push((65 + i as u8) as char);
            root.push(':');
            root.push('/');
            assert(root@ =~= seq![drive_letter(i as int), ':', '/']);
            let ghost before = r@;
            r.push(root);
            assert(views(r@) =~= views(before).push(root@));
        }
    }
    r
}

/// Development and cache noise that nobody wants in search results.
pub const NOISE: [&'static str; 40] = [
    // Version control internals
    ".git", ".hg", ".svn",
    // Node / JS
    "node_modules", "bower_components", ".npm", ".yarn", ".pnpm-store", ".next", ".nuxt",
    ".angular", ".parcel-cache", ".turbo",
    // Python
    ".venv", "venv", "virtualenv", "__pycache__", ".tox", ".nox", ".mypy_cache", ".pytest_cache",
    ".ruff_cache", ".ipynb_checkpoints", "site-packages", "__pypackages__", ".eggs",
    // Conda (any env or package cache, wherever the install lives)
    ".conda", "anaconda3/envs", "anaconda3/pkgs", "miniconda3/envs", "miniconda3/pkgs",
    "mambaforge/envs", "mambaforge/pkgs",
    // Docker
    ".docker",
    // Other build/dependency caches
    ".gradle", ".m2", ".nuget", ".terraform", ".bundle", ".ccache",
];

pub const WINDOWS_NOISE: [&'static str; 11] = [
    "$Recycle.Bin", "System Volume Information", "\\Windows\\WinSxS", "\\Windows\\servicing",
    "\\Windows\\SoftwareDistribution", "\\AppData\\Local\\Temp",
    "\\AppData\\Local\\Microsoft\\Windows\\INetCache", "\\AppData\\Local\\npm-cache",
    "\\AppData\\Local\\pip", "\\.cargo\\registry", "\\.rustup\\toolchains",
];

pub const UNIX_NOISE: [&'static str; 9] = [
    "/proc", "/sys", "/dev", "/run", "/snap", ".cache", "/.cargo/registry", "/.rustup/toolchains",
    ".local/share/Trash",
];

/// The exclusions that apply out of the box.
pub open spec fn default_exclusion_list(windows: bool) -> Seq<Seq<char>> {
    texts(NOISE@) + (if windows {
        texts(WINDOWS_NOISE@)
    } else {
        texts(UNIX_NOISE@)
    })
}

/// `std::path::is_separator` tells whether a character separates path components
/// on this platform; nothing more is claimed of it.
pub assume_specification[ std::path::is_separator ](c: char) -> (r: bool)
;

/// The default exclusions for Windows or for another platform.
pub fn default_exclusions_for(windows: bool) -> (r: Vec<String>)
    ensures
        views(r@) == default_exclusion_list(windows),
{
    let mut r = owned(&NOISE);
    let mut more = if windows {
        owned(&WINDOWS_NOISE)
    } else {
        owned(&UNIX_NOISE)
    };
    let ghost a = r@;
    let ghost b = more@;
    r.append(&mut more);
    assert(views(r@) =~= views(a) + views(b));
    r
}

/// The default exclusions for this platform: a platform that separates path
/// components with a backslash is Windows.
pub fn default_exclusions() -> (r: Vec<String>)
    ensures
        views(r@) == default_exclusion_list(true) || views(r@) == default_exclusion_list(false),
{
    default_exclusions_for(std::path::is_separator('\\'))
}

/// Pre-split exclusion patterns for fast repeated matching during scans.
pub struct ExclusionMatcher {
    /// Patterns matched against whole path components (no separators).
    components: Vec<String>,
    /// Patterns matched against runs of whole components of the full path
    /// (contain separators).
    substrings: Vec<String>,
}

/// Whether a pattern speaks of more than one component.
pub open spec fn has_separator(p: Seq<char>) -> bool {
    p.contains('/') || p.contains('\\')
}

/// The patterns that count: those that hold more than white space, without the
/// white space around them.
pub open spec fn patterns(list: Seq<Seq<char>>) -> Seq<Seq<char>>
    decreases list.len(),
{
    if list.len() == 0 {
        Seq::empty()
    } else {
        let before = patterns(list.drop_last());
        let p = trim(list.last());
        if p.len() == 0 {
            before
        } else {
            before.push(p)
        }
    }
}

/// Both kinds of slash.
pub open spec fn is_slash(b: u8) -> bool {
    b == 47 || b == 92
}

/// Bytes that are the same in a path: ASCII case does not count, and neither
/// does the kind of slash.
pub open spec fn same_in_path() -> spec_fn(u8, u8) -> bool {
    |a: u8, b: u8| lower_byte(a) == lower_byte(b) || (is_slash(a) && is_slash(b))
}

/// Whether `len` bytes from `i` on begin and end where components of a path do,
/// given whether they begin with a slash.
pub open spec fn at_boundaries(path: Seq<u8>, i: int, len: int, slash_first: bool) -> bool {
    &&& i == 0 || slash_first || is_slash(path[i - 1])
    &&& i + len == path.len() || is_slash(path[i + len])
}

/// Whether a pattern stands in a path so that it begins and ends where components
/// do.
pub open spec fn segment_in(path: Seq<u8>, pattern: Seq<u8>) -> bool {
    pattern.len() > 0 && exists|i: int|
        #[trigger] stands_with(same_in_path(), path, pattern, i) && at_boundaries(
            path,
            i,
            pattern.len() as int,
            is_slash(pattern[0]),
        )
}

/// Whether a pattern excludes a path. One without a slash names a whole
/// component; one with slashes names a run of whole components.
pub open spec fn excluded_by(path: Seq<char>, pattern: Seq<char>) -> bool {
    if has_separator(pattern) {
        segment_in(bytes(path), bytes(pattern))
    } else {
        exists|i: int|
            0 <= i < components_of(path).len() && is_name(#[trigger] components_of(path)[i])
                && lower_all(components_of(path)[i]) == lower_all(pattern)
    }
}

/// Whether one of the patterns excludes a path.
pub open spec fn excluded(path: Seq<char>, list: Seq<Seq<char>>) -> bool {
    exists|k: int|
        0 <= k < patterns(list).len() && excluded_by(path, #[trigger] patterns(list)[k])
}

fn slash(b: u8) -> (r: bool)
    ensures
        r == is_slash(b),
{
    b == 47 || b == 92
}

/// Case-insensitive match at component boundaries only (`/proc` matches
/// `/proc/cpuinfo` but not `/process.txt`), with both slashes interchangeable so
/// that patterns work on every platform.
pub fn path_contains_segment(haystack: &str, pattern: &str) -> (r: bool)
    ensures
        r == segment_in(bytes(haystack@), bytes(pattern@)),
{
    let h = haystack.as_bytes();
    let n = pattern.as_bytes();
    let len: usize = h.len();
    if n.len() == 0 || n.len() > len {
        return false;
    }
    let ghost same = same_in_path();
    let mut i: usize = 0;
    while i <= len - n.len()
        invariant
            h@ == bytes(haystack@),
            n@ == bytes(pattern@),
            len == h@.len(),
            0 < n@.len() <= len,
            i <= len - n@.len() + 1,
            same == same_in_path(),
            forall|j: int|
                0 <= j < i && #[trigger] stands_with(same, h@, n@, j) ==> !at_boundaries(
                    h@,
                    j,
                    n@.len() as int,
                    is_slash(n@[0]),
                ),
        decreases len - i,
    {
        let mut k: usize = 0;
        while k < n.len() && (lowered(h[i + k]) == lowered(n[k]) || (slash(h[i + k]) && slash(
            n[k],
        )))
            invariant
                len == h@.len(),
                k <= n@.len(),
                i + n@.len() <= len,
                same == same_in_path(),
                forall|j: int| 0 <= j < k ==> same(#[trigger] h@[i + j], n@[j]),
            decreases n@.len() - k,
        {
            k = k + 1;
        }
        if k == n.len() {
            assert(stands_with(same, h@, n@, i as int));
            let end: usize = i + n.len();
            if (i == 0 || slash(n[0]) || slash(h[i - 1])) && (end == len || slash(h[end])) {
                return true;
            }
        } else {
            assert(!stands_with(same, h@, n@, i as int)) by {
                assert(!same(h@[i + k], n@[k as int]));
            }
        }
        if i == len - n.len() {
            return false;
        }
        i = i + 1;
    }
    false
}

/// Whether a text holds a character.
fn holds_char(s: &[char], c: char) -> (r: bool)
    ensures
        r == s@.contains(c),
{
    for i in 0..s.len()
        invariant
            forall|j: int| 0 <= j < i ==> s@[j] != c,
    {
        if s[i] == c {
            assert(s@[i as int] == c);
            return true;
        }
    }
    false
}

/// Whether `c` is the lower case of a pattern that names a whole component.
pub open spec fn is_lowered_name(all: Seq<Seq<char>>, c: Seq<char>) -> bool {
    exists|k: int|
        0 <= k < all.len() && !has_separator(#[trigger] all[k]) && lower_all(all[k]) == c
}

impl ExclusionMatcher {
    /// The patterns that the matcher was made from.
    pub closed spec fn made_from(self, list: Seq<Seq<char>>) -> bool {
        let all = patterns(list);
        &&& forall|k: int|
            0 <= k < all.len() ==> if has_separator(#[trigger] all[k]) {
                views(self.substrings@).contains(all[k])
            } else {
                views(self.components@).contains(lower_all(all[k]))
            }
        &&& forall|i: int|
            0 <= i < self.substrings@.len() ==> has_separator((#[trigger] self.substrings@[i])@)
                && all.contains(self.substrings@[i]@)
        &&& forall|i: int|
            0 <= i < self.components@.len() ==> is_lowered_name(
                all,
                (#[trigger] self.components@[i])@,
            )
    }

    pub fn new(exclusions: &[String]) -> (r: Self)
        ensures
            r.made_from(views(exclusions@)),
    {
        let mut r = ExclusionMatcher { components: Vec::new(), substrings: Vec::new() };
        let ghost list = views(exclusions@);
        for n in 0..exclusions.len()
            invariant
                list == views(exclusions@),
                r.made_from(list.take(n as int)),
        {
            let ghost before = patterns(list.take(n as int));
            let ghost was = r;
            let ghost now = patterns(list.take(n + 1));
            assert(list.take(n + 1).drop_last() =~= list.take(n as int));
            assert(list.take(n + 1).last() == exclusions@[n as int]@);
            let chars = to_chars(exclusions[n].as_str());
            let p = trimmed(chars.as_slice());
            if p.len() > 0 {
                let text = from_chars(p);
                assert(now == before.push(p@));
                assert forall|k: int| 0 <= k < before.len() implies now[k]
                    == #[trigger] before[k] by {}
                assert(now[before.len() as int] == p@);
                if holds_char(p, '/') || holds_char(p, '\\') {
                    r.substrings.push(text);
                    assert(views(r.substrings@) =~= views(was.substrings@).push(p@));
                    proof {
                        r.lemma_grown(was, list.take(n as int), list.take(n + 1), p@);
                    }
                } else {
                    let low = lower_text(text.as_str());
                    r.components.push(low);
                    assert(views(r.components@) =~= views(was.components@).push(lower_all(p@)));
                    proof {
                        r.lemma_grown(was, list.take(n as int), list.take(n + 1), p@);
                    }
                }
            } else {
                assert(now == before);
            }
        }
        assert(list.take(list.len() as int) =~= list);
        r
    }

    proof fn lemma_grown(
        self,
        was: Self,
        old_list: Seq<Seq<char>>,
        new_list: Seq<Seq<char>>,
        p: Seq<char>,
    )
        requires
            was.made_from(old_list),
            patterns(new_list) == patterns(old_list).push(p),
            if has_separator(p) {
                views(self.substrings@) == views(was.substrings@).push(p) && self.components@
                    == was.components@
            } else {
                views(self.components@) == views(was.components@).push(lower_all(p))
                    && self.substrings@ == was.substrings@
            },
        ensures
            self.made_from(new_list),
    {
        let before = patterns(old_list);
        let now = patterns(new_list);
        assert(now[before.len() as int] == p);
        assert forall|k: int| 0 <= k < now.len() implies if has_separator(#[trigger] now[k]) {
            views(self.substrings@).contains(now[k])
        } else {
            views(self.components@).contains(lower_all(now[k]))
        } by {
            if k < before.len() {
                assert(now[k] == before[k]);
                if has_separator(now[k]) {
                    let i = choose|i: int|
                        0 <= i < views(was.substrings@).len() && views(was.substrings@)[i] == now[k];
                    assert(views(self.substrings@)[i] == now[k]);
                } else {
                    let i = choose|i: int|
                        0 <= i < views(was.components@).len() && views(was.components@)[i]
                            == lower_all(now[k]);
                    assert(views(self.components@)[i] == lower_all(now[k]));
                }
            } else if has_separator(p) {
                assert(views(self.substrings@)[views(was.substrings@).len() as int] == p);
            } else {
                assert(views(self.components@)[views(was.components@).len() as int] == lower_all(p));
            }
        }
        assert forall|i: int| 0 <= i < self.substrings@.len() implies has_separator(
            (#[trigger] self.substrings@[i])@,
        ) && now.contains(self.substrings@[i]@) by {
            assert(views(self.substrings@)[i] == self.substrings@[i]@);
            if i < was.substrings@.len() {
                assert(views(was.substrings@)[i] == was.substrings@[i]@);
                assert(before.contains(was.substrings@[i]@));
                let k = choose|k: int| 0 <= k < before.len() && before[k] == was.substrings@[i]@;
                assert(now[k] == was.substrings@[i]@);
            }
        }
        assert forall|i: int| 0 <= i < self.components@.len() implies is_lowered_name(
            now,
            (#[trigger] self.components@[i])@,
        ) by {
            assert(views(self.components@)[i] == self.components@[i]@);
            if i < was.components@.len() {
                let c = was.components@[i]@;
                assert(views(was.components@)[i] == c);
                assert(is_lowered_name(before, c));
                let k = choose|k: int|
                    0 <= k < before.len() && !has_separator(#[trigger] before[k]) && lower_all(
                        before[k],
                    ) == c;
                assert(now[k] == before[k]);
            } else {
                assert(!has_separator(now[before.len() as int]));
            }
        }
    }

    /// Whether a path is excluded.
    pub fn matches(&self, path: &str) -> (r: bool)
        ensures
            forall|list: Seq<Seq<char>>| #[trigger]
                self.made_from(list) ==> r == excluded(path@, list),
    {
        let parts = components(path);
        let ghost comps = components_of(path@);
        for i in 0..parts.len()
            invariant
                comps == components_of(path@),
                views(parts@) == comps,
                forall|j: int, c: int|
                    0 <= j < i && 0 <= c < self.components@.len() && is_name(comps[j])
                        ==> lower_all(#[trigger] comps[j]) != lower_all(
                        (#[trigger] self.components@[c])@,
                    ),
        {
            assert(comps[i as int] == parts@[i as int]@);
            if is_name_component(parts[i].as_str()) {
                let low = lower_text(parts[i].as_str());
                for n in 0..self.components.len()
                    invariant
                        low@ == lower_all(comps[i as int]),
                        comps == components_of(path@),
                        i < comps.len(),
                        is_name(comps[i as int]),
                        forall|c: int|
                            0 <= c < n ==> lower_all(comps[i as int]) != lower_all(
                                (#[trigger] self.components@[c])@,
                            ),
                {
                    let wanted = lower_text(self.components[n].as_str());
                    if same_text(low.as_str(), wanted.as_str()) {
                        proof {
                            self.lemma_component_hit(path@, i as int, n as int);
                        }
                        return true;
                    }
                }
            }
        }
        for n in 0..self.substrings.len()
            invariant
                forall|c: int|
                    0 <= c < n ==> !segment_in(
                        bytes(path@),
                        bytes((#[trigger] self.substrings@[c])@),
                    ),
        {
            if path_contains_segment(path, self.substrings[n].as_str()) {
                proof {
                    self.lemma_segment_hit(path@, n as int);
                }
                return true;
            }
        }
        assert forall|list: Seq<Seq<char>>| #[trigger] self.made_from(list) implies !excluded(
            path@,
            list,
        ) by {
            if excluded(path@, list) {
                let k = choose|k: int|
                    0 <= k < patterns(list).len() && excluded_by(
                        path@,
                        #[trigger] patterns(list)[k],
                    );
                let p = patterns(list)[k];
                if has_separator(p) {
                    let c = choose|c: int|
                        0 <= c < views(self.substrings@).len() && views(self.substrings@)[c] == p;
                    assert(self.substrings@[c]@ == p);
                } else {
                    let c = choose|c: int|
                        0 <= c < views(self.components@).len() && views(self.components@)[c]
                            == lower_all(p);
                    assert(self.components@[c]@ == lower_all(p));
                    crate::text::lemma_lower_idempotent(p);
                    let i = choose|i: int|
                        0 <= i < comps.len() && is_name(#[trigger] comps[i]) && lower_all(comps[i])
                            == lower_all(p);
                    assert(lower_all(comps[i]) != lower_all(self.components@[c]@));
                }
            }
        }
        false
    }

    proof fn lemma_component_hit(self, path: Seq<char>, i: int, c: int)
        requires
            0 <= i < components_of(path).len(),
            is_name(components_of(path)[i]),
            0 <= c < self.components@.len(),
            lower_all(components_of(path)[i]) == lower_all(self.components@[c]@),
        ensures
            forall|list: Seq<Seq<char>>| #[trigger] self.made_from(list) ==> excluded(path, list),
    {
        assert forall|list: Seq<Seq<char>>| #[trigger] self.made_from(list) implies excluded(
            path,
            list,
        ) by {
            let all = patterns(list);
            assert(is_lowered_name(all, self.components@[c]@));
            let k = choose|k: int|
                0 <= k < all.len() && !has_separator(#[trigger] all[k]) && lower_all(all[k])
                    == self.components@[c]@;
            crate::text::lemma_lower_idempotent(all[k]);
            assert(excluded_by(path, all[k]));
        }
    }

    proof fn lemma_segment_hit(self, path: Seq<char>, c: int)
        requires
            0 <= c < self.substrings@.len(),
            segment_in(bytes(path), bytes(self.substrings@[c]@)),
        ensures
            forall|list: Seq<Seq<char>>| #[trigger] self.made_from(list) ==> excluded(path, list),
    {
        assert forall|list: Seq<Seq<char>>| #[trigger] self.made_from(list) implies excluded(
            path,
            list,
        ) by {
            let all = patterns(list);
            assert(all.contains(self.substrings@[c]@));
            let k = choose|k: int| 0 <= k < all.len() && all[k] == self.substrings@[c]@;
            assert(excluded_by(path, all[k]));
        }
    }
}

/// Whether one of the exclusions applies to a path.
pub fn is_excluded(path: &str, exclusions: &[String]) -> (r: bool)
    ensures
        r == excluded(path@, views(exclusions@)),
{
    if exclusions.len() == 0 {
        assert(views(exclusions@) =~= Seq::<Seq<char>>::empty());
        return false;
    }
    let m = ExclusionMatcher::new(exclusions);
    assert(m.made_from(views(exclusions@)));
    m.matches(path)
}

/// A pattern without a slash excludes a path exactly when it is one of the
/// path's components up to case: a longer name that starts with it is not hidden
/// by it.
pub proof fn law_component_patterns_match_whole_names(path: Seq<char>, pattern: Seq<char>)
    requires
        !has_separator(pattern),
        forall|i: int|
            0 <= i < components_of(path).len() ==> (#[trigger] components_of(path)[i]).len()
                != pattern.len(),
    ensures
        !excluded_by(path, pattern),
{
    if excluded_by(path, pattern) {
        let i = choose|i: int|
            0 <= i < components_of(path).len() && is_name(#[trigger] components_of(path)[i])
                && lower_all(components_of(path)[i]) == lower_all(pattern);
        assert(lower_all(components_of(path)[i]).len() == components_of(path)[i].len());
        assert(lower_all(pattern).len() == pattern.len());
    }
}

/// What is excluded stays excluded when exclusions are added.
pub proof fn law_more_exclusions_exclude_more(path: Seq<char>, list: Seq<Seq<char>>, p: Seq<char>)
    ensures
        excluded(path, list) ==> excluded(path, list.push(p)),
        excluded(path, list.push(p)) <==> excluded(path, list) || (trim(p).len() > 0
            && excluded_by(path, trim(p))),
{
    let more = list.push(p);
    assert(more.drop_last() =~= list);
    if excluded(path, list) {
        let k = choose|k: int|
            0 <= k < patterns(list).len() && excluded_by(path, #[trigger] patterns(list)[k]);
        assert(patterns(more)[k] == patterns(list)[k]);
    }
    if trim(p).len() > 0 && excluded_by(path, trim(p)) {
        assert(patterns(more)[patterns(list).len() as int] == trim(p));
    }
    if excluded(path, more) {
        let k = choose|k: int|
            0 <= k < patterns(more).len() && excluded_by(path, #[trigger] patterns(more)[k]);
        if k < patterns(list).len() {
            assert(patterns(more)[k] == patterns(list)[k]);
        }
    }
}

/// What contains a text has it as a part: something may stand before it and
/// behind it. Nothing else contains it.
pub proof fn law_containing_is_having_as_a_part(h: Seq<u8>, n: Seq<u8>)
    ensures
        contains_with(same_exactly(), h, n) <==> exists|before: Seq<u8>, after: Seq<u8>|
            h == #[trigger] (before + n + after),
{
    if contains_with(same_exactly(), h, n) {
        let i = choose|i: int| #[trigger] stands_with(same_exactly(), h, n, i);
        assert forall|k: int| 0 <= k < n.len() implies h[i + k] == #[trigger] n[k] by {
            assert(same_exactly()(h[i + k], n[k]));
        }
        assert(h =~= h.take(i) + n + h.skip(i + n.len()));
    }
    if exists|before: Seq<u8>, after: Seq<u8>| h == #[trigger] (before + n + after) {
        let (before, after) = choose|before: Seq<u8>, after: Seq<u8>|
            h == #[trigger] (before + n + after);
        assert(stands_with(same_exactly(), h, n, before.len() as int));
    }
}

/// Whether a name ends in a dot and an extension, with something before the dot.
/// Case does not count in the name.
pub open spec fn ends_in(name: Seq<char>, ext: Seq<char>) -> bool {
    &&& ext.len() > 0
    &&& name.len() > ext.len() + 1
    &&& name[name.len() - ext.len() - 1] == '.'
    &&& forall|k: int|
        0 <= k < ext.len() ==> lower(#[trigger] name[name.len() - ext.len() + k]) == ext[k]
}

/// A name has the extension behind its last dot, where something stands before
/// and behind that dot.
pub proof fn law_extension_follows_the_last_dot(stem: Seq<char>, ext: Seq<char>)
    requires
        stem.len() > 0,
        ext.len() > 0,
        !ext.contains('.'),
    ensures
        extension(stem + seq!['.'] + ext) == Some(ext),
        lower_extension(stem + seq!['.'] + ext) == Some(lower_all(ext)),
{
    let name = stem + seq!['.'] + ext;
    lemma_last_of(name, '.');
    let d = last_of(name, '.');
    assert(name[stem.len() as int] == '.');
    if d > stem.len() {
        assert(ext[d - stem.len() - 1] == '.');
    }
    assert(name.skip(d + 1) =~= ext);
}

/// A name without a dot inside it has no extension, and every extension is what
/// the name ends in.
pub proof fn law_extension_is_the_end(name: Seq<char>, ext: Seq<char>)
    ensures
        (forall|i: int| 0 < i < name.len() - 1 ==> name[i] != '.') ==> extension(name) is None,
        lower_extension(name) == Some(ext) ==> ends_in(name, ext) && !ext.contains('.'),
        ends_in(name, ext) && !ext.contains('.') ==> lower_extension(name) == Some(ext),
{
    lemma_last_of(name, '.');
    let d = last_of(name, '.');
    if lower_extension(name) == Some(ext) {
        let e = name.skip(d + 1);
        assert(ext == lower_all(e));
        assert forall|k: int| 0 <= k < ext.len() implies lower(
            #[trigger] name[name.len() - ext.len() + k],
        ) == ext[k] by {
            assert(e[k] == name[d + 1 + k]);
        }
        if ext.contains('.') {
            let k = choose|k: int| 0 <= k < ext.len() && ext[k] == '.';
            assert(lower(e[k]) == '.');
            assert(name[d + 1 + k] == '.');
        }
    }
    if ends_in(name, ext) && !ext.contains('.') {
        let at = name.len() - ext.len() - 1;
        if d > at {
            assert(name[name.len() - ext.len() + (d - at - 1)] == '.');
            assert(ext[d - at - 1] == '.');
        }
        let low = lower_all(name.skip(d + 1));
        assert forall|k: int| 0 <= k < ext.len() implies #[trigger] low[k] == ext[k] by {
            assert(name[name.len() - ext.len() + k] == name.skip(d + 1)[k]);
        }
        assert(low =~= ext);
    }
}

// ---------------------------------------------------------------------------
// Laws of sizes
// ---------------------------------------------------------------------------

/// The number of bytes in a unit, by the letters that name it in any case: nothing
/// or `b` for one byte, `k` or `kb` for 1024, and so on up to `t` or `tb`.
pub open spec fn bytes_in(unit: Seq<char>) -> Option<nat> {
    let u = lower_all(unit);
    if u.len() == 0 || u == seq!['b'] {
        Some(1)
    } else if u == seq!['k'] || u == seq!['k', 'b'] {
        Some(1024)
    } else if u == seq!['m'] || u == seq!['m', 'b'] {
        Some(1024 * 1024)
    } else if u == seq!['g'] || u == seq!['g', 'b'] {
        Some(1024 * 1024 * 1024)
    } else if u == seq!['t'] || u == seq!['t', 'b'] {
        Some(1024 * 1024 * 1024 * 1024)
    } else {
        None
    }
}

/// A whole number and a unit stand for that many times the bytes of the unit, as
/// long as that is less than 2 to the power of 53. Letters that are no unit make no
/// size.
pub proof fn law_sizes_are_read(n: nat, unit: Seq<char>)
    requires
        forall|i: int| 0 <= i < unit.len() ==> is_letter(#[trigger] unit[i]),
        bytes_in(unit) matches Some(b) ==> n * b < 0x20_0000_0000_0000,
    ensures
        bytes_in(unit) is None ==> size_of_text(decimal(n) + unit) is None,
        bytes_in(unit) matches Some(b) ==> size_of_text(decimal(n) + unit) == Some((n * b) as u64),
{
    let digits = decimal(n);
    let s = digits + unit;
    let low = lower_all(unit);
    law_decimals_read_back(n);
    assert(is_digit(digits[0]));
    assert(s[0] == digits[0]);
    if unit.len() > 0 {
        assert(is_letter(unit[unit.len() - 1]));
        assert(s.last() == unit[unit.len() - 1]);
    } else {
        assert(is_digit(digits[digits.len() - 1]));
        assert(s.last() == digits[digits.len() - 1]);
    }
    assert(trim(s) == s);
    let t = lower_all(s);
    assert forall|i: int| 0 <= i < digits.len() implies t[i] == digits[i] && !is_letter(
        #[trigger] t[i],
    ) by {
        assert(is_digit(digits[i]));
    }
    let at = digits.len() as int;
    if unit.len() > 0 {
        assert(is_letter(unit[0]));
        assert(t[at] == lower(unit[0]));
    }
    lemma_first_letter(t, at);
    assert(t.take(at) =~= digits);
    assert(t.skip(at) =~= low);
    assert(is_digit(digits[digits.len() - 1]));
    assert(trim(digits) == digits);
    assert(trim(low) == low) by {
        if low.len() > 0 {
            assert(is_letter(unit[0]) && is_letter(unit[unit.len() - 1]));
            assert(low[0] == lower(unit[0]) && low.last() == lower(unit[unit.len() - 1]));
        }
    }
    assert(lower_all(unit).len() == unit.len());
    assert forall|i: int| 0 <= i < digits.len() implies digits[i] != '.' by {
        assert(is_digit(digits[i]));
    }
    crate::numbers::lemma_first_of(digits, '.', at);
    let none = Seq::<char>::empty();
    assert(digits.take(at) =~= digits);
    let parts = crate::numbers::DecimalParts { negative: false, whole: digits, fraction: none };
    assert(all_digits(none));
    assert(decimal_parts(digits) == Some(parts));
    if let Some(b) = bytes_in(unit) {
        crate::numbers::lemma_two_values();
        let shift = unit_shift(low)->0;
        assert(unit_shift(low) is Some);
        assert(two_to(shift) == b);
        assert(digits + none =~= digits);
        assert(ten_to(0) == 1);
        law_small_numbers_are_doubles(n * b);
        assert(scaled_value(parts, shift) == (n * b) as u64);
    } else {
        assert(unit_shift(low) is None);
    }
}

proof fn lemma_unit_for(v: nat, unit: nat)
    requires
        unit <= 5,
        v >= kilo_to(unit),
    ensures
        unit <= unit_for(v, unit) <= 5,
        kilo_to(unit_for(v, unit)) <= v,
        unit_for(v, unit) < 5 ==> v < kilo_to(unit_for(v, unit) + 1),
    decreases 5 - unit,
{
    if unit < 5 && v >= kilo_to(unit + 1) {
        lemma_unit_for(v, unit + 1);
    }
}

/// A size is shown in the largest unit that it reaches, to the nearest tenth, or to
/// the nearest whole number from 100 on: what is shown is at most half of the last
/// place away from the size. Below 1024 the bytes are counted.
pub proof fn law_sizes_are_shown_to_the_nearest(n: nat)
    requires
        n < 0x20_0000_0000_0000,
    ensures
        n < 1024 ==> size_text(n) == decimal(n) + seq![' ', 'B'],
        n >= 1024 ==> exists|d: nat, tenths: nat, unit: Seq<char>|
            {
                &&& #[trigger] is_unit(d, unit)
                &&& d <= n
                &&& n < 1024 * d || d == 1024 * 1024 * 1024 * 1024 * 1024
                &&& n < 100 * d ==> {
                    &&& size_text(n) == decimal(tenths / 10) + seq!['.', digit_char(tenths % 10), ' ']
                        + unit
                    &&& 20 * n <= #[trigger] (2 * tenths * d) + d
                    &&& 2 * tenths * d <= 20 * n + d
                }
                &&& n >= 100 * d ==> {
                    &&& size_text(n) == decimal(tenths) + seq![' '] + unit
                    &&& 2 * n <= 2 * tenths * d + d
                    &&& 2 * tenths * d <= 2 * n + d
                }
            },
{
    reveal_strlit("B");
    law_small_numbers_are_doubles(n);
    if n < 1024 {
        assert(size_text(n) =~= decimal(n) + seq![' ', 'B']);
    } else {
        assert(kilo_to(0) == 1);
        lemma_unit_for(n, 0);
        let u = unit_for(n, 0);
        let d = kilo_to(u);
        reveal_with_fuel(kilo_to, 7);
        assert(kilo_to(u + 1) == 1024 * d);
        let unit = UNITS@[u as int]@;
        assert(UNITS@[1]@ == "KB"@ && UNITS@[2]@ == "MB"@ && UNITS@[3]@ == "GB"@ && UNITS@[4]@
            == "TB"@ && UNITS@[5]@ == "PB"@);
        reveal_strlit("KB");
        reveal_strlit("MB");
        reveal_strlit("GB");
        reveal_strlit("TB");
        reveal_strlit("PB");
        assert("KB"@ =~= seq!['K', 'B'] && "MB"@ =~= seq!['M', 'B'] && "GB"@ =~= seq!['G', 'B']
            && "TB"@ =~= seq!['T', 'B'] && "PB"@ =~= seq!['P', 'B']);
        assert(is_unit(d, unit));
        let tenths = if n >= 100 * d {
            rounded(n, d)
        } else {
            rounded(10 * n, d)
        };
        if n >= 100 * d {
            law_rounding_is_to_the_nearest(n, d);
        } else {
            law_rounding_is_to_the_nearest(10 * n, d);
            assert(size_text(n) =~= decimal(tenths / 10) + seq!['.', digit_char(tenths % 10), ' ']
                + unit);
        }
        assert(is_unit(d, unit) && 0 <= 2 * tenths * d + d);
    }
}

/// The units that sizes are shown in, and the bytes in each.
pub open spec fn is_unit(d: nat, unit: Seq<char>) -> bool {
    ||| d == 1024 && unit == seq!['K', 'B']
    ||| d == 1024 * 1024 && unit == seq!['M', 'B']
    ||| d == 1024 * 1024 * 1024 && unit == seq!['G', 'B']
    ||| d == 1024 * 1024 * 1024 * 1024 && unit == seq!['T', 'B']
    ||| d == 1024 * 1024 * 1024 * 1024 * 1024 && unit == seq!['P', 'B']
}

// ---------------------------------------------------------------------------
// Laws of categories and exclusions
// ---------------------------------------------------------------------------

/// Everything is in the category of all, folders are in that of folders and in no
/// other, and every other category holds files only, by what their names end in.
pub proof fn law_categories_are_of_files_or_folders(c: Category, name: Seq<char>, is_dir: bool)
    ensures
        Category::All.holds(name, is_dir),
        Category::Folders.holds(name, is_dir) <==> is_dir,
        Category::Files.holds(name, is_dir) <==> !is_dir,
        c.holds(name, true) ==> c == Category::All || c == Category::Folders,
        c.holds(name, false) && c != Category::All && c != Category::Files ==> exists|k: int|
            0 <= k < c.extension_list().len() && ends_in(name, #[trigger] c.extension_list()[k]),
        forall|k: int|
            0 <= k < c.extension_list().len() && ends_in(name, #[trigger] c.extension_list()[k])
                && !c.extension_list()[k].contains('.') ==> c.holds(name, false),
{
    let list = c.extension_list();
    if let Some(e) = lower_extension(name) {
        law_extension_is_the_end(name, e);
    }
    assert forall|k: int|
        0 <= k < list.len() && ends_in(name, #[trigger] list[k]) && !list[k].contains(
            '.',
        ) implies c.holds(name, false) by {
        law_extension_is_the_end(name, list[k]);
    }
}

/// Some of what each category holds, whatever stands before the extension.
pub proof fn law_common_files_have_their_category(name: Seq<char>)
    ensures
        lower_extension(name) == Some("pdf"@) || lower_extension(name) == Some("docx"@)
            || lower_extension(name) == Some("txt"@) || lower_extension(name) == Some("md"@)
            || lower_extension(name) == Some("xlsx"@) || lower_extension(name) == Some("csv"@)
            ==> Category::Documents.holds(name, false),
        lower_extension(name) == Some("jpg"@) || lower_extension(name) == Some("jpeg"@)
            || lower_extension(name) == Some("png"@) || lower_extension(name) == Some("gif"@)
            || lower_extension(name) == Some("webp"@) || lower_extension(name) == Some("svg"@)
            ==> Category::Images.holds(name, false),
        lower_extension(name) == Some("mp3"@) || lower_extension(name) == Some("wav"@)
            || lower_extension(name) == Some("flac"@) || lower_extension(name) == Some("ogg"@)
            || lower_extension(name) == Some("m4a"@) ==> Category::Audio.holds(name, false),
        lower_extension(name) == Some("mp4"@) || lower_extension(name) == Some("mkv"@)
            || lower_extension(name) == Some("avi"@) || lower_extension(name) == Some("mov"@)
            || lower_extension(name) == Some("webm"@) ==> Category::Video.holds(name, false),
        lower_extension(name) == Some("zip"@) || lower_extension(name) == Some("rar"@)
            || lower_extension(name) == Some("7z"@) || lower_extension(name) == Some("tar"@)
            || lower_extension(name) == Some("gz"@) ==> Category::Archives.holds(name, false),
        lower_extension(name) == Some("rs"@) || lower_extension(name) == Some("py"@)
            || lower_extension(name) == Some("js"@) || lower_extension(name) == Some("c"@)
            || lower_extension(name) == Some("html"@) || lower_extension(name) == Some("json"@)
            ==> Category::Code.holds(name, false),
        lower_extension(name) == Some("exe"@) || lower_extension(name) == Some("msi"@)
            || lower_extension(name) == Some("dll"@) ==> Category::Executables.holds(name, false),
{
    let d = texts(DOCUMENTS@);
    assert(d[0] == "pdf"@ && d[2] == "docx"@ && d[10] == "txt"@ && d[12] == "md"@ && d[4]
        == "xlsx"@ && d[15] == "csv"@);
    let i = texts(IMAGES@);
    assert(i[0] == "jpg"@ && i[1] == "jpeg"@ && i[2] == "png"@ && i[3] == "gif"@ && i[5] == "webp"@
        && i[9] == "svg"@);
    let a = texts(AUDIO@);
    assert(a[0] == "mp3"@ && a[1] == "wav"@ && a[2] == "flac"@ && a[4] == "ogg"@ && a[6] == "m4a"@);
    let v = texts(VIDEO@);
    assert(v[0] == "mp4"@ && v[1] == "mkv"@ && v[2] == "avi"@ && v[3] == "mov"@ && v[6] == "webm"@);
    let r = texts(ARCHIVES@);
    assert(r[0] == "zip"@ && r[1] == "rar"@ && r[2] == "7z"@ && r[3] == "tar"@ && r[4] == "gz"@);
    let c = texts(CODE@);
    assert(c[0] == "rs"@ && c[1] == "py"@ && c[2] == "js"@ && c[6] == "c"@ && c[22] == "html"@
        && c[26] == "json"@);
    let e = texts(EXECUTABLES@);
    assert(e[0] == "exe"@ && e[1] == "msi"@ && e[2] == "dll"@);
}

/// A pattern that is one name excludes whatever has that name, in any case, and
/// everything below it.
pub proof fn law_names_exclude_what_lies_below(
    folder: Seq<char>,
    name: Seq<char>,
    child: Seq<char>,
    pattern: Seq<char>,
)
    requires
        is_plain_name(name),
        is_plain_name(child),
        is_name(name),
        !has_separator(pattern),
        lower_all(pattern) == lower_all(name),
    ensures
        excluded_by(joined_path(folder, name), pattern),
        excluded_by(joined_path(joined_path(folder, name), child), pattern),
        excluded_by(folder, pattern) ==> excluded_by(joined_path(folder, child), pattern),
{
    lemma_join_components(folder, name);
    lemma_join_components(joined_path(folder, name), child);
    lemma_join_components(folder, child);
    let at = components_of(folder).len() as int;
    let a = components_of(joined_path(folder, name));
    assert(a[at] == name && is_name(a[at]));
    let b = components_of(joined_path(joined_path(folder, name), child));
    assert(b[at] == name && is_name(b[at]));
    if excluded_by(folder, pattern) {
        let f = components_of(folder);
        let i = choose|i: int|
            0 <= i < f.len() && is_name(#[trigger] f[i]) && lower_all(f[i]) == lower_all(pattern);
        assert(components_of(joined_path(folder, child))[i] == f[i]);
    }
}

/// A pattern with slashes excludes a path exactly when the path has it as a run of
/// whole components: something that equals it but for case and the kind of slash,
/// with a slash or nothing behind it, and a slash or nothing before it unless it
/// begins with one.
pub proof fn law_runs_of_components_are_excluded(path: Seq<char>, pattern: Seq<char>)
    requires
        has_separator(pattern),
        bytes(pattern).len() > 0,
    ensures
        excluded_by(path, pattern) <==> exists|before: Seq<u8>, run: Seq<u8>, after: Seq<u8>|
            {
                &&& bytes(path) == #[trigger] (before + run + after)
                &&& run.len() == bytes(pattern).len()
                &&& forall|k: int|
                    0 <= k < run.len() ==> lower_byte(#[trigger] run[k]) == lower_byte(
                        bytes(pattern)[k],
                    ) || ((run[k] == 47 || run[k] == 92) && (bytes(pattern)[k] == 47 || bytes(
                        pattern,
                    )[k] == 92))
                &&& after.len() == 0 || after[0] == 47 || after[0] == 92
                &&& before.len() == 0 || before.last() == 47 || before.last() == 92 || bytes(
                    pattern,
                )[0] == 47 || bytes(pattern)[0] == 92
            },
{
    let h = bytes(path);
    let n = bytes(pattern);
    let same = same_in_path();
    if excluded_by(path, pattern) {
        let i = choose|i: int| #[trigger]
            stands_with(same, h, n, i) && at_boundaries(h, i, n.len() as int, is_slash(n[0]));
        let (before, run, after) = (h.take(i), h.subrange(i, i + n.len()), h.skip(i + n.len()));
        assert(h =~= before + run + after);
        assert forall|k: int| 0 <= k < run.len() implies same(#[trigger] run[k], n[k]) by {
            assert(run[k] == h[i + k]);
        }
        if after.len() > 0 {
            assert(after[0] == h[i + n.len()]);
        }
        if before.len() > 0 {
            assert(before.last() == h[i - 1]);
        }
    }
    if exists|before: Seq<u8>, run: Seq<u8>, after: Seq<u8>|
        {
            &&& h == #[trigger] (before + run + after)
            &&& run.len() == n.len()
            &&& forall|k: int|
                0 <= k < run.len() ==> lower_byte(#[trigger] run[k]) == lower_byte(n[k]) || ((run[k]
                    == 47 || run[k] == 92) && (n[k] == 47 || n[k] == 92))
            &&& after.len() == 0 || after[0] == 47 || after[0] == 92
            &&& before.len() == 0 || before.last() == 47 || before.last() == 92 || n[0] == 47
                || n[0] == 92
        } {
        let (before, run, after) = choose|before: Seq<u8>, run: Seq<u8>, after: Seq<u8>|
            {
                &&& h == #[trigger] (before + run + after)
                &&& run.len() == n.len()
                &&& forall|k: int|
                    0 <= k < run.len() ==> lower_byte(#[trigger] run[k]) == lower_byte(n[k]) || ((
                    run[k] == 47 || run[k] == 92) && (n[k] == 47 || n[k] == 92))
                &&& after.len() == 0 || after[0] == 47 || after[0] == 92
                &&& before.len() == 0 || before.last() == 47 || before.last() == 92 || n[0] == 47
                    || n[0] == 92
            };
        let i = before.len() as int;
        assert forall|k: int| 0 <= k < n.len() implies same(#[trigger] h[i + k], n[k]) by {
            assert(h[i + k] == run[k]);
        }
        assert(stands_with(same, h, n, i));
        if after.len() > 0 {
            assert(h[i + n.len()] == after[0]);
        }
        if before.len() > 0 {
            assert(h[i - 1] == before.last());
        }
        assert(at_boundaries(h, i, n.len() as int, is_slash(n[0])));
    }
}

/// The roots of the drives that are present come in the order of their letters,
/// each a letter, a colon and a slash.
pub proof fn law_every_drive_is_a_root(present: Seq<bool>, i: int)
    requires
        0 <= i < present.len() <= 26,
    ensures
        drives(present, present.len()).len() <= present.len(),
        present[i] <==> drives(present, present.len()).contains(
            seq![((65 + i) as u8) as char, ':', '/'],
        ),
{
    lemma_drives(present, present.len(), i);
}

proof fn lemma_drives(present: Seq<bool>, n: nat, i: int)
    requires
        n <= present.len() <= 26,
        0 <= i < 26,
    ensures
        drives(present, n).len() <= n,
        drives(present, n).contains(seq![drive_letter(i), ':', '/']) <==> i < n && present[i],
    decreases n,
{
    let root = seq![drive_letter(i), ':', '/'];
    let now = drives(present, n);
    if n > 0 {
        lemma_drives(present, (n - 1) as nat, i);
        let before = drives(present, (n - 1) as nat);
        let last = seq![drive_letter(n - 1), ':', '/'];
        assert(last[0] == drive_letter(n - 1) && root[0] == drive_letter(i));
        if present[n - 1] {
            if before.contains(root) {
                let k = choose|k: int| 0 <= k < before.len() && before[k] == root;
                assert(now[k] == root);
            }
            if i == n - 1 {
                assert(now[before.len() as int] == root);
            }
            if now.contains(root) && !before.contains(root) {
                let k = choose|k: int| 0 <= k < now.len() && now[k] == root;
                if k < before.len() {
                    assert(before[k] == root);
                }
                assert(drive_letter(i) == drive_letter(n - 1));
            }
        }
    }
}

/// Out of the box, the places of version control, packages and caches are excluded,
/// and on each platform those of its system.
pub proof fn law_noise_is_excluded_by_default(windows: bool)
    ensures
        ({
            let list = default_exclusion_list(windows);
            &&& list.contains(".git"@)
            &&& list.contains("node_modules"@)
            &&& list.contains("__pycache__"@)
            &&& list.contains(".venv"@)
            &&& windows ==> list.contains("$Recycle.Bin"@) && list.contains(
                "System Volume Information"@,
            )
            &&& !windows ==> list.contains("/proc"@) && list.contains("/sys"@) && list.contains(
                "/dev"@,
            )
        }),
{
    let a = texts(NOISE@);
    let list = default_exclusion_list(windows);
    assert(a.len() == 40);
    assert(list[0] == a[0] && a[0] == ".git"@);
    assert(list[3] == a[3] && a[3] == "node_modules"@);
    assert(list[16] == a[16] && a[16] == "__pycache__"@);
    assert(list[13] == a[13] && a[13] == ".venv"@);
    if windows {
        let b = texts(WINDOWS_NOISE@);
        assert(list[40] == b[0] && b[0] == "$Recycle.Bin"@);
        assert(list[41] == b[1] && b[1] == "System Volume Information"@);
    } else {
        let b = texts(UNIX_NOISE@);
        assert(list[40] == b[0] && b[0] == "/proc"@);
        assert(list[41] == b[1] && b[1] == "/sys"@);
        assert(list[42] == b[2] && b[2] == "/dev"@);
    }
}

/// A number with digits behind a point and a unit stands for that many bytes, where
/// they are a whole number of less than 2 to the power of 53.
pub proof fn law_fractions_of_units_are_read(
    whole: Seq<char>,
    fraction: Seq<char>,
    unit: Seq<char>,
    n: nat,
)
    requires
        whole.len() > 0,
        fraction.len() > 0,
        all_digits(whole),
        all_digits(fraction),
        forall|i: int| 0 <= i < unit.len() ==> is_letter(#[trigger] unit[i]),
        bytes_in(unit) matches Some(b) && crate::numbers::digits_value(whole + fraction) * b == n
            * ten_to(fraction.len()),
        n < 0x20_0000_0000_0000,
    ensures
        size_of_text(whole + seq!['.'] + fraction + unit) == Some(n as u64),
{
    let digits = whole + seq!['.'] + fraction;
    let s = digits + unit;
    let low = lower_all(unit);
    let b = bytes_in(unit)->0;
    assert(is_digit(whole[0]));
    assert(is_digit(fraction[fraction.len() - 1]));
    assert(s[0] == whole[0] && digits[0] == whole[0]);
    assert(digits.last() == fraction[fraction.len() - 1]);
    if unit.len() > 0 {
        assert(is_letter(unit[unit.len() - 1]));
        assert(s.last() == unit[unit.len() - 1]);
    } else {
        assert(s.last() == digits.last());
    }
    assert(trim(s) == s);
    let t = lower_all(s);
    let at = digits.len() as int;
    assert forall|i: int| 0 <= i < at implies t[i] == digits[i] && !is_letter(#[trigger] t[i]) by {
        if i < whole.len() {
            assert(is_digit(whole[i]));
        } else if i > whole.len() {
            assert(is_digit(fraction[i - whole.len() - 1]));
        }
    }
    if unit.len() > 0 {
        assert(is_letter(unit[0]));
        assert(t[at] == lower(unit[0]));
    }
    lemma_first_letter(t, at);
    assert(t.take(at) =~= digits);
    assert(t.skip(at) =~= low);
    assert(trim(digits) == digits);
    assert(trim(low) == low) by {
        if low.len() > 0 {
            assert(is_letter(unit[0]) && is_letter(unit[unit.len() - 1]));
            assert(low[0] == lower(unit[0]) && low.last() == lower(unit[unit.len() - 1]));
        }
    }
    assert forall|i: int| 0 <= i < whole.len() implies digits[i] != '.' by {
        assert(is_digit(whole[i]));
    }
    crate::numbers::lemma_first_of(digits, '.', whole.len() as int);
    assert(digits.take(whole.len() as int) =~= whole);
    assert(digits.skip(whole.len() as int + 1) =~= fraction);
    let parts = crate::numbers::DecimalParts { negative: false, whole, fraction };
    assert(decimal_parts(digits) == Some(parts));
    crate::numbers::lemma_two_values();
    assert(lower_all(unit).len() == unit.len());
    let shift = unit_shift(low)->0;
    assert(unit_shift(low) is Some);
    assert(two_to(shift) == b);
    crate::numbers::lemma_ten_pos(fraction.len());
    crate::numbers::law_whole_quotients_are_doubles(n, ten_to(fraction.len()));
    assert(scaled_value(parts, shift) == n as u64);
}

}
