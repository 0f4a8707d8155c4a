//! File operations invoked from the results list: copy and cut to the clipboard
//! as files, and delete to the recycle bin. What is handed to the shell is
//! made here.

use crate::numbers::{decimal, push_decimal};
use crate::paths::{file_name, file_name_of};
use crate::text::views;
use crate::utf16::{push_utf16, units_of, utf16_text, utf16_units};
use vstd::prelude::*;
use vstd::string::*;

verus! {

#[derive(Clone, Copy, Debug, PartialEq, Eq, Structural)]
pub enum ClipMode {
    Copy,
    Cut,
}

/// Bytes of the header before a list of dropped files.
pub const DROP_HEADER: u32 = 20;

/// What goes on the clipboard: the files as a drop list, and the preferred drop
/// effect, without which a cut would behave like a copy.
pub struct ClipPayload {
    pub files: Vec<u8>,
    pub effect: u32,
}

/// A list of paths for the shell: UTF-16, a NUL behind each path, and one more
/// NUL to end the list.
pub open spec fn path_list(paths: Seq<Seq<char>>) -> Seq<u16>
{
    listed_paths(paths).push(0)
}

/// The paths of a list, each with its NUL.
pub open spec fn listed_paths(paths: Seq<Seq<char>>) -> Seq<u16>
    decreases paths.len(),
{
    if paths.len() == 0 {
        Seq::empty()
    } else {
        listed_paths(paths.drop_last()) + utf16_units(paths.last()).push(0)
    }
}

/// Two bytes, the lower one first.
pub open spec fn two_bytes(n: u16) -> Seq<u8> {
    seq![(n % 256) as u8, (n / 256) as u8]
}

/// Four bytes, the lowest one first.
pub open spec fn four_bytes(n: u32) -> Seq<u8> {
    two_bytes((n % 65_536) as u16) + two_bytes((n / 65_536) as u16)
}

/// UTF-16 units as bytes.
pub open spec fn unit_bytes(units: Seq<u16>) -> Seq<u8>
    decreases units.len(),
{
    if units.len() == 0 {
        Seq::empty()
    } else {
        unit_bytes(units.drop_last()) + two_bytes(units.last())
    }
}

/// The header of a drop list: where the paths start, no position, no client
/// coordinates, and paths in UTF-16.
pub open spec fn drop_header() -> Seq<u8> {
    four_bytes(DROP_HEADER) + four_bytes(0) + four_bytes(0) + four_bytes(0) + four_bytes(1)
}

fn push_unit(out: &mut Vec<u8>, n: u16)
    ensures
        final(out)@ == old(out)@ + two_bytes(n),
{
    out.push((n % 256) as u8);
    out.push((n / 256) as u8);
    assert(out@ =~= old(out)@ + two_bytes(n));
}

fn push_word(out: &mut Vec<u8>, n: u32)
    ensures
        final(out)@ == old(out)@ + four_bytes(n),
{
    push_unit(out, (n % 65_536) as u16);
    push_unit(out, (n / 65_536) as u16);
    assert(out@ =~= old(out)@ + four_bytes(n));
}

/// Makes a list of paths for the shell.
pub fn make_path_list(paths: &[String]) -> (r: Vec<u16>)
    ensures
        r@ == path_list(views(paths@)),
{
    let mut r: Vec<u16> = Vec::new();
    for i in 0..paths.len()
        invariant
            r@ == listed_paths(views(paths@).take(i as int)),
    {
        let ghost before = r@;
        assert(views(paths@).take(i + 1).drop_last() =~= views(paths@).take(i as int));
        assert(views(paths@).take(i + 1).last() == paths@[i as int]@);
        push_utf16(&mut r, paths[i].as_str());
        r.push(0);
        assert(r@ =~= before + utf16_units(paths@[i as int]@).push(0));
    }
    assert(views(paths@).take(paths@.len() as int) =~= views(paths@));
    r.push(0);
    r
}

/// The preferred drop effect: a copy or a move.
pub open spec fn effect_of(mode: ClipMode) -> u32 {
    match mode {
        ClipMode::Copy => 1,
        ClipMode::Cut => 2,
    }
}

/// What putting `paths` on the clipboard as files takes. Explorer (and any
/// program that accepts dropped files) can then paste them; `Cut` marks them
/// for a move. Only Windows has such a clipboard.
pub fn clipboard_files(paths: &[String], mode: ClipMode, windows: bool) -> (r: Result<
    ClipPayload,
    String,
>)
    ensures
        r is Ok <==> windows && paths@.len() > 0,
        r matches Ok(p) ==> p.files@ == drop_header() + unit_bytes(path_list(views(paths@)))
            && p.effect == effect_of(mode),
        r matches Err(e) ==> e@ == (if windows {
            "nothing selected"@
        } else {
            "clipboard file operations are only implemented on Windows"@
        }),
{
    if !windows {
        return Err("clipboard file operations are only implemented on Windows".to_owned());
    }
    if paths.len() == 0 {
        return Err("nothing selected".to_owned());
    }
    let units = make_path_list(paths);
    let mut files: Vec<u8> = Vec::new();
    push_word(&mut files, DROP_HEADER);
    push_word(&mut files, 0);
    push_word(&mut files, 0);
    push_word(&mut files, 0);
    push_word(&mut files, 1);
    assert(files@ =~= drop_header());
    assert(drop_header() + unit_bytes(units@.take(0)) =~= drop_header());
    for i in 0..units.len()
        invariant
            files@ == drop_header() + unit_bytes(units@.take(i as int)),
    {
        assert(units@.take(i + 1).drop_last() =~= units@.take(i as int));
        assert(drop_header() + unit_bytes(units@.take(i as int)) + two_bytes(units@[i as int])
            =~= drop_header() + unit_bytes(units@.take(i + 1)));
        push_unit(&mut files, units[i]);
    }
    assert(units@.take(units@.len() as int) =~= units@);
    let effect: u32 = match mode {
        ClipMode::Copy => 1,
        ClipMode::Cut => 2,
    };
    Ok(ClipPayload { files, effect })
}

/// The list of paths that the shell is asked to delete.
pub fn delete_list(paths: &[String]) -> (r: Result<Vec<u16>, String>)
    ensures
        r is Ok <==> paths@.len() > 0,
        r matches Ok(list) ==> list@ == path_list(views(paths@)),
        r matches Err(e) ==> e@ == "nothing selected"@,
{
    if paths.len() == 0 {
        return Err("nothing selected".to_owned());
    }
    Ok(make_path_list(paths))
}

/// The shell's error number as text.
pub open spec fn signed_decimal(n: int) -> Seq<char> {
    if n < 0 {
        seq!['-'] + decimal((-n) as nat)
    } else {
        decimal(n as nat)
    }
}

/// What a deletion came to, given the shell's result and whether it was aborted.
pub fn delete_outcome(result: i32, aborted: bool) -> (r: Result<(), String>)
    ensures
        r is Ok <==> result == 0 && !aborted,
        r matches Err(e) ==> e@ == (if result != 0 {
            "delete failed (shell error "@ + signed_decimal(result as int) + ")"@
        } else {
            "delete was cancelled"@
        }),
{
    if result != 0 {
        let mut text = "delete failed (shell error ".to_owned();
        let ghost start = text@;
        let wide: i64 = result as i64;
        if wide < 0 {
            text.push('-');
            push_decimal(&mut text, (-wide) as u128);
        } else {
            push_decimal(&mut text, wide as u128);
        }
        assert(text@ =~= start + signed_decimal(result as int));
        text.append(")");
        return Err(text);
    }
    if aborted {
        return Err("delete was cancelled".to_owned());
    }
    Ok(())
}

/// Human summary for the confirmation dialog.
pub fn describe(paths: &[String]) -> (r: String)
    ensures
        r@ == (if paths@.len() == 0 {
            "nothing"@
        } else if paths@.len() == 1 {
            match file_name_of(paths@[0]@) {
                Some(name) => name,
                None => paths@[0]@,
            }
        } else {
            decimal(paths@.len()) + " items"@
        }),
{
    if paths.len() == 0 {
        return "nothing".to_owned();
    }
    if paths.len() == 1 {
        return match file_name(paths[0].as_str()) {
            Some(name) => name,
            None => paths[0].clone(),
        };
    }
    let mut r = String::new();
    push_decimal(&mut r, paths.len() as u128);
    assert(r@ =~= decimal(paths@.len()));
    r.append(" items");
    r
}

// ---------------------------------------------------------------------------
// Laws
// ---------------------------------------------------------------------------

/// Position of the first NUL from `i` on; the end where there is none.
pub open spec fn next_nul(s: Seq<u16>, i: int) -> int
    decreases s.len() - i,
{
    if i < 0 || i >= s.len() {
        s.len() as int
    } else if s[i] == 0 {
        i
    } else {
        next_nul(s, i + 1)
    }
}

/// The texts that a list of paths holds: up to the first empty one.
pub open spec fn read_path_list(s: Seq<u16>) -> Seq<Seq<char>>
    decreases s.len(),
{
    let end = next_nul(s, 0);
    if end <= 0 || end >= s.len() {
        Seq::empty()
    } else {
        seq![utf16_text(s.take(end))] + read_path_list(s.skip(end + 1))
    }
}

proof fn lemma_next_nul(s: Seq<u16>, i: int, end: int)
    requires
        0 <= i <= end < s.len(),
        s[end] == 0,
        forall|k: int| i <= k < end ==> s[k] != 0,
    ensures
        next_nul(s, i) == end,
    decreases end - i,
{
    if i < end {
        lemma_next_nul(s, i + 1, end);
    }
}

proof fn lemma_no_unit_is_nul(c: char)
    requires
        c != '\0',
    ensures
        units_of(c).len() > 0,
        forall|k: int| 0 <= k < units_of(c).len() ==> units_of(c)[k] != 0,
{
}

proof fn lemma_units_without_nul(p: Seq<char>)
    requires
        !p.contains('\0'),
    ensures
        forall|k: int| 0 <= k < utf16_units(p).len() ==> utf16_units(p)[k] != 0,
        p.len() > 0 ==> utf16_units(p).len() > 0,
    decreases p.len(),
{
    if p.len() > 0 {
        let front = p.drop_last();
        assert(!front.contains('\0')) by {
            if front.contains('\0') {
                let k = choose|k: int| 0 <= k < front.len() && front[k] == '\0';
                assert(p[k] == '\0');
            }
        }
        lemma_units_without_nul(front);
        let c = p.last();
        assert(p[p.len() - 1] == c);
        assert(c != '\0');
        lemma_no_unit_is_nul(c);
        let n = utf16_units(front).len();
        assert forall|k: int| 0 <= k < utf16_units(p).len() implies utf16_units(p)[k] != 0 by {
            if k < n {
                assert(utf16_units(p)[k] == utf16_units(front)[k]);
            } else {
                assert(utf16_units(p)[k] == units_of(c)[k - n]);
            }
        }
    }
}

proof fn lemma_listed_first(paths: Seq<Seq<char>>)
    requires
        paths.len() > 0,
    ensures
        listed_paths(paths) == utf16_units(paths[0]).push(0) + listed_paths(paths.drop_first()),
    decreases paths.len(),
{
    if paths.len() == 1 {
        assert(paths.drop_last() =~= Seq::<Seq<char>>::empty());
        assert(paths.drop_first() =~= Seq::<Seq<char>>::empty());
        assert(listed_paths(paths) =~= utf16_units(paths[0]).push(0) + listed_paths(
            paths.drop_first(),
        ));
    } else {
        lemma_listed_first(paths.drop_last());
        assert(paths.drop_last().drop_first() =~= paths.drop_first().drop_last());
        assert(paths.drop_first().last() == paths.last());
        assert(listed_paths(paths) =~= utf16_units(paths[0]).push(0) + listed_paths(
            paths.drop_first(),
        ));
    }
}

/// The shell reads from a list exactly the paths that went into it, as long as
/// none is empty or holds a NUL.
pub proof fn law_path_list_reads_back(paths: Seq<Seq<char>>)
    requires
        forall|i: int|
            0 <= i < paths.len() ==> (#[trigger] paths[i]).len() > 0 && !paths[i].contains('\0'),
    ensures
        read_path_list(path_list(paths)) == paths,
    decreases paths.len(),
{
    let list = path_list(paths);
    if paths.len() == 0 {
        assert(list =~= seq![0u16]);
        assert(next_nul(list, 0) == 0);
        assert(paths =~= Seq::<Seq<char>>::empty());
    } else {
        let first = utf16_units(paths[0]);
        let rest = paths.drop_first();
        lemma_listed_first(paths);
        lemma_units_without_nul(paths[0]);
        let end = first.len() as int;
        assert forall|k: int| 0 <= k < end implies list[k] != 0 by {
            assert(list[k] == first[k]);
        }
        assert(list[end] == 0);
        lemma_next_nul(list, 0, end);
        assert(list.take(end) =~= first);
        assert(list.skip(end + 1) =~= path_list(rest));
        crate::utf16::law_utf16_round_trip(paths[0]);
        assert forall|i: int| 0 <= i < rest.len() implies (#[trigger] rest[i]).len() > 0
            && !rest[i].contains('\0') by {
            assert(rest[i] == paths[i + 1]);
        }
        law_path_list_reads_back(rest);
        assert(seq![paths[0]] + rest =~= paths);
    }
}

/// What goes on the clipboard reads back: behind a header of 20 bytes, which says
/// so in its first byte and marks UTF-16 in its seventeenth, stand the units of the
/// paths, two bytes each, the lower one first. Copying has the effect 1, cutting 2.
pub proof fn law_clipboard_reads_back(units: Seq<u16>, i: int)
    requires
        0 <= i < units.len(),
    ensures
        ({
            let all = drop_header() + unit_bytes(units);
            &&& all.len() == 20 + 2 * units.len()
            &&& all[0] == 20 && all[1] == 0 && all[2] == 0 && all[3] == 0
            &&& forall|k: int| 4 <= k < 16 ==> #[trigger] all[k] == 0
            &&& all[16] == 1 && all[17] == 0 && all[18] == 0 && all[19] == 0
            &&& all[20 + 2 * i] + 256 * all[21 + 2 * i] == units[i]
        }),
        effect_of(ClipMode::Copy) == 1,
        effect_of(ClipMode::Cut) == 2,
{
    lemma_unit_bytes(units, i);
    assert(four_bytes(20) =~= seq![20u8, 0, 0, 0]);
    assert(four_bytes(0) =~= seq![0u8, 0, 0, 0]);
    assert(four_bytes(1) =~= seq![1u8, 0, 0, 0]);
    assert(drop_header().len() == 20);
}

proof fn lemma_unit_bytes(units: Seq<u16>, i: int)
    requires
        0 <= i < units.len(),
    ensures
        unit_bytes(units).len() == 2 * units.len(),
        unit_bytes(units)[2 * i] + 256 * unit_bytes(units)[2 * i + 1] == units[i],
    decreases units.len(),
{
    let front = units.drop_last();
    let n = front.len() as int;
    if n > 0 {
        let k = if i < n {
            i
        } else {
            0
        };
        lemma_unit_bytes(front, k);
        assert(front[k] == units[k]);
    }
    let last = two_bytes(units.last());
    assert(unit_bytes(units) == unit_bytes(front) + last);
    if n == 0 {
        assert(unit_bytes(front).len() == 0);
    }
}

}
