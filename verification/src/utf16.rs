//! UTF-16, the encoding of names on Windows.

use vstd::prelude::*;
use vstd::string::*;

verus! {

/// `char::from_u32` gives the character of a number, if it is the number of one:
/// surrogates and numbers above 10FFFF are not.
pub assume_specification[ char::from_u32 ](i: u32) -> (r: Option<char>)
    ensures
        r is Some <==> i <= 0xD7FF || 0xE000 <= i <= 0x10FFFF,
        r matches Some(c) ==> c == i as char,
;

/// Stands for what is not a character.
pub open spec fn replacement() -> char {
    '\u{FFFD}'
}

/// The first unit of a pair.
pub open spec fn is_lead(u: u16) -> bool {
    0xD800 <= u <= 0xDBFF
}

/// The second unit of a pair.
pub open spec fn is_trail(u: u16) -> bool {
    0xDC00 <= u <= 0xDFFF
}

/// The character of a pair.
pub open spec fn paired(a: u16, b: u16) -> char {
    ((a - 0xD800) * 0x400 + (b - 0xDC00) + 0x10000) as u32 as char
}

/// The text of UTF-16 units; a unit of a pair without its other half is replaced.
pub open spec fn utf16_text(s: Seq<u16>) -> Seq<char>
    decreases s.len(),
{
    if s.len() == 0 {
        Seq::empty()
    } else if !is_lead(s[0]) && !is_trail(s[0]) {
        seq![s[0] as char] + utf16_text(s.skip(1))
    } else if is_lead(s[0]) && s.len() > 1 && is_trail(s[1]) {
        seq![paired(s[0], s[1])] + utf16_text(s.skip(2))
    } else {
        seq![replacement()] + utf16_text(s.skip(1))
    }
}

/// The units of a character.
pub open spec fn units_of(c: char) -> Seq<u16> {
    let n = c as u32;
    if n < 0x10000 {
        seq![n as u16]
    } else {
        seq![((n - 0x10000) / 0x400 + 0xD800) as u16, ((n - 0x10000) % 0x400 + 0xDC00) as u16]
    }
}

/// The UTF-16 units of a text.
pub open spec fn utf16_units(s: Seq<char>) -> Seq<u16>
    decreases s.len(),
{
    if s.len() == 0 {
        Seq::empty()
    } else {
        utf16_units(s.drop_last()) + units_of(s.last())
    }
}

/// Decodes UTF-16, replacing what is not text.
pub fn from_utf16_lossy(s: &[u16]) -> (r: String)
    ensures
        r@ == utf16_text(s@),
{
    let mut r = String::new();
    let len: usize = s.len();
    let mut i: usize = 0;
    assert(s@.skip(0) =~= s@);
    assert(r@ + utf16_text(s@) =~= utf16_text(s@));
    while i < len
        invariant
            i <= len,
            len == s@.len(),
            r@ + utf16_text(s@.skip(i as int)) == utf16_text(s@),
        decreases len - i,
    {
        let ghost rest = s@.skip(i as int);
        let ghost before = r@;
        let a = s[i];
        assert(rest[0] == a);
        assert(rest.skip(1) =~= s@.skip(i + 1));
        if a < 0xD800 || a > 0xDFFF {
            let c = match char::from_u32(a as u32) {
                Some(c) => c,
                None => '\u{FFFD}',
            };
            assert(c == a as char);
            assert(!is_lead(a) && !is_trail(a));
            r.push(c);
            assert(r@ + utf16_text(s@.skip(i + 1)) =~= before + (seq![c] + utf16_text(
                s@.skip(i + 1),
            )));
            i = i + 1;
        } else if a <= 0xDBFF && len - i > 1 && 0xDC00 <= s[i + 1] && s[i + 1] <= 0xDFFF {
            let b = s[i + 1];
            assert(rest[1] == b);
            assert(rest.skip(2) =~= s@.skip(i + 2));
            let n: u32 = (a as u32 - 0xD800) * 0x400 + (b as u32 - 0xDC00) + 0x10000;
            let c = match char::from_u32(n) {
                Some(c) => c,
                None => '\u{FFFD}',
            };
            assert(c == paired(a, b));
            assert(is_lead(a) && is_trail(b));
            r.push(c);
            assert(r@ + utf16_text(s@.skip(i + 2)) =~= before + (seq![c] + utf16_text(
                s@.skip(i + 2),
            )));
            i = i + 2;
        } else {
            assert(is_lead(a) || is_trail(a));
            assert(rest.len() > 1 ==> rest[1] == s@[i + 1]);
            assert(!(is_lead(a) && rest.len() > 1 && is_trail(rest[1])));
            r.push('\u{FFFD}');
            assert(r@ + utf16_text(s@.skip(i + 1)) =~= before + (seq![replacement()] + utf16_text(
                s@.skip(i + 1),
            )));
            i = i + 1;
        }
    }
    assert(s@.skip(len as int) =~= Seq::<u16>::empty());
    assert(r@ + Seq::<char>::empty() =~= r@);
    r
}

/// Appends the UTF-16 units of a text.
pub fn push_utf16(out: &mut Vec<u16>, s: &str)
    ensures
        final(out)@ == old(out)@ + utf16_units(s@),
{
    let ghost start = out@;
    assert(start + utf16_units(s@.take(0)) =~= start);
    for c in it: s.chars()
        invariant
            it.seq() == s@,
            out@ == start + utf16_units(s@.take(it.index() as int)),
    {
        let ghost n = it.index() as int;
        assert(s@.take(n + 1).drop_last() =~= s@.take(n));
        assert(s@.take(n + 1).last() == c);
        let ghost before = out@;
        let x = c as u32;
        if x < 0x10000 {
            out.push(x as u16);
        } else {
            out.push(((x - 0x10000) / 0x400 + 0xD800) as u16);
            out.push(((x - 0x10000) % 0x400 + 0xDC00) as u16);
        }
        assert(out@ =~= before + units_of(c));
        assert(start + utf16_units(s@.take(n)) + units_of(c) =~= start + (utf16_units(s@.take(n))
            + units_of(c)));
    }
    assert(s@.take(s@.len() as int) =~= s@);
}

proof fn lemma_units_text(c: char, rest: Seq<u16>)
    ensures
        utf16_text(units_of(c) + rest) == seq![c] + utf16_text(rest),
{
    let u = units_of(c);
    let all = u + rest;
    let n = c as u32;
    if n < 0x10000 {
        assert(all[0] == n);
        assert(all.skip(1) =~= rest);
        assert(all[0] as char == c);
    } else {
        assert(all[0] == u[0] && all[1] == u[1]);
        assert(all.skip(2) =~= rest);
        assert((u[0] - 0xD800) * 0x400 + (u[1] - 0xDC00) + 0x10000 == n);
        assert(paired(u[0], u[1]) == c);
    }
}

proof fn lemma_units_then(s: Seq<char>, rest: Seq<u16>)
    ensures
        utf16_text(utf16_units(s) + rest) == s + utf16_text(rest),
    decreases s.len(),
{
    if s.len() == 0 {
        assert(utf16_units(s) + rest =~= rest);
        assert(s + utf16_text(rest) =~= utf16_text(rest));
    } else {
        let f = s.drop_last();
        let u = units_of(s.last());
        assert(utf16_units(s) + rest =~= utf16_units(f) + (u + rest));
        lemma_units_then(f, u + rest);
        lemma_units_text(s.last(), rest);
        assert(f + (seq![s.last()] + utf16_text(rest)) =~= s + utf16_text(rest));
    }
}

/// Decoding what was encoded gives the text back.
pub proof fn law_utf16_round_trip(s: Seq<char>)
    ensures
        utf16_text(utf16_units(s)) == s,
{
    lemma_units_then(s, Seq::empty());
    assert(utf16_units(s) + Seq::<u16>::empty() =~= utf16_units(s));
    assert(s + utf16_text(Seq::empty()) =~= s);
}

/// A character below 65536 is one unit, its own number. Any other is a pair: ten bits
/// of what is above 65536 in a first unit from 55296 on, and ten in a second one from
/// 56320 on.
pub proof fn law_units_hold_the_number_of_a_character(c: char)
    ensures
        (c as u32) < 65_536 ==> units_of(c).len() == 1 && units_of(c)[0] == c as u32,
        c as u32 >= 65_536 ==> {
            &&& units_of(c).len() == 2
            &&& 55_296 <= units_of(c)[0] < 56_320
            &&& 56_320 <= units_of(c)[1] < 57_344
            &&& (units_of(c)[0] - 55_296) * 1024 + (units_of(c)[1] - 56_320) + 65_536 == c as u32
        },
{
    vstd::utf8::char_is_scalar(c);
    let n = c as u32;
    if n >= 65_536 {
        assert((n - 65_536) / 1024 < 1024);
    }
}

}
