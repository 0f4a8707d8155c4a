//! Thumbnails: turns the pixels of a shell bitmap into pixels for the preview
//! pane.

use vstd::prelude::*;

verus! {

/// A decoded thumbnail: RGBA8 pixels ready for the preview pane.
pub struct Thumbnail {
    pub width: u32,
    pub height: u32,
    pub rgba: Vec<u8>,
}

/// The magnitude of a number.
pub open spec fn magnitude(n: int) -> nat {
    (if n < 0 {
        -n
    } else {
        n
    }) as nat
}

/// Whether a bitmap has pixels. A negative height only says that its lines come
/// top down.
pub open spec fn has_pixels(width: i32, height: i32) -> bool {
    width > 0 && height != 0
}

/// The dimensions of a bitmap and the bytes that its pixels take; nothing where
/// it has none.
pub fn bitmap_size(width: i32, height: i32) -> (r: Option<(u32, u32, usize)>)
    requires
        has_pixels(width, height) ==> width * magnitude(height as int) * 4 <= u32::MAX,
    ensures
        r is Some <==> has_pixels(width, height),
        r matches Some((w, h, n)) ==> w == width && h == magnitude(height as int) && n == w * h * 4,
{
    if width <= 0 || height == 0 {
        return None;
    }
    let w: u32 = width as u32;
    let h: u32 = if height < 0 {
        (-(height as i64)) as u32
    } else {
        height as u32
    };
    proof {
        assert(w * h * 4 == width * magnitude(height as int) * 4);
        assert(w * h >= 0) by (nonlinear_arith)
            requires
                w >= 0,
                h >= 0,
        ;
    }
    let n: u32 = w * h * 4;
    Some((w, h, n as usize))
}

/// Whether no pixel has any alpha. Some providers leave the channel at zero.
pub open spec fn no_alpha(bgra: Seq<u8>) -> bool {
    forall|k: int| 0 <= k < bgra.len() / 4 ==> #[trigger] bgra[4 * k + 3] == 0
}

/// The byte at a place of the converted pixels: red and blue change places, and
/// pixels without any alpha are opaque.
pub open spec fn rgba_byte(bgra: Seq<u8>, i: int) -> u8 {
    if i >= bgra.len() as int / 4 * 4 {
        bgra[i]
    } else if i % 4 == 0 {
        bgra[i + 2]
    } else if i % 4 == 2 {
        bgra[i - 2]
    } else if i % 4 == 3 && no_alpha(bgra) {
        255
    } else {
        bgra[i]
    }
}

/// The pixels of a bitmap, converted.
pub open spec fn rgba_of(bgra: Seq<u8>) -> Seq<u8> {
    Seq::new(bgra.len(), |i: int| rgba_byte(bgra, i))
}

/// Whether no pixel has any alpha.
fn without_alpha(pixels: &[u8]) -> (r: bool)
    ensures
        r == no_alpha(pixels@),
{
    let len: usize = pixels.len();
    let n: usize = len / 4;
    for k in 0..n
        invariant
            len == pixels@.len(),
            n == len / 4,
            forall|j: int| 0 <= j < k ==> #[trigger] pixels@[4 * j + 3] == 0,
    {
        if pixels[4 * k + 3] != 0 {
            assert(pixels@[4 * (k as int) + 3] != 0);
            return false;
        }
    }
    true
}

/// Converts the pixels of a bitmap.
pub fn bgra_to_rgba(pixels: &mut Vec<u8>)
    ensures
        final(pixels)@ == rgba_of(old(pixels)@),
{
    let opaque = without_alpha(pixels.as_slice());
    let ghost from = pixels@;
    let len: usize = pixels.len();
    let n: usize = len / 4;
    for k in 0..n
        invariant
            n == len / 4,
            len == from.len(),
            opaque == no_alpha(from),
            pixels@.len() == len,
            forall|i: int| 0 <= i < 4 * k ==> #[trigger] pixels@[i] == rgba_byte(from, i),
            forall|i: int| 4 * k <= i < len ==> #[trigger] pixels@[i] == from[i],
    {
        let ghost before = pixels@;
        let blue = pixels[4 * k];
        let red = pixels[4 * k + 2];
        pixels.set(4 * k, red);
        pixels.set(4 * k + 2, blue);
        if opaque {
            pixels.set(4 * k + 3, 255);
        }
        assert forall|i: int| 0 <= i < 4 * (k + 1) implies #[trigger] pixels@[i] == rgba_byte(
            from,
            i,
        ) by {
            if i < 4 * k {
                assert(pixels@[i] == before[i]);
            }
        }
    }
    assert(pixels@ =~= rgba_of(from));
}

/// The thumbnail of a bitmap with the given dimensions, whose pixels were copied
/// line by line; nothing where no line was.
pub fn thumbnail_of(width: u32, height: u32, lines: i32, pixels: Vec<u8>) -> (r: Option<Thumbnail>)
    ensures
        r is Some <==> lines != 0,
        r matches Some(t) ==> t.width == width && t.height == height && t.rgba@ == rgba_of(
            pixels@,
        ),
{
    if lines == 0 {
        return None;
    }
    let mut rgba = pixels;
    bgra_to_rgba(&mut rgba);
    Some(Thumbnail { width, height, rgba })
}

/// Converting pixels twice gives them back, where some pixel has alpha.
pub proof fn law_converting_twice(bgra: Seq<u8>)
    requires
        !no_alpha(bgra),
    ensures
        rgba_of(rgba_of(bgra)) == bgra,
{
    let once = rgba_of(bgra);
    let k = choose|k: int| 0 <= k < bgra.len() / 4 && #[trigger] bgra[4 * k + 3] != 0;
    assert(once[4 * k + 3] == bgra[4 * k + 3]);
    assert(!no_alpha(once));
    assert(rgba_of(once) =~= bgra);
}

/// Each pixel has its red and its blue exchanged and its green kept. Alpha is kept
/// too, unless no pixel has any: then all are opaque.
pub proof fn law_pixels_exchange_red_and_blue(bgra: Seq<u8>, k: int)
    requires
        0 <= k < bgra.len() / 4,
    ensures
        ({
            let out = rgba_of(bgra);
            &&& out.len() == bgra.len()
            &&& out[4 * k] == bgra[4 * k + 2]
            &&& out[4 * k + 1] == bgra[4 * k + 1]
            &&& out[4 * k + 2] == bgra[4 * k]
            &&& (exists|j: int| 0 <= j < bgra.len() / 4 && #[trigger] bgra[4 * j + 3] != 0)
                ==> out[4 * k + 3] == bgra[4 * k + 3]
            &&& (forall|j: int| 0 <= j < bgra.len() / 4 ==> #[trigger] bgra[4 * j + 3] == 0)
                ==> out[4 * k + 3] == 255
        }),
{
    assert((4 * k) % 4 == 0 && (4 * k + 1) % 4 == 1 && (4 * k + 2) % 4 == 2 && (4 * k + 3) % 4 == 3);
    let n = bgra.len() as int;
    assert(4 * k + 3 < n / 4 * 4);
}

}
