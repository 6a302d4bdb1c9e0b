//! Native icons as data URLs.
//!
//! The shell draws the icon of a path (a shortcut's target, an executable's
//! embedded icon, the folder icon, or the icon of the extension's handler) into
//! a 32×32, 32-bit BGRA bitmap; this module turns those pixels into the
//! `data:image/png;base64,...` URL the panel shows. A missing icon is never an
//! error: the entry then carries no data and the panel falls back to a shape.
use vstd::prelude::*;

use crate::text::{chars_of, owned, push_char};

verus! {

/// Side of the icons taken from the shell (the system "large icon" size).
pub const ICON_SIZE: u32 = 32;

/// Bytes in one 32×32 bitmap of 4-byte pixels.
pub const ICON_BYTES: usize = 4096;

/// What the `png` crate writes for a 32×32, 8-bit RGBA image with these pixels
/// (default compression and filtering).
pub uninterp spec fn png_rgba32(rgba: Seq<u8>) -> Seq<u8>;

/// Character `v` (below 64) of the standard base64 alphabet: `A`–`Z`, `a`–`z`,
/// `0`–`9`, `+`, `/`.
pub open spec fn base64_char(v: nat) -> char {
    if v < 26 {
        (65 + v) as char
    } else if v < 52 {
        (97 + v - 26) as char
    } else if v < 62 {
        (48 + v - 52) as char
    } else if v == 62 {
        '+'
    } else {
        '/'
    }
}

/// Standard base64 with `=` padding (RFC 4648, section 4): every three bytes
/// become four characters of six bits each, most significant first; a last
/// group of one or two bytes is padded with zero bits and one or two `=`.
pub open spec fn base64_standard(bytes: Seq<u8>) -> Seq<char>
    decreases bytes.len(),
{
    if bytes.len() == 0 {
        seq![]
    } else if bytes.len() == 1 {
        let n = bytes[0] as nat;
        seq![base64_char(n / 4), base64_char(n % 4 * 16), '=', '=']
    } else if bytes.len() == 2 {
        let n = bytes[0] as nat * 256 + bytes[1] as nat;
        seq![base64_char(n / 1024), base64_char(n / 16 % 64), base64_char(n % 16 * 4), '=']
    } else {
        let n = bytes[0] as nat * 65536 + bytes[1] as nat * 256 + bytes[2] as nat;
        seq![base64_char(n / 262144), base64_char(n / 4096 % 64), base64_char(n / 64 % 64), base64_char(n % 64)]
            + base64_standard(bytes.skip(3))
    }
}

/// `png::Encoder` for a 32×32 RGBA image at 8 bits per channel, written into a
/// byte vector. The encoder refuses pixel data whose length is not 32·32·4
/// (`ImageBufferSize`). Otherwise it succeeds: a non-zero size with RGBA at
/// 8 bits passes the header checks, a single still image passes the sequence
/// check, and the remaining errors come only from writing, which into a
/// vector cannot fail. The bytes it writes depend on the pixels alone.
#[verifier::external_body]
fn encode_png(rgba: &Vec<u8>) -> (r: Option<Vec<u8>>)
    ensures
        rgba@.len() != ICON_BYTES <==> r is None,
        r matches Some(b) ==> b@ == png_rgba32(rgba@),
{
    let mut buf = Vec::new();
    {
        let mut enc = png::Encoder::new(&mut buf, ICON_SIZE, ICON_SIZE);
        enc.set_color(png::ColorType::Rgba);
        enc.set_depth(png::BitDepth::Eight);
        let mut writer = match enc.write_header() {
            Ok(w) => w,
            Err(_) => return None,
        };
        if writer.write_image_data(rgba.as_slice()).is_err() {
            return None;
        }
    }
    Some(buf)
}

/// `base64::Engine::encode` on the standard engine (standard alphabet, with
/// padding): the text `base64_standard` describes. It panics only when the
/// encoded length would overflow `usize`, which no vector can reach: a `Vec<u8>`
/// holds at most `isize::MAX` bytes.
#[verifier::external_body]
fn encode_base64(bytes: &Vec<u8>) -> (r: String)
    ensures
        r@ == base64_standard(bytes@),
{
    base64::Engine::encode(&base64::engine::general_purpose::STANDARD, bytes.as_slice())
}

/// Bytes of the complete 4-byte pixels of `px` (a trailing partial pixel is left alone).
pub open spec fn whole_pixels(px: Seq<u8>) -> int {
    px.len() as int / 4 * 4
}

/// `px` with the first and third byte of every whole pixel swapped (BGRA → RGBA).
pub open spec fn swap_red_blue(px: Seq<u8>) -> Seq<u8> {
    Seq::new(
        px.len(),
        |i: int|
            if i < whole_pixels(px) && i % 4 == 0 {
                px[i + 2]
            } else if i < whole_pixels(px) && i % 4 == 2 {
                px[i - 2]
            } else {
                px[i]
            },
    )
}

/// Every whole pixel of `px` is fully transparent.
pub open spec fn all_transparent(px: Seq<u8>) -> bool {
    forall|i: int| 0 <= i < whole_pixels(px) && i % 4 == 3 ==> #[trigger] px[i] == 0
}

/// `px` with every whole pixel made opaque.
pub open spec fn opaque(px: Seq<u8>) -> Seq<u8> {
    Seq::new(px.len(), |i: int| if i < whole_pixels(px) && i % 4 == 3 { 255u8 } else { px[i] })
}

/// The RGBA pixels for the BGRA bitmap the shell drew. An old icon without an
/// alpha channel comes out with alpha 0 everywhere, which would make it
/// invisible; such a bitmap is taken as fully opaque.
pub open spec fn rgba_of(bgra: Seq<u8>) -> Seq<u8> {
    let s = swap_red_blue(bgra);
    if all_transparent(s) {
        opaque(s)
    } else {
        s
    }
}

/// Turns the shell's BGRA bitmap into RGBA pixels for the PNG encoder.
pub fn rgba_pixels(bgra: Vec<u8>) -> (r: Vec<u8>)
    ensures
        r@ == rgba_of(bgra@),
{
    let ghost orig = bgra@;
    let n = bgra.len();
    let whole = n / 4;
    let mut px = bgra;
    let mut k: usize = 0;
    while k < whole
        invariant
            whole == n / 4,
            k <= whole,
            px.len() == n,
            orig.len() == n,
            whole_pixels(orig) == whole * 4,
            forall|i: int| 0 <= i < 4 * k ==> #[trigger] px@[i] == swap_red_blue(orig)[i],
            forall|i: int| 4 * k <= i < n ==> #[trigger] px@[i] == orig[i],
        decreases whole - k,
    {
        let b = px[4 * k];
        let r = px[4 * k + 2];
        px.set(4 * k, r);
        px.set(4 * k + 2, b);
        proof {
            assert forall|i: int| 0 <= i < 4 * (k + 1) implies #[trigger] px@[i] == swap_red_blue(orig)[i] by {
                if i >= 4 * k {
                    assert(i % 4 == i - 4 * k);
                }
            }
        }
        k += 1;
    }
    assert(px@ =~= swap_red_blue(orig)) by {
        assert forall|i: int| 0 <= i < n implies #[trigger] px@[i] == swap_red_blue(orig)[i] by {
            if i >= 4 * whole {
                assert(px@[i] == orig[i]);
            }
        }
    }
    let ghost s = px@;
    let mut clear = true;
    let mut k: usize = 0;
    while k < whole
        invariant
            whole == n / 4,
            k <= whole,
            px@ == s,
            s.len() == n,
            whole_pixels(s) == whole * 4,
            clear == forall|i: int| 0 <= i < 4 * k && i % 4 == 3 ==> #[trigger] s[i] == 0,
        decreases whole - k,
    {
        if px[4 * k + 3] != 0 {
            clear = false;
        }
        proof {
            assert((4 * k + 3) % 4 == 3);
            if clear {
                assert forall|i: int| 0 <= i < 4 * (k + 1) && i % 4 == 3 implies #[trigger] s[i] == 0 by {
                    if i >= 4 * k {
                        assert(i == 4 * k + 3);
                    }
                }
            }
        }
        k += 1;
    }
    if clear {
        let mut k: usize = 0;
        while k < whole
            invariant
                whole == n / 4,
                k <= whole,
                px.len() == n,
                s.len() == n,
                whole_pixels(s) == whole * 4,
                forall|i: int| 0 <= i < 4 * k ==> #[trigger] px@[i] == opaque(s)[i],
                forall|i: int| 4 * k <= i < n ==> #[trigger] px@[i] == s[i],
            decreases whole - k,
        {
            px.set(4 * k + 3, 255);
            proof {
                assert forall|i: int| 0 <= i < 4 * (k + 1) implies #[trigger] px@[i] == opaque(s)[i] by {
                    if i >= 4 * k {
                        assert(i % 4 == i - 4 * k);
                    }
                }
            }
            k += 1;
        }
        assert(px@ =~= opaque(s)) by {
            assert forall|i: int| 0 <= i < n implies #[trigger] px@[i] == opaque(s)[i] by {
                if i >= 4 * whole {
                    assert(px@[i] == s[i]);
                }
            }
        }
    }
    px
}

/// "data:image/png;base64,"
pub open spec fn png_url_prefix() -> Seq<char> {
    seq!['d', 'a', 't', 'a', ':', 'i', 'm', 'a', 'g', 'e', '/', 'p', 'n', 'g', ';', 'b', 'a', 's', 'e', '6', '4', ',']
}

/// The data URL for a PNG whose base64 text is `b64`.
pub fn png_data_url(b64: &str) -> (r: String)
    ensures
        r@ == png_url_prefix() + b64@,
{
    let mut out = owned("data:image/png;base64,");
    proof {
        reveal_strlit("data:image/png;base64,");
        assert(out@ =~= png_url_prefix());
    }
    let cs = chars_of(b64);
    let mut i: usize = 0;
    while i < cs.len()
        invariant
            i <= cs.len(),
            cs@ == b64@,
            out@ == png_url_prefix() + cs@.take(i as int),
        decreases cs.len() - i,
    {
        push_char(&mut out, cs[i]);
        assert(cs@.take(i + 1) =~= cs@.take(i as int).push(cs@[i as int]));
        i += 1;
    }
    assert(cs@.take(i as int) =~= cs@);
    out
}

/// The data URL of the icon the shell drew, as PNG.
pub open spec fn icon_url_of(bgra: Seq<u8>) -> Seq<char> {
    png_url_prefix() + base64_standard(png_rgba32(rgba_of(bgra)))
}

/// The icon of a path as a `data:image/png;base64,...` URL, given the BGRA
/// bitmap the shell drew for it (`None` when the shell had no icon). Nothing
/// comes back when there is no bitmap or when it is not a 32×32 bitmap.
pub fn icon_data_url(bgra: Option<Vec<u8>>) -> (r: Option<String>)
    ensures
        match bgra {
            None => r is None,
            Some(px) => if px@.len() == ICON_BYTES {
                r matches Some(u) && u@ == icon_url_of(px@)
            } else {
                r is None
            },
        },
{
    let px = match bgra {
        Some(px) => px,
        None => return None,
    };
    let ghost p = px@;
    let rgba = rgba_pixels(px);
    let png = match encode_png(&rgba) {
        Some(b) => b,
        None => return None,
    };
    let b64 = encode_base64(&png);
    Some(png_data_url(b64.as_str()))
}

/// The icon found (or not) for one path.
#[derive(Debug)]
pub struct IconEntry {
    pub path: String,
    /// `data:image/png;base64,...`; `None` when no icon could be had.
    pub data: Option<String>,
}

/// Icon entries for the paths of the current category, one per path and in
/// the same order. Where no shell draws icons, no entry has data.
pub fn batch(paths: Vec<String>) -> (r: Vec<IconEntry>)
    ensures
        r.len() == paths.len(),
        forall|i: int| 0 <= i < r.len() ==> (#[trigger] r@[i]).path@ == paths@[i]@ && r@[i].data is None,
{
    let mut out: Vec<IconEntry> = Vec::new();
    let mut paths = paths;
    let ghost orig = paths@;
    let n = paths.len();
    while paths.len() > 0
        invariant
            out.len() + paths.len() == n,
            orig.len() == n,
            paths@ == orig.take(paths.len() as int),
            forall|i: int| 0 <= i < out.len() ==> (#[trigger] out@[i]).path@ == orig[n - 1 - i]@ && out@[i].data is None,
        decreases paths.len(),
    {
        let p = paths.pop().unwrap();
        out.push(IconEntry { path: p, data: None });
    }
    let mut r: Vec<IconEntry> = Vec::new();
    while out.len() > 0
        invariant
            out.len() + r.len() == n,
            orig.len() == n,
            forall|i: int| 0 <= i < out.len() ==> (#[trigger] out@[i]).path@ == orig[n - 1 - i]@ && out@[i].data is None,
            forall|i: int| 0 <= i < r.len() ==> (#[trigger] r@[i]).path@ == orig[i]@ && r@[i].data is None,
        decreases out.len(),
    {
        let e = out.pop().unwrap();
        r.push(e);
    }
    r
}

/// An optional string as a value of the model.
pub open spec fn opt_chars(o: Option<String>) -> Option<Seq<char>> {
    match o {
        Some(s) => Some(s@),
        None => None,
    }
}

/// The data of the icon entry for a path whose bitmap is `px`: the PNG data
/// URL of a 32×32 bitmap, nothing for no bitmap or any other size.
pub open spec fn icon_data_of(px: Option<Vec<u8>>) -> Option<Seq<char>> {
    match px {
        Some(b) => if b@.len() == ICON_BYTES {
            Some(icon_url_of(b@))
        } else {
            None
        },
        None => None,
    }
}

/// Icon entries for `paths`, given for each the bitmap the shell drew
/// (`pixels[i]` for `paths[i]`): one entry per path, in the same order, with
/// the icon's data URL where there is a 32×32 bitmap.
pub fn batch_from(paths: Vec<String>, pixels: Vec<Option<Vec<u8>>>) -> (r: Vec<IconEntry>)
    requires
        pixels.len() == paths.len(),
    ensures
        r.len() == paths.len(),
        forall|i: int| 0 <= i < r.len() ==> (#[trigger] r@[i]).path@ == paths@[i]@,
        forall|i: int| 0 <= i < r.len() ==> opt_chars((#[trigger] r@[i]).data) == icon_data_of(pixels@[i]),
{
    let n = paths.len();
    let ghost ps = paths@;
    let ghost xs = pixels@;
    let mut paths = paths;
    let mut pixels = pixels;
    let mut rev: Vec<IconEntry> = Vec::new();
    while paths.len() > 0
        invariant
            rev.len() + paths.len() == n,
            paths.len() == pixels.len(),
            ps.len() == n,
            xs.len() == n,
            paths@ == ps.take(paths.len() as int),
            pixels@ == xs.take(pixels.len() as int),
            forall|i: int| 0 <= i < rev.len() ==> (#[trigger] rev@[i]).path@ == ps[n - 1 - i]@,
            forall|i: int| 0 <= i < rev.len() ==> opt_chars((#[trigger] rev@[i]).data) == icon_data_of(xs[n - 1 - i]),
        decreases paths.len(),
    {
        let p = paths.pop().unwrap();
        let x = pixels.pop().unwrap();
        let ghost gx = x;
        let data = icon_data_url(x);
        assert(opt_chars(data) == icon_data_of(gx));
        rev.push(IconEntry { path: p, data });
    }
    let mut r: Vec<IconEntry> = Vec::new();
    while rev.len() > 0
        invariant
            rev.len() + r.len() == n,
            ps.len() == n,
            xs.len() == n,
            forall|i: int| 0 <= i < rev.len() ==> (#[trigger] rev@[i]).path@ == ps[n - 1 - i]@,
            forall|i: int| 0 <= i < rev.len() ==> opt_chars((#[trigger] rev@[i]).data) == icon_data_of(xs[n - 1 - i]),
            forall|i: int| 0 <= i < r.len() ==> (#[trigger] r@[i]).path@ == ps[i]@,
            forall|i: int| 0 <= i < r.len() ==> opt_chars((#[trigger] r@[i]).data) == icon_data_of(xs[i]),
        decreases rev.len(),
    {
        let e = rev.pop().unwrap();
        r.push(e);
    }
    r
}

} // verus!
