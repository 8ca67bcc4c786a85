//! The ASCII bitmap format that seeds a client's own sprite: the tag `P3`,
//! the width, the height, the maximum channel value `255`, then `r g b`
//! triplets, all separated by whitespace; `#` starts a comment that runs to
//! the end of its line.

use vstd::prelude::*;
use crate::codec::{decimal_value, is_blank, number_ok, parse_decimal, same_bytes};
use vstd::arithmetic::div_mod::lemma_fundamental_div_mod_converse;
use crate::geometry::{Color, Image, ImageView};
use crate::line_reader::{line_views, NEWLINE};

verus! {

/// The comment byte `#`.
pub const HASH: u8 = 35;

/// `[cur]` when `cur` holds a word, else nothing.
pub open spec fn flush(cur: Seq<u8>) -> Seq<Seq<u8>> {
    if cur.len() > 0 {
        seq![cur]
    } else {
        Seq::empty()
    }
}

/// The words of `s` from position `i` on, given whether a comment is open
/// there and the part of a word already read.
pub open spec fn scan(s: Seq<u8>, i: int, comment: bool, cur: Seq<u8>) -> Seq<Seq<u8>>
    decreases s.len() - i,
{
    if i >= s.len() {
        flush(cur)
    } else if comment {
        scan(s, i + 1, s[i] != NEWLINE, cur)
    } else if s[i] == HASH {
        flush(cur) + scan(s, i + 1, true, Seq::empty())
    } else if is_blank(s[i]) {
        flush(cur) + scan(s, i + 1, false, Seq::empty())
    } else {
        scan(s, i + 1, false, cur.push(s[i]))
    }
}

/// The whitespace-separated words of `s`, comments left out.
pub open spec fn words(s: Seq<u8>) -> Seq<Seq<u8>> {
    scan(s, 0, false, Seq::empty())
}

/// Splits `s` into its words, leaving out comments.
pub fn split_words(s: &[u8]) -> (r: Vec<Vec<u8>>)
    ensures
        line_views(r@) == words(s@),
{
    let mut out: Vec<Vec<u8>> = Vec::new();
    let mut cur: Vec<u8> = Vec::new();
    let mut comment = false;
    let mut i: usize = 0;
    while i < s.len()
        invariant
            i <= s@.len(),
            comment ==> cur@.len() == 0,
            line_views(out@) + scan(s@, i as int, comment, cur@) == words(s@),
        decreases s@.len() - i,
    {
        let b = s[i];
        let ghost before = line_views(out@);
        let ghost cur0 = cur@;
        if comment {
            comment = b != NEWLINE;
        } else if b == HASH || b == 32 || (9 <= b && b <= 13) {
            if cur.len() > 0 {
                let mut word: Vec<u8> = Vec::new();
                std::mem::swap(&mut word, &mut cur);
                out.push(word);
                assert(line_views(out@) =~= before + flush(cur0));
            } else {
                assert(flush(cur0) =~= Seq::<Seq<u8>>::empty());
                assert(line_views(out@) =~= before + flush(cur0));
            }
            assert(cur@ =~= Seq::<u8>::empty());
            comment = b == HASH;
            assert(line_views(out@) + scan(s@, i + 1, comment, cur@) =~= before + (flush(cur0)
                + scan(s@, i + 1, comment, cur@)));
        } else {
            cur.push(b);
        }
        i += 1;
    }
    if cur.len() > 0 {
        let ghost before = line_views(out@);
        let ghost cur0 = cur@;
        out.push(cur);
        assert(line_views(out@) =~= before + flush(cur0));
    } else {
        assert(line_views(out@) + flush(cur@) =~= line_views(out@));
    }
    out
}

/// Why a bitmap could not be read.
#[derive(Debug, Clone, Copy, PartialEq, Eq, Structural)]
pub enum BitmapError {
    /// The first word is not `P3`.
    BadTag,
    /// The width or height is missing or not a number that fits.
    BadSize,
    /// The maximum channel value is missing or not `255`.
    BadMaxValue,
    /// A channel of a complete triplet is not a number up to 255.
    BadChannel,
    /// The number of complete triplets is not width × height.
    PixelCountMismatch,
}

/// The words `P3` and `255`.
pub open spec fn tag_word() -> Seq<u8> {
    seq![80u8, 51]
}

pub open spec fn max_word() -> Seq<u8> {
    seq![50u8, 53, 53]
}

/// How many complete triplets follow the header of the words `t`.
pub open spec fn triplets(t: Seq<Seq<u8>>) -> int {
    (t.len() - 4) / 3
}

/// The `k`-th channel value after the header.
pub open spec fn channel(t: Seq<Seq<u8>>, k: int) -> u8 {
    decimal_value(t[4 + k]) as u8
}

/// The `q`-th pixel after the header.
pub open spec fn color_at(t: Seq<Seq<u8>>, q: int) -> Color {
    Color { r: channel(t, 3 * q), g: channel(t, 3 * q + 1), b: channel(t, 3 * q + 2) }
}

/// What reading the words `t` gives: the first failing check in the order
/// tag, size, maximum value, channels, pixel count; else the image. Words
/// left over after the last complete triplet are not read.
pub open spec fn bitmap_spec(t: Seq<Seq<u8>>) -> Result<ImageView, BitmapError> {
    if t.len() < 1 || t[0] != tag_word() {
        Err(BitmapError::BadTag)
    } else if t.len() < 3 || !number_ok(t[1], usize::MAX as int) || !number_ok(
        t[2],
        usize::MAX as int,
    ) {
        Err(BitmapError::BadSize)
    } else if t.len() < 4 || t[3] != max_word() {
        Err(BitmapError::BadMaxValue)
    } else if exists|k: int| 0 <= k < 3 * triplets(t) && !number_ok(#[trigger] t[4 + k], 255) {
        Err(BitmapError::BadChannel)
    } else if triplets(t) != decimal_value(t[1]) * decimal_value(t[2]) {
        Err(BitmapError::PixelCountMismatch)
    } else {
        Ok(
            ImageView {
                width: decimal_value(t[1]) as nat,
                height: decimal_value(t[2]) as nat,
                pixels: Seq::new(triplets(t) as nat, |q: int| color_at(t, q)),
            },
        )
    }
}

/// Reads a bitmap from the bytes of its file.
pub fn parse_bitmap(s: &[u8]) -> (r: Result<Image, BitmapError>)
    ensures
        match bitmap_spec(words(s@)) {
            Ok(v) => r matches Ok(img) && img@ == v && img.wf(),
            Err(e) => r == Err::<Image, BitmapError>(e),
        },
{
    let t = split_words(s);
    let ghost tv = words(s@);
    assert(forall|k: int| 0 <= k < t@.len() ==> #[trigger] t@[k]@ == tv[k]);
    let tag: Vec<u8> = vec![80u8, 51];
    let max_value: Vec<u8> = vec![50u8, 53, 53];
    assert(tag@ =~= tag_word());
    assert(max_value@ =~= max_word());
    if t.len() < 1 || !same_bytes(t[0].as_slice(), tag.as_slice()) {
        return Err(BitmapError::BadTag);
    }
    if t.len() < 3 {
        return Err(BitmapError::BadSize);
    }
    let width = match parse_decimal(&t[1], usize::MAX as u64) {
        Some(v) => v as usize,
        None => return Err(BitmapError::BadSize),
    };
    let height = match parse_decimal(&t[2], usize::MAX as u64) {
        Some(v) => v as usize,
        None => return Err(BitmapError::BadSize),
    };
    if t.len() < 4 || !same_bytes(t[3].as_slice(), max_value.as_slice()) {
        return Err(BitmapError::BadMaxValue);
    }
    let mut pixels: Vec<Color> = Vec::new();
    let mut idx: usize = 4;
    while t.len() - idx >= 3
        invariant
            4 <= idx <= t@.len(),
            tv[0] == tag_word(),
            number_ok(tv[1], usize::MAX as int),
            number_ok(tv[2], usize::MAX as int),
            width == decimal_value(tv[1]),
            height == decimal_value(tv[2]),
            tv[3] == max_word(),
            idx == 4 + 3 * pixels@.len(),
            tv == words(s@),
            tv.len() == t@.len(),
            forall|k: int| 0 <= k < t@.len() ==> #[trigger] t@[k]@ == tv[k],
            forall|k: int| 0 <= k < 3 * pixels@.len() ==> number_ok(#[trigger] tv[4 + k], 255),
            pixels@ == Seq::new(pixels@.len(), |q: int| color_at(tv, q)),
        decreases t@.len() - idx,
    {
        let ghost q = pixels@.len() as int;
        let r = parse_decimal(&t[idx], 255);
        let g = parse_decimal(&t[idx + 1], 255);
        let b = parse_decimal(&t[idx + 2], 255);
        if r.is_none() || g.is_none() || b.is_none() {
            proof {
                lemma_triplets_at_least(tv, q + 1);
                if r.is_none() {
                    assert(!number_ok(tv[4 + 3 * q], 255));
                } else if g.is_none() {
                    assert(!number_ok(tv[4 + (3 * q + 1)], 255));
                } else {
                    assert(!number_ok(tv[4 + (3 * q + 2)], 255));
                }
            }
            return Err(BitmapError::BadChannel);
        }
        let c = Color {
            r: r.unwrap() as u8,
            g: g.unwrap() as u8,
            b: b.unwrap() as u8,
        };
        pixels.push(c);
        proof {
            assert forall|k: int| 0 <= k < 3 * pixels@.len() implies number_ok(
                #[trigger] tv[4 + k],
                255,
            ) by {
                if k >= 3 * q {
                    assert(k == 3 * q || k == 3 * q + 1 || k == 3 * q + 2);
                }
            }
            assert(pixels@ =~= Seq::new(pixels@.len(), |q: int| color_at(tv, q)));
        }
        idx += 3;
    }
    proof {
        lemma_fundamental_div_mod_converse(
            tv.len() - 4,
            3,
            pixels@.len() as int,
            tv.len() - 4 - 3 * pixels@.len(),
        );
        assert(triplets(tv) == pixels@.len());
    }
    let count = pixels.len();
    let area = width.checked_mul(height);
    match area {
        Some(a) => {
            if a != count {
                return Err(BitmapError::PixelCountMismatch);
            }
        },
        None => {
            return Err(BitmapError::PixelCountMismatch);
        },
    }
    let img = Image { width, height, pixels };
    proof {
        assert(img@.pixels =~= Seq::new(triplets(tv) as nat, |q: int| color_at(tv, q)));
    }
    Ok(img)
}

/// Past `q` complete triplets, at least `q` are counted.
proof fn lemma_triplets_at_least(t: Seq<Seq<u8>>, q: int)
    requires
        q >= 0,
        4 + 3 * q <= t.len(),
    ensures
        triplets(t) >= q,
{
    assert((t.len() - 4) / 3 >= q) by (nonlinear_arith)
        requires
            t.len() - 4 >= 3 * q,
            q >= 0,
    ;
}

} // verus!
