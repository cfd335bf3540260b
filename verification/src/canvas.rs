//! The pixel raster.
//!
//! A `Canvas` is a `width x height` grid of 8-bit RGB pixels stored
//! row-major as flat bytes, three per pixel.  Writes land at
//! `((y * width) + x) * 3` and are ignored when that slot runs past the
//! buffer, matching the tolerant behaviour expected of the raster.

use vstd::prelude::*;

verus! {

/// Decimal digits of `n` in ASCII, most significant first.
pub open spec fn dec_bytes(n: nat) -> Seq<u8>
    decreases n,
{
    if n < 10 {
        seq![(48 + n) as u8]
    } else {
        dec_bytes(n / 10).push((48 + n % 10) as u8)
    }
}

/// One pixel as text: the three channels in decimal, each followed by a
/// single space.
pub open spec fn pixel_field(r: u8, g: u8, b: u8) -> Seq<u8> {
    dec_bytes(r as nat) + seq![32u8] + dec_bytes(g as nat) + seq![32u8] + dec_bytes(b as nat)
        + seq![32u8]
}

/// The three header lines of a plain-text PPM stream: `P3`, the
/// dimensions, and the maximum channel value `255`.
pub open spec fn ppm_header(w: usize, h: usize) -> Seq<u8> {
    seq![80u8, 51u8, 10u8] + dec_bytes(w as nat) + seq![32u8] + dec_bytes(h as nat) + seq![10u8]
        + seq![50u8, 53u8, 53u8, 10u8]
}

/// An `(x, y)` pixel coordinate.
pub type Position = (usize, usize);

/// Append the decimal text of `n` to `out`.
fn push_dec(out: &mut Vec<u8>, n: usize)
    ensures
        final(out)@ == old(out)@ + dec_bytes(n as nat),
{
    let ghost orig = old(out)@;
    let mut digits: Vec<u8> = Vec::new();
    let mut m: usize = n;
    digits.push(48 + (m % 10) as u8);
    m = m / 10;
    proof {
        assert(digits@.reverse() =~= digits@);
        if m > 0 {
            assert(dec_bytes(n as nat) =~= dec_bytes(m as nat) + digits@.reverse());
        } else {
            assert(dec_bytes(n as nat) =~= digits@.reverse());
        }
    }
    while m > 0
        invariant
            digits@.len() >= 1,
            dec_bytes(n as nat) =~= (if m > 0 {
                dec_bytes(m as nat) + digits@.reverse()
            } else {
                digits@.reverse()
            }),
        decreases m,
    {
        let d: u8 = 48 + (m % 10) as u8;
        let ghost before = digits@;
        digits.push(d);
        m = m / 10;
        proof {
            assert(digits@.reverse() =~= seq![d] + before.reverse());
            if m > 0 {
                assert(dec_bytes(m as nat).push(d) =~= dec_bytes(m as nat) + seq![d]);
                assert(dec_bytes(n as nat) =~= dec_bytes(m as nat) + digits@.reverse());
            } else {
                assert(dec_bytes(n as nat) =~= digits@.reverse());
            }
        }
    }
    let mut i: usize = digits.len();
    while i > 0
        invariant
            i <= digits@.len(),
            out@ =~= orig + digits@.skip(i as int).reverse(),
        decreases i,
    {
        i = i - 1;
        out.push(digits[i]);
        proof {
            assert(digits@.skip(i as int) =~= seq![digits@[i as int]] + digits@.skip(i as int + 1));
            assert(digits@.skip(i as int).reverse() =~= digits@.skip(i as int + 1).reverse().push(
                digits@[i as int],
            ));
        }
    }
    proof {
        assert(digits@.skip(0).reverse() =~= digits@.reverse());
    }
}

/// The byte slot of pixel `(x, y)` lies inside a well-formed buffer.
proof fn lemma_pixel_slot_in_bounds(w: int, h: int, x: int, y: int)
    by (nonlinear_arith)
    requires
        0 <= x < w,
        0 <= y < h,
    ensures
        0 <= (y * w + x) * 3 + 2 < w * h * 3,
{
}

#[derive(Debug)]
pub struct Canvas {
    width: usize,
    height: usize,
    data: Vec<u8>,
}

impl Canvas {
    /// The grid dimensions `(width, height)`.
    pub closed spec fn dims(&self) -> (usize, usize) {
        (self.width, self.height)
    }

    /// The raw bytes, three per pixel, row-major.
    pub closed spec fn bytes(&self) -> Seq<u8> {
        self.data@
    }

    /// A canvas is well formed when it holds exactly three bytes per pixel.
    pub open spec fn wf(&self) -> bool {
        self.bytes().len() == self.dims().0 * self.dims().1 * 3
    }

    /// The byte slot of pixel `(x, y)`: `((y * width) + x) * 3`.
    pub open spec fn index_of(&self, x: int, y: int) -> int {
        (y * self.dims().0 + x) * 3
    }

    pub fn new(width: usize, height: usize) -> (c: Self)
        requires
            width * height * 3 <= usize::MAX,
        ensures
            c.wf(),
            c.dims() == (width, height),
            c.bytes() == Seq::new((width * height * 3) as nat, |i: int| 0u8),
    {
        let len: usize = width * height * 3;
        let mut data: Vec<u8> = Vec::new();
        while data.len() < len
            invariant
                data@.len() <= len,
                data@ == Seq::new(data@.len(), |i: int| 0u8),
            decreases len - data@.len(),
        {
            data.push(0u8);
            proof {
                assert(data@ =~= Seq::new(data@.len(), |i: int| 0u8));
            }
        }
        proof {
            assert(data@ =~= Seq::new((width * height * 3) as nat, |i: int| 0u8));
        }
        Canvas { width, height, data }
    }

    pub fn width(&self) -> (w: usize)
        ensures
            w == self.dims().0,
    {
        self.width
    }

    pub fn height(&self) -> (h: usize)
        ensures
            h == self.dims().1,
    {
        self.height
    }

    /// Flat byte index of a pixel position.
    pub fn to_index(&self, pos: &Position) -> (i: usize)
        requires
            (pos.1 * self.dims().0 + pos.0) * 3 <= usize::MAX,
        ensures
            i == self.index_of(pos.0 as int, pos.1 as int),
    {
        ((pos.1 * self.width) + pos.0) * 3
    }

    /// Store an already scaled RGB triple at `pos`; out-of-range slots are
    /// left untouched.
    pub fn set_pixel_rgb(&mut self, pos: Position, rgb: (u8, u8, u8))
        requires
            old(self).wf(),
            (pos.1 * old(self).dims().0 + pos.0) * 3 + 2 <= usize::MAX,
        ensures
            final(self).wf(),
            final(self).dims() == old(self).dims(),
            ({
                let i = old(self).index_of(pos.0 as int, pos.1 as int);
                if i + 2 < old(self).bytes().len() {
                    final(self).bytes() == old(self).bytes().update(i, rgb.0).update(
                        i + 1,
                        rgb.1,
                    ).update(i + 2, rgb.2)
                } else {
                    final(self).bytes() == old(self).bytes()
                }
            }),
    {
        let index = self.to_index(&pos);
        if index + 2 < self.data.len() {
            self.data.set(index, rgb.0);
            self.data.set(index + 1, rgb.1);
            self.data.set(index + 2, rgb.2);
        }
    }

    /// The text of pixel `(x, y)`, with the line break that follows every
    /// fourth column past the first.
    pub open spec fn pixel_entry(&self, x: int, y: int) -> Seq<u8> {
        let i = self.index_of(x, y);
        pixel_field(self.bytes()[i], self.bytes()[i + 1], self.bytes()[i + 2]) + if x > 1 && x % 4
            == 0 {
            seq![10u8]
        } else {
            Seq::<u8>::empty()
        }
    }

    /// The text of the first `x` pixels of row `y`.
    pub open spec fn row_upto(&self, y: int, x: int) -> Seq<u8>
        decreases x,
    {
        if x <= 0 {
            Seq::<u8>::empty()
        } else {
            self.row_upto(y, x - 1) + self.pixel_entry(x - 1, y)
        }
    }

    /// The text of the first `y` full rows.
    pub open spec fn body_upto(&self, y: int) -> Seq<u8>
        decreases y,
    {
        if y <= 0 {
            Seq::<u8>::empty()
        } else {
            self.body_upto(y - 1) + self.row_upto(y - 1, self.dims().0 as int)
        }
    }

    /// The complete PPM stream for this canvas.
    pub open spec fn ppm_bytes(&self) -> Seq<u8> {
        ppm_header(self.dims().0, self.dims().1) + self.body_upto(self.dims().1 as int)
    }

    /// Serialise the canvas as a plain-text PPM byte stream, byte for byte
    /// as `ppm_bytes` lays it out.
    pub fn to_ppm(&self) -> (out: Vec<u8>)
        requires
            self.wf(),
        ensures
            out@ == self.ppm_bytes(),
    {
        let w = self.width;
        let h = self.height;
        let _dlen = self.data.len();
        proof {
            assert(self.bytes().len() <= usize::MAX);
        }
        let mut out: Vec<u8> = Vec::new();
        out.push(80);
        out.push(51);
        out.push(10);
        push_dec(&mut out, self.width);
        out.push(32);
        push_dec(&mut out, self.height);
        out.push(10);
        out.push(50);
        out.push(53);
        out.push(53);
        out.push(10);
        proof {
            assert(out@ =~= ppm_header(w, h));
        }
        let mut y: usize = 0;
        while y < h
            invariant
                self.wf(),
                self.bytes().len() <= usize::MAX,
                w == self.dims().0,
                h == self.dims().1,
                y <= h,
                out@ == ppm_header(w, h) + self.body_upto(y as int),
            decreases h - y,
        {
            let mut x: usize = 0;
            while x < w
                invariant
                    self.wf(),
                    self.bytes().len() <= usize::MAX,
                    w == self.dims().0,
                    h == self.dims().1,
                    y < h,
                    x <= w,
                    out@ == ppm_header(w, h) + self.body_upto(y as int) + self.row_upto(
                        y as int,
                        x as int,
                    ),
                decreases w - x,
            {
                proof {
                    lemma_pixel_slot_in_bounds(w as int, h as int, x as int, y as int);
                }
                let index = self.to_index(&(x, y));
                let ghost before = out@;
                push_dec(&mut out, self.data[index] as usize);
                out.push(32);
                push_dec(&mut out, self.data[index + 1] as usize);
                out.push(32);
                push_dec(&mut out, self.data[index + 2] as usize);
                out.push(32);
                if x > 1 && x % 4 == 0 {
                    out.push(10);
                }
                proof {
                    assert(out@ =~= before + self.pixel_entry(x as int, y as int));
                    assert(out@ =~= ppm_header(w, h) + self.body_upto(y as int) + self.row_upto(
                        y as int,
                        x as int + 1,
                    ));
                }
                x = x + 1;
            }
            proof {
                assert(ppm_header(w, h) + self.body_upto(y as int) + self.row_upto(
                    y as int,
                    w as int,
                ) =~= ppm_header(w, h) + self.body_upto(y as int + 1));
            }
            y = y + 1;
        }
        out
    }

    /// Read the RGB triple at `pos`, or `None` when its slot runs past the
    /// buffer.
    pub fn pixel_rgb_at(&self, pos: Position) -> (r: Option<(u8, u8, u8)>)
        requires
            self.wf(),
            (pos.1 * self.dims().0 + pos.0) * 3 + 2 <= usize::MAX,
        ensures
            ({
                let i = self.index_of(pos.0 as int, pos.1 as int);
                if i + 2 < self.bytes().len() {
                    r == Some(
                        (self.bytes()[i], self.bytes()[i + 1], self.bytes()[i + 2]),
                    )
                } else {
                    r is None
                }
            }),
    {
        let index = self.to_index(&pos);
        if index + 2 < self.data.len() {
            Some((self.data[index], self.data[index + 1], self.data[index + 2]))
        } else {
            None
        }
    }
}

} // verus!
