use vstd::prelude::*;
use vstd::arithmetic::div_mod::{lemma_fundamental_div_mod, lemma_fundamental_div_mod_converse};

verus! {

/// Pixel number `k` of a frame of width `width`, counted row-major: `(x, y)`.
pub open spec fn pixel_at(width: nat, k: nat) -> (nat, nat) {
    (((k as int) % (width as int)) as nat, ((k as int) / (width as int)) as nat)
}

/// The row-major number of pixel `(x, y)` in a frame of width `width`.
pub open spec fn pixel_number(width: nat, x: nat, y: nat) -> nat {
    y * width + x
}

/// Pixel `a` comes before pixel `b` in row-major order.
pub open spec fn row_major_before(a: (nat, nat), b: (nat, nat)) -> bool {
    a.1 < b.1 || (a.1 == b.1 && a.0 < b.0)
}

/// Walks the pixels of a `width` x `height` frame row-major, `x` fastest;
/// `(i, j)` is the next pixel, and `j` reaches `height` at the end.
#[derive(Clone, Copy, Debug, PartialEq, Eq, Structural)]
pub struct PixelScan {
    pub i: usize,
    pub j: usize,
    pub width: usize,
    pub height: usize,
}

impl PixelScan {
    /// The column of the next pixel lies inside the row.
    pub open spec fn wf(&self) -> bool {
        if self.width == 0 {
            self.i == 0
        } else {
            self.i < self.width
        }
    }

    /// The number of pixels of the frame.
    pub open spec fn count(&self) -> nat {
        (self.width * self.height) as nat
    }

    /// The number of pixels handed out so far.
    pub open spec fn position(&self) -> nat {
        if self.width == 0 || self.j >= self.height {
            self.count()
        } else {
            (self.j * self.width + self.i) as nat
        }
    }

    /// A scan at the first pixel of a `width` x `height` frame.
    pub fn new(width: usize, height: usize) -> (r: PixelScan)
        ensures
            r.wf(),
            r.width == width,
            r.height == height,
            r.position() == 0,
    {
        proof {
            if width == 0 {
                assert(width * height == 0);
            } else if height == 0 {
                assert(width * height == 0);
            }
        }
        PixelScan { i: 0, j: 0, width, height }
    }

    /// The next pixel `(x, y)`, or `None` once every pixel has been handed out.
    pub fn next(&mut self) -> (r: Option<(usize, usize)>)
        requires
            old(self).wf(),
        ensures
            final(self).wf(),
            final(self).width == old(self).width,
            final(self).height == old(self).height,
            old(self).width > 0 && old(self).j < old(self).height ==> final(self).i == (if old(
                self,
            ).i < old(self).width - 1 {
                old(self).i + 1
            } else {
                0
            }),
            old(self).width > 0 && old(self).j < old(self).height ==> final(self).j == (if old(
                self,
            ).i < old(self).width - 1 {
                old(self).j as int
            } else {
                old(self).j + 1
            }),
            old(self).position() <= old(self).count(),
            old(self).position() < old(self).count() ==> r.is_some() && (r.unwrap().0 as nat, r.unwrap().1 as nat)
                == pixel_at(old(self).width as nat, old(self).position())
                && final(self).position() == old(self).position() + 1,
            old(self).position() == old(self).count() ==> r.is_none() && *final(self) == *old(self),
    {
        proof {
            lemma_scan_position(*self);
        }
        if self.width == 0 || self.j >= self.height {
            return None;
        }
        let x = self.i;
        let y = self.j;
        if self.i < self.width - 1 {
            self.i = self.i + 1;
        } else {
            self.i = 0;
            self.j = self.j + 1;
        }
        proof {
            let w = self.width as int;
            if self.i == 0 {
                assert((y + 1) * w == y * w + w) by (nonlinear_arith);
                if self.j < self.height {
                    assert(self.j * w < self.height * w) by (nonlinear_arith)
                        requires
                            self.j < self.height,
                            w > 0,
                    ;
                } else {
                    assert(self.j * w == self.height * w);
                }
            } else {
                lemma_scan_position(*self);
            }
        }
        Some((x, y))
    }
}

/// Inside the frame, the position of a scan is the row-major number of its
/// pixel.
proof fn lemma_scan_position(s: PixelScan)
    requires
        s.wf(),
    ensures
        s.position() <= s.count(),
        s.width > 0 && s.j < s.height ==> s.position() < s.count() && pixel_at(
            s.width as nat,
            s.position(),
        ) == (s.i as nat, s.j as nat),
{
    if s.width > 0 && s.j < s.height {
        let w = s.width as int;
        assert(s.j * w + s.i < s.height * w) by (nonlinear_arith)
            requires
                s.j + 1 <= s.height,
                s.i < w,
        ;
        lemma_fundamental_div_mod_converse(s.j * w + s.i, w, s.j as int, s.i as int);
    } else if s.width == 0 {
        assert(s.count() == 0);
    }
}

/// The full-frame scan hands out `width * height` pixels, distinct, each inside
/// the frame, every pixel of the frame among them, and in row-major order.
pub proof fn lemma_scan_covers_frame(width: nat, height: nat)
    requires
        width > 0,
    ensures
        forall|k: nat|
            k < width * height ==> #[trigger] pixel_at(width, k).0 < width && pixel_at(width, k).1
                < height,
        forall|x: nat, y: nat|
            x < width && y < height ==> #[trigger] pixel_number(width, x, y) < width * height
                && pixel_at(width, pixel_number(width, x, y)) == (x, y),
        forall|k1: nat, k2: nat|
            #![trigger pixel_at(width, k1), pixel_at(width, k2)]
            k1 < k2 ==> row_major_before(pixel_at(width, k1), pixel_at(width, k2)),
{
    assert forall|k: nat| k < width * height implies #[trigger] pixel_at(width, k).0 < width
        && pixel_at(width, k).1 < height by {
        lemma_fundamental_div_mod(k as int, width as int);
        let q = (k as int) / (width as int);
        let r = (k as int) % (width as int);
        assert(q < height) by (nonlinear_arith)
            requires
                k == width * q + r,
                0 <= r,
                k < width * height,
                width > 0,
        ;
    }
    assert forall|x: nat, y: nat| x < width && y < height implies #[trigger] pixel_number(
        width,
        x,
        y,
    ) < width * height && pixel_at(width, pixel_number(width, x, y)) == (x, y) by {
        assert(y * width + x < width * height) by (nonlinear_arith)
            requires
                x < width,
                y + 1 <= height,
        ;
        lemma_fundamental_div_mod_converse((y * width + x) as int, width as int, y as int, x as int);
        assert(((y * width + x) as int) % (width as int) == x);
        assert(((y * width + x) as int) / (width as int) == y);
        assert(pixel_at(width, y * width + x) == (x, y));
    }
    assert forall|k1: nat, k2: nat| k1 < k2 implies row_major_before(
        #[trigger] pixel_at(width, k1),
        #[trigger] pixel_at(width, k2),
    ) by {
        lemma_fundamental_div_mod(k1 as int, width as int);
        lemma_fundamental_div_mod(k2 as int, width as int);
        let q1 = (k1 as int) / (width as int);
        let r1 = (k1 as int) % (width as int);
        let q2 = (k2 as int) / (width as int);
        let r2 = (k2 as int) % (width as int);
        assert(q1 < q2 || (q1 == q2 && r1 < r2)) by (nonlinear_arith)
            requires
                k1 == width * q1 + r1,
                k2 == width * q2 + r2,
                0 <= r1 < width,
                0 <= r2 < width,
                k1 < k2,
        ;
        assert(q1 >= 0 && q2 >= 0) by (nonlinear_arith)
            requires
                k1 == width * q1 + r1,
                k2 == width * q2 + r2,
                0 <= k1,
                0 <= k2,
                r1 < width,
                r2 < width,
        ;
        assert(pixel_at(width, k1) == (r1 as nat, q1 as nat));
        assert(pixel_at(width, k2) == (r2 as nat, q2 as nat));
    }
}

} // verus!
