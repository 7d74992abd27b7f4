use vstd::prelude::*;

use crate::packer::Rect;

verus! {

/// A horizontal band of an atlas in which images are placed side by side from the left.
#[derive(Debug, Clone, Copy, PartialEq, Eq, Structural)]
pub struct Strip {
    pub y: u32,
    pub height: u32,
    pub used_width: u32,
}

/// Why an image could not be given a place.
#[derive(Debug, Clone, Copy, PartialEq, Eq, Structural)]
pub enum PackError {
    /// Making room would take the atlas past the largest power-of-two side a `u32` holds.
    AtlasTooLarge,
}

/// Rectangles `a` and `b` share no pixel.
pub open spec fn apart(a: Rect, b: Rect) -> bool {
    ||| a.x + a.width <= b.x
    ||| b.x + b.width <= a.x
    ||| a.y + a.height <= b.y
    ||| b.y + b.height <= a.y
}

/// An image of `w` by `h` pixels fits at the right end of strip `s` of an atlas `width` wide.
pub open spec fn fits(s: Strip, w: u32, h: u32, width: u32) -> bool {
    s.height >= h && s.used_width + w <= width
}

/// The first strip that an image of `w` by `h` pixels fits in, if any.
pub open spec fn first_fit(strips: Seq<Strip>, w: u32, h: u32, width: u32) -> Option<int> {
    if exists|i: int| 0 <= i < strips.len() && #[trigger] fits(strips[i], w, h, width) {
        Some(
            choose|i: int|
                0 <= i < strips.len() && #[trigger] fits(strips[i], w, h, width) && forall|k: int|
                    0 <= k < i ==> !#[trigger] fits(strips[k], w, h, width),
        )
    } else {
        None
    }
}

/// The smallest power of two at least `n`, if a `u32` holds it.
pub fn next_power_of_two(n: u32) -> (r: Option<u32>)
    ensures
        n <= 0x8000_0000 ==> r is Some,
        r matches Some(p) ==> crate::sprites::is_power_of_two(p) && p >= 1 && p >= n && (p == 1 || p / 2
            < n),
        n > 0x8000_0000 ==> r is None,
{
    let mut p: u32 = 1;
    let ghost mut k: nat = 0;
    proof {
        vstd::arithmetic::power2::lemma2_to64();
    }
    while p < n
        invariant
            k < 32,
            p >= 1,
            p as nat == vstd::arithmetic::power2::pow2(k),
            p == 1 || p / 2 < n,
        decreases 32 - k,
    {
        if p >= 0x8000_0000 {
            return None;
        }
        p = p * 2;
        proof {
            vstd::arithmetic::power2::lemma_pow2_adds(k, 1);
            vstd::arithmetic::power2::lemma2_to64();
            k = k + 1;
            if k == 32 {
                assert(false);
            }
        }
    }
    Some(p)
}

/// Places images in an atlas strip by strip: each image goes to the right of the images in the
/// first strip tall enough with room left, or into a new strip below the last one; when neither
/// is possible the atlas doubles along its shorter side.
pub struct ShelfPacker {
    width: u32,
    height: u32,
    strips: Vec<Strip>,
    placed: Ghost<Seq<Rect>>,
    homes: Ghost<Seq<int>>,
}

impl ShelfPacker {
    pub closed spec fn spec_width(&self) -> u32 {
        self.width
    }

    pub closed spec fn spec_height(&self) -> u32 {
        self.height
    }

    pub closed spec fn spec_strips(&self) -> Seq<Strip> {
        self.strips@
    }

    /// The rectangles given out so far.
    pub closed spec fn placed(&self) -> Seq<Rect> {
        self.placed@
    }

    /// The strips lie one under the other from the top, inside the atlas, and every rectangle
    /// given out lies in the used part of one of them.
    pub closed spec fn wf(&self) -> bool {
        let s = self.strips@;
        &&& self.width >= 1
        &&& self.height >= 1
        &&& s.len() >= 1
        &&& s[0].y == 0
        &&& forall|i: int| 0 <= i < s.len() - 1 ==> #[trigger] s[i + 1].y == s[i].y + s[i].height
        &&& s.last().y + s.last().height <= self.height
        &&& forall|i: int| 0 <= i < s.len() ==> #[trigger] s[i].used_width <= self.width
        &&& self.homes@.len() == self.placed@.len()
        &&& forall|p: int|
            0 <= p < self.placed@.len() ==> {
                let i = #[trigger] self.homes@[p];
                let r = self.placed@[p];
                &&& 0 <= i < s.len()
                &&& r.y == s[i].y
                &&& r.height <= s[i].height
                &&& r.x + r.width <= s[i].used_width
            }
        &&& forall|a: int, b: int|
            0 <= a < self.placed@.len() && 0 <= b < self.placed@.len() && a != b ==> apart(
                #[trigger] self.placed@[a],
                #[trigger] self.placed@[b],
            )
    }

    /// Rectangles given out so far share no pixel and lie inside the atlas.
    pub proof fn lemma_placed_apart(&self, a: int, b: int)
        requires
            self.wf(),
            0 <= a < self.placed().len(),
            0 <= b < self.placed().len(),
            a != b,
        ensures
            apart(self.placed()[a], self.placed()[b]),
            self.placed()[a].x + self.placed()[a].width <= self.spec_width(),
            self.placed()[a].y + self.placed()[a].height <= self.spec_height(),
    {
        let s = self.strips@;
        let i = self.homes@[a];
        if i < s.len() - 1 {
            lemma_stacked(s, i, s.len() - 1);
        }
    }

    pub fn width(&self) -> (r: u32)
        ensures
            r == self.spec_width(),
    {
        self.width
    }

    pub fn height(&self) -> (r: u32)
        ensures
            r == self.spec_height(),
    {
        self.height
    }

    pub fn strips(&self) -> (r: &Vec<Strip>)
        ensures
            r@ == self.spec_strips(),
    {
        &self.strips
    }

    /// A packer for an atlas whose first (largest) image is `w` by `h` pixels: the atlas
    /// starts at the next powers of two, with one empty strip as tall as that image.
    pub fn new(w: u32, h: u32) -> (r: Result<ShelfPacker, PackError>)
        ensures
            (w > 0x8000_0000 || h > 0x8000_0000) ==> r == Err::<ShelfPacker, PackError>(
                PackError::AtlasTooLarge,
            ),
            (w <= 0x8000_0000 && h <= 0x8000_0000) ==> (r matches Ok(p) && {
                &&& p.wf()
                &&& p.spec_width() >= w
                &&& (p.spec_width() == 1 || p.spec_width() / 2 < w)
                &&& crate::sprites::is_power_of_two(p.spec_width())
                &&& p.spec_height() >= h
                &&& (p.spec_height() == 1 || p.spec_height() / 2 < h)
                &&& crate::sprites::is_power_of_two(p.spec_height())
                &&& p.spec_strips() == seq![Strip { y: 0, height: h, used_width: 0 }]
                &&& p.placed() == Seq::<Rect>::empty()
            }),
    {
        let width = match next_power_of_two(w) {
            Some(v) => v,
            None => return Err(PackError::AtlasTooLarge),
        };
        let height = match next_power_of_two(h) {
            Some(v) => v,
            None => return Err(PackError::AtlasTooLarge),
        };
        let mut strips: Vec<Strip> = Vec::new();
        strips.push(Strip { y: 0, height: h, used_width: 0 });
        let r = ShelfPacker {
            width,
            height,
            strips,
            placed: Ghost(Seq::empty()),
            homes: Ghost(Seq::empty()),
        };
        assert(r.strips@ =~= seq![Strip { y: 0, height: h, used_width: 0 }]);
        Ok(r)
    }

    /// One attempt to place an image of `w` by `h` pixels without growing the atlas: in the
    /// first strip that fits it, to the right of what is there; otherwise, when there is room
    /// under the last strip, in a new strip there as tall as the image (which is added even when
    /// the image is too wide for the atlas).
    pub fn try_place(&mut self, w: u32, h: u32) -> (r: Option<Rect>)
        requires
            old(self).wf(),
        ensures
            final(self).wf(),
            final(self).spec_width() == old(self).spec_width(),
            final(self).spec_height() == old(self).spec_height(),
            ({
                let s = old(self).spec_strips();
                let width = old(self).spec_width();
                let bottom = s.last().y + s.last().height;
                match first_fit(s, w, h, width) {
                    Some(i) => {
                        &&& r == Some(Rect { x: s[i].used_width, y: s[i].y, width: w, height: h })
                        &&& final(self).spec_strips() == s.update(
                            i,
                            Strip { used_width: (s[i].used_width + w) as u32, ..s[i] },
                        )
                    },
                    None => if bottom + h <= old(self).spec_height() {
                        &&& final(self).spec_strips() == s.push(
                            Strip {
                                y: bottom as u32,
                                height: h,
                                used_width: if w <= width {
                                    w
                                } else {
                                    0
                                },
                            },
                        )
                        &&& r == if w <= width {
                            Some(Rect { x: 0, y: bottom as u32, width: w, height: h })
                        } else {
                            None
                        }
                    } else {
                        &&& r is None
                        &&& final(self).spec_strips() == s
                    },
                }
            }),
            r matches Some(rect) ==> final(self).placed() == old(self).placed().push(rect),
            r is None ==> final(self).placed() == old(self).placed(),
            r matches Some(rect) ==> rect.x + rect.width <= final(self).spec_width() && rect.y
                + rect.height <= final(self).spec_height() && forall|p: int|
                0 <= p < old(self).placed().len() ==> apart(#[trigger] old(self).placed()[p], rect),
    {
        let ghost s0 = self.strips@;
        let n = self.strips.len();
        let mut i: usize = 0;
        while i < n
            invariant
                n == self.strips@.len(),
                s0 == self.strips@,
                self.wf(),
                self.width == old(self).width,
                self.height == old(self).height,
                self.strips@ == old(self).strips@,
                self.placed@ == old(self).placed@,
                self.homes@ == old(self).homes@,
                i <= n,
                forall|k: int| 0 <= k < i ==> !#[trigger] fits(s0[k], w, h, self.width),
            decreases n - i,
        {
            let strip = self.strips[i];
            if strip.height >= h && strip.used_width as u64 + w as u64 <= self.width as u64 {
                let rect = Rect { x: strip.used_width, y: strip.y, width: w, height: h };
                let updated = Strip { used_width: strip.used_width + w, ..strip };
                let ghost p0 = self.placed@;
                let ghost h0 = self.homes@;
                self.strips.set(i, updated);
                self.placed = Ghost(p0.push(rect));
                self.homes = Ghost(h0.push(i as int));
                proof {
                    let width = self.width;
                    assert(fits(s0[i as int], w, h, width));
                    let f = first_fit(s0, w, h, width);
                    assert(f == Some(i as int)) by {
                        let c = f->Some_0;
                        if c < i {
                            assert(!fits(s0[c], w, h, width));
                        } else if c > i {
                            assert(!fits(s0[i as int], w, h, width));
                        }
                    }
                    let s1 = self.strips@;
                    assert forall|k: int| 0 <= k < s1.len() - 1 implies #[trigger] s1[k + 1].y
                        == s1[k].y + s1[k].height by {
                        assert(s0[k + 1].y == s0[k].y + s0[k].height);
                    }
                    if i < n - 1 {
                        lemma_stacked(s0, i as int, n - 1);
                    }
                    assert forall|q: int| 0 <= q < p0.len() implies apart(#[trigger] p0[q], rect) by {
                        let j = h0[q];
                        if j < i {
                            lemma_stacked(s0, j, i as int);
                        } else if j > i {
                            lemma_stacked(s0, i as int, j);
                        }
                    }
                    assert forall|a: int, b: int|
                        0 <= a < self.placed@.len() && 0 <= b < self.placed@.len() && a != b implies apart(
                        #[trigger] self.placed@[a],
                        #[trigger] self.placed@[b],
                    ) by {
                        if a < p0.len() && b < p0.len() {
                            assert(apart(p0[a], p0[b]));
                        } else if a < p0.len() {
                            assert(apart(p0[a], rect));
                        } else {
                            assert(apart(p0[b], rect));
                        }
                    }
                    assert forall|q: int| 0 <= q < self.placed@.len() implies {
                        let j = #[trigger] self.homes@[q];
                        let r = self.placed@[q];
                        &&& 0 <= j < s1.len()
                        &&& r.y == s1[j].y
                        &&& r.height <= s1[j].height
                        &&& r.x + r.width <= s1[j].used_width
                    } by {
                        if q < p0.len() {
                            assert(h0[q] == self.homes@[q]);
                        }
                    }
                }
                return Some(rect);
            }
            i = i + 1;
        }
        proof {
            assert(first_fit(s0, w, h, self.width) is None);
        }
        let last = self.strips[n - 1];
        if self.height as u64 >= last.y as u64 + last.height as u64 + h as u64 {
            let y = last.y + last.height;
            let used = if w <= self.width { w } else { 0 };
            let ghost p0 = self.placed@;
            let ghost h0 = self.homes@;
            self.strips.push(Strip { y, height: h, used_width: used });
            proof {
                let s1 = self.strips@;
                assert forall|k: int| 0 <= k < s1.len() - 1 implies #[trigger] s1[k + 1].y
                    == s1[k].y + s1[k].height by {
                    if k < n - 1 {
                        assert(s0[k + 1].y == s0[k].y + s0[k].height);
                    }
                }
                assert forall|q: int| 0 <= q < p0.len() implies #[trigger] p0[q].y + p0[q].height
                    <= y by {
                    let j = h0[q];
                    if j < n - 1 {
                        lemma_stacked(s0, j, n - 1);
                    }
                }
                assert forall|q: int| 0 <= q < p0.len() implies {
                    let j = #[trigger] h0[q];
                    let r = p0[q];
                    &&& 0 <= j < s1.len()
                    &&& r.y == s1[j].y
                    &&& r.height <= s1[j].height
                    &&& r.x + r.width <= s1[j].used_width
                } by {
                    assert(s1[h0[q]] == s0[h0[q]]);
                }
            }
            if w <= self.width {
                let rect = Rect { x: 0, y, width: w, height: h };
                self.placed = Ghost(p0.push(rect));
                self.homes = Ghost(h0.push(n as int));
                proof {
                    let s1 = self.strips@;
                    assert forall|q: int| 0 <= q < p0.len() implies apart(#[trigger] p0[q], rect) by {
                    }
                    assert forall|a: int, b: int|
                        0 <= a < self.placed@.len() && 0 <= b < self.placed@.len() && a != b implies apart(
                        #[trigger] self.placed@[a],
                        #[trigger] self.placed@[b],
                    ) by {
                        if a < p0.len() && b < p0.len() {
                            assert(apart(p0[a], p0[b]));
                        } else if a < p0.len() {
                            assert(apart(p0[a], rect));
                        } else {
                            assert(apart(p0[b], rect));
                        }
                    }
                    assert forall|q: int| 0 <= q < self.placed@.len() implies {
                        let j = #[trigger] self.homes@[q];
                        let r = self.placed@[q];
                        &&& 0 <= j < s1.len()
                        &&& r.y == s1[j].y
                        &&& r.height <= s1[j].height
                        &&& r.x + r.width <= s1[j].used_width
                    } by {
                        if q < p0.len() {
                            assert(h0[q] == self.homes@[q]);
                        }
                    }
                }
                Some(rect)
            } else {
                None
            }
        } else {
            None
        }
    }

    /// Doubles the atlas along its shorter side (its width when the sides are equal), unless
    /// that side would no longer fit in a `u32`; says whether it did.
    pub fn grow(&mut self) -> (r: bool)
        requires
            old(self).wf(),
        ensures
            final(self).wf(),
            final(self).spec_strips() == old(self).spec_strips(),
            final(self).placed() == old(self).placed(),
            old(self).spec_height() < old(self).spec_width() ==> {
                &&& r == (old(self).spec_height() <= 0x7fff_ffff)
                &&& final(self).spec_width() == old(self).spec_width()
                &&& final(self).spec_height() == if r {
                    2 * old(self).spec_height()
                } else {
                    old(self).spec_height() as int
                }
            },
            old(self).spec_height() >= old(self).spec_width() ==> {
                &&& r == (old(self).spec_width() <= 0x7fff_ffff)
                &&& final(self).spec_height() == old(self).spec_height()
                &&& final(self).spec_width() == if r {
                    2 * old(self).spec_width()
                } else {
                    old(self).spec_width() as int
                }
            },
    {
        if self.height < self.width {
            if self.height > 0x7fff_ffff {
                return false;
            }
            self.height = self.height * 2;
        } else {
            if self.width > 0x7fff_ffff {
                return false;
            }
            self.width = self.width * 2;
        }
        true
    }

    /// Places an image of `w` by `h` pixels, growing the atlas until it fits.
    pub fn place(&mut self, w: u32, h: u32) -> (r: Result<Rect, PackError>)
        requires
            old(self).wf(),
        ensures
            final(self).wf(),
            final(self).spec_width() >= old(self).spec_width(),
            final(self).spec_height() >= old(self).spec_height(),
            r matches Ok(rect) ==> {
                &&& rect.width == w
                &&& rect.height == h
                &&& rect.x + rect.width <= final(self).spec_width()
                &&& rect.y + rect.height <= final(self).spec_height()
                &&& final(self).placed() == old(self).placed().push(rect)
                &&& forall|p: int|
                    0 <= p < old(self).placed().len() ==> apart(#[trigger] old(self).placed()[p], rect)
            },
            r is Err ==> final(self).placed() == old(self).placed(),
    {
        loop
            invariant
                self.wf(),
                self.width >= old(self).width,
                self.height >= old(self).height,
                self.placed@ == old(self).placed@,
            decreases 0x1_ffff_fffe - self.width - self.height,
        {
            match self.try_place(w, h) {
                Some(rect) => {
                    return Ok(rect);
                },
                None => {
                    if !self.grow() {
                        return Err(PackError::AtlasTooLarge);
                    }
                },
            }
        }
    }
}

/// In strips stacked one under the other, an earlier strip ends above a later one begins.
pub proof fn lemma_stacked(s: Seq<Strip>, i: int, j: int)
    requires
        forall|k: int| 0 <= k < s.len() - 1 ==> #[trigger] s[k + 1].y == s[k].y + s[k].height,
        0 <= i < j < s.len(),
    ensures
        s[i].y + s[i].height <= s[j].y,
    decreases j - i,
{
    if j > i + 1 {
        lemma_stacked(s, i, j - 1);
        assert(s[(j - 1) + 1].y == s[j - 1].y + s[j - 1].height);
    } else {
        assert(s[i + 1].y == s[i].y + s[i].height);
    }
}

} // verus!
