use vstd::prelude::*;

verus! {

/// `i` moved into `0..n`: positions past the end go to the last one.
pub open spec fn clamp_index(i: int, n: int) -> int {
    if i >= n {
        n - 1
    } else {
        i
    }
}

/// A decoded image used as a texture: `width * height` pixels stored row
/// by row, three bytes (red, green, blue) each.
#[derive(Clone, Debug)]
pub struct ImageTexture {
    pub data: Vec<u8>,
    pub width: usize,
    pub height: usize,
}

impl ImageTexture {
    /// The data holds exactly three bytes per pixel.
    pub open spec fn wf(&self) -> bool {
        self.data@.len() == self.width * self.height * 3
    }

    /// The bytes of the pixel at column `i`, row `j`, each clamped to the image.
    pub open spec fn texel_at(&self, i: int, j: int) -> (u8, u8, u8) {
        let p = clamp_index(j, self.height as int) * self.width + clamp_index(i, self.width as int);
        (self.data@[3 * p], self.data@[3 * p + 1], self.data@[3 * p + 2])
    }

    /// Wraps decoded RGB bytes of a `width` by `height` image; `None` when
    /// there are not exactly three bytes per pixel.
    pub fn new(data: Vec<u8>, width: usize, height: usize) -> (r: Option<Self>)
        ensures
            match r {
                Some(t) => t.wf() && t.data@ == data@ && t.width == width && t.height == height,
                None => data@.len() != width * height * 3,
            },
    {
        let pixels = width.checked_mul(height);
        let bytes = match pixels {
            Some(p) => p.checked_mul(3),
            None => None,
        };
        let n = data.len();
        let fits = match bytes {
            Some(b) => b == n,
            None => false,
        };
        if fits {
            proof {
                let p = pixels->0;
                assert(p == width * height);
                assert(data@.len() == p * 3);
                assert(data@.len() == width * height * 3);
            }
            Some(ImageTexture { data, width, height })
        } else {
            proof {
                if pixels is None {
                    assert(width * height * 3 >= width * height) by (nonlinear_arith);
                }
                assert(n == data@.len());
            }
            None
        }
    }

    /// The bytes of the pixel at column `i`, row `j`, each clamped to the
    /// image; `None` when the image has no data.
    pub fn texel(&self, i: usize, j: usize) -> (r: Option<(u8, u8, u8)>)
        requires
            self.data@.len() == 0 || self.wf(),
        ensures
            match r {
                Some(c) => self.data@.len() > 0 && c == self.texel_at(i as int, j as int),
                None => self.data@.len() == 0,
            },
    {
        let n = self.data.len();
        if n == 0 {
            return None;
        }
        let w = self.width;
        let h = self.height;
        proof {
            assert(w > 0 && h > 0) by (nonlinear_arith)
                requires
                    self.data@.len() == w * h * 3,
                    self.data@.len() > 0,
            ;
        }
        let ii = if i >= w { w - 1 } else { i };
        let jj = if j >= h { h - 1 } else { j };
        proof {
            assert(3 * (jj * w + ii) + 2 < w * h * 3) by (nonlinear_arith)
                requires
                    ii < w,
                    jj < h,
            ;
            assert(jj * w + ii < n);
            assert(jj * w <= jj * w + ii);
        }
        let p = jj * w + ii;
        Some((self.data[3 * p], self.data[3 * p + 1], self.data[3 * p + 2]))
    }
}

} // verus!
