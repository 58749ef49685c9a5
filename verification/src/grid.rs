use vstd::prelude::*;

verus! {

/// A 2D grid containing some arbitrary data.
pub struct Grid<T> {
    /// Logically represents a 2D vector. Row-major ordering.
    pub data: Vec<T>,
    pub width: usize,
    pub height: usize,
}

/// The four orthogonal neighbors of `(cx, cy)` that fall inside a
/// `w` by `h` grid, in left, up, down, right order.
pub open spec fn spec_orthogonal_neighbors(w: int, h: int, cx: int, cy: int) -> Seq<
    (usize, usize),
> {
    (if cx >= 1 && cx - 1 < w && 0 <= cy < h {
        seq![((cx - 1) as usize, cy as usize)]
    } else {
        Seq::empty()
    }) + (if 0 <= cx < w && cy >= 1 && cy - 1 < h {
        seq![(cx as usize, (cy - 1) as usize)]
    } else {
        Seq::empty()
    }) + (if 0 <= cx < w && cy + 1 < h {
        seq![(cx as usize, (cy + 1) as usize)]
    } else {
        Seq::empty()
    }) + (if cx + 1 < w && 0 <= cy < h {
        seq![((cx + 1) as usize, cy as usize)]
    } else {
        Seq::empty()
    })
}

impl<T: Copy> Grid<T> {
    /// A grid of the given dimensions with every tile holding `default`.
    pub fn new(width: usize, height: usize, default: T) -> (result: Grid<T>)
        requires
            width * height <= usize::MAX,
        ensures
            result.width == width,
            result.height == height,
            result.data@.len() == width * height,
            forall|i: int| 0 <= i < result.data@.len() ==> result.data@[i] == default,
    {
        let total: usize = width * height;
        let mut data: Vec<T> = Vec::new();
        let mut i: usize = 0;
        while i < total
            invariant
                i <= total,
                data@.len() == i,
                forall|j: int| 0 <= j < i ==> data@[j] == default,
            decreases total - i,
        {
            data.push(default);
            i = i + 1;
        }
        Grid { data, width, height }
    }

    /// Calculate the index from a given (x, y). Doesn't do any bounds checking.
    pub fn idx(&self, x: usize, y: usize) -> (result: usize)
        requires
            y * self.width + x <= usize::MAX,
        ensures
            result == y * self.width + x,
    {
        y * self.width + x
    }

    /// The inverse of `idx`. No bounds checking.
    pub fn xy(&self, idx: usize) -> (result: (usize, usize))
        requires
            self.width > 0,
        ensures
            result.0 == idx % self.width,
            result.1 == idx / self.width,
            result.0 < self.width,
            self.width * result.1 + result.0 == idx,
    {
        let y = idx / self.width;
        let x = idx % self.width;
        proof {
            vstd::arithmetic::div_mod::lemma_fundamental_div_mod(idx as int, self.width as int);
        }
        (x, y)
    }

    /// From one tile, calculate the 4 orthogonal neighbors. Includes bounds checking.
    pub fn orthogonal_neighbors(&self, center_x: usize, center_y: usize) -> (result: Vec<
        (usize, usize),
    >)
        requires
            center_x < usize::MAX,
            center_y < usize::MAX,
        ensures
            result@ == spec_orthogonal_neighbors(
                self.width as int,
                self.height as int,
                center_x as int,
                center_y as int,
            ),
    {
        let mut results: Vec<(usize, usize)> = Vec::new();
        if center_x >= 1 && center_x - 1 < self.width && center_y < self.height {
            results.push((center_x - 1, center_y));
        }
        if center_x < self.width && center_y >= 1 && center_y - 1 < self.height {
            results.push((center_x, center_y - 1));
        }
        if center_x < self.width && center_y + 1 < self.height {
            results.push((center_x, center_y + 1));
        }
        if center_x + 1 < self.width && center_y < self.height {
            results.push((center_x + 1, center_y));
        }
        proof {
            assert(results@ =~= spec_orthogonal_neighbors(
                self.width as int,
                self.height as int,
                center_x as int,
                center_y as int,
            ));
        }
        results
    }
}

} // verus!
