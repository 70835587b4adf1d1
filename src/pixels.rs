//! Collecting rendered pixels that arrive in any order, keyed by row and
//! column, and handing them out row by row from the top.
use vstd::prelude::*;

verus! {

/// Quantized RGB value of a pixel.
pub type Rgb8 = (u8, u8, u8);

/// `cells` with the pixel at (`row`, `col`) of a `width` by `height` image
/// set to `v`; unchanged when the position lies outside the image.
pub open spec fn put_spec(cells: Seq<Option<Rgb8>>, width: nat, height: nat, row: nat, col: nat, v: Rgb8) -> Seq<Option<Rgb8>> {
    if row < height && col < width {
        cells.update((row * width + col) as int, Some(v))
    } else {
        cells
    }
}

proof fn lemma_cell_in_image(width: nat, height: nat, row: nat, col: nat)
    requires
        row < height,
        col < width,
    ensures
        row * width + col < width * height,
{
    assert(row * width + col < width * height) by (nonlinear_arith)
        requires
            row < height,
            col < width,
    ;
}

proof fn lemma_cells_distinct(width: nat, r1: nat, c1: nat, r2: nat, c2: nat)
    requires
        c1 < width,
        c2 < width,
        r1 != r2 || c1 != c2,
    ensures
        r1 * width + c1 != r2 * width + c2,
{
    if r1 == r2 {
    } else if r1 < r2 {
        assert(r1 * width + width <= r2 * width) by (nonlinear_arith)
            requires
                r1 < r2,
        ;
    } else {
        assert(r2 * width + width <= r1 * width) by (nonlinear_arith)
            requires
                r2 < r1,
        ;
    }
}

/// Pixels at two different positions can be put in either order: the
/// collected image does not depend on the order in which they arrive.
pub proof fn lemma_put_order_irrelevant(
    cells: Seq<Option<Rgb8>>,
    width: nat,
    height: nat,
    r1: nat,
    c1: nat,
    v1: Rgb8,
    r2: nat,
    c2: nat,
    v2: Rgb8,
)
    requires
        cells.len() == width * height,
        r1 != r2 || c1 != c2,
    ensures
        put_spec(put_spec(cells, width, height, r1, c1, v1), width, height, r2, c2, v2)
            == put_spec(put_spec(cells, width, height, r2, c2, v2), width, height, r1, c1, v1),
{
    if r1 < height && c1 < width && r2 < height && c2 < width {
        lemma_cells_distinct(width, r1, c1, r2, c2);
        lemma_cell_in_image(width, height, r1, c1);
        lemma_cell_in_image(width, height, r2, c2);
        assert(put_spec(put_spec(cells, width, height, r1, c1, v1), width, height, r2, c2, v2)
            =~= put_spec(put_spec(cells, width, height, r2, c2, v2), width, height, r1, c1, v1));
    }
}

/// A `width` by `height` image being filled in.
pub struct PixelGrid {
    pub width: usize,
    pub height: usize,
    /// Row-major, top row first; `None` where no pixel has arrived.
    pub cells: Vec<Option<Rgb8>>,
}

impl PixelGrid {
    pub open spec fn wf(&self) -> bool {
        self.cells@.len() == self.width * self.height
    }

    /// Every pixel has arrived.
    pub open spec fn complete_spec(&self) -> bool {
        forall|k: int| 0 <= k < self.cells@.len() ==> (#[trigger] self.cells@[k]).is_some()
    }

    /// An empty `width` by `height` image; `None` when it would hold more
    /// pixels than memory can index.
    pub fn new(width: usize, height: usize) -> (r: Option<PixelGrid>)
        ensures
            r.is_some() == (width * height <= usize::MAX),
            r matches Some(g) ==> {
                &&& g.wf()
                &&& g.width == width
                &&& g.height == height
                &&& forall|k: int| 0 <= k < g.cells@.len() ==> (#[trigger] g.cells@[k]).is_none()
            },
    {
        let n = match width.checked_mul(height) {
            Some(n) => n,
            None => {
                return None;
            },
        };
        let mut cells: Vec<Option<Rgb8>> = Vec::new();
        let mut k: usize = 0;
        while k < n
            invariant
                k <= n,
                cells@.len() == k,
                forall|i: int| 0 <= i < k ==> (#[trigger] cells@[i]).is_none(),
            decreases n - k,
        {
            cells.push(None);
            k = k + 1;
        }
        Some(PixelGrid { width, height, cells })
    }

    /// Records the pixel at (`row`, `col`); false, and nothing recorded,
    /// when the position lies outside the image.
    pub fn put(&mut self, row: usize, col: usize, v: Rgb8) -> (r: bool)
        requires
            old(self).wf(),
        ensures
            r == (row < old(self).height && col < old(self).width),
            final(self).wf(),
            final(self).width == old(self).width,
            final(self).height == old(self).height,
            final(self).cells@ == put_spec(
                old(self).cells@,
                old(self).width as nat,
                old(self).height as nat,
                row as nat,
                col as nat,
                v,
            ),
    {
        let n = self.cells.len();
        if row < self.height && col < self.width {
            proof {
                lemma_cell_in_image(self.width as nat, self.height as nat, row as nat, col as nat);
            }
            self.cells.set(row * self.width + col, Some(v));
            true
        } else {
            false
        }
    }

    /// Whether every pixel has arrived.
    pub fn is_complete(&self) -> (r: bool)
        ensures
            r == self.complete_spec(),
    {
        let mut k: usize = 0;
        while k < self.cells.len()
            invariant
                k <= self.cells@.len(),
                forall|i: int| 0 <= i < k ==> (#[trigger] self.cells@[i]).is_some(),
            decreases self.cells@.len() - k,
        {
            if self.cells[k].is_none() {
                return false;
            }
            k = k + 1;
        }
        true
    }

    /// The pixels row by row from the top, once every one has arrived.
    pub fn ordered(&self) -> (r: Option<Vec<Rgb8>>)
        ensures
            r.is_some() == self.complete_spec(),
            r matches Some(px) ==> px@.len() == self.cells@.len() && forall|k: int|
                0 <= k < px@.len() ==> self.cells@[k] == Some(#[trigger] px@[k]),
    {
        let mut px: Vec<Rgb8> = Vec::new();
        let mut k: usize = 0;
        while k < self.cells.len()
            invariant
                k <= self.cells@.len(),
                px@.len() == k,
                forall|i: int| 0 <= i < k ==> self.cells@[i] == Some(#[trigger] px@[i]),
            decreases self.cells@.len() - k,
        {
            match self.cells[k] {
                Some(v) => px.push(v),
                None => {
                    return None;
                },
            }
            k = k + 1;
        }
        assert forall|i: int| 0 <= i < self.cells@.len() implies (#[trigger] self.cells@[i]).is_some() by {
            assert(self.cells@[i] == Some(px@[i]));
        }
        Some(px)
    }
}

} // verus!
