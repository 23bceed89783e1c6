//! Layout of an RGB sample buffer and the index arithmetic of the image
//! filters that run over it (switching median and separable blur).
use vstd::prelude::*;
use vstd::arithmetic::div_mod::lemma_fundamental_div_mod_converse;

verus! {

/// Why an image cannot be laid out from a set of pixel coordinates.
#[derive(Clone, Copy, Debug, PartialEq, Eq, Structural)]
pub enum ImageError {
    /// There is no pixel at all.
    NoPixels,
    /// The largest coordinate on an axis leaves no room for a size on it.
    InvalidDimensions,
}

/// The largest x coordinate among `s`, or -1 when `s` is empty.
pub open spec fn max_x(s: Seq<(usize, usize)>) -> int
    decreases s.len(),
{
    if s.len() == 0 {
        -1
    } else {
        let m = max_x(s.drop_last());
        if s.last().0 > m { s.last().0 as int } else { m }
    }
}

/// The largest y coordinate among `s`, or -1 when `s` is empty.
pub open spec fn max_y(s: Seq<(usize, usize)>) -> int
    decreases s.len(),
{
    if s.len() == 0 {
        -1
    } else {
        let m = max_y(s.drop_last());
        if s.last().1 > m { s.last().1 as int } else { m }
    }
}

/// On a non-empty set of pixels, `max_x` and `max_y` are the largest x and
/// y coordinates: no pixel lies beyond them and some pixel reaches each.
pub proof fn lemma_max_coordinates(s: Seq<(usize, usize)>)
    requires
        s.len() > 0,
    ensures
        forall|k: int| 0 <= k < s.len() ==> #[trigger] s[k].0 <= max_x(s) && s[k].1 <= max_y(s),
        exists|k: int| 0 <= k < s.len() && #[trigger] s[k].0 == max_x(s),
        exists|k: int| 0 <= k < s.len() && #[trigger] s[k].1 == max_y(s),
    decreases s.len(),
{
    let t = s.drop_last();
    let n = s.len() - 1;
    if n == 0 {
        assert(max_x(t) == -1 && max_y(t) == -1);
        assert(s[0].0 == max_x(s));
        assert(s[0].1 == max_y(s));
    } else {
        lemma_max_coordinates(t);
        assert forall|k: int| 0 <= k < s.len() implies #[trigger] s[k].0 <= max_x(s) && s[k].1 <= max_y(s) by {
            if k < n {
                assert(t[k] == s[k]);
            }
        }
        if s.last().0 > max_x(t) {
            assert(s[n].0 == max_x(s));
        } else {
            let k = choose|k: int| 0 <= k < t.len() && #[trigger] t[k].0 == max_x(t);
            assert(s[k].0 == max_x(s));
        }
        if s.last().1 > max_y(t) {
            assert(s[n].1 == max_y(s));
        } else {
            let k = choose|k: int| 0 <= k < t.len() && #[trigger] t[k].1 == max_y(t);
            assert(s[k].1 == max_y(s));
        }
    }
}

/// The RGB buffer spanned by `s` fits in memory: the image would be refused
/// first, or its `width * height * 3` samples can be counted in a `usize`.
pub open spec fn buffer_fits(s: Seq<(usize, usize)>) -> bool {
    ||| s.len() == 0
    ||| max_x(s) >= usize::MAX
    ||| max_y(s) >= usize::MAX
    ||| (max_x(s) + 1) * (max_y(s) + 1) * 3 <= usize::MAX
}

/// Width and height of an RGB image whose samples are stored row by row,
/// three per pixel.
#[derive(Clone, Copy, Debug, PartialEq, Eq, Structural)]
pub struct ImageLayout {
    pub width: usize,
    pub height: usize,
}

/// The 3x3 neighbourhood of a pixel, clipped to the image: columns `x0..=x1`,
/// rows `y0..=y1`.
#[derive(Clone, Copy, Debug, PartialEq, Eq, Structural)]
pub struct Window {
    pub x0: usize,
    pub x1: usize,
    pub y0: usize,
    pub y1: usize,
}

impl Window {
    pub open spec fn columns(self) -> int {
        self.x1 - self.x0 + 1
    }

    pub open spec fn rows(self) -> int {
        self.y1 - self.y0 + 1
    }

    /// Number of samples in the window.
    pub open spec fn count(self) -> int {
        self.columns() * self.rows()
    }
}

/// `v` pulled into `0..=hi`.
pub open spec fn clamp(v: int, hi: int) -> int {
    if v < 0 { 0 } else if v > hi { hi } else { v }
}

/// Size of the image spanned by the pixel coordinates `coords`: one more than
/// the largest coordinate on each axis. Fails on an empty set of pixels, and
/// when the largest coordinate on an axis is `usize::MAX`, so that its
/// successor wraps to a zero size.
pub fn image_dimensions(coords: &Vec<(usize, usize)>) -> (r: Result<ImageLayout, ImageError>)
    requires
        buffer_fits(coords@),
    ensures
        match r {
            Ok(layout) => {
                &&& coords.len() > 0
                &&& max_x(coords@) < usize::MAX
                &&& max_y(coords@) < usize::MAX
                &&& layout.width == max_x(coords@) + 1
                &&& layout.height == max_y(coords@) + 1
                &&& layout.wf()
            },
            Err(ImageError::NoPixels) => coords.len() == 0,
            Err(ImageError::InvalidDimensions) => {
                &&& coords.len() > 0
                &&& (max_x(coords@) == usize::MAX || max_y(coords@) == usize::MAX)
            },
        },
        r is Ok ==> forall|k: int| 0 <= k < coords.len() ==>
            #[trigger] coords[k].0 < r->Ok_0.width && coords[k].1 < r->Ok_0.height,
        r is Ok ==> exists|k: int| 0 <= k < coords.len() && #[trigger] coords[k].0 == r->Ok_0.width - 1,
        r is Ok ==> exists|k: int| 0 <= k < coords.len() && #[trigger] coords[k].1 == r->Ok_0.height - 1,
        (r is Err && r->Err_0 == ImageError::InvalidDimensions) <==> (exists|k: int| 0 <= k < coords.len()
            && ((#[trigger] coords[k]).0 == usize::MAX || coords[k].1 == usize::MAX)),
{
    if coords.len() == 0 {
        return Err(ImageError::NoPixels);
    }
    let mut mx: usize = coords[0].0;
    let mut my: usize = coords[0].1;
    let mut i: usize = 1;
    assert(coords@.take(1).drop_last() =~= coords@.take(0));
    assert(max_x(coords@.take(0)) == -1 && max_y(coords@.take(0)) == -1);
    assert(coords@.take(1).last() == coords@[0]);
    while i < coords.len()
        invariant
            1 <= i <= coords.len(),
            mx as int == max_x(coords@.take(i as int)),
            my as int == max_y(coords@.take(i as int)),
        decreases coords.len() - i,
    {
        assert(coords@.take(i + 1).drop_last() =~= coords@.take(i as int));
        if coords[i].0 > mx {
            mx = coords[i].0;
        }
        if coords[i].1 > my {
            my = coords[i].1;
        }
        i = i + 1;
    }
    assert(coords@.take(coords.len() as int) =~= coords@);
    proof {
        lemma_max_coordinates(coords@);
    }
    if mx == usize::MAX || my == usize::MAX {
        proof {
            if mx == usize::MAX {
                let k = choose|k: int| 0 <= k < coords.len() && #[trigger] coords[k].0 == max_x(coords@);
                assert(coords[k].0 == usize::MAX);
            } else {
                let k = choose|k: int| 0 <= k < coords.len() && #[trigger] coords[k].1 == max_y(coords@);
                assert(coords[k].1 == usize::MAX);
            }
        }
        return Err(ImageError::InvalidDimensions);
    }
    Ok(ImageLayout { width: mx + 1, height: my + 1 })
}

/// Position in a sorted window of `n` samples of the median that replaces an
/// impulse. For an even `n` it is the middle value on the side away from the
/// impulse: the lower middle when the centre is the window's maximum, the
/// upper middle otherwise.
pub fn median_rank(n: usize, center_is_high: bool) -> (k: usize)
    requires
        n > 0,
    ensures
        k < n,
        k == (if center_is_high { (n - 1) / 2 } else { n as int / 2 }),
{
    if center_is_high {
        (n - 1) / 2
    } else {
        n / 2
    }
}

/// A window of odd size has a single middle: both sides pick the same rank,
/// the usual median (4 of 9 on a full window).
pub proof fn lemma_median_rank_odd(n: nat)
    requires
        n % 2 == 1,
    ensures
        (n - 1) / 2 == n / 2,
        n == 9 ==> n / 2 == 4,
{
}

/// Coordinate reached by tap `i` of a kernel of radius `r` centred on `pos`,
/// on an axis of `len` pixels: `pos + i - r`, clamped into `0..len`.
pub fn blur_tap(pos: usize, i: usize, r: usize, len: usize) -> (s: usize)
    requires
        len > 0,
        pos < len,
        pos + i <= usize::MAX,
    ensures
        s == clamp(pos + i - r, len - 1),
        s < len,
        i == r ==> s == pos,
{
    let t = (pos + i).saturating_sub(r);
    if t < len - 1 {
        t
    } else {
        len - 1
    }
}

/// Whether `v` lies on the first or last index of an axis of `len` pixels.
pub open spec fn on_border(v: int, len: int) -> bool {
    v == 0 || v == len - 1
}

/// In-bounds neighbours only: on an image at least two pixels wide and high,
/// the window of an inner pixel holds 9 samples, that of a pixel on one edge
/// holds 6 and that of a corner pixel holds 4.
pub proof fn lemma_window_size(layout: ImageLayout, x: int, y: int)
    requires
        layout.wf(),
        layout.width >= 2,
        layout.height >= 2,
        0 <= x < layout.width,
        0 <= y < layout.height,
    ensures
        ({
            let n = layout.spec_window(x, y).count();
            let bx = on_border(x, layout.width as int);
            let by = on_border(y, layout.height as int);
            &&& !bx && !by ==> n == 9
            &&& bx != by ==> n == 6
            &&& bx && by ==> n == 4
        }),
{
    let win = layout.spec_window(x, y);
    let bx = on_border(x, layout.width as int);
    let by = on_border(y, layout.height as int);
    assert(win.columns() == if bx { 2int } else { 3int });
    assert(win.rows() == if by { 2int } else { 3int });
}

/// The window of a pixel is centred on it and clipped only at the border of
/// the image: one column and one row on each side, where the image has them.
pub proof fn lemma_window_centred(layout: ImageLayout, x: int, y: int)
    requires
        layout.wf(),
        0 <= x < layout.width,
        0 <= y < layout.height,
    ensures
        layout.spec_window(x, y).x0 == (if x >= 1 { x - 1 } else { 0 }),
        layout.spec_window(x, y).x1 == (if x + 1 <= layout.width - 1 { x + 1 } else { layout.width - 1 }),
        layout.spec_window(x, y).y0 == (if y >= 1 { y - 1 } else { 0 }),
        layout.spec_window(x, y).y1 == (if y + 1 <= layout.height - 1 { y + 1 } else { layout.height - 1 }),
{
}

/// Sample `k` of the window of `(x, y)` on channel `c` is channel `c` of the
/// pixel in row `k / columns` and column `k % columns` of the clipped 3x3
/// block around `(x, y)`, counted from its top-left corner.
pub proof fn lemma_window_reads<T>(layout: ImageLayout, src: Seq<T>, x: int, y: int, c: int, k: int)
    requires
        layout.wf(),
        0 <= x < layout.width,
        0 <= y < layout.height,
        0 <= k < layout.spec_window(x, y).count(),
    ensures
        ({
            let x0 = if x >= 1 { x - 1 } else { 0 };
            let x1 = if x + 1 <= layout.width - 1 { x + 1 } else { layout.width - 1 };
            let y0 = if y >= 1 { y - 1 } else { 0 };
            let columns = x1 - x0 + 1;
            let px = x0 + k % columns;
            let py = y0 + k / columns;
            &&& x - 1 <= px <= x + 1
            &&& y - 1 <= py <= y + 1
            &&& 0 <= px < layout.width
            &&& 0 <= py < layout.height
            &&& layout.window_values(src, x, y, c)[k] == src[(py * layout.width + px) * 3 + c]
        }),
{
    let win = layout.spec_window(x, y);
    let cols = win.columns();
    let rows = win.rows();
    assert(1 <= cols <= 3);
    assert(1 <= rows <= 3);
    assert(0 <= k / cols < rows) by (nonlinear_arith)
        requires 0 <= k < cols * rows, cols >= 1;
    assert(0 <= k % cols < cols) by (nonlinear_arith)
        requires cols >= 1;
}

/// Tap `i` of a blur kernel of radius `r` centred on `(x, y)` reads channel
/// `c` of the pixel `i - r` steps away from `(x, y)`: along its row in a
/// horizontal pass, along its column in a vertical one, pulled back to the
/// edge of the image where that step leaves it.
pub proof fn lemma_tap_reads<T>(layout: ImageLayout, src: Seq<T>, x: int, y: int, c: int, taps: int, r: int, horizontal: bool, i: int)
    requires
        0 <= i < taps,
    ensures
        horizontal ==> layout.tap_values(src, x, y, c, taps, r, horizontal)[i] == src[(y * layout.width
            + (if x + i - r < 0 { 0 } else if x + i - r > layout.width - 1 { layout.width - 1 } else { x + i - r })) * 3 + c],
        !horizontal ==> layout.tap_values(src, x, y, c, taps, r, horizontal)[i] == src[((if y + i - r < 0 { 0 }
            else if y + i - r > layout.height - 1 { layout.height - 1 } else { y + i - r }) * layout.width + x) * 3 + c],
{
}

/// Distinct samples of the buffer have distinct positions.
pub proof fn lemma_index_injective(layout: ImageLayout, x1: int, y1: int, c1: int, x2: int, y2: int, c2: int)
    requires
        layout.wf(),
        0 <= x1 < layout.width,
        0 <= x2 < layout.width,
        0 <= y1,
        0 <= y2,
        0 <= c1 < 3,
        0 <= c2 < 3,
        layout.spec_index(x1, y1, c1) == layout.spec_index(x2, y2, c2),
    ensures
        x1 == x2,
        y1 == y2,
        c1 == c2,
{
    let w = layout.width as int;
    let v = layout.spec_index(x1, y1, c1);
    lemma_fundamental_div_mod_converse(v, 3, y1 * w + x1, c1);
    lemma_fundamental_div_mod_converse(v, 3, y2 * w + x2, c2);
    lemma_fundamental_div_mod_converse(y1 * w + x1, w, y1, x1);
    lemma_fundamental_div_mod_converse(y2 * w + x2, w, y2, x2);
}

/// Painting keeps the buffer's length.
pub proof fn lemma_painted_len<T>(
    layout: ImageLayout,
    positions: Seq<Option<(usize, usize)>>,
    colors: Seq<(T, T, T)>,
    background: T,
)
    requires
        layout.wf(),
    ensures
        layout.painted(positions, colors, background).len() == layout.spec_len(),
    decreases positions.len(),
{
    if positions.len() > 0 {
        lemma_painted_len(layout, positions.drop_last(), colors, background);
        let k = positions.len() - 1;
        match positions[k] {
            Some((x, y)) => {
                if x < layout.width && y < layout.height {
                    lemma_index_bound(layout.width as int, layout.height as int, x as int, y as int, 2);
                }
            },
            None => {},
        }
    }
}

/// Channel `c` of colour `t`.
pub open spec fn channel<T>(t: (T, T, T), c: int) -> T {
    if c == 0 { t.0 } else if c == 1 { t.1 } else { t.2 }
}

/// A pixel of the image that no entry of `positions` names keeps the
/// background on every channel: pixels that were never written stay black
/// when the background is black.
pub proof fn lemma_unpainted_is_background<T>(
    layout: ImageLayout,
    positions: Seq<Option<(usize, usize)>>,
    colors: Seq<(T, T, T)>,
    background: T,
    x: int,
    y: int,
    c: int,
)
    requires
        layout.wf(),
        0 <= x < layout.width,
        0 <= y < layout.height,
        0 <= c < 3,
        forall|k: int| 0 <= k < positions.len() ==> #[trigger] positions[k] != Some((x as usize, y as usize)),
    ensures
        layout.painted(positions, colors, background)[layout.spec_index(x, y, c)] == background,
    decreases positions.len(),
{
    lemma_index_bound(layout.width as int, layout.height as int, x, y, c);
    if positions.len() > 0 {
        let k = positions.len() - 1;
        assert forall|j: int| 0 <= j < positions.drop_last().len() implies
            #[trigger] positions.drop_last()[j] != Some((x as usize, y as usize)) by {
            assert(positions.drop_last()[j] == positions[j]);
        }
        lemma_unpainted_is_background(layout, positions.drop_last(), colors, background, x, y, c);
        lemma_painted_len(layout, positions.drop_last(), colors, background);
        match positions[k] {
            Some((px, py)) => {
                if px < layout.width && py < layout.height {
                    let i = layout.spec_index(x, y, c);
                    assert forall|d: int| 0 <= d < 3 implies layout.spec_index(px as int, py as int, d) != i by {
                        if layout.spec_index(px as int, py as int, d) == i {
                            lemma_index_injective(layout, px as int, py as int, d, x, y, c);
                        }
                    }
                    assert(layout.spec_index(px as int, py as int, 0) + 1 == layout.spec_index(px as int, py as int, 1));
                    assert(layout.spec_index(px as int, py as int, 0) + 2 == layout.spec_index(px as int, py as int, 2));
                    let prev = layout.painted(positions.drop_last(), colors, background);
                    let i0 = layout.spec_index(px as int, py as int, 0);
                    lemma_index_bound(layout.width as int, layout.height as int, px as int, py as int, 2);
                    assert(layout.painted(positions, colors, background)
                        == prev.update(i0, colors[k].0).update(i0 + 1, colors[k].1).update(i0 + 2, colors[k].2));
                    assert(prev[i] == background);
                    assert(layout.painted(positions, colors, background)[i] == background);
                } else {
                    assert(layout.painted(positions, colors, background) == layout.painted(positions.drop_last(), colors, background));
                }
            },
            None => {
                assert(layout.painted(positions, colors, background) == layout.painted(positions.drop_last(), colors, background));
            },
        }
    } else {
        assert(layout.painted(positions, colors, background) == Seq::new(layout.spec_len() as nat, |i: int| background));
        assert(layout.painted(positions, colors, background)[layout.spec_index(x, y, c)] == background);
    }
}

/// The last pixel of `positions` that names `(x, y)` decides its colour:
/// channel `c` of the pixel is channel `c` of that pixel's colour.
pub proof fn lemma_last_paint_wins<T>(
    layout: ImageLayout,
    positions: Seq<Option<(usize, usize)>>,
    colors: Seq<(T, T, T)>,
    background: T,
    k: int,
    c: int,
)
    requires
        layout.wf(),
        0 <= k < positions.len(),
        positions[k] matches Some((x, y)) && x < layout.width && y < layout.height,
        forall|j: int| k < j < positions.len() ==> #[trigger] positions[j] != positions[k],
        0 <= c < 3,
    ensures
        ({
            let (x, y) = positions[k]->Some_0;
            layout.painted(positions, colors, background)[layout.spec_index(x as int, y as int, c)]
                == channel(colors[k], c)
        }),
    decreases positions.len(),
{
    let (x, y) = positions[k]->Some_0;
    let i = layout.spec_index(x as int, y as int, c);
    lemma_index_bound(layout.width as int, layout.height as int, x as int, y as int, c);
    let last = positions.len() - 1;
    let prev_positions = positions.drop_last();
    lemma_painted_len(layout, prev_positions, colors, background);
    assert(layout.spec_index(x as int, y as int, 0) + 1 == layout.spec_index(x as int, y as int, 1));
    assert(layout.spec_index(x as int, y as int, 0) + 2 == layout.spec_index(x as int, y as int, 2));
    if k < last {
        assert forall|j: int| k < j < prev_positions.len() implies
            #[trigger] prev_positions[j] != prev_positions[k] by {
            assert(prev_positions[j] == positions[j]);
        }
        lemma_last_paint_wins(layout, prev_positions, colors, background, k, c);
        assert(prev_positions[k] == positions[k]);
        match positions[last] {
            Some((px, py)) => {
                if px < layout.width && py < layout.height {
                    assert forall|d: int| 0 <= d < 3 implies layout.spec_index(px as int, py as int, d) != i by {
                        if layout.spec_index(px as int, py as int, d) == i {
                            lemma_index_injective(layout, px as int, py as int, d, x as int, y as int, c);
                        }
                    }
                    lemma_index_bound(layout.width as int, layout.height as int, px as int, py as int, 2);
                    assert(layout.spec_index(px as int, py as int, 0) + 1 == layout.spec_index(px as int, py as int, 1));
                    assert(layout.spec_index(px as int, py as int, 0) + 2 == layout.spec_index(px as int, py as int, 2));
                }
            },
            None => {},
        }
    }
}

proof fn lemma_index_bound(w: int, h: int, x: int, y: int, c: int)
    by (nonlinear_arith)
    requires
        0 <= x < w,
        0 <= y < h,
        0 <= c < 3,
    ensures
        0 <= y * w <= y * w + x,
        y * w + x < w * h,
        0 <= (y * w + x) * 3 <= (y * w + x) * 3 + c,
        (y * w + x) * 3 + c < w * h * 3,
{
}

impl ImageLayout {
    /// The buffer has at least one pixel and its length fits in a `usize`.
    pub open spec fn wf(self) -> bool {
        &&& self.width > 0
        &&& self.height > 0
        &&& self.width * self.height * 3 <= usize::MAX
    }

    /// Number of samples in the buffer.
    pub open spec fn spec_len(self) -> int {
        self.width * self.height * 3
    }

    /// Position of channel `c` of pixel `(x, y)` in the buffer.
    pub open spec fn spec_index(self, x: int, y: int, c: int) -> int {
        (y * self.width + x) * 3 + c
    }

    /// The clipped 3x3 neighbourhood of pixel `(x, y)`.
    pub open spec fn spec_window(self, x: int, y: int) -> Window {
        Window {
            x0: (if x > 0 { x - 1 } else { 0 }) as usize,
            x1: (if x + 1 < self.width - 1 { x + 1 } else { self.width - 1 }) as usize,
            y0: (if y > 0 { y - 1 } else { 0 }) as usize,
            y1: (if y + 1 < self.height - 1 { y + 1 } else { self.height - 1 }) as usize,
        }
    }

    /// Number of samples in the buffer.
    pub fn len(&self) -> (n: usize)
        requires
            self.wf(),
        ensures
            n == self.spec_len(),
    {
        proof {
            lemma_index_bound(self.width as int, self.height as int, 0, 0, 0);
        }
        self.width * self.height * 3
    }

    /// Position of channel `c` of pixel `(x, y)`: samples are stored row by
    /// row, three channels per pixel.
    pub fn sample_index(&self, x: usize, y: usize, c: usize) -> (i: usize)
        requires
            self.wf(),
            x < self.width,
            y < self.height,
            c < 3,
        ensures
            i == self.spec_index(x as int, y as int, c as int),
            i < self.spec_len(),
    {
        proof {
            lemma_index_bound(self.width as int, self.height as int, x as int, y as int, c as int);
        }
        (y * self.width + x) * 3 + c
    }

    /// The buffer after painting, in order, each pixel of `positions` with its
    /// colour in `colors` over a buffer filled with `background`. Positions
    /// that are `None` or outside the image paint nothing; a later pixel
    /// paints over an earlier one at the same position.
    pub open spec fn painted<T>(
        self,
        positions: Seq<Option<(usize, usize)>>,
        colors: Seq<(T, T, T)>,
        background: T,
    ) -> Seq<T>
        decreases positions.len(),
    {
        if positions.len() == 0 {
            Seq::new(self.spec_len() as nat, |i: int| background)
        } else {
            let k = positions.len() - 1;
            let prev = self.painted(positions.drop_last(), colors, background);
            match positions[k] {
                Some((x, y)) => if x < self.width && y < self.height {
                    let i = self.spec_index(x as int, y as int, 0);
                    prev.update(i, colors[k].0).update(i + 1, colors[k].1).update(i + 2, colors[k].2)
                } else {
                    prev
                },
                None => prev,
            }
        }
    }

    /// An RGB buffer of the image: every sample starts as `background`, then
    /// the `k`-th pixel paints its three channels with `colors[k]` at
    /// `positions[k]`, when that position is given and inside the image.
    pub fn rasterize<T: Copy>(
        &self,
        positions: &Vec<Option<(usize, usize)>>,
        colors: &Vec<(T, T, T)>,
        background: T,
    ) -> (img: Vec<T>)
        requires
            self.wf(),
            colors.len() == positions.len(),
        ensures
            img@ == self.painted(positions@, colors@, background),
            img.len() == self.spec_len(),
    {
        let n = self.len();
        let mut img: Vec<T> = Vec::new();
        while img.len() < n
            invariant
                n == self.spec_len(),
                img.len() <= n,
                img@ == Seq::new(img.len() as nat, |i: int| background),
            decreases n - img.len(),
        {
            img.push(background);
            assert(img@ =~= Seq::new(img.len() as nat, |i: int| background));
        }
        assert(positions@.take(0).len() == 0);
        assert(img@ =~= self.painted(positions@.take(0), colors@, background));
        let mut k: usize = 0;
        while k < positions.len()
            invariant
                self.wf(),
                colors.len() == positions.len(),
                k <= positions.len(),
                img@ == self.painted(positions@.take(k as int), colors@, background),
                img.len() == self.spec_len(),
            decreases positions.len() - k,
        {
            proof {
                assert(positions@.take(k + 1).drop_last() =~= positions@.take(k as int));
                assert(positions@.take(k + 1)[k as int] == positions[k as int]);
            }
            let ghost prev = img@;
            let ghost next = self.painted(positions@.take(k + 1), colors@, background);
            match positions[k] {
                Some((x, y)) => {
                    match self.pixel_slot(x, y) {
                        Some(i) => {
                            let (r, g, b) = colors[k];
                            img.set(i, r);
                            img.set(i + 1, g);
                            img.set(i + 2, b);
                            assert(img@ == prev.update(i as int, r).update(i + 1, g).update(i + 2, b));
                            let ghost pk = positions@.take(k + 1);
                            assert(pk.len() == k + 1);
                            assert(pk[k as int] == Some((x, y)));
                            assert(self.painted(pk.drop_last(), colors@, background) == prev);
                            assert(x < self.width && y < self.height);
                            assert(i == self.spec_index(x as int, y as int, 0));
                            assert(next == prev.update(i as int, colors[k as int].0).update(i + 1, colors[k as int].1).update(i + 2, colors[k as int].2));
                        },
                        None => {
                            assert(next == prev);
                        },
                    }
                },
                None => {
                    assert(next == prev);
                },
            }
            k = k + 1;
        }
        proof {
            assert(positions@.take(positions.len() as int) =~= positions@);
        }
        img
    }

    /// The samples of `src` over the window of `(x, y)` on channel `c`, row
    /// by row.
    pub open spec fn window_values<T>(self, src: Seq<T>, x: int, y: int, c: int) -> Seq<T> {
        Seq::new(self.spec_window(x, y).count() as nat, |k: int| src[self.window_sample(x, y, c, k)])
    }

    /// Sample `(x, y, c)` of `dst` is an answer of `f` to the sample of `src`
    /// at the same place and to the samples of its window.
    pub open spec fn window_mapped<T, F: Fn(T, Vec<T>) -> T>(self, src: Seq<T>, dst: Seq<T>, f: &F, x: int, y: int, c: int) -> bool {
        exists|win: Vec<T>|
            win@ == self.window_values(src, x, y, c)
            && #[trigger] f.ensures((src[self.spec_index(x, y, c)], win), dst[self.spec_index(x, y, c)])
    }

    /// The samples of `src` under the `taps` taps of a blur kernel of radius
    /// `r` centred on `(x, y)`, channel `c`, in tap order.
    pub open spec fn tap_values<T>(self, src: Seq<T>, x: int, y: int, c: int, taps: int, r: int, horizontal: bool) -> Seq<T> {
        Seq::new(taps as nat, |i: int| src[self.spec_tap(x, y, c, i, r, horizontal)])
    }

    /// Position of tap `i` of a kernel of radius `r` centred on `(x, y)`.
    pub open spec fn spec_tap(self, x: int, y: int, c: int, i: int, r: int, horizontal: bool) -> int {
        if horizontal {
            self.spec_index(clamp(x + i - r, self.width - 1), y, c)
        } else {
            self.spec_index(x, clamp(y + i - r, self.height - 1), c)
        }
    }

    /// A new buffer whose every sample is `f` of the sample of `src` at the
    /// same place and of the samples of `src` in its window: a filter whose
    /// output at a sample depends on its 3x3 neighbourhood alone.
    pub fn map_windows<T: Copy, F: Fn(T, Vec<T>) -> T>(&self, src: &Vec<T>, f: &F) -> (dst: Vec<T>)
        requires
            self.wf(),
            src.len() == self.spec_len(),
            forall|center: T, win: Vec<T>| #[trigger] f.requires((center, win)),
        ensures
            dst.len() == self.spec_len(),
            forall|x: int, y: int, c: int|
                0 <= x < self.width && 0 <= y < self.height && 0 <= c < 3
                ==> #[trigger] self.window_mapped(src@, dst@, f, x, y, c),
    {
        let mut dst: Vec<T> = Vec::new();
        let mut y: usize = 0;
        while y < self.height
            invariant
                self.wf(),
                src.len() == self.spec_len(),
                forall|center: T, win: Vec<T>| #[trigger] f.requires((center, win)),
                y <= self.height,
                dst.len() == self.spec_index(0, y as int, 0),
                forall|x1: int, y1: int, c1: int|
                    0 <= x1 < self.width && 0 <= y1 < self.height && 0 <= c1 < 3
                    && self.spec_index(x1, y1, c1) < dst.len()
                    ==> #[trigger] self.window_mapped(src@, dst@, f, x1, y1, c1),
            decreases self.height - y,
        {
            let mut x: usize = 0;
            while x < self.width
                invariant
                    self.wf(),
                    src.len() == self.spec_len(),
                    forall|center: T, win: Vec<T>| #[trigger] f.requires((center, win)),
                    y < self.height,
                    x <= self.width,
                    dst.len() == self.spec_index(x as int, y as int, 0),
                    forall|x1: int, y1: int, c1: int|
                        0 <= x1 < self.width && 0 <= y1 < self.height && 0 <= c1 < 3
                        && self.spec_index(x1, y1, c1) < dst.len()
                        ==> #[trigger] self.window_mapped(src@, dst@, f, x1, y1, c1),
                decreases self.width - x,
            {
                let mut c: usize = 0;
                while c < 3
                    invariant
                        self.wf(),
                        src.len() == self.spec_len(),
                        forall|center: T, win: Vec<T>| #[trigger] f.requires((center, win)),
                        y < self.height,
                        x < self.width,
                        c <= 3,
                        dst.len() == self.spec_index(x as int, y as int, c as int),
                        forall|x1: int, y1: int, c1: int|
                            0 <= x1 < self.width && 0 <= y1 < self.height && 0 <= c1 < 3
                            && self.spec_index(x1, y1, c1) < dst.len()
                            ==> #[trigger] self.window_mapped(src@, dst@, f, x1, y1, c1),
                    decreases 3 - c,
                {
                    let at = self.sample_index(x, y, c);
                    let idxs = self.window_indices(x, y, c);
                    let mut win: Vec<T> = Vec::new();
                    let mut k: usize = 0;
                    while k < idxs.len()
                        invariant
                            k <= idxs.len(),
                            src.len() == self.spec_len(),
                            forall|m: int| 0 <= m < idxs.len() ==> #[trigger] idxs[m] < self.spec_len(),
                            win@ == Seq::new(k as nat, |m: int| src@[idxs@[m] as int]),
                        decreases idxs.len() - k,
                    {
                        win.push(src[idxs[k]]);
                        k = k + 1;
                        assert(win@ =~= Seq::new(k as nat, |m: int| src@[idxs@[m] as int]));
                    }
                    let ghost w0: Vec<T> = win;
                    proof {
                        assert(w0@ =~= self.window_values(src@, x as int, y as int, c as int));
                    }
                    let out = f(src[at], win);
                    proof {
                        assert(f.ensures((src@[at as int], w0), out));
                    }
                    let ghost before = dst@;
                    dst.push(out);
                    proof {
                        assert forall|x1: int, y1: int, c1: int|
                            0 <= x1 < self.width && 0 <= y1 < self.height && 0 <= c1 < 3
                            && self.spec_index(x1, y1, c1) < dst.len()
                            implies #[trigger] self.window_mapped(src@, dst@, f, x1, y1, c1) by {
                            if self.spec_index(x1, y1, c1) == at {
                                lemma_index_injective(*self, x1, y1, c1, x as int, y as int, c as int);
                                assert(w0@ == self.window_values(src@, x1, y1, c1)
                                    && f.ensures((src@[self.spec_index(x1, y1, c1)], w0), dst@[self.spec_index(x1, y1, c1)]));
                            } else {
                                let i1 = self.spec_index(x1, y1, c1);
                                assert(self.window_mapped(src@, before, f, x1, y1, c1));
                                let w = choose|w: Vec<T>| w@ == self.window_values(src@, x1, y1, c1)
                                    && #[trigger] f.ensures((src@[i1], w), before[i1]);
                                assert(dst@[i1] == before[i1]);
                                assert(f.ensures((src@[i1], w), dst@[i1]));
                            }
                        }
                        if c + 1 == 3 {
                            assert(self.spec_index(x as int, y as int, 3) == self.spec_index(x + 1, y as int, 0));
                        }
                    }
                    c = c + 1;
                }
                x = x + 1;
            }
            proof {
                assert(self.spec_index(self.width as int, y as int, 0) == self.spec_index(0, y + 1, 0)) by (nonlinear_arith);
            }
            y = y + 1;
        }
        proof {
            lemma_index_bound(self.width as int, self.height as int, 0, 0, 0);
            assert(self.spec_index(0, self.height as int, 0) == self.spec_len()) by (nonlinear_arith)
                requires self.spec_len() == self.width * self.height * 3;
            assert forall|x: int, y: int, c: int|
                0 <= x < self.width && 0 <= y < self.height && 0 <= c < 3
                implies #[trigger] self.window_mapped(src@, dst@, f, x, y, c) by {
                lemma_index_bound(self.width as int, self.height as int, x, y, c);
                assert(self.spec_index(x, y, c) < dst.len());
            }
        }
        dst
    }

    /// A new buffer whose every sample is `f` of the samples of `src` under
    /// the `taps` taps of a kernel of radius `r` centred on it, along rows
    /// (`horizontal`) or columns: one pass of a separable blur with clamped
    /// edges.
    pub fn map_taps<T: Copy, F: Fn(Vec<T>) -> T>(&self, src: &Vec<T>, taps: usize, r: usize, horizontal: bool, f: &F) -> (dst: Vec<T>)
        requires
            self.wf(),
            src.len() == self.spec_len(),
            self.width + taps <= usize::MAX,
            self.height + taps <= usize::MAX,
            forall|vals: Vec<T>| #[trigger] f.requires((vals,)),
        ensures
            dst.len() == self.spec_len(),
            forall|x: int, y: int, c: int|
                0 <= x < self.width && 0 <= y < self.height && 0 <= c < 3
                ==> #[trigger] self.taps_mapped(src@, dst@, f, taps as int, r as int, horizontal, x, y, c),
    {
        let mut dst: Vec<T> = Vec::new();
        let mut y: usize = 0;
        while y < self.height
            invariant
                self.wf(),
                src.len() == self.spec_len(),
                forall|vals: Vec<T>| #[trigger] f.requires((vals,)),
                self.width + taps <= usize::MAX,
                self.height + taps <= usize::MAX,
                y <= self.height,
                dst.len() == self.spec_index(0, y as int, 0),
                forall|x1: int, y1: int, c1: int|
                    0 <= x1 < self.width && 0 <= y1 < self.height && 0 <= c1 < 3
                    && self.spec_index(x1, y1, c1) < dst.len()
                    ==> #[trigger] self.taps_mapped(src@, dst@, f, taps as int, r as int, horizontal, x1, y1, c1),
            decreases self.height - y,
        {
            let mut x: usize = 0;
            while x < self.width
                invariant
                    self.wf(),
                    src.len() == self.spec_len(),
                    forall|vals: Vec<T>| #[trigger] f.requires((vals,)),
                    self.width + taps <= usize::MAX,
                    self.height + taps <= usize::MAX,
                    y < self.height,
                    x <= self.width,
                    dst.len() == self.spec_index(x as int, y as int, 0),
                    forall|x1: int, y1: int, c1: int|
                        0 <= x1 < self.width && 0 <= y1 < self.height && 0 <= c1 < 3
                        && self.spec_index(x1, y1, c1) < dst.len()
                        ==> #[trigger] self.taps_mapped(src@, dst@, f, taps as int, r as int, horizontal, x1, y1, c1),
                decreases self.width - x,
            {
                let mut c: usize = 0;
                while c < 3
                    invariant
                        self.wf(),
                        src.len() == self.spec_len(),
                        forall|vals: Vec<T>| #[trigger] f.requires((vals,)),
                        self.width + taps <= usize::MAX,
                        self.height + taps <= usize::MAX,
                        y < self.height,
                        x < self.width,
                        c <= 3,
                        dst.len() == self.spec_index(x as int, y as int, c as int),
                        forall|x1: int, y1: int, c1: int|
                            0 <= x1 < self.width && 0 <= y1 < self.height && 0 <= c1 < 3
                            && self.spec_index(x1, y1, c1) < dst.len()
                            ==> #[trigger] self.taps_mapped(src@, dst@, f, taps as int, r as int, horizontal, x1, y1, c1),
                    decreases 3 - c,
                {
                    let at = self.sample_index(x, y, c);
                    let mut vals: Vec<T> = Vec::new();
                    let mut i: usize = 0;
                    while i < taps
                        invariant
                            self.wf(),
                            x < self.width,
                            y < self.height,
                            c < 3,
                            i <= taps,
                            self.width + taps <= usize::MAX,
                            self.height + taps <= usize::MAX,
                            src.len() == self.spec_len(),
                            vals@ == Seq::new(i as nat, |m: int| src@[self.spec_tap(x as int, y as int, c as int, m, r as int, horizontal)]),
                        decreases taps - i,
                    {
                        let t = self.blur_tap_index(x, y, c, i, r, horizontal);
                        vals.push(src[t]);
                        i = i + 1;
                        assert(vals@ =~= Seq::new(i as nat, |m: int| src@[self.spec_tap(x as int, y as int, c as int, m, r as int, horizontal)]));
                    }
                    let ghost w0: Vec<T> = vals;
                    proof {
                        assert(w0@ =~= self.tap_values(src@, x as int, y as int, c as int, taps as int, r as int, horizontal));
                    }
                    let out = f(vals);
                    proof {
                        assert(f.ensures((w0,), out));
                    }
                    let ghost before = dst@;
                    dst.push(out);
                    proof {
                        assert forall|x1: int, y1: int, c1: int|
                            0 <= x1 < self.width && 0 <= y1 < self.height && 0 <= c1 < 3
                            && self.spec_index(x1, y1, c1) < dst.len()
                            implies #[trigger] self.taps_mapped(src@, dst@, f, taps as int, r as int, horizontal, x1, y1, c1) by {
                            if self.spec_index(x1, y1, c1) == at {
                                lemma_index_injective(*self, x1, y1, c1, x as int, y as int, c as int);
                                assert(w0@ == self.tap_values(src@, x1, y1, c1, taps as int, r as int, horizontal)
                                    && f.ensures((w0,), dst@[self.spec_index(x1, y1, c1)]));
                            } else {
                                let i1 = self.spec_index(x1, y1, c1);
                                assert(self.taps_mapped(src@, before, f, taps as int, r as int, horizontal, x1, y1, c1));
                                let w = choose|w: Vec<T>| w@ == self.tap_values(src@, x1, y1, c1, taps as int, r as int, horizontal)
                                    && #[trigger] f.ensures((w,), before[i1]);
                                assert(dst@[i1] == before[i1]);
                                assert(f.ensures((w,), dst@[i1]));
                            }
                        }
                        if c + 1 == 3 {
                            assert(self.spec_index(x as int, y as int, 3) == self.spec_index(x + 1, y as int, 0));
                        }
                    }
                    c = c + 1;
                }
                x = x + 1;
            }
            proof {
                assert(self.spec_index(self.width as int, y as int, 0) == self.spec_index(0, y + 1, 0)) by (nonlinear_arith);
            }
            y = y + 1;
        }
        proof {
            lemma_index_bound(self.width as int, self.height as int, 0, 0, 0);
            assert(self.spec_index(0, self.height as int, 0) == self.spec_len()) by (nonlinear_arith)
                requires self.spec_len() == self.width * self.height * 3;
            assert forall|x: int, y: int, c: int|
                0 <= x < self.width && 0 <= y < self.height && 0 <= c < 3
                implies #[trigger] self.taps_mapped(src@, dst@, f, taps as int, r as int, horizontal, x, y, c) by {
                lemma_index_bound(self.width as int, self.height as int, x, y, c);
                assert(self.spec_index(x, y, c) < dst.len());
            }
        }
        dst
    }

    /// Sample `(x, y, c)` of `dst` is an answer of `f` to the samples of
    /// `src` under the taps centred on it.
    pub open spec fn taps_mapped<T, F: Fn(Vec<T>) -> T>(
        self,
        src: Seq<T>,
        dst: Seq<T>,
        f: &F,
        taps: int,
        r: int,
        horizontal: bool,
        x: int,
        y: int,
        c: int,
    ) -> bool {
        exists|vals: Vec<T>|
            vals@ == self.tap_values(src, x, y, c, taps, r, horizontal)
            && #[trigger] f.ensures((vals,), dst[self.spec_index(x, y, c)])
    }

    /// Where the first channel of pixel `(px, py)` goes, or `None` when the
    /// pixel lies outside the image.
    pub fn pixel_slot(&self, px: usize, py: usize) -> (r: Option<usize>)
        requires
            self.wf(),
        ensures
            r == (if px < self.width && py < self.height {
                Some(self.spec_index(px as int, py as int, 0) as usize)
            } else {
                None::<usize>
            }),
            r matches Some(i) ==> i == self.spec_index(px as int, py as int, 0) && i + 2 < self.spec_len(),
    {
        if px < self.width && py < self.height {
            Some(self.sample_index(px, py, 0))
        } else {
            None
        }
    }

    /// The `k`-th sample of the window of `(x, y)` on channel `c`, the window
    /// being read row by row.
    pub open spec fn window_sample(self, x: int, y: int, c: int, k: int) -> int {
        let win = self.spec_window(x, y);
        self.spec_index(win.x0 + k % win.columns(), win.y0 + k / win.columns(), c)
    }

    /// Buffer positions of channel `c` over the in-bounds 3x3 neighbourhood of
    /// `(x, y)`, row by row, the pixel itself included.
    pub fn window_indices(&self, x: usize, y: usize, c: usize) -> (v: Vec<usize>)
        requires
            self.wf(),
            x < self.width,
            y < self.height,
            c < 3,
        ensures
            v.len() == self.spec_window(x as int, y as int).count(),
            forall|k: int| 0 <= k < v.len() ==> #[trigger] v[k] == self.window_sample(x as int, y as int, c as int, k),
            forall|k: int| 0 <= k < v.len() ==> #[trigger] v[k] < self.spec_len(),
    {
        let win = self.neighbourhood(x, y);
        let ghost cols = win.columns();
        let mut v: Vec<usize> = Vec::new();
        let mut sy = win.y0;
        while sy <= win.y1
            invariant
                self.wf(),
                x < self.width,
                y < self.height,
                c < 3,
                win == self.spec_window(x as int, y as int),
                cols == win.columns(),
                win.x0 <= win.x1 < self.width,
                win.y0 <= sy <= win.y1 + 1,
                win.y1 < self.height,
                v.len() == (sy - win.y0) * cols,
                forall|k: int| 0 <= k < v.len() ==> #[trigger] v[k] == self.window_sample(x as int, y as int, c as int, k),
                forall|k: int| 0 <= k < v.len() ==> #[trigger] v[k] < self.spec_len(),
            decreases win.y1 + 1 - sy,
        {
            let mut sx = win.x0;
            while sx <= win.x1
                invariant
                    self.wf(),
                    x < self.width,
                    y < self.height,
                    c < 3,
                    win == self.spec_window(x as int, y as int),
                    cols == win.columns(),
                    win.x0 <= sx <= win.x1 + 1,
                    win.x1 < self.width,
                    win.y0 <= sy <= win.y1,
                    win.y1 < self.height,
                    v.len() == (sy - win.y0) * cols + (sx - win.x0),
                    forall|k: int| 0 <= k < v.len() ==> #[trigger] v[k] == self.window_sample(x as int, y as int, c as int, k),
                    forall|k: int| 0 <= k < v.len() ==> #[trigger] v[k] < self.spec_len(),
                decreases win.x1 + 1 - sx,
            {
                let ghost k = v.len() as int;
                proof {
                    lemma_fundamental_div_mod_converse(k, cols, sy - win.y0, sx - win.x0);
                }
                let i = self.sample_index(sx, sy, c);
                v.push(i);
                sx = sx + 1;
            }
            proof {
                assert((sy - win.y0) * cols + cols == (sy + 1 - win.y0) * cols) by (nonlinear_arith);
            }
            sy = sy + 1;
        }
        proof {
            assert((win.y1 + 1 - win.y0) * cols == cols * win.rows()) by (nonlinear_arith)
                requires cols == win.columns();
        }
        v
    }

    /// Buffer position of tap `i` of a blur kernel of radius `r` centred on
    /// `(x, y)`: the tap sits `i - r` pixels away along the row (`horizontal`)
    /// or the column, clamped into the image.
    pub fn blur_tap_index(&self, x: usize, y: usize, c: usize, i: usize, r: usize, horizontal: bool) -> (s: usize)
        requires
            self.wf(),
            x < self.width,
            y < self.height,
            c < 3,
            x + i <= usize::MAX,
            y + i <= usize::MAX,
        ensures
            s == (if horizontal {
                self.spec_index(clamp(x + i - r, self.width - 1), y as int, c as int)
            } else {
                self.spec_index(x as int, clamp(y + i - r, self.height - 1), c as int)
            }),
            s < self.spec_len(),
    {
        if horizontal {
            let sx = blur_tap(x, i, r, self.width);
            self.sample_index(sx, y, c)
        } else {
            let sy = blur_tap(y, i, r, self.height);
            self.sample_index(x, sy, c)
        }
    }

    /// The in-bounds part of the 3x3 neighbourhood around `(x, y)`.
    pub fn neighbourhood(&self, x: usize, y: usize) -> (win: Window)
        requires
            self.wf(),
            x < self.width,
            y < self.height,
        ensures
            win == self.spec_window(x as int, y as int),
            win.x0 == (if x >= 1 { x - 1 } else { 0 }),
            win.x1 == (if x + 1 <= self.width - 1 { x + 1 } else { self.width - 1 }),
            win.y0 == (if y >= 1 { y - 1 } else { 0 }),
            win.y1 == (if y + 1 <= self.height - 1 { y + 1 } else { self.height - 1 }),
            win.x0 <= x <= win.x1 < self.width,
            win.y0 <= y <= win.y1 < self.height,
            1 <= win.columns() <= 3,
            1 <= win.rows() <= 3,
    {
        let x0 = x.saturating_sub(1);
        let x1 = if x + 1 < self.width - 1 { x + 1 } else { self.width - 1 };
        let y0 = y.saturating_sub(1);
        let y1 = if y + 1 < self.height - 1 { y + 1 } else { self.height - 1 };
        Window { x0, x1, y0, y1 }
    }
}

} // verus!
