//! Boolean occupancy grids: `true` marks a lattice position that exists,
//! `false` one removed before any generation runs.

use vstd::arithmetic::div_mod::lemma_fundamental_div_mod;
use vstd::arithmetic::div_mod::lemma_fundamental_div_mod_converse_div;
use vstd::arithmetic::div_mod::lemma_mod_division_less_than_divisor;
use vstd::arithmetic::div_mod::lemma_fundamental_div_mod_converse_mod;
use vstd::prelude::*;

use crate::cell::cell_unlinked;
use crate::distances::Distances;
use crate::grid::Grid;
use crate::grid::grid_links_wf;
use crate::grid::grid_wf;
use crate::grid::slot_links_wf;
use crate::grid::slot_wf;
use crate::point::Point;

verus! {

/// A grid shaped by a mask.  Building from a mask fixes the lattice once and
/// for all: mutating the mask afterward has no effect on the built grid.
pub trait Maskable: Grid {
    /// Remove every cell whose mask bit is false.  Present bits leave their
    /// slot untouched.
    fn mask(&mut self, mask: &Mask)
        requires
            grid_wf(old(self).gwidth(), old(self).gheight(), old(self).gcells()),
            mask.wf(),
            old(self).gwidth() == mask.width,
            old(self).gheight() == mask.height,
        ensures
            final(self).gwidth() == old(self).gwidth(),
            final(self).gheight() == old(self).gheight(),
            final(self).gdistances() == old(self).gdistances(),
            grid_wf(final(self).gwidth(), final(self).gheight(), final(self).gcells()),
            final(self).gcells().len() == old(self).gcells().len(),
            forall|i: int|
                0 <= i < final(self).gcells().len() ==> final(self).gcells()[i] == (
                if mask.mask@[i] {
                    old(self).gcells()[i]
                } else {
                    None::<crate::cell::Cell>
                }),
    {
        let n = self.cells().len();
        let ghost orig = *self;
        let mut i: usize = 0;
        while i < n
            invariant
                i <= n,
                n == self.gcells().len(),
                mask.wf(),
                orig.gwidth() == mask.width,
                orig.gheight() == mask.height,
                grid_wf(orig.gwidth(), orig.gheight(), orig.gcells()),
                self.gwidth() == orig.gwidth(),
                self.gheight() == orig.gheight(),
                self.gdistances() == orig.gdistances(),
                self.gcells().len() == orig.gcells().len(),
                grid_wf(self.gwidth(), self.gheight(), self.gcells()),
                forall|j: int|
                    0 <= j < i ==> self.gcells()[j] == (if mask.mask@[j] {
                        orig.gcells()[j]
                    } else {
                        None::<crate::cell::Cell>
                    }),
                forall|j: int| i <= j < n ==> self.gcells()[j] == orig.gcells()[j],
            decreases n - i,
        {
            let keep = mask.mask[i];
            if !keep {
                let ghost before = self.gcells();
                self.set_cell(i, None);
                proof {
                    assert forall|k: int|
                        0 <= k < self.gcells().len() implies #[trigger] slot_wf(
                        self.gwidth(),
                        self.gcells(),
                        k,
                    ) by {
                        assert(slot_wf(self.gwidth(), before, k));
                    }
                }
            }
            i = i + 1;
        }
    }

    /// Build a grid from a mask: a fresh full grid, its masked-out cells
    /// removed, and its distance record rooted at the first present cell in
    /// row-major order (at the origin when every cell is masked away).
    fn from_mask(mask: &Mask) -> (r: Self)
        requires
            mask.wf(),
        ensures
            r.gwidth() == mask.width,
            r.gheight() == mask.height,
            grid_wf(r.gwidth(), r.gheight(), r.gcells()),
            grid_links_wf(r.gwidth(), r.gheight(), r.gcells()),
            r.gcells().len() == mask.mask@.len(),
            forall|i: int|
                0 <= i < r.gcells().len() ==> (r.gcells()[i] is Some <==> mask.mask@[i]),
            forall|i: int|
                0 <= i < r.gcells().len() ==> (#[trigger] r.gcells()[i] matches Some(c)
                    ==> cell_unlinked(c)),
            r.gdistances().wf(),
            r.gdistances()@ == Map::<Point, usize>::empty(),
            forall|i: int|
                0 <= i < r.gcells().len() && r.gcells()[i] is Some && (forall|j: int|
                    0 <= j < i ==> r.gcells()[j] is None) ==> r.gdistances().spec_root() == (
                #[trigger] r.gcells()[i]->Some_0).point,
            (forall|i: int| 0 <= i < r.gcells().len() ==> r.gcells()[i] is None)
                ==> r.gdistances().spec_root().x == 0 && r.gdistances().spec_root().y == 0,
    {
        let mut grid = Self::new(mask.width, mask.height);
        grid.mask(mask);
        proof {
            assert forall|i: int|
                0 <= i < grid.gcells().len() implies #[trigger] slot_links_wf(
                grid.gwidth(),
                grid.gheight(),
                grid.gcells(),
                i,
            ) by {
                assert(grid.gcells()[i] matches Some(c) ==> cell_unlinked(c));
            }
        }
        let n = grid.cells().len();
        let mut i: usize = 0;
        let mut root = Point::new(0, 0);
        let mut found = false;
        while i < n && !found
            invariant
                i <= n,
                n == grid.gcells().len(),
                grid_wf(grid.gwidth(), grid.gheight(), grid.gcells()),
                forall|j: int| 0 <= j < i ==> grid.gcells()[j] is None,
                !found ==> root.x == 0 && root.y == 0,
                found ==> i < n && (grid.gcells()[i as int] matches Some(c) && root == c.point),
            decreases n - i, (if found { 0int } else { 1int }),
        {
            let slot = grid.cells()[i];
            if let Some(c) = slot {
                root = c.point;
                found = true;
            } else {
                i = i + 1;
            }
        }
        proof {
            if found {
                assert forall|k: int|
                    0 <= k < grid.gcells().len() && grid.gcells()[k] is Some && (forall|j: int|
                        0 <= j < k ==> grid.gcells()[j] is None) implies root == (
                #[trigger] grid.gcells()[k]->Some_0).point by {
                    if k < i {
                        assert(grid.gcells()[k] is None);
                    } else if k > i {
                        assert(grid.gcells()[i as int] is None);
                    }
                }
            }
        }
        grid.set_distances(Distances::new(root));
        grid
    }
}

/// Masking round trip (law): in a grid built from a mask, looking up any
/// in-bounds point whose mask bit is false finds nothing, and looking up any
/// whose bit is true finds a cell carrying exactly that point.  Out-of-bounds
/// lookups find nothing by definition of `spec_get`.
pub proof fn lemma_mask_round_trip(
    w: int,
    h: int,
    cells: Seq<Option<crate::cell::Cell>>,
    bits: Seq<bool>,
    p: Point,
)
    requires
        grid_wf(w, h, cells),
        cells.len() == bits.len(),
        forall|i: int| 0 <= i < cells.len() ==> (cells[i] is Some <==> bits[i]),
        crate::grid::in_bounds(w, h, p),
    ensures
        crate::grid::spec_get(w, h, cells, p) is Some <==> bits[crate::grid::index_of(w, p)],
        crate::grid::spec_get(w, h, cells, p) matches Some(c) ==> c.point == p,
{
    crate::grid::lemma_index_of_in_bounds(w, h, p);
    if crate::grid::spec_get(w, h, cells, p) is Some {
        crate::grid::lemma_get_point(w, h, cells, p);
    }
}

/// Rejection of malformed text-mask input: bad dimension line, a character
/// other than `.` or `x`, wrong row count or length, or a lattice too large
/// for the coordinate type.
#[derive(Debug, Clone, Copy, PartialEq, Eq, Structural)]
pub enum MaskTextError {
    Malformed,
}

/// An ASCII decimal digit.
pub open spec fn is_digit(b: u8) -> bool {
    48 <= b <= 57
}

/// The first position at or after `i` that does not hold a digit.
pub open spec fn digits_end(s: Seq<u8>, i: int) -> int
    decreases s.len() - i
        when 0 <= i <= s.len()
{
    if i < s.len() && is_digit(s[i]) {
        digits_end(s, i + 1)
    } else {
        i
    }
}

/// The number the digit run `s[i..j]` denotes.
pub open spec fn digits_value(s: Seq<u8>, i: int, j: int) -> int
    decreases j - i,
{
    if i >= j {
        0
    } else {
        digits_value(s, i, j - 1) * 10 + (s[j - 1] - 48)
    }
}

/// Where the width's digit run ends.
pub open spec fn text_width_end(s: Seq<u8>) -> int {
    digits_end(s, 0)
}

/// Where the height's digit run ends.
pub open spec fn text_height_end(s: Seq<u8>) -> int {
    digits_end(s, text_width_end(s) + 1)
}

/// The width the first line declares.
pub open spec fn text_width(s: Seq<u8>) -> int {
    digits_value(s, 0, text_width_end(s))
}

/// The height the first line declares.
pub open spec fn text_height(s: Seq<u8>) -> int {
    digits_value(s, text_width_end(s) + 1, text_height_end(s))
}

/// The first line reads `"<width> <height>"`: a digit run, one space, a
/// second digit run, then the end of the line.
pub open spec fn text_header_ok(s: Seq<u8>) -> bool {
    let we = text_width_end(s);
    let he = text_height_end(s);
    &&& 0 < we < s.len()
    &&& s[we] == 32
    &&& he > we + 1
    &&& (he == s.len() || s[he] == 10)
}

/// After the first line come exactly `height` newline-led rows of exactly
/// `width` characters, each `.` or `x`, with at most one trailing newline.
pub open spec fn text_body_ok(s: Seq<u8>) -> bool {
    let w = text_width(s);
    let h = text_height(s);
    let he = text_height_end(s);
    &&& forall|r: int| 0 <= r < h ==> #[trigger] s[he + r * (w + 1)] == 10
    &&& forall|r: int, c: int|
        0 <= r < h && 0 <= c < w ==> (#[trigger] s[he + r * (w + 1) + 1 + c] == 46 || s[he + r * (w
            + 1) + 1 + c] == 120)
    &&& (s.len() == he + h * (w + 1) || (s.len() == he + h * (w + 1) + 1 && s[he + h * (w + 1)]
        == 10))
}

/// A byte sequence this library accepts as a text mask: the `"<w> <h>"`
/// header, the `.`/`x` rows, and dimensions small enough for the lattice's
/// `i32` index arithmetic.
pub open spec fn text_mask_ok(s: Seq<u8>) -> bool {
    &&& text_header_ok(s)
    &&& text_width(s) <= i32::MAX
    &&& text_height(s) <= i32::MAX
    &&& text_width(s) * text_height(s) <= i32::MAX
    &&& text_body_ok(s)
}

/// The occupancy bit position `i` of the parsed mask receives: `.` marks a
/// present cell.
pub open spec fn text_mask_bit(s: Seq<u8>, i: int) -> bool {
    s[text_height_end(s) + (i / text_width(s)) * (text_width(s) + 1) + 1 + (i % text_width(s))]
        == 46
}

/// Every byte of `[i, digits_end(s, i))` is a digit, and the run ends inside
/// the sequence.
pub proof fn lemma_digits_end_digits(s: Seq<u8>, i: int)
    requires
        0 <= i <= s.len(),
    ensures
        i <= digits_end(s, i) <= s.len(),
        forall|k: int| i <= k < digits_end(s, i) ==> is_digit(s[k]),
    decreases s.len() - i,
{
    if i < s.len() && is_digit(s[i]) {
        lemma_digits_end_digits(s, i + 1);
    }
}

/// A digit run's value only grows as more digits are taken.
pub proof fn lemma_digits_value_mono(s: Seq<u8>, b: int, i: int, j: int)
    requires
        b <= i <= j,
        forall|k: int| b <= k < j ==> is_digit(#[trigger] s[k]),
    ensures
        0 <= digits_value(s, b, i) <= digits_value(s, b, j),
    decreases j - i,
{
    if i == j {
        lemma_digits_value_nonneg(s, b, i);
    } else {
        lemma_digits_value_mono(s, b, i, j - 1);
        assert(digits_value(s, b, j - 1) * 10 >= digits_value(s, b, j - 1)) by (nonlinear_arith)
            requires
                digits_value(s, b, j - 1) >= 0,
        ;
    }
}

/// A run of digits denotes a non-negative number.
pub proof fn lemma_digits_value_nonneg(s: Seq<u8>, b: int, j: int)
    requires
        forall|k: int| b <= k < j ==> is_digit(#[trigger] s[k]),
    ensures
        digits_value(s, b, j) >= 0,
    decreases j - b,
{
    if b < j {
        lemma_digits_value_nonneg(s, b, j - 1);
        assert(digits_value(s, b, j - 1) * 10 >= 0) by (nonlinear_arith)
            requires
                digits_value(s, b, j - 1) >= 0,
        ;
    }
}


/// Scan the digit run starting at `start`: its value and its end, or nothing
/// when the value would overflow the lattice's coordinate type.
fn scan_number(data: &[u8], start: usize) -> (r: Option<(usize, usize)>)
    requires
        start <= data@.len(),
    ensures
        r matches Some(p) ==> p.1 == digits_end(data@, start as int) && p.0 == digits_value(
            data@,
            start as int,
            p.1 as int,
        ) && p.0 <= i32::MAX && start <= p.1 <= data@.len(),
        r is None ==> digits_value(data@, start as int, digits_end(data@, start as int))
            > i32::MAX,
{
    let n = data.len();
    let mut i = start;
    let mut value: usize = 0;
    while i < n && data[i] >= 48 && data[i] <= 57
        invariant
            start <= i <= n,
            n == data@.len(),
            digits_end(data@, start as int) == digits_end(data@, i as int),
            value == digits_value(data@, start as int, i as int),
            value <= i32::MAX,
            forall|k: int| start <= k < i ==> is_digit(#[trigger] data@[k]),
        decreases n - i,
    {
        let d = (data[i] - 48) as u64;
        let next = (value as u64) * 10 + d;
        if next > (i32::MAX as u64) {
            proof {
                lemma_digits_end_digits(data@, i as int);
                lemma_digits_end_digits(data@, i as int + 1);
                let de = digits_end(data@, start as int);
                assert(de == digits_end(data@, i as int + 1));
                lemma_digits_value_mono(data@, start as int, i as int + 1, de);
            }
            return None;
        }
        value = next as usize;
        i = i + 1;
    }
    Some((value, i))
}

/// A `width x height` occupancy grid, row-major: position `(x, y)` lives at
/// index `y * width + x`.
#[derive(Debug, Clone, PartialEq, Eq)]
pub struct Mask {
    pub mask: Vec<bool>,
    pub width: usize,
    pub height: usize,
}

impl Mask {
    /// The backing vector covers the whole lattice, and the lattice is small
    /// enough that every index fits in an `i32` (the coordinate type).
    pub open spec fn wf(&self) -> bool {
        &&& self.mask@.len() == self.width * self.height
        &&& self.width <= i32::MAX
        &&& self.height <= i32::MAX
        &&& self.width * self.height <= i32::MAX
    }

    /// The occupancy bit of the in-bounds position `p`.
    pub open spec fn spec_at(&self, p: Point) -> bool {
        self.mask@[p.y * self.width + p.x]
    }

    /// A mask with every position present.
    pub fn new(width: usize, height: usize) -> (r: Self)
        requires
            width <= i32::MAX,
            height <= i32::MAX,
            width * height <= i32::MAX,
        ensures
            r.wf(),
            r.width == width,
            r.height == height,
            forall|i: int| 0 <= i < r.mask@.len() ==> r.mask@[i] == true,
    {
        proof {
            assert(width * height <= usize::MAX) by (nonlinear_arith)
                requires
                    width * height <= i32::MAX,
            ;
        }
        let n = width * height;
        let mut mask: Vec<bool> = Vec::new();
        let mut i: usize = 0;
        while i < n
            invariant
                i <= n,
                mask@.len() == i,
                forall|j: int| 0 <= j < i ==> mask@[j] == true,
            decreases n - i,
        {
            mask.push(true);
            i = i + 1;
        }
        Self { mask, width, height }
    }

    /// Set the occupancy bit of the in-bounds position `point`.
    pub fn set(&mut self, point: Point, value: bool)
        requires
            old(self).wf(),
            0 <= point.x < old(self).width,
            0 <= point.y < old(self).height,
        ensures
            final(self).wf(),
            final(self).width == old(self).width,
            final(self).height == old(self).height,
            final(self).mask@ == old(self).mask@.update(
                point.y * old(self).width + point.x,
                value,
            ),
    {
        proof {
            assert(0 <= point.y * self.width + point.x < self.mask@.len()) by (nonlinear_arith)
                requires
                    0 <= point.x < self.width,
                    0 <= point.y < self.height,
                    self.mask@.len() == self.width * self.height,
            ;
        }
        let index = (point.x as usize) + (point.y as usize) * self.width;
        proof {
            assert(index == point.y * self.width + point.x);
        }
        self.mask.set(index, value);
    }

    /// Build a mask from a row-major raster of `(red, green, blue)` pixels,
    /// one per lattice position: pure black marks a removed position, every
    /// other color a present one.
    pub fn from_pixels(width: usize, height: usize, pixels: &Vec<(u8, u8, u8)>) -> (r: Self)
        requires
            width <= i32::MAX,
            height <= i32::MAX,
            width * height <= i32::MAX,
            pixels@.len() == width * height,
        ensures
            r.wf(),
            r.width == width,
            r.height == height,
            forall|i: int|
                0 <= i < r.mask@.len() ==> r.mask@[i] == !(pixels@[i].0 == 0 && pixels@[i].1 == 0
                    && pixels@[i].2 == 0),
    {
        proof {
            assert(width * height <= usize::MAX) by (nonlinear_arith)
                requires
                    width * height <= i32::MAX,
            ;
        }
        let n = width * height;
        let mut mask: Vec<bool> = Vec::new();
        let mut i: usize = 0;
        while i < n
            invariant
                i <= n,
                n == width * height,
                pixels@.len() == n,
                mask@.len() == i,
                forall|j: int|
                    0 <= j < i ==> mask@[j] == !(pixels@[j].0 == 0 && pixels@[j].1 == 0
                        && pixels@[j].2 == 0),
            decreases n - i,
        {
            let p = pixels[i];
            mask.push(!(p.0 == 0 && p.1 == 0 && p.2 == 0));
            i = i + 1;
        }
        Self { mask, width, height }
    }

    /// Parse the text-mask external interface: a first line
    /// `"<width> <height>"`, then `height` lines of `width` characters, `.`
    /// for a present position, `x` for a removed one.  Any other shape or
    /// character — or a lattice too large for the coordinate type — is
    /// rejected before any grid is built.
    #[verifier::rlimit(60)]
    #[verifier::spinoff_prover]
    pub fn from_txt(data: &[u8]) -> (r: Result<Mask, MaskTextError>)
        ensures
            r matches Ok(m) ==> text_mask_ok(data@) && m.wf() && m.width == text_width(data@)
                && m.height == text_height(data@) && (forall|i: int|
                0 <= i < m.mask@.len() ==> m.mask@[i] == text_mask_bit(data@, i)),
            r is Err <==> !text_mask_ok(data@),
    {
        let n = data.len();
        let width_scan = match scan_number(data, 0) {
            Some(p) => p,
            None => {
                return Err(MaskTextError::Malformed);
            },
        };
        let wv = width_scan.0;
        let we = width_scan.1;
        if we == 0 || we >= n {
            return Err(MaskTextError::Malformed);
        }
        if data[we] != 32 {
            return Err(MaskTextError::Malformed);
        }
        let height_scan = match scan_number(data, we + 1) {
            Some(p) => p,
            None => {
                return Err(MaskTextError::Malformed);
            },
        };
        let hv = height_scan.0;
        let he = height_scan.1;
        if he == we + 1 {
            return Err(MaskTextError::Malformed);
        }
        if he < n && data[he] != 10 {
            return Err(MaskTextError::Malformed);
        }
        proof {
            assert(text_header_ok(data@));
        }
        if hv > 0 {
            proof {
                lemma_fundamental_div_mod(i32::MAX as int, hv as int);
                lemma_mod_division_less_than_divisor(i32::MAX as int, hv as int);
            }
            if wv > (i32::MAX as usize) / hv {
                proof {
                    assert(wv * hv > i32::MAX) by (nonlinear_arith)
                        requires
                            hv >= 1,
                            wv >= (i32::MAX as int) / (hv as int) + 1,
                            i32::MAX as int == (hv as int) * ((i32::MAX as int) / (hv as int)) + (
                            i32::MAX as int) % (hv as int),
                            0 <= (i32::MAX as int) % (hv as int) < hv as int,
                    ;
                }
                return Err(MaskTextError::Malformed);
            }
            proof {
                assert(wv * hv <= i32::MAX) by (nonlinear_arith)
                    requires
                        hv >= 1,
                        0 <= wv <= (i32::MAX as int) / (hv as int),
                        i32::MAX as int == (hv as int) * ((i32::MAX as int) / (hv as int)) + (
                        i32::MAX as int) % (hv as int),
                        0 <= (i32::MAX as int) % (hv as int) < hv as int,
                ;
            }
        } else {
            proof {
                assert(wv * hv == 0) by (nonlinear_arith)
                    requires
                        hv == 0,
                ;
            }
        }
        let mut bits: Vec<bool> = Vec::new();
        let mut pos = he;
        let mut row: usize = 0;
        while row < hv
            invariant
                row <= hv,
                n == data@.len(),
                we == text_width_end(data@),
                wv == text_width(data@),
                he == text_height_end(data@),
                hv == text_height(data@),
                text_header_ok(data@),
                wv <= i32::MAX,
                hv <= i32::MAX,
                wv * hv <= i32::MAX,
                he <= n,
                pos == he + row * (wv + 1),
                pos <= n,
                bits@.len() == row * wv,
                forall|r2: int| 0 <= r2 < row ==> #[trigger] data@[he + r2 * (wv + 1)] == 10,
                forall|r2: int, c: int|
                    0 <= r2 < row && 0 <= c < wv ==> (#[trigger] data@[he + r2 * (wv + 1) + 1 + c]
                        == 46 || data@[he + r2 * (wv + 1) + 1 + c] == 120),
                forall|i: int| 0 <= i < bits@.len() ==> bits@[i] == text_mask_bit(data@, i),
            decreases hv - row,
        {
            proof {
                assert((row + 1) * (wv + 1) <= hv * (wv + 1)) by (nonlinear_arith)
                    requires
                        row + 1 <= hv,
                        wv + 1 >= 1,
                ;
                assert(row * (wv + 1) + (wv + 1) == (row + 1) * (wv + 1)) by (nonlinear_arith);
            }
            if pos >= n {
                return Err(MaskTextError::Malformed);
            }
            if data[pos] != 10 {
                return Err(MaskTextError::Malformed);
            }
            let mut c: usize = 0;
            while c < wv
                invariant
                    c <= wv,
                    row < hv,
                    n == data@.len(),
                    we == text_width_end(data@),
                    wv == text_width(data@),
                    he == text_height_end(data@),
                    hv == text_height(data@),
                    text_header_ok(data@),
                    wv <= i32::MAX,
                    hv <= i32::MAX,
                    wv * hv <= i32::MAX,
                    pos == he + row * (wv + 1),
                    pos < n,
                    data@[pos as int] == 10,
                    c >= 1 ==> pos + c < n,
                    row * (wv + 1) + (wv + 1) == (row + 1) * (wv + 1),
                    (row + 1) * (wv + 1) <= hv * (wv + 1),
                    bits@.len() == row * wv + c,
                    forall|r2: int| 0 <= r2 < row ==> #[trigger] data@[he + r2 * (wv + 1)] == 10,
                    forall|r2: int, c2: int|
                        0 <= r2 < row && 0 <= c2 < wv ==> (#[trigger] data@[he + r2 * (wv + 1) + 1
                            + c2] == 46 || data@[he + r2 * (wv + 1) + 1 + c2] == 120),
                    forall|c2: int|
                        0 <= c2 < c ==> (#[trigger] data@[he + row * (wv + 1) + 1 + c2] == 46
                            || data@[he + row * (wv + 1) + 1 + c2] == 120),
                    forall|i: int| 0 <= i < bits@.len() ==> bits@[i] == text_mask_bit(data@, i),
                decreases wv - c,
            {
                if pos + 1 + c >= n {
                    return Err(MaskTextError::Malformed);
                }
                let b = data[pos + 1 + c];
                let bit = if b == 46 {
                    true
                } else if b == 120 {
                    false
                } else {
                    return Err(MaskTextError::Malformed);
                };
                let ghost idx = (row * wv + c) as int;
                proof {
                    lemma_fundamental_div_mod_converse_div(idx, wv as int, row as int, c as int);
                    lemma_fundamental_div_mod_converse_mod(idx, wv as int, row as int, c as int);
                    assert(row * wv + wv == (row + 1) * wv) by (nonlinear_arith);
                    assert((row + 1) * wv <= hv * wv) by (nonlinear_arith)
                        requires
                            row + 1 <= hv,
                            wv >= 0,
                    ;
                }
                bits.push(bit);
                c = c + 1;
            }
            proof {
                assert(pos + wv + 1 <= n);
                assert(row * wv + wv == (row + 1) * wv) by (nonlinear_arith);
                assert forall|r2: int|
                    0 <= r2 < row + 1 implies #[trigger] data@[he + r2 * (wv + 1)] == 10 by {
                    if r2 == row {
                        assert(data@[pos as int] == 10);
                    }
                }
            }
            pos = pos + wv + 1;
            row = row + 1;
        }
        if n == pos {
        } else if n == pos + 1 {
            if data[pos] != 10 {
                return Err(MaskTextError::Malformed);
            }
        } else {
            return Err(MaskTextError::Malformed);
        }
        proof {
            assert(text_body_ok(data@));
            assert(text_mask_ok(data@));
            assert(hv * wv == wv * hv) by (nonlinear_arith);
        }
        Ok(Mask { mask: bits, width: wv, height: hv })
    }
}

} // verus!
