use vstd::prelude::*;

verus! {

/// How many pixels wide the border of a hollow tile is.
pub const STROKE: u16 = 3;

/// Whether pixel `p` (counted row by row) of a hollow tile of side `length`
/// lies inside its border, where the tile is transparent.
pub open spec fn inside_border(length: int, p: int) -> bool {
    let x = p % length;
    let y = p / length;
    &&& STROKE <= x < length - STROKE
    &&& STROKE <= y < length - STROKE
}

/// Byte `k` of the solid tile: opaque white.
pub open spec fn solid_byte(k: int) -> u8 {
    255
}

/// Byte `k` of the hollow tile: white, transparent inside its border.
pub open spec fn hollow_byte(length: int, k: int) -> u8 {
    if k % 4 == 3 && inside_border(length, k / 4) {
        0
    } else {
        255
    }
}

/// Byte `k` of the goal tile: opaque amber (239, 187, 33).
pub open spec fn goal_byte(k: int) -> u8 {
    let c = k % 4;
    if c == 0 {
        239
    } else if c == 1 {
        187
    } else if c == 2 {
        33
    } else {
        255
    }
}

/// Byte `k` of the tile sheet: the solid, the hollow and the goal tile, each
/// `length` by `length` RGBA pixels, one below the other.
pub open spec fn sheet_byte(length: int, k: int) -> u8 {
    let n = 4 * length * length;
    if k < n {
        solid_byte(k)
    } else if k < 2 * n {
        hollow_byte(length, k - n)
    } else {
        goal_byte(k - 2 * n)
    }
}

proof fn lemma_pixel_byte(p: int, c: int)
    requires
        0 <= p,
        0 <= c < 4,
    ensures
        (4 * p + c) / 4 == p,
        (4 * p + c) % 4 == c,
{
    assert((4 * p + c) / 4 == p && (4 * p + c) % 4 == c) by (nonlinear_arith)
        requires
            0 <= p,
            0 <= c < 4,
    ;
}

proof fn lemma_byte_pixel(k: int)
    requires
        0 <= k,
    ensures
        k == 4 * (k / 4) + k % 4,
        0 <= k % 4 < 4,
        0 <= k / 4,
{
    assert(k == 4 * (k / 4) + k % 4 && 0 <= k % 4 < 4 && 0 <= k / 4) by (nonlinear_arith)
        requires
            0 <= k,
    ;
}

/// The opacity of pixel (`x`, `y`) of the hollow tile in the sheet for
/// tiles of side `length`.
pub open spec fn sheet_alpha(length: int, x: int, y: int) -> u8 {
    sheet_byte(length, 4 * length * length + 4 * (y * length + x) + 3)
}

/// The opacity of pixel (`x`, `y`) of the hollow tile: clear inside the
/// border, opaque on it.
pub open spec fn hollow_alpha(length: int, x: int, y: int) -> u8 {
    if STROKE <= x < length - STROKE && STROKE <= y < length - STROKE {
        0
    } else {
        255
    }
}

/// How many of the first `n` pixels of row `y` of the hollow tile are clear.
pub open spec fn clear_in_row(length: int, y: int, n: nat) -> nat
    decreases n,
{
    if n == 0 {
        0
    } else {
        clear_in_row(length, y, (n - 1) as nat) + if sheet_alpha(length, n - 1, y) == 0 {
            1nat
        } else {
            0nat
        }
    }
}

/// How many pixels of the first `m` rows of the hollow tile are clear.
pub open spec fn clear_pixels(length: int, m: nat) -> nat
    decreases m,
{
    if m == 0 {
        0
    } else {
        clear_pixels(length, (m - 1) as nat) + clear_in_row(length, m - 1, length as nat)
    }
}

/// In the sheet, the opacity of each pixel of the hollow tile is clear
/// inside a border `STROKE` pixels wide and opaque on it.
pub proof fn lemma_sheet_alpha(length: int, x: int, y: int)
    requires
        0 <= x < length,
        0 <= y < length,
    ensures
        sheet_alpha(length, x, y) == hollow_alpha(length, x, y),
{
    let p = y * length + x;
    crate::map::lemma_index_in_grid(length, length, x, y);
    vstd::arithmetic::div_mod::lemma_fundamental_div_mod_converse(p, length, y, x);
    let n = 4 * length * length;
    let k = n + 4 * p + 3;
    lemma_pixel_byte(p, 3);
    assert(k - n == 4 * p + 3);
    assert(4 * length * length == 4 * (length * length)) by (nonlinear_arith);
    assert(n <= k < 2 * n);
    assert(inside_border(length, p) == (STROKE <= x < length - STROKE && STROKE <= y < length - STROKE));
}

/// The hollow tile looks the same mirrored left to right, top to bottom and
/// across its diagonal.
pub proof fn lemma_hollow_symmetric(length: int, x: int, y: int)
    requires
        0 <= x < length,
        0 <= y < length,
    ensures
        sheet_alpha(length, x, y) == sheet_alpha(length, length - 1 - x, y),
        sheet_alpha(length, x, y) == sheet_alpha(length, x, length - 1 - y),
        sheet_alpha(length, x, y) == sheet_alpha(length, y, x),
{
    lemma_sheet_alpha(length, x, y);
    lemma_sheet_alpha(length, length - 1 - x, y);
    lemma_sheet_alpha(length, x, length - 1 - y);
    lemma_sheet_alpha(length, y, x);
}

/// The clear pixels among the first `n` of an inner row: those from column
/// `STROKE` on, short of the border on the right.
proof fn lemma_clear_in_row(length: int, y: int, n: nat)
    requires
        n <= length,
        0 <= y < length,
    ensures
        clear_in_row(length, y, n) == if STROKE <= y < length - STROKE {
            let hi = if n < length - STROKE { n as int } else { length - STROKE };
            if hi > STROKE { hi - STROKE } else { 0 }
        } else {
            0
        },
    decreases n,
{
    if n > 0 {
        lemma_clear_in_row(length, y, (n - 1) as nat);
        lemma_sheet_alpha(length, n - 1, y);
    }
}

/// The clear pixels of the first `m` rows: `length - 2 * STROKE` in each
/// inner row.
proof fn lemma_clear_pixels(length: int, m: nat)
    requires
        m <= length,
    ensures
        clear_pixels(length, m) == ({
            let hi = if m < length - STROKE { m as int } else { length - STROKE };
            let rows = if hi > STROKE { hi - STROKE } else { 0 };
            let cols = if length > 2 * STROKE { length - 2 * STROKE } else { 0 };
            rows * cols
        }),
    decreases m,
{
    if m > 0 {
        lemma_clear_pixels(length, (m - 1) as nat);
        lemma_clear_in_row(length, m - 1, length as nat);
        let hi = if m < length - STROKE { m as int } else { length - STROKE };
        let rows = if hi > STROKE { hi - STROKE } else { 0 };
        let hi0 = if m - 1 < length - STROKE { m - 1 } else { length - STROKE };
        let rows0 = if hi0 > STROKE { hi0 - STROKE } else { 0 };
        let cols = if length > 2 * STROKE { length - 2 * STROKE } else { 0 };
        assert(rows == rows0 + (if STROKE <= m - 1 < length - STROKE { 1int } else { 0int }));
        assert(rows * cols == rows0 * cols + (if STROKE <= m - 1 < length - STROKE { cols } else { 0 }))
            by (nonlinear_arith)
            requires
                rows == rows0 + (if STROKE <= m - 1 < length - STROKE { 1int } else { 0int }),
        ;
    }
}

/// The hollow tile has `(length - 6)²` clear pixels where `length` is at
/// least 6, and none otherwise.
pub proof fn lemma_hollow_clear_count(length: int)
    requires
        length >= 0,
    ensures
        clear_pixels(length, length as nat) == if length >= 2 * STROKE {
            (length - 2 * STROKE) * (length - 2 * STROKE)
        } else {
            0
        },
{
    lemma_clear_pixels(length, length as nat);
}

/// The RGBA pixels of the tile sheet for tiles of side `length`: `length`
/// pixels wide and `3 * length` high, holding the solid, the hollow and the
/// goal tile in that order.
pub fn new(length: u16) -> (sheet: Vec<u8>)
    requires
        STROKE <= length,
        length * length * 4 <= u16::MAX,
    ensures
        sheet@.len() == 12 * length * length,
        forall|k: int| 0 <= k < sheet@.len() ==> #[trigger] sheet@[k] == sheet_byte(length as int, k),
{
    let n: u16 = length * length * 4;
    let pixels: u16 = length * length;
    let ghost len = length as int;

    let mut solid: Vec<u8> = Vec::new();
    let mut p: u16 = 0;
    while p < pixels
        invariant
            p <= pixels,
            pixels == len * len,
            solid@.len() == 4 * p,
            forall|k: int| 0 <= k < solid@.len() ==> solid@[k] == solid_byte(k),
        decreases pixels - p,
    {
        solid.push(255);
        solid.push(255);
        solid.push(255);
        solid.push(255);
        p = p + 1;
    }

    let mut hollow: Vec<u8> = Vec::new();
    let mut i: u16 = 0;
    while i < n
        invariant
            i <= n,
            hollow@.len() == i,
            forall|k: int| 0 <= k < hollow@.len() ==> hollow@[k] == 255,
        decreases n - i,
    {
        hollow.push(255);
        i = i + 1;
    }
    p = 0;
    while p < pixels
        invariant
            p <= pixels,
            pixels == len * len,
            n == 4 * pixels,
            STROKE <= length,
            len == length as int,
            hollow@.len() == n,
            forall|k: int|
                0 <= k < n ==> #[trigger] hollow@[k] == (if k % 4 == 3 && k / 4 < p && inside_border(
                    len,
                    k / 4,
                ) {
                    0u8
                } else {
                    255u8
                }),
        decreases pixels - p,
    {
        let x: u16 = p % length;
        let y: u16 = p / length;
        let at: usize = 4 * p as usize + 3;
        proof {
            lemma_pixel_byte(p as int, 3);
        }
        let ghost before = hollow@;
        let ghost cut = inside_border(len, p as int);
        assert(cut == (x >= STROKE && x < length - STROKE && y >= STROKE && y < length - STROKE));
        if x >= STROKE && x < length - STROKE && y >= STROKE && y < length - STROKE {
            hollow.set(at, 0);
        }
        assert forall|k: int| 0 <= k < n implies #[trigger] hollow@[k] == (if k % 4 == 3 && k / 4 < p + 1
            && inside_border(len, k / 4) {
            0u8
        } else {
            255u8
        }) by {
            lemma_byte_pixel(k);
            if k == at {
                assert(k / 4 == p && k % 4 == 3);
                assert(hollow@[k] == (if cut { 0u8 } else { before[k] }));
            } else {
                assert(hollow@[k] == before[k]);
                assert(k % 4 == 3 ==> k / 4 != p);
            }
            assert(before[k] == (if k % 4 == 3 && k / 4 < p && inside_border(len, k / 4) {
                0u8
            } else {
                255u8
            }));
        }
        p = p + 1;
    }

    let mut goal: Vec<u8> = Vec::new();
    p = 0;
    while p < pixels
        invariant
            p <= pixels,
            pixels == len * len,
            goal@.len() == 4 * p,
            forall|k: int| 0 <= k < goal@.len() ==> goal@[k] == goal_byte(k),
        decreases pixels - p,
    {
        proof {
            lemma_pixel_byte(p as int, 0);
            lemma_pixel_byte(p as int, 1);
            lemma_pixel_byte(p as int, 2);
            lemma_pixel_byte(p as int, 3);
        }
        goal.push(239);
        goal.push(187);
        goal.push(33);
        goal.push(255);
        p = p + 1;
    }

    let ghost solid_part = solid@;
    let ghost hollow_part = hollow@;
    let ghost goal_part = goal@;
    assert(12 * len * len == 3 * n && n == 4 * len * len) by (nonlinear_arith)
        requires
            n == len * len * 4,
    ;
    let mut sheet = solid;
    sheet.append(&mut hollow);
    sheet.append(&mut goal);
    assert forall|k: int| 0 <= k < sheet@.len() implies sheet@[k] == sheet_byte(len, k) by {
        if k < n {
            assert(sheet@[k] == solid_part[k]);
        } else if k < 2 * n {
            assert(sheet@[k] == hollow_part[k - n]);
            lemma_byte_pixel(k - n);
            assert(k - n < n ==> (k - n) / 4 < pixels) by (nonlinear_arith)
                requires
                    n == 4 * pixels,
                    k - n >= 0,
            ;
        } else {
            assert(sheet@[k] == goal_part[k - 2 * n]);
        }
    }
    sheet
}

} // verus!
