//! Rectangles of cells in a grid that is stored row by row.
use vstd::arithmetic::div_mod::*;
use vstd::arithmetic::mul::*;
use vstd::prelude::*;

verus! {

/// A rectangle of cells: its first row and column, its width and its height.
pub struct Rect {
    pub row: int,
    pub col: int,
    pub w: int,
    pub h: int,
}

/// Cell `i` of a grid of `cols` columns lies in `r`.
pub open spec fn inside(i: int, cols: int, r: Rect) -> bool {
    &&& r.row <= i / cols < r.row + r.h
    &&& r.col <= i % cols < r.col + r.w
}

/// The grid `s` with `x` in every cell of `r`.
pub open spec fn filled<T>(s: Seq<T>, cols: int, r: Rect, x: T) -> Seq<T> {
    s.map(
        |i: int, old_x: T|
            if inside(i, cols, r) {
                x
            } else {
                old_x
            },
    )
}

/// The grid `s` with the cells of `from` in `r`.
pub open spec fn copied<T>(s: Seq<T>, from: Seq<T>, cols: int, r: Rect) -> Seq<T> {
    s.map(
        |i: int, old_x: T|
            if inside(i, cols, r) {
                from[i]
            } else {
                old_x
            },
    )
}

/// The number of the cell at `row`, `col`.
pub open spec fn cell(cols: int, row: int, col: int) -> int {
    row * cols + col
}

/// The rectangle lies within a grid of `rows` rows and `cols` columns.
pub open spec fn fits(r: Rect, rows: int, cols: int) -> bool {
    &&& 0 <= r.row && 0 <= r.col && 0 <= r.w && 0 <= r.h
    &&& r.row + r.h <= rows
    &&& r.col + r.w <= cols
}

/// The row and the column of a cell are those that its number was made from.
pub proof fn lemma_cell(rows: int, cols: int, row: int, col: int)
    requires
        0 <= row < rows,
        0 <= col < cols,
    ensures
        cell(cols, row, col) / cols == row,
        cell(cols, row, col) % cols == col,
        0 <= cell(cols, row, col) < rows * cols,
        0 <= row * cols,
{
    lemma_fundamental_div_mod_converse(row * cols + col, cols, row, col);
    assert(0 <= row * cols && row * cols + col < rows * cols) by (nonlinear_arith)
        requires
            0 <= row < rows,
            0 <= col < cols,
    ;
}

/// The number of a cell, which does not overflow.
pub fn index(rows: usize, cols: usize, row: usize, col: usize) -> (i: usize)
    requires
        row < rows,
        col < cols,
        rows * cols <= usize::MAX,
    ensures
        i == cell(cols as int, row as int, col as int),
        i < rows * cols,
{
    proof {
        lemma_cell(rows as int, cols as int, row as int, col as int);
    }
    row * cols + col
}

/// Cells before `(row + y, col + x)` in the rectangle, in reading order.
spec fn before(i: int, cols: int, r: Rect, y: int, x: int) -> bool {
    inside(i, cols, r) && (i / cols < r.row + y || (i / cols == r.row + y && i % cols < r.col + x))
}

/// Puts `x` into every cell of a rectangle.
pub fn fill<T: Copy>(
    v: &mut Vec<T>,
    rows: usize,
    cols: usize,
    row: usize,
    col: usize,
    w: usize,
    h: usize,
    x: T,
)
    requires
        old(v)@.len() == rows * cols,
        fits((Rect { row: row as int, col: col as int, w: w as int, h: h as int }), rows as int, cols as int),
    ensures
        final(v)@ == filled(
            old(v)@,
            cols as int,
            (Rect { row: row as int, col: col as int, w: w as int, h: h as int }),
            x,
        ),
{
    let ghost r = Rect { row: row as int, col: col as int, w: w as int, h: h as int };
    let ghost s = v@;
    let ghost n = cols as int;
    let len: usize = v.len();
    let mut y: usize = 0;
    while y < h
        invariant
            y <= h,
            r == (Rect { row: row as int, col: col as int, w: w as int, h: h as int }),
            n == cols,
            fits(r, rows as int, n),
            len == rows * cols,
            v@.len() == len,
            s.len() == len,
            forall|i: int|
                0 <= i < len ==> v@[i] == (if before(i, n, r, y as int, 0) {
                    x
                } else {
                    s[i]
                }),
        decreases h - y,
    {
        let mut k: usize = 0;
        while k < w
            invariant
                k <= w,
                y < h,
                r == (Rect { row: row as int, col: col as int, w: w as int, h: h as int }),
                n == cols,
                fits(r, rows as int, n),
                len == rows * cols,
                v@.len() == len,
                s.len() == len,
                forall|i: int|
                    0 <= i < len ==> v@[i] == (if before(i, n, r, y as int, k as int) {
                        x
                    } else {
                        s[i]
                    }),
            decreases w - k,
        {
            let at: usize = index(rows, cols, row + y, col + k);
            proof {
                lemma_cell(rows as int, n, row + y, col + k);
                assert forall|i: int| 0 <= i < len && i != at implies before(
                    i,
                    n,
                    r,
                    y as int,
                    k as int,
                ) == before(i, n, r, y as int, k + 1) by {
                    lemma_fundamental_div_mod(i, n);
                    lemma_mul_is_commutative(n, i / n);
                }
            }
            v.set(at, x);
            k = k + 1;
        }
        y = y + 1;
        assert forall|i: int| 0 <= i < len implies before(i, n, r, y - 1, w as int) == before(
            i,
            n,
            r,
            y as int,
            0,
        ) by {}
    }
    assert forall|i: int| 0 <= i < len implies before(i, n, r, h as int, 0) == inside(i, n, r) by {}
    assert(v@ =~= filled(s, n, r, x));
}

/// Copies the cells of a rectangle from another grid of the same shape.
pub fn copy(
    v: &mut Vec<u8>,
    from: &Vec<u8>,
    rows: usize,
    cols: usize,
    row: usize,
    col: usize,
    w: usize,
    h: usize,
)
    requires
        old(v)@.len() == rows * cols,
        from@.len() == rows * cols,
        fits((Rect { row: row as int, col: col as int, w: w as int, h: h as int }), rows as int, cols as int),
    ensures
        final(v)@ == copied(
            old(v)@,
            from@,
            cols as int,
            (Rect { row: row as int, col: col as int, w: w as int, h: h as int }),
        ),
{
    let ghost r = Rect { row: row as int, col: col as int, w: w as int, h: h as int };
    let ghost s = v@;
    let ghost n = cols as int;
    let len: usize = v.len();
    let mut y: usize = 0;
    while y < h
        invariant
            y <= h,
            r == (Rect { row: row as int, col: col as int, w: w as int, h: h as int }),
            n == cols,
            fits(r, rows as int, n),
            len == rows * cols,
            v@.len() == len,
            from@.len() == len,
            s.len() == len,
            forall|i: int|
                0 <= i < len ==> v@[i] == (if before(i, n, r, y as int, 0) {
                    from@[i]
                } else {
                    s[i]
                }),
        decreases h - y,
    {
        let mut k: usize = 0;
        while k < w
            invariant
                k <= w,
                y < h,
                r == (Rect { row: row as int, col: col as int, w: w as int, h: h as int }),
                n == cols,
                fits(r, rows as int, n),
                len == rows * cols,
                v@.len() == len,
                from@.len() == len,
                s.len() == len,
                forall|i: int|
                    0 <= i < len ==> v@[i] == (if before(i, n, r, y as int, k as int) {
                        from@[i]
                    } else {
                        s[i]
                    }),
            decreases w - k,
        {
            let at: usize = index(rows, cols, row + y, col + k);
            proof {
                lemma_cell(rows as int, n, row + y, col + k);
                assert forall|i: int| 0 <= i < len && i != at implies before(
                    i,
                    n,
                    r,
                    y as int,
                    k as int,
                ) == before(i, n, r, y as int, k + 1) by {
                    lemma_fundamental_div_mod(i, n);
                    lemma_mul_is_commutative(n, i / n);
                }
            }
            let x: u8 = from[at];
            v.set(at, x);
            k = k + 1;
        }
        y = y + 1;
        assert forall|i: int| 0 <= i < len implies before(i, n, r, y - 1, w as int) == before(
            i,
            n,
            r,
            y as int,
            0,
        ) by {}
    }
    assert forall|i: int| 0 <= i < len implies before(i, n, r, h as int, 0) == inside(i, n, r) by {}
    assert(v@ =~= copied(s, from@, n, r));
}

/// The smallest of `cap` and the first `k` cells of a rectangle, in reading order.
pub open spec fn least(s: Seq<u8>, cols: int, r: Rect, cap: int, k: nat) -> int
    decreases k,
{
    if k == 0 {
        cap
    } else {
        let rest = least(s, cols, r, cap, (k - 1) as nat);
        let here = s[cell(cols, r.row + (k - 1) / r.w, r.col + (k - 1) % r.w)] as int;
        if here < rest {
            here
        } else {
            rest
        }
    }
}

/// The smallest of `cap` and the cells of a rectangle.
pub fn minimum(
    v: &Vec<u8>,
    rows: usize,
    cols: usize,
    row: usize,
    col: usize,
    w: usize,
    h: usize,
    cap: u8,
) -> (m: u8)
    requires
        v@.len() == rows * cols,
        fits((Rect { row: row as int, col: col as int, w: w as int, h: h as int }), rows as int, cols as int),
    ensures
        m == least(
            v@,
            cols as int,
            (Rect { row: row as int, col: col as int, w: w as int, h: h as int }),
            cap as int,
            (w * h) as nat,
        ),
{
    let ghost r = Rect { row: row as int, col: col as int, w: w as int, h: h as int };
    let len: usize = v.len();
    let mut m: u8 = cap;
    let mut y: usize = 0;
    while y < h
        invariant
            y <= h,
            r == (Rect { row: row as int, col: col as int, w: w as int, h: h as int }),
            fits(r, rows as int, cols as int),
            len == rows * cols,
            v@.len() == len,
            m == least(v@, cols as int, r, cap as int, (w * y) as nat),
            w * y >= 0,
        decreases h - y,
    {
        let mut x: usize = 0;
        while x < w
            invariant
                x <= w,
                y < h,
                r == (Rect { row: row as int, col: col as int, w: w as int, h: h as int }),
                fits(r, rows as int, cols as int),
                len == rows * cols,
                v@.len() == len,
                w * y >= 0,
                m == least(v@, cols as int, r, cap as int, (w * y + x) as nat),
            decreases w - x,
        {
            let at: usize = index(rows, cols, row + y, col + x);
            proof {
                lemma_mul_is_commutative(w as int, y as int);
                lemma_fundamental_div_mod_converse(w * y + x, w as int, y as int, x as int);
            }
            let here: u8 = v[at];
            if here < m {
                m = here;
            }
            x = x + 1;
        }
        y = y + 1;
        assert(w * (y - 1) + w == w * y && w * y >= 0) by (nonlinear_arith)
            requires
                y >= 1,
        ;
    }
    m
}

/// `least` is the smallest of `cap` and the cells of the rectangle.
pub proof fn law_least_is_minimum(s: Seq<u8>, rows: int, cols: int, r: Rect, cap: int, k: nat)
    requires
        s.len() == rows * cols,
        fits(r, rows, cols),
        k <= r.w * r.h,
    ensures
        least(s, cols, r, cap, k) <= cap,
        forall|j: int|
            0 <= j < k ==> least(s, cols, r, cap, k) <= #[trigger] s[cell(
                cols,
                r.row + j / r.w,
                r.col + j % r.w,
            )],
        least(s, cols, r, cap, k) == cap || exists|j: int|
            0 <= j < k && least(s, cols, r, cap, k) == #[trigger] s[cell(
                cols,
                r.row + j / r.w,
                r.col + j % r.w,
            )],
    decreases k,
{
    if k > 0 {
        law_least_is_minimum(s, rows, cols, r, cap, (k - 1) as nat);
        let prev = least(s, cols, r, cap, (k - 1) as nat);
        let here = s[cell(cols, r.row + (k - 1) / r.w, r.col + (k - 1) % r.w)];
        if here < prev {
            assert(least(s, cols, r, cap, k) == s[cell(
                cols,
                r.row + (k - 1) / r.w,
                r.col + (k - 1) % r.w,
            )]);
        } else if prev != cap {
            let j = choose|j: int|
                0 <= j < k - 1 && prev == #[trigger] s[cell(
                    cols,
                    r.row + j / r.w,
                    r.col + j % r.w,
                )];
            assert(least(s, cols, r, cap, k) == s[cell(cols, r.row + j / r.w, r.col + j % r.w)]);
        }
    }
}

/// `n` times `x`.
pub fn repeat<T: Copy>(x: T, n: usize) -> (r: Vec<T>)
    ensures
        r@ == Seq::new(n as nat, |i: int| x),
{
    let mut r: Vec<T> = Vec::new();
    let mut i: usize = 0;
    while i < n
        invariant
            i <= n,
            r@ == Seq::new(i as nat, |k: int| x),
        decreases n - i,
    {
        r.push(x);
        i += 1;
        assert(r@ =~= Seq::new(i as nat, |k: int| x));
    }
    r
}

/// The cells of a rectangle, row by row.
pub open spec fn cut<T>(s: Seq<T>, cols: int, r: Rect) -> Seq<T> {
    Seq::new((r.h * r.w) as nat, |i: int| s[cell(cols, r.row + i / r.w, r.col + i % r.w)])
}

/// The grid `s` with the cells of `part`, row by row, in `r`.
pub open spec fn pasted<T>(s: Seq<T>, cols: int, r: Rect, part: Seq<T>) -> Seq<T> {
    s.map(
        |i: int, x: T|
            if inside(i, cols, r) {
                part[cell(r.w, i / cols - r.row, i % cols - r.col)]
            } else {
                x
            },
    )
}

/// The cells of a rectangle, row by row.
pub fn take<T: Copy>(
    v: &Vec<T>,
    rows: usize,
    cols: usize,
    row: usize,
    col: usize,
    w: usize,
    h: usize,
) -> (out: Vec<T>)
    requires
        v@.len() == rows * cols,
        fits((Rect { row: row as int, col: col as int, w: w as int, h: h as int }), rows as int, cols as int),
    ensures
        out@ == cut(
            v@,
            cols as int,
            (Rect { row: row as int, col: col as int, w: w as int, h: h as int }),
        ),
{
    let ghost r = Rect { row: row as int, col: col as int, w: w as int, h: h as int };
    let ghost goal = cut(v@, cols as int, r);
    let _len: usize = v.len();
    let mut out: Vec<T> = Vec::new();
    assert(0 * w == 0);
    let mut y: usize = 0;
    while y < h
        invariant
            y <= h,
            r == (Rect { row: row as int, col: col as int, w: w as int, h: h as int }),
            fits(r, rows as int, cols as int),
            v@.len() == rows * cols,
            rows * cols <= usize::MAX,
            goal == cut(v@, cols as int, r),
            y * w <= h * w,
            out@ =~= goal.take(y * w),
        decreases h - y,
    {
        assert((y + 1) * w <= h * w && (y + 1) * w == y * w + w && 0 <= y * w) by (nonlinear_arith)
            requires
                y + 1 <= h,
                0 <= w,
        ;
        let mut k: usize = 0;
        while k < w
            invariant
                k <= w,
                y < h,
                r == (Rect { row: row as int, col: col as int, w: w as int, h: h as int }),
                fits(r, rows as int, cols as int),
                v@.len() == rows * cols,
                rows * cols <= usize::MAX,
                goal == cut(v@, cols as int, r),
                y * w + w <= h * w,
                0 <= y * w,
                out@ =~= goal.take(y * w + k),
            decreases w - k,
        {
            let at: usize = index(rows, cols, row + y, col + k);
            proof {
                let i = y * w + k;
                lemma_fundamental_div_mod_converse(i, w as int, y as int, k as int);
                assert(goal.take(i + 1) =~= goal.take(i).push(goal[i]));
            }
            out.push(v[at]);
            k = k + 1;
        }
        y = y + 1;
    }
    assert(goal.take(h * w) =~= goal);
    out
}

/// Puts cells back into a rectangle, row by row.
pub fn paste<T: Copy>(
    v: &mut Vec<T>,
    part: &Vec<T>,
    rows: usize,
    cols: usize,
    row: usize,
    col: usize,
    w: usize,
    h: usize,
)
    requires
        old(v)@.len() == rows * cols,
        part@.len() == h * w,
        fits((Rect { row: row as int, col: col as int, w: w as int, h: h as int }), rows as int, cols as int),
    ensures
        final(v)@ == pasted(
            old(v)@,
            cols as int,
            (Rect { row: row as int, col: col as int, w: w as int, h: h as int }),
            part@,
        ),
{
    let ghost r = Rect { row: row as int, col: col as int, w: w as int, h: h as int };
    let ghost s = v@;
    let ghost n = cols as int;
    let ghost goal = pasted(s, n, r, part@);
    let len: usize = v.len();
    let plen: usize = part.len();
    let mut y: usize = 0;
    while y < h
        invariant
            y <= h,
            r == (Rect { row: row as int, col: col as int, w: w as int, h: h as int }),
            n == cols,
            fits(r, rows as int, n),
            len == rows * cols,
            v@.len() == len,
            s.len() == len,
            plen == part@.len(),
            plen == h * w,
            goal == pasted(s, n, r, part@),
            forall|i: int|
                0 <= i < len ==> v@[i] == (if before(i, n, r, y as int, 0) {
                    goal[i]
                } else {
                    s[i]
                }),
        decreases h - y,
    {
        let mut k: usize = 0;
        while k < w
            invariant
                k <= w,
                y < h,
                r == (Rect { row: row as int, col: col as int, w: w as int, h: h as int }),
                n == cols,
                fits(r, rows as int, n),
                len == rows * cols,
                v@.len() == len,
                s.len() == len,
                plen == part@.len(),
                plen == h * w,
                goal == pasted(s, n, r, part@),
                forall|i: int|
                    0 <= i < len ==> v@[i] == (if before(i, n, r, y as int, k as int) {
                        goal[i]
                    } else {
                        s[i]
                    }),
            decreases w - k,
        {
            let at: usize = index(rows, cols, row + y, col + k);
            let from: usize = index(h, w, y, k);
            proof {
                lemma_cell(rows as int, n, row + y, col + k);
                assert forall|i: int| 0 <= i < len && i != at implies before(
                    i,
                    n,
                    r,
                    y as int,
                    k as int,
                ) == before(i, n, r, y as int, k + 1) by {
                    lemma_fundamental_div_mod(i, n);
                    lemma_mul_is_commutative(n, i / n);
                }
            }
            let x: T = part[from];
            v.set(at, x);
            k = k + 1;
        }
        y = y + 1;
        assert forall|i: int| 0 <= i < len implies before(i, n, r, y - 1, w as int) == before(
            i,
            n,
            r,
            y as int,
            0,
        ) by {}
    }
    assert forall|i: int| 0 <= i < len implies before(i, n, r, h as int, 0) == inside(i, n, r) by {}
    assert(v@ =~= goal);
}

/// Putting the cells of a rectangle back undoes every change within it.
pub proof fn law_paste_undoes<T>(s: Seq<T>, t: Seq<T>, rows: int, cols: int, r: Rect)
    requires
        s.len() == rows * cols,
        t.len() == s.len(),
        fits(r, rows, cols),
        0 < cols,
        forall|i: int| 0 <= i < s.len() && !inside(i, cols, r) ==> #[trigger] t[i] == s[i],
    ensures
        pasted(t, cols, r, cut(s, cols, r)) == s,
{
    let part = cut(s, cols, r);
    assert forall|i: int| 0 <= i < s.len() implies #[trigger] pasted(t, cols, r, part)[i]
        == s[i] by {
        if inside(i, cols, r) {
            let (y, x) = (i / cols - r.row, i % cols - r.col);
            lemma_cell(r.h, r.w, y, x);
            lemma_mul_is_commutative(r.h, r.w);
            lemma_fundamental_div_mod(i, cols);
            lemma_mul_is_commutative(cols, i / cols);
        }
    }
    assert(pasted(t, cols, r, part) =~= s);
}

} // verus!
