//! Gaussian elimination over GF(3).
//!
//! Solves `A·x = b (mod 3)` for the free trit variables of a Reed-Solomon
//! parity-check system. All arithmetic is modulo 3: addition `(a + b) % 3`,
//! negation `(3 - a) % 3`, multiplication `(a · b) % 3`; both nonzero elements
//! are their own inverses.
use vstd::prelude::*;
use crate::modular::{
    cong3, entry3, row_dot, lemma_cong3_add, lemma_cong3_mul, lemma_cong3_refl, lemma_cong3_symm,
    lemma_cong3_trans, lemma_mod_cong3, lemma_small_cong3, lemma_index_bound, lemma_index_row_col,
    lemma_dot_ext, lemma_dot_lincomb, lemma_dot_split, lemma_dot_update_zero, lemma_dot_zero,
};

verus! {

/// A dense matrix over GF(3) stored in row-major order.
#[derive(Debug, Clone, PartialEq, Eq)]
pub struct Gf3Matrix {
    pub rows: usize,
    pub cols: usize,
    /// Flat row-major storage; entries are read modulo 3.
    pub data: Vec<u8>,
}

/// The trit values of `s` as integers.
pub open spec fn to_ints(s: Seq<u8>) -> Seq<int> {
    Seq::new(s.len(), |i: int| s[i] as int)
}

impl Gf3Matrix {
    /// The storage holds exactly one entry per cell.
    pub open spec fn wf(&self) -> bool {
        &&& self.data@.len() == self.rows * self.cols
        &&& self.rows * self.cols <= usize::MAX
    }

    /// Entry `(r, c)` as an element of GF(3).
    pub open spec fn entry(&self, r: int, c: int) -> int {
        entry3(self.data@, r * self.cols, c)
    }

    /// `Σ_c A[r][c] · x[c]` over the first `n` columns.
    pub open spec fn row_value(&self, r: int, x: Seq<int>, n: int) -> int {
        row_dot(self.data@, r * self.cols, x, 0, n)
    }

    /// Column `c` is zero in every row.
    pub open spec fn col_is_zero(&self, c: int) -> bool {
        forall|r: int| 0 <= r < self.rows ==> #[trigger] self.entry(r, c) == 0
    }

    /// `x` solves `A·x = b (mod 3)`.
    pub open spec fn solved_by(&self, b: Seq<u8>, x: Seq<int>) -> bool {
        &&& x.len() == self.cols
        &&& forall|r: int|
            0 <= r < self.rows ==> cong3(#[trigger] self.row_value(r, x, self.cols as int), b[r] as int)
    }

    /// Every stored entry is already reduced (0, 1 or 2).
    pub open spec fn reduced(&self) -> bool {
        forall|i: int| 0 <= i < self.data@.len() ==> #[trigger] self.data@[i] < 3
    }

    /// Create a zero matrix.
    pub fn zeros(rows: usize, cols: usize) -> (m: Self)
        requires
            rows * cols <= usize::MAX,
        ensures
            m.rows == rows,
            m.cols == cols,
            m.wf(),
            m.reduced(),
            forall|i: int| 0 <= i < m.data@.len() ==> m.data@[i] == 0,
    {
        Gf3Matrix { rows, cols, data: vec![0u8; rows * cols] }
    }

    /// Get the element at `(row, col)`.
    pub fn get(&self, row: usize, col: usize) -> (v: u8)
        requires
            row * self.cols + col < self.data@.len(),
        ensures
            v == self.data@[row * self.cols + col],
    {
        let _len = self.data.len();
        self.data[row * self.cols + col]
    }

    /// Set the element at `(row, col)` to `val mod 3`.
    pub fn set(&mut self, row: usize, col: usize, val: u8)
        requires
            row * old(self).cols + col < old(self).data@.len(),
        ensures
            final(self).rows == old(self).rows,
            final(self).cols == old(self).cols,
            final(self).data@ == old(self).data@.update(row * old(self).cols + col, val % 3),
    {
        let _len = self.data.len();
        let idx = row * self.cols + col;
        self.data.set(idx, val % 3);
    }

    /// Swap two rows.
    pub fn swap_rows(&mut self, r1: usize, r2: usize)
        requires
            old(self).wf(),
            r1 == r2 || (r1 < old(self).rows && r2 < old(self).rows),
        ensures
            final(self).rows == old(self).rows,
            final(self).cols == old(self).cols,
            final(self).wf(),
            old(self).reduced() ==> final(self).reduced(),
            forall|r: int, c: int|
                0 <= r < old(self).rows && 0 <= c < old(self).cols ==> #[trigger] final(self).data@[r
                    * old(self).cols + c] == old(self).data@[(if r == r1 {
                    r2 as int
                } else if r == r2 {
                    r1 as int
                } else {
                    r
                }) * old(self).cols + c],
    {
        if r1 == r2 || self.cols == 0 {
            return;
        }
        let ghost d0 = self.data@;
        let w = self.cols;
        proof {
            lemma_index_bound(r1 as int, 0, self.rows as int, w as int);
            lemma_index_bound(r2 as int, 0, self.rows as int, w as int);
        }
        let start1 = r1 * w;
        let start2 = r2 * w;
        let mut c: usize = 0;
        while c < w
            invariant
                self.rows == old(self).rows,
                self.cols == w,
                self.data@.len() == d0.len(),
                d0 == old(self).data@,
                old(self).wf(),
                w == old(self).cols,
                r1 < self.rows,
                r2 < self.rows,
                r1 != r2,
                start1 == r1 * w,
                start2 == r2 * w,
                0 <= c <= w,
                old(self).reduced() ==> self.reduced(),
                forall|r: int, cc: int|
                    0 <= r < self.rows && 0 <= cc < w ==> #[trigger] self.data@[r * w + cc] == d0[(
                    if (r == r1 || r == r2) && cc < c {
                        if r == r1 {
                            r2 as int
                        } else {
                            r1 as int
                        }
                    } else {
                        r
                    }) * w + cc],
            decreases w - c,
        {
            proof {
                lemma_index_bound(r1 as int, c as int, self.rows as int, w as int);
                lemma_index_bound(r2 as int, c as int, self.rows as int, w as int);
            }
            let i = start1 + c;
            let j = start2 + c;
            let t = self.data[i];
            let u = self.data[j];
            self.data.set(i, u);
            self.data.set(j, t);
            proof {
                assert forall|r: int, cc: int| 0 <= r < self.rows && 0 <= cc < w implies #[trigger] self.data@[r * w + cc] == d0[(
                    if (r == r1 || r == r2) && cc < c + 1 {
                        if r == r1 {
                            r2 as int
                        } else {
                            r1 as int
                        }
                    } else {
                        r
                    }) * w + cc] by {
                    lemma_index_bound(r, cc, self.rows as int, w as int);
                    lemma_index_row_col(r, cc, w as int);
                    lemma_index_row_col(r1 as int, c as int, w as int);
                    lemma_index_row_col(r2 as int, c as int, w as int);
                }
            }
            c = c + 1;
        }
    }
}

/// GF(3) addition.
pub fn gf3_add(a: u8, b: u8) -> (r: u8)
    requires
        a + b <= 255,
    ensures
        r == (a + b) % 3,
{
    (a + b) % 3
}

/// GF(3) subtraction.
pub fn gf3_sub(a: u8, b: u8) -> (r: u8)
    requires
        b <= a + 3 <= 255,
    ensures
        r == (a + 3 - b) % 3,
{
    (a + 3 - b) % 3
}

/// GF(3) multiplication.
pub fn gf3_mul(a: u8, b: u8) -> (r: u8)
    requires
        a * b <= 255,
    ensures
        r == (a * b) % 3,
{
    (a * b) % 3
}

/// GF(3) inverse: both nonzero elements are their own inverse.
pub fn gf3_inv(a: u8) -> (r: u8)
    requires
        a == 1 || a == 2,
    ensures
        r == a,
        (a * r) % 3 == 1,
{
    a
}

/// GF(3) negation.
pub fn gf3_neg(a: u8) -> (r: u8)
    requires
        a <= 3,
    ensures
        r == (3 - a) % 3,
{
    (3 - a) % 3
}


/// `x` solves the augmented system `[M | rhs]` whose last column holds the
/// right-hand side.
pub open spec fn aug_solved(aug: Gf3Matrix, x: Seq<int>) -> bool {
    forall|r: int|
        0 <= r < aug.rows ==> cong3(
            #[trigger] aug.row_value(r, x, aug.cols - 1),
            aug.entry(r, aug.cols - 1),
        )
}

/// Build `[A | b]` with every entry reduced modulo 3.
fn build_augmented(a: &Gf3Matrix, b: &[u8]) -> (aug: Gf3Matrix)
    requires
        a.wf(),
        b@.len() == a.rows,
        a.cols < usize::MAX,
        a.rows * (a.cols + 1) <= usize::MAX,
    ensures
        aug.wf(),
        aug.reduced(),
        aug.rows == a.rows,
        aug.cols == a.cols + 1,
        forall|r: int, c: int|
            0 <= r < a.rows && 0 <= c < a.cols ==> #[trigger] aug.entry(r, c) == a.entry(r, c),
        forall|r: int| 0 <= r < a.rows ==> #[trigger] aug.entry(r, a.cols as int) == (b@[r] % 3) as int,
{
    let m = a.rows;
    let n = a.cols;
    let w = n + 1;
    let mut data: Vec<u8> = Vec::with_capacity(m * w);
    let mut r: usize = 0;
    while r < m
        invariant
            a.wf(),
            m == a.rows,
            n == a.cols,
            w == n + 1,
            m * w <= usize::MAX,
            b@.len() == m,
            0 <= r <= m,
            data@.len() == r * w,
            forall|rr: int, cc: int|
                0 <= rr < r && 0 <= cc < w ==> #[trigger] data@[rr * w + cc] == (if cc < n {
                    a.data@[rr * n + cc] % 3
                } else {
                    b@[rr] % 3
                }),
        decreases m - r,
    {
        let ghost d_row_start = data@;
        let mut c: usize = 0;
        while c < n
            invariant
                a.wf(),
                m == a.rows,
                n == a.cols,
                w == n + 1,
                m * w <= usize::MAX,
                b@.len() == m,
                0 <= r < m,
                0 <= c <= n,
                data@.len() == r * w + c,
                d_row_start.len() == r * w,
                forall|i: int| 0 <= i < r * w ==> #[trigger] data@[i] == d_row_start[i],
                forall|cc: int| 0 <= cc < c ==> #[trigger] data@[r * w + cc] == a.data@[r * n + cc] % 3,
            decreases n - c,
        {
            proof {
                lemma_index_bound(r as int, c as int, m as int, n as int);
                lemma_index_bound(r as int, c as int, m as int, w as int);
            }
            let v = a.get(r, c);
            data.push(v % 3);
            c = c + 1;
        }
        proof {
            lemma_index_bound(r as int, n as int, m as int, w as int);
        }
        data.push(b[r] % 3);
        proof {
            assert forall|rr: int, cc: int|
                0 <= rr < r + 1 && 0 <= cc < w implies #[trigger] data@[rr * w + cc] == (if cc < n {
                    a.data@[rr * n + cc] % 3
                } else {
                    b@[rr] % 3
                }) by {
                lemma_index_bound(rr, cc, r + 1, w as int);
                if rr < r {
                    lemma_index_bound(rr, cc, r as int, w as int);
                    assert(data@[rr * w + cc] == d_row_start[rr * w + cc]);
                }
            }
            assert((r + 1) * w == r * w + w) by (nonlinear_arith);
        }
        r = r + 1;
    }
    let aug = Gf3Matrix { rows: m, cols: w, data };
    proof {
        assert forall|i: int| 0 <= i < aug.data@.len() implies #[trigger] aug.data@[i] < 3 by {
            vstd::arithmetic::div_mod::lemma_fundamental_div_mod(i, w as int);
            let rr = i / (w as int);
            let cc = i % (w as int);
            assert(i == rr * w + cc) by (nonlinear_arith)
                requires
                    i == (w as int) * (i / (w as int)) + i % (w as int),
                    rr == i / (w as int),
                    cc == i % (w as int),
            ;
            assert(0 <= cc < w);
            assert(0 <= rr < m) by (nonlinear_arith)
                requires
                    i == rr * w + cc,
                    0 <= cc < w,
                    0 <= i < m * w,
                    w > 0,
            ;
            assert(data@[rr * w + cc] < 3);
        }
    }
    aug
}


/// The first row at or below `from` whose entry in column `col` is nonzero.
fn find_pivot(aug: &Gf3Matrix, from: usize, col: usize) -> (res: Option<usize>)
    requires
        aug.wf(),
        from <= aug.rows,
        col < aug.cols,
    ensures
        match res {
            Some(s) => {
                &&& from <= s < aug.rows
                &&& aug.entry(s as int, col as int) != 0
                &&& forall|r: int| from <= r < s ==> #[trigger] aug.entry(r, col as int) == 0
            },
            None => forall|r: int| from <= r < aug.rows ==> #[trigger] aug.entry(r, col as int) == 0,
        },
{
    let mut r = from;
    while r < aug.rows
        invariant
            aug.wf(),
            from <= r <= aug.rows,
            col < aug.cols,
            forall|rr: int| from <= rr < r ==> #[trigger] aug.entry(rr, col as int) == 0,
        decreases aug.rows - r,
    {
        proof {
            lemma_index_bound(r as int, col as int, aug.rows as int, aug.cols as int);
        }
        if aug.get(r, col) % 3 != 0 {
            return Some(r);
        }
        r = r + 1;
    }
    None
}

/// Scale row `p` so that its entry in column `pc` becomes 1.
fn normalize_row(aug: &mut Gf3Matrix, p: usize, pc: usize)
    requires
        old(aug).wf(),
        old(aug).reduced(),
        p < old(aug).rows,
        pc < old(aug).cols,
        old(aug).entry(p as int, pc as int) != 0,
        forall|c: int| 0 <= c < pc ==> #[trigger] old(aug).entry(p as int, c) == 0,
    ensures
        final(aug).wf(),
        final(aug).reduced(),
        final(aug).rows == old(aug).rows,
        final(aug).cols == old(aug).cols,
        forall|r: int, c: int|
            0 <= r < old(aug).rows && r != p && 0 <= c < old(aug).cols ==> #[trigger] final(aug).entry(r, c)
                == old(aug).entry(r, c),
        forall|c: int|
            0 <= c < old(aug).cols ==> cong3(
                #[trigger] final(aug).entry(p as int, c),
                old(aug).entry(p as int, pc as int) * old(aug).entry(p as int, c),
            ),
        forall|c: int|
            0 <= c < old(aug).cols && old(aug).entry(p as int, c) == 0 ==> #[trigger] final(aug).entry(
                p as int,
                c,
            ) == 0,
        final(aug).entry(p as int, pc as int) == 1,
{
    let w = aug.cols;
    let ghost d0 = aug.data@;
    proof {
        lemma_index_bound(p as int, pc as int, aug.rows as int, w as int);
    }
    let v = aug.get(p, pc);
    let inv = gf3_inv(v);
    let mut c = pc;
    while c < w
        invariant
            aug.wf(),
            aug.reduced(),
            aug.rows == old(aug).rows,
            aug.cols == w,
            d0 == old(aug).data@,
            old(aug).wf(),
            p < aug.rows,
            pc <= c <= w,
            v == d0[p * w + pc],
            v == 1 || v == 2,
            inv == v,
            forall|r: int, cc: int|
                0 <= r < aug.rows && 0 <= cc < w ==> #[trigger] aug.data@[r * w + cc] as int == (if r == p
                    && pc <= cc < c {
                    (d0[r * w + cc] * v) % 3
                } else {
                    d0[r * w + cc] as int
                }),
        decreases w - c,
    {
        proof {
            lemma_index_bound(p as int, c as int, aug.rows as int, w as int);
        }
        let x = aug.get(p, c);
        let nv = gf3_mul(x, inv);
        aug.set(p, c, nv);
        proof {
            assert forall|r: int, cc: int| 0 <= r < aug.rows && 0 <= cc < w implies #[trigger] aug.data@[r * w + cc] as int
                == (if r == p && pc <= cc < c + 1 {
                (d0[r * w + cc] * v) % 3
            } else {
                d0[r * w + cc] as int
            }) by {
                lemma_index_bound(r, cc, aug.rows as int, w as int);
                lemma_index_row_col(r, cc, w as int);
                lemma_index_row_col(p as int, c as int, w as int);
            }
            assert forall|i: int| 0 <= i < aug.data@.len() implies #[trigger] aug.data@[i] < 3 by {
                if i != p * w + c {
                    assert(aug.data@[i] == old(aug).data@[i] || aug.data@[i] < 3);
                }
            }
        }
        c = c + 1;
    }
    proof {
        assert forall|r: int, c: int|
            0 <= r < old(aug).rows && r != p && 0 <= c < w implies #[trigger] aug.entry(r, c)
                == old(aug).entry(r, c) by {
            assert(aug.data@[r * w + c] == d0[r * w + c]);
        }
        assert forall|c: int| 0 <= c < w implies cong3(
            #[trigger] aug.entry(p as int, c),
            old(aug).entry(p as int, pc as int) * old(aug).entry(p as int, c),
        ) by {
            lemma_index_bound(p as int, c, aug.rows as int, w as int);
            let o = d0[p * w + c];
            assert(o < 3);
            assert(aug.data@[p * w + c] as int == (if pc <= c { (o * v) % 3 } else { o as int }));
            if c < pc {
                assert(old(aug).entry(p as int, c) == 0);
                assert(o % 3 == 0);
                assert(o == 0);
            }
            lemma_mod_cong3((o * v) as int);
            assert((o * v) as int == (v as int) * (o as int)) by (nonlinear_arith);
        }
        assert(aug.data@[p * w + pc] == (v * v) % 3);
        assert((v * v) % 3 == 1) by (nonlinear_arith)
            requires
                v == 1 || v == 2,
        ;
    }
}

/// Subtract `f` times row `p` from row `r`, where `f` is row `r`'s entry in
/// column `pc` and row `p` has a 1 there, so that entry becomes 0.
fn eliminate_row(aug: &mut Gf3Matrix, r: usize, p: usize, pc: usize)
    requires
        old(aug).wf(),
        old(aug).reduced(),
        r < old(aug).rows,
        p < old(aug).rows,
        r != p,
        pc < old(aug).cols,
        old(aug).entry(p as int, pc as int) == 1,
        forall|c: int| 0 <= c < pc ==> #[trigger] old(aug).entry(p as int, c) == 0,
    ensures
        final(aug).wf(),
        final(aug).reduced(),
        final(aug).rows == old(aug).rows,
        final(aug).cols == old(aug).cols,
        forall|rr: int, c: int|
            0 <= rr < old(aug).rows && rr != r && 0 <= c < old(aug).cols ==> #[trigger] final(aug).entry(
                rr,
                c,
            ) == old(aug).entry(rr, c),
        forall|c: int|
            0 <= c < old(aug).cols ==> cong3(
                #[trigger] final(aug).entry(r as int, c),
                old(aug).entry(r as int, c) - old(aug).entry(r as int, pc as int) * old(aug).entry(
                    p as int,
                    c,
                ),
            ),
        forall|c: int| 0 <= c < pc ==> #[trigger] final(aug).entry(r as int, c) == old(aug).entry(r as int, c),
        forall|c: int|
            0 <= c < old(aug).cols && old(aug).entry(r as int, c) == 0 && old(aug).entry(p as int, c)
                == 0 ==> #[trigger] final(aug).entry(r as int, c) == 0,
        final(aug).entry(r as int, pc as int) == 0,
{
    let w = aug.cols;
    let ghost d0 = aug.data@;
    proof {
        lemma_index_bound(r as int, pc as int, aug.rows as int, w as int);
        lemma_index_bound(p as int, pc as int, aug.rows as int, w as int);
    }
    let f = aug.get(r, pc);
    if f != 0 {
        let mut c = pc;
        while c < w
            invariant
                aug.wf(),
                aug.reduced(),
                aug.rows == old(aug).rows,
                aug.cols == w,
                d0 == old(aug).data@,
                old(aug).wf(),
                old(aug).reduced(),
                r < aug.rows,
                p < aug.rows,
                r != p,
                pc <= c <= w,
                f == d0[r * w + pc],
                f < 3,
                forall|rr: int, cc: int|
                    0 <= rr < aug.rows && 0 <= cc < w ==> #[trigger] aug.data@[rr * w + cc] as int == (if rr
                        == r && pc <= cc < c {
                        (d0[rr * w + cc] + 3 - (f * d0[p * w + cc]) % 3) % 3
                    } else {
                        d0[rr * w + cc] as int
                    }),
            decreases w - c,
        {
            proof {
                lemma_index_bound(r as int, c as int, aug.rows as int, w as int);
                lemma_index_bound(p as int, c as int, aug.rows as int, w as int);
                lemma_index_row_col(r as int, c as int, w as int);
                lemma_index_row_col(p as int, c as int, w as int);
                assert(aug.data@[p * w + c] == d0[p * w + c]);
                assert(aug.data@[r * w + c] == d0[r * w + c]);
                assert(aug.data@[p * w + c] < 3);
                assert(aug.data@[r * w + c] < 3);
            }
            let x = aug.get(r, c);
            let y = aug.get(p, c);
            proof {
                assert(f * y <= 255) by (nonlinear_arith)
                    requires
                        f < 3,
                        y < 3,
                ;
            }
            let t = gf3_mul(f, y);
            let nv = gf3_sub(x, t);
            aug.set(r, c, nv);
            proof {
                assert forall|rr: int, cc: int| 0 <= rr < aug.rows && 0 <= cc < w implies #[trigger] aug.data@[rr
                    * w + cc] as int == (if rr == r && pc <= cc < c + 1 {
                    (d0[rr * w + cc] + 3 - (f * d0[p * w + cc]) % 3) % 3
                } else {
                    d0[rr * w + cc] as int
                }) by {
                    lemma_index_bound(rr, cc, aug.rows as int, w as int);
                    lemma_index_row_col(rr, cc, w as int);
                }
                assert forall|i: int| 0 <= i < aug.data@.len() implies #[trigger] aug.data@[i] < 3 by {
                    if i != r * w + c {
                        assert(aug.data@[i] == old(aug).data@[i] || aug.data@[i] < 3);
                    }
                }
            }
            c = c + 1;
        }
    }
    proof {
        assert forall|rr: int, c: int|
            0 <= rr < old(aug).rows && rr != r && 0 <= c < w implies #[trigger] aug.entry(rr, c)
                == old(aug).entry(rr, c) by {
            lemma_index_bound(rr, c, aug.rows as int, w as int);
        }
        assert forall|c: int| 0 <= c < w implies cong3(
            #[trigger] aug.entry(r as int, c),
            old(aug).entry(r as int, c) - old(aug).entry(r as int, pc as int) * old(aug).entry(
                p as int,
                c,
            ),
        ) && (c < pc ==> aug.entry(r as int, c) == old(aug).entry(r as int, c)) && (old(aug).entry(
            r as int,
            c,
        ) == 0 && old(aug).entry(p as int, c) == 0 ==> aug.entry(r as int, c) == 0) by {
            lemma_index_bound(r as int, c, aug.rows as int, w as int);
            lemma_index_bound(p as int, c, aug.rows as int, w as int);
            let o = d0[r * w + c] as int;
            let q = d0[p * w + c] as int;
            let ff = f as int;
            assert(0 <= o < 3 && 0 <= q < 3);
            assert(o % 3 == o && q % 3 == q);
            if c < pc {
                assert(old(aug).entry(p as int, c) == 0);
                assert(q == 0);
                assert(aug.data@[r * w + c] == d0[r * w + c]);
                assert(o - ff * q == o) by (nonlinear_arith) requires q == 0;
            } else if f == 0 {
                assert(aug.data@[r * w + c] == d0[r * w + c]);
                assert(o - ff * q == o) by (nonlinear_arith) requires ff == 0;
            } else {
                let nv = (o + 3 - (ff * q) % 3) % 3;
                assert(aug.data@[r * w + c] as int == nv);
                lemma_mod_cong3(ff * q);
                lemma_mod_cong3(o + 3 - (ff * q) % 3);
                assert(cong3(nv, o + 3 - (ff * q) % 3));
                lemma_cong3_refl(o + 3);
                lemma_cong3_symm((ff * q) % 3, ff * q);
                assert(cong3(o + 3 - (ff * q) % 3, o + 3 - ff * q)) by {
                    lemma_cong3_mul((ff * q) % 3, ff * q, -1);
                    lemma_cong3_add(o + 3, o + 3, (ff * q) % 3 * -1, ff * q * -1);
                }
                assert(cong3(o + 3 - ff * q, o - ff * q)) by {
                    assert((o + 3 - ff * q) - (o - ff * q) == 3);
                }
                lemma_cong3_trans(nv, o + 3 - (ff * q) % 3, o + 3 - ff * q);
                lemma_cong3_trans(nv, o + 3 - ff * q, o - ff * q);
                if o == 0 && q == 0 {
                    assert(ff * q == 0) by (nonlinear_arith) requires q == 0;
                }
            }
        }
        let o = d0[r * w + pc] as int;
        assert(aug.entry(r as int, pc as int) == 0) by {
            assert(cong3(aug.entry(r as int, pc as int), o - o * 1));
            lemma_small_cong3(aug.entry(r as int, pc as int), 0);
        }
    }
}


proof fn lemma_aug_init(a: Gf3Matrix, b: Seq<u8>, aug: Gf3Matrix, x: Seq<int>)
    requires
        b.len() == a.rows,
        aug.rows == a.rows,
        aug.cols == a.cols + 1,
        x.len() == a.cols,
        forall|r: int, c: int|
            0 <= r < a.rows && 0 <= c < a.cols ==> #[trigger] aug.entry(r, c) == a.entry(r, c),
        forall|r: int| 0 <= r < a.rows ==> #[trigger] aug.entry(r, a.cols as int) == (b[r] % 3) as int,
    ensures
        a.solved_by(b, x) <==> aug_solved(aug, x),
{
    let n = a.cols as int;
    assert forall|r: int| 0 <= r < a.rows implies (cong3(
        #[trigger] aug.row_value(r, x, aug.cols - 1),
        aug.entry(r, aug.cols - 1),
    ) <==> cong3(a.row_value(r, x, n), b[r] as int)) by {
        assert forall|c: int| 0 <= c < n implies #[trigger] entry3(aug.data@, r * aug.cols, c) == entry3(
            a.data@,
            r * a.cols,
            c,
        ) by {
            assert(aug.entry(r, c) == a.entry(r, c));
        }
        lemma_dot_ext(aug.data@, r * aug.cols, x, a.data@, r * a.cols, x, 0, n);
        let v = a.row_value(r, x, n);
        let bb = b[r] as int;
        assert(aug.entry(r, n) == bb % 3);
        lemma_mod_cong3(bb);
        if cong3(v, bb % 3) {
            lemma_cong3_trans(v, bb % 3, bb);
        }
        if cong3(v, bb) {
            lemma_cong3_symm(bb % 3, bb);
            lemma_cong3_trans(v, bb, bb % 3);
        }
    }
    if a.solved_by(b, x) {
        assert forall|r: int| 0 <= r < aug.rows implies cong3(
            #[trigger] aug.row_value(r, x, aug.cols - 1),
            aug.entry(r, aug.cols - 1),
        ) by {
            assert(cong3(a.row_value(r, x, n), b[r] as int));
        }
    }
    if aug_solved(aug, x) {
        assert forall|r: int| 0 <= r < a.rows implies cong3(
            #[trigger] a.row_value(r, x, a.cols as int),
            b[r] as int,
        ) by {
            assert(cong3(aug.row_value(r, x, aug.cols - 1), aug.entry(r, aug.cols - 1)));
        }
    }
}

/// Replacing row `r` by `row r − f · row p` (with `p ≠ r`) keeps the solution set.
proof fn lemma_combo_preserves(o: Gf3Matrix, nw: Gf3Matrix, r: int, p: int, f: int, x: Seq<int>)
    requires
        o.rows == nw.rows,
        o.cols == nw.cols,
        o.cols >= 1,
        0 <= r < o.rows,
        0 <= p < o.rows,
        r != p,
        forall|rr: int, c: int|
            0 <= rr < o.rows && rr != r && 0 <= c < o.cols ==> #[trigger] nw.entry(rr, c) == o.entry(rr, c),
        forall|c: int|
            0 <= c < o.cols ==> cong3(#[trigger] nw.entry(r, c), o.entry(r, c) - f * o.entry(p, c)),
    ensures
        aug_solved(nw, x) <==> aug_solved(o, x),
{
    let n = o.cols - 1;
    assert forall|rr: int| 0 <= rr < o.rows && rr != r implies #[trigger] nw.row_value(rr, x, n)
        == o.row_value(rr, x, n) && nw.entry(rr, n) == o.entry(rr, n) by {
        assert forall|c: int| 0 <= c < n implies #[trigger] entry3(nw.data@, rr * nw.cols, c) == entry3(
            o.data@,
            rr * o.cols,
            c,
        ) by {
            assert(nw.entry(rr, c) == o.entry(rr, c));
        }
        lemma_dot_ext(nw.data@, rr * nw.cols, x, o.data@, rr * o.cols, x, 0, n);
    }
    assert forall|c: int| 0 <= c < n implies cong3(
        #[trigger] entry3(nw.data@, r * nw.cols, c),
        1 * entry3(o.data@, r * o.cols, c) + (-f) * entry3(o.data@, p * o.cols, c),
    ) by {
        assert(cong3(nw.entry(r, c), o.entry(r, c) - f * o.entry(p, c)));
        assert(1 * o.entry(r, c) + (-f) * o.entry(p, c) == o.entry(r, c) - f * o.entry(p, c)) by (nonlinear_arith);
    }
    lemma_dot_lincomb(o.data@, r * o.cols, o.data@, p * o.cols, nw.data@, r * nw.cols, x, 0, n, 1, -f);
    let nr = nw.row_value(r, x, n);
    let orr = o.row_value(r, x, n);
    let op = o.row_value(p, x, n);
    let nb = nw.entry(r, n);
    let ob = o.entry(r, n);
    let pb = o.entry(p, n);
    assert(1 * orr + (-f) * op == orr - f * op) by (nonlinear_arith);
    assert(cong3(nr, orr - f * op));
    assert(cong3(nb, ob - f * pb));
    // Row p is untouched, so it holds in both systems or in neither.
    assert(nw.row_value(p, x, n) == op && nw.entry(p, n) == pb);
    if aug_solved(o, x) {
        assert(cong3(orr, ob));
        assert(cong3(op, pb));
        lemma_cong3_mul(op, pb, -f);
        lemma_cong3_add(orr, ob, op * (-f), pb * (-f));
        assert(orr + op * (-f) == orr - f * op) by (nonlinear_arith);
        assert(ob + pb * (-f) == ob - f * pb) by (nonlinear_arith);
        lemma_cong3_symm(nb, ob - f * pb);
        lemma_cong3_trans(nr, orr - f * op, ob - f * pb);
        lemma_cong3_trans(nr, ob - f * pb, nb);
        assert forall|rr: int| 0 <= rr < nw.rows implies cong3(
            #[trigger] nw.row_value(rr, x, nw.cols - 1),
            nw.entry(rr, nw.cols - 1),
        ) by {
            if rr != r {
                assert(cong3(o.row_value(rr, x, n), o.entry(rr, n)));
            }
        }
    }
    if aug_solved(nw, x) {
        assert(cong3(nr, nb));
        assert(cong3(nw.row_value(p, x, n), nw.entry(p, n)));
        assert(cong3(op, pb));
        // orr = nr + f·op ≡ nb + f·pb ≡ ob
        lemma_cong3_mul(op, pb, f);
        lemma_cong3_add(nr, nb, op * f, pb * f);
        lemma_cong3_symm(nr, orr - f * op);
        lemma_cong3_add(orr - f * op, nr, op * f, op * f);
        assert(orr - f * op + op * f == orr) by (nonlinear_arith);
        assert(cong3(orr, nr + op * f));
        lemma_cong3_trans(orr, nr + op * f, nb + pb * f);
        lemma_cong3_add(nb, ob - f * pb, pb * f, pb * f);
        assert(ob - f * pb + pb * f == ob) by (nonlinear_arith);
        lemma_cong3_trans(orr, nb + pb * f, ob);
        assert forall|rr: int| 0 <= rr < o.rows implies cong3(
            #[trigger] o.row_value(rr, x, o.cols - 1),
            o.entry(rr, o.cols - 1),
        ) by {
            if rr != r {
                assert(cong3(nw.row_value(rr, x, n), nw.entry(rr, n)));
            }
        }
    }
}

/// Multiplying row `p` by `v ∈ {1, 2}` keeps the solution set.
proof fn lemma_scale_preserves(o: Gf3Matrix, nw: Gf3Matrix, p: int, v: int, x: Seq<int>)
    requires
        o.rows == nw.rows,
        o.cols == nw.cols,
        o.cols >= 1,
        0 <= p < o.rows,
        v == 1 || v == 2,
        forall|rr: int, c: int|
            0 <= rr < o.rows && rr != p && 0 <= c < o.cols ==> #[trigger] nw.entry(rr, c) == o.entry(rr, c),
        forall|c: int| 0 <= c < o.cols ==> cong3(#[trigger] nw.entry(p, c), v * o.entry(p, c)),
    ensures
        aug_solved(nw, x) <==> aug_solved(o, x),
{
    let n = o.cols - 1;
    assert forall|rr: int| 0 <= rr < o.rows && rr != p implies #[trigger] nw.row_value(rr, x, n)
        == o.row_value(rr, x, n) && nw.entry(rr, n) == o.entry(rr, n) by {
        assert forall|c: int| 0 <= c < n implies #[trigger] entry3(nw.data@, rr * nw.cols, c) == entry3(
            o.data@,
            rr * o.cols,
            c,
        ) by {
            assert(nw.entry(rr, c) == o.entry(rr, c));
        }
        lemma_dot_ext(nw.data@, rr * nw.cols, x, o.data@, rr * o.cols, x, 0, n);
    }
    assert forall|c: int| 0 <= c < n implies cong3(
        #[trigger] entry3(nw.data@, p * nw.cols, c),
        v * entry3(o.data@, p * o.cols, c) + 0 * entry3(o.data@, p * o.cols, c),
    ) by {
        assert(cong3(nw.entry(p, c), v * o.entry(p, c)));
        assert(v * o.entry(p, c) + 0 * o.entry(p, c) == v * o.entry(p, c)) by (nonlinear_arith);
    }
    lemma_dot_lincomb(o.data@, p * o.cols, o.data@, p * o.cols, nw.data@, p * nw.cols, x, 0, n, v, 0);
    let np = nw.row_value(p, x, n);
    let op = o.row_value(p, x, n);
    let nb = nw.entry(p, n);
    let ob = o.entry(p, n);
    assert(v * op + 0 * op == v * op) by (nonlinear_arith);
    assert(cong3(np, v * op));
    assert(cong3(nb, v * ob));
    // v · v ≡ 1, so multiplying by v again undoes the scaling.
    assert(cong3(v * (v * op), op)) by {
        assert(v * (v * op) - op == (v * v - 1) * op) by (nonlinear_arith);
        assert((v * v - 1) * op == 3 * (((v * v - 1) / 3) * op)) by (nonlinear_arith)
            requires
                v == 1 || v == 2,
        ;
        vstd::arithmetic::div_mod::lemma_mod_multiples_basic(((v * v - 1) / 3) * op, 3);
        assert(3 * (((v * v - 1) / 3) * op) == (((v * v - 1) / 3) * op) * 3) by (nonlinear_arith);
    }
    assert(cong3(v * (v * ob), ob)) by {
        assert(v * (v * ob) - ob == (v * v - 1) * ob) by (nonlinear_arith);
        assert((v * v - 1) * ob == 3 * (((v * v - 1) / 3) * ob)) by (nonlinear_arith)
            requires
                v == 1 || v == 2,
        ;
        vstd::arithmetic::div_mod::lemma_mod_multiples_basic(((v * v - 1) / 3) * ob, 3);
        assert(3 * (((v * v - 1) / 3) * ob) == (((v * v - 1) / 3) * ob) * 3) by (nonlinear_arith);
    }
    if aug_solved(o, x) {
        assert(cong3(op, ob));
        lemma_cong3_mul(op, ob, v);
        lemma_cong3_symm(nb, v * ob);
        lemma_cong3_trans(np, v * op, v * ob);
        lemma_cong3_trans(np, v * ob, nb);
        assert forall|rr: int| 0 <= rr < nw.rows implies cong3(
            #[trigger] nw.row_value(rr, x, nw.cols - 1),
            nw.entry(rr, nw.cols - 1),
        ) by {
            if rr != p {
                assert(cong3(o.row_value(rr, x, n), o.entry(rr, n)));
            }
        }
    }
    if aug_solved(nw, x) {
        assert(cong3(np, nb));
        // v·np ≡ v·nb, and v·np ≡ v·v·op ≡ op, v·nb ≡ v·v·ob ≡ ob.
        lemma_cong3_mul(np, nb, v);
        lemma_cong3_mul(np, v * op, v);
        lemma_cong3_mul(nb, v * ob, v);
        lemma_cong3_symm(np * v, (v * op) * v);
        assert((v * op) * v == v * (v * op)) by (nonlinear_arith);
        assert((v * ob) * v == v * (v * ob)) by (nonlinear_arith);
        lemma_cong3_symm(v * (v * op), op);
        lemma_cong3_trans(op, v * (v * op), np * v);
        lemma_cong3_trans(op, np * v, nb * v);
        lemma_cong3_trans(op, nb * v, v * (v * ob));
        lemma_cong3_trans(op, v * (v * ob), ob);
        assert forall|rr: int| 0 <= rr < o.rows implies cong3(
            #[trigger] o.row_value(rr, x, o.cols - 1),
            o.entry(rr, o.cols - 1),
        ) by {
            if rr != p {
                assert(cong3(nw.row_value(rr, x, n), nw.entry(rr, n)));
            }
        }
    }
}

/// Exchanging two rows keeps the solution set.
proof fn lemma_swap_preserves(o: Gf3Matrix, nw: Gf3Matrix, r1: int, r2: int, x: Seq<int>)
    requires
        o.rows == nw.rows,
        o.cols == nw.cols,
        o.cols >= 1,
        0 <= r1 < o.rows,
        0 <= r2 < o.rows,
        forall|rr: int, c: int|
            0 <= rr < o.rows && 0 <= c < o.cols ==> #[trigger] nw.entry(rr, c) == o.entry(
                if rr == r1 {
                    r2
                } else if rr == r2 {
                    r1
                } else {
                    rr
                },
                c,
            ),
    ensures
        aug_solved(nw, x) <==> aug_solved(o, x),
{
    let n = o.cols - 1;
    assert forall|rr: int| 0 <= rr < o.rows implies #[trigger] nw.row_value(rr, x, n) == o.row_value(
        if rr == r1 {
            r2
        } else if rr == r2 {
            r1
        } else {
            rr
        },
        x,
        n,
    ) && nw.entry(rr, n) == o.entry(
        if rr == r1 {
            r2
        } else if rr == r2 {
            r1
        } else {
            rr
        },
        n,
    ) by {
        let s = if rr == r1 {
            r2
        } else if rr == r2 {
            r1
        } else {
            rr
        };
        assert forall|c: int| 0 <= c < n implies #[trigger] entry3(nw.data@, rr * nw.cols, c) == entry3(
            o.data@,
            s * o.cols,
            c,
        ) by {
            assert(nw.entry(rr, c) == o.entry(s, c));
        }
        lemma_dot_ext(nw.data@, rr * nw.cols, x, o.data@, s * o.cols, x, 0, n);
    }
    if aug_solved(o, x) {
        assert forall|rr: int| 0 <= rr < nw.rows implies cong3(
            #[trigger] nw.row_value(rr, x, nw.cols - 1),
            nw.entry(rr, nw.cols - 1),
        ) by {
            let s = if rr == r1 {
                r2
            } else if rr == r2 {
                r1
            } else {
                rr
            };
            assert(cong3(o.row_value(s, x, n), o.entry(s, n)));
        }
    }
    if aug_solved(nw, x) {
        assert forall|rr: int| 0 <= rr < o.rows implies cong3(
            #[trigger] o.row_value(rr, x, o.cols - 1),
            o.entry(rr, o.cols - 1),
        ) by {
            let s = if rr == r1 {
                r2
            } else if rr == r2 {
                r1
            } else {
                rr
            };
            assert(cong3(nw.row_value(s, x, n), nw.entry(s, n)));
        }
    }
}


/// Column `c` of `a` is a combination over GF(3) of the columns before it:
/// for some `λ`, `A[r][c] ≡ Σ_{j<c} λ_j · A[r][j]` in every row.
pub open spec fn in_span_before(a: Gf3Matrix, c: int) -> bool {
    exists|lam: Seq<int>|
        lam.len() == c && forall|r: int| 0 <= r < a.rows ==> cong3(#[trigger] a.row_value(r, lam, c), a.entry(r, c))
}

/// The dot product is additive in the vector.
proof fn lemma_dot_add(d: Seq<u8>, base: int, x: Seq<int>, y: Seq<int>, z: Seq<int>, lo: int, hi: int)
    requires
        forall|c: int| lo <= c < hi ==> #[trigger] z[c] == x[c] + y[c],
    ensures
        row_dot(d, base, z, lo, hi) == row_dot(d, base, x, lo, hi) + row_dot(d, base, y, lo, hi),
    decreases hi - lo,
{
    if hi > lo {
        lemma_dot_add(d, base, x, y, z, lo, hi - 1);
        let e = entry3(d, base, hi - 1);
        let c = hi - 1;
        assert(z[c] == x[c] + y[c]);
        assert(e * z[c] == e * x[c] + e * y[c]) by (nonlinear_arith)
            requires
                z[c] == x[c] + y[c],
        ;
    }
}

/// A dot product with a vector that is zero on the range is zero.
proof fn lemma_dot_zero_vec(d: Seq<u8>, base: int, x: Seq<int>, lo: int, hi: int)
    requires
        forall|c: int| lo <= c < hi ==> #[trigger] x[c] == 0,
    ensures
        row_dot(d, base, x, lo, hi) == 0,
    decreases hi - lo,
{
    if hi > lo {
        lemma_dot_zero_vec(d, base, x, lo, hi - 1);
        assert(x[hi - 1] == 0);
        assert(entry3(d, base, hi - 1) * x[hi - 1] == 0) by (nonlinear_arith)
            requires
                x[hi - 1] == 0,
        ;
    }
}

/// `y` with `y_j = λ_j` for `j < q`, `y_q = −1` and `0` after `q`: its dot
/// product with a row is `Σ_{j<q} λ_j·row_j − row_q`.
proof fn lemma_dot_span_vector(d: Seq<u8>, base: int, lam: Seq<int>, y: Seq<int>, q: int, n: int)
    requires
        0 <= q < n,
        lam.len() == q,
        y.len() == n,
        forall|j: int| 0 <= j < n ==> #[trigger] y[j] == (if j < q {
            lam[j]
        } else if j == q {
            -1
        } else {
            0
        }),
    ensures
        row_dot(d, base, y, 0, n) == row_dot(d, base, lam, 0, q) - entry3(d, base, q),
{
    lemma_dot_split(d, base, y, 0, q, n);
    lemma_dot_split(d, base, y, q, q + 1, n);
    lemma_dot_ext(d, base, y, d, base, lam, 0, q);
    lemma_dot_zero_vec(d, base, y, q + 1, n);
    assert(row_dot(d, base, y, q, q) == 0);
    assert(row_dot(d, base, y, q, q + 1) == entry3(d, base, q) * y[q]);
    assert(y[q] == -1);
    assert(entry3(d, base, q) * -1 == -entry3(d, base, q)) by (nonlinear_arith);
}

/// A column that leads a row of a reduced system equivalent to `A·x = b`
/// (zeros before it, 1 at it) is not a combination of the earlier columns
/// of `A`, when the system has a solution.
proof fn lemma_pivot_not_in_span(a: Gf3Matrix, b: Seq<u8>, aug: Gf3Matrix, x: Seq<int>, k: int, q: int)
    requires
        a.wf(),
        aug.wf(),
        aug.cols == a.cols + 1,
        0 <= k < aug.rows,
        0 <= q < a.cols,
        b.len() == a.rows,
        a.solved_by(b, x),
        forall|z: Seq<int>| z.len() == a.cols ==> (#[trigger] a.solved_by(b, z) <==> aug_solved(aug, z)),
        aug.entry(k, q) == 1,
        forall|c: int| 0 <= c < q ==> #[trigger] aug.entry(k, c) == 0,
    ensures
        !in_span_before(a, q),
{
    if in_span_before(a, q) {
        let n = a.cols as int;
        let lam = choose|lam: Seq<int>|
            lam.len() == q && forall|r: int| 0 <= r < a.rows ==> cong3(#[trigger] a.row_value(r, lam, q), a.entry(r, q));
        let y = Seq::new(n as nat, |j: int| if j < q {
            lam[j]
        } else if j == q {
            -1
        } else {
            0
        });
        let x2 = Seq::new(n as nat, |j: int| x[j] + y[j]);
        assert forall|r: int| 0 <= r < a.rows implies cong3(#[trigger] a.row_value(r, x2, n), b[r] as int) by {
            let base = r * a.cols;
            lemma_dot_add(a.data@, base, x, y, x2, 0, n);
            lemma_dot_span_vector(a.data@, base, lam, y, q, n);
            assert(cong3(a.row_value(r, lam, q), a.entry(r, q)));
            assert(cong3(a.row_value(r, x, n), b[r] as int));
            // x2·row = x·row + (λ·row − row_q) ≡ b_r + 0
            lemma_cong3_add(a.row_value(r, x, n), b[r] as int, a.row_value(r, lam, q) - a.entry(r, q), 0);
        }
        assert(a.solved_by(b, x2));
        assert(aug_solved(aug, x2));
        assert(aug_solved(aug, x));
        let base = k * aug.cols;
        lemma_dot_add(aug.data@, base, x, y, x2, 0, n);
        lemma_dot_split(aug.data@, base, y, 0, q, n);
        lemma_dot_split(aug.data@, base, y, q, q + 1, n);
        assert forall|c: int| 0 <= c < q implies #[trigger] entry3(aug.data@, base, c) == 0 by {
            assert(aug.entry(k, c) == 0);
        }
        lemma_dot_zero(aug.data@, base, y, 0, q);
        lemma_dot_zero_vec(aug.data@, base, y, q + 1, n);
        assert(entry3(aug.data@, base, q) == 1);
        assert(row_dot(aug.data@, base, y, q, q) == 0);
        assert(row_dot(aug.data@, base, y, q, q + 1) == entry3(aug.data@, base, q) * y[q]);
        assert(row_dot(aug.data@, base, y, 0, n) == -1);
        let v1 = aug.row_value(k, x, aug.cols - 1);
        let v2 = aug.row_value(k, x2, aug.cols - 1);
        assert(v2 == v1 - 1);
        let rhs = aug.entry(k, aug.cols - 1);
        assert(cong3(v1, rhs));
        assert(cong3(v2, rhs));
        lemma_cong3_symm(v2, rhs);
        lemma_cong3_trans(v1, rhs, v2);
        assert((v1 - v2) % 3 == 0);
        assert(v1 - v2 == 1);
        assert(false);
    }
}

/// Scaling the vector scales the dot product.
proof fn lemma_dot_scale(d: Seq<u8>, base: int, x: Seq<int>, z: Seq<int>, k: int, lo: int, hi: int)
    requires
        forall|c: int| lo <= c < hi ==> #[trigger] z[c] == k * x[c],
    ensures
        row_dot(d, base, z, lo, hi) == k * row_dot(d, base, x, lo, hi),
    decreases hi - lo,
{
    if hi > lo {
        lemma_dot_scale(d, base, x, z, k, lo, hi - 1);
        let c = hi - 1;
        let e = entry3(d, base, c);
        let r = row_dot(d, base, x, lo, c);
        assert(z[c] == k * x[c]);
        assert(k * r + e * (k * x[c]) == k * (r + e * x[c])) by (nonlinear_arith);
    }
}

/// The last index below `n` where `x1` and `x2` differ, when they differ.
pub(crate) proof fn lemma_last_difference(x1: Seq<int>, x2: Seq<int>, n: int) -> (c: int)
    requires
        exists|j: int| 0 <= j < n && x1[j] != x2[j],
    ensures
        0 <= c < n,
        x1[c] != x2[c],
        forall|j: int| c < j < n ==> x1[j] == x2[j],
    decreases n,
{
    if x1[n - 1] != x2[n - 1] {
        n - 1
    } else {
        let j0 = choose|j: int| 0 <= j < n && x1[j] != x2[j];
        assert(j0 < n - 1);
        lemma_last_difference(x1, x2, n - 1)
    }
}

/// A solution of `A·x = b` is fixed by its values at the columns that are
/// combinations of the columns before them: two solutions with entries in
/// `0..3` that agree there are equal. (So the free-column clause of the
/// solvers, together with `A·x = b`, determines their result.)
pub proof fn law_solution_fixed_by_span_columns(a: Gf3Matrix, b: Seq<u8>, x1: Seq<int>, x2: Seq<int>)
    requires
        a.wf(),
        b.len() == a.rows,
        a.solved_by(b, x1),
        a.solved_by(b, x2),
        forall|c: int| 0 <= c < a.cols ==> 0 <= #[trigger] x1[c] < 3 && 0 <= x2[c] < 3,
        forall|c: int| 0 <= c < a.cols && #[trigger] in_span_before(a, c) ==> x1[c] == x2[c],
    ensures
        x1 == x2,
{
    let n = a.cols as int;
    if exists|j: int| 0 <= j < n && x1[j] != x2[j] {
        let c = lemma_last_difference(x1, x2, n);
        let d = Seq::new(n as nat, |j: int| x1[j] - x2[j]);
        let s = d[c];
        assert(s == 1 || s == 2 || s == -1 || s == -2);
        let lam = Seq::new(c as nat, |j: int| -s * d[j]);
        assert forall|r: int| 0 <= r < a.rows implies cong3(#[trigger] a.row_value(r, lam, c), a.entry(r, c)) by {
            let base = r * a.cols;
            lemma_dot_add(a.data@, base, x2, d, x1, 0, n);
            lemma_dot_split(a.data@, base, d, 0, c, n);
            lemma_dot_split(a.data@, base, d, c, c + 1, n);
            assert(row_dot(a.data@, base, d, c, c) == 0);
            assert forall|j: int| c + 1 <= j < n implies #[trigger] d[j] == 0 by {
                assert(x1[j] == x2[j]);
            }
            lemma_dot_zero_vec(a.data@, base, d, c + 1, n);
            let e = entry3(a.data@, base, c);
            let dsum = row_dot(a.data@, base, d, 0, c);
            assert(row_dot(a.data@, base, d, 0, n) == dsum + e * s);
            let v1 = a.row_value(r, x1, n);
            let v2 = a.row_value(r, x2, n);
            assert(cong3(v1, b[r] as int));
            assert(cong3(v2, b[r] as int));
            assert(v1 == v2 + dsum + e * s);
            let t = dsum + e * s;
            assert(t % 3 == 0) by {
                lemma_cong3_symm(v2, b[r] as int);
                lemma_cong3_trans(v1, b[r] as int, v2);
            }
            lemma_dot_scale(a.data@, base, d, lam, -s, 0, c);
            assert(row_dot(a.data@, base, lam, 0, c) == -s * dsum);
            vstd::arithmetic::div_mod::lemma_fundamental_div_mod(t, 3);
            let q = t / 3;
            assert(-s * dsum - e == 3 * (-s * q + (if s == 1 || s == -1 { 0int } else { e }))) by (nonlinear_arith)
                requires
                    t == dsum + e * s,
                    t == 3 * q,
                    s == 1 || s == 2 || s == -1 || s == -2,
            ;
            vstd::arithmetic::div_mod::lemma_mod_multiples_basic(
                -s * q + (if s == 1 || s == -1 { 0int } else { e }),
                3,
            );
            assert(a.entry(r, c) == e);
        }
        assert(lam.len() == c);
        assert(lam.len() == c && forall|r: int|
            0 <= r < a.rows ==> cong3(#[trigger] a.row_value(r, lam, c), a.entry(r, c)));
        assert(in_span_before(a, c));
        assert(x1[c] == x2[c]);
    }
    assert(x1 =~= x2);
}

/// Solve `A·x = b` over GF(3) with per-variable target values.
///
/// Gauss-Jordan elimination with partial pivoting, scanning columns from the
/// left: the free (unpivoted) variables are those whose column is a
/// combination of the columns before it. Each free variable takes its value
/// from `targets` (modulo 3); each pivot variable is
/// then computed by back-substitution so that `A·x = b` holds. Returns `None`
/// exactly when the system has no solution.
pub fn solve_gf3_with_targets(a: &Gf3Matrix, b: &[u8], targets: &[u8]) -> (res: Option<Vec<u8>>)
    requires
        a.wf(),
        b@.len() == a.rows,
        targets@.len() == a.cols,
        a.cols < usize::MAX,
        a.rows * (a.cols + 1) <= usize::MAX,
    ensures
        match res {
            Some(x) => {
                &&& x@.len() == a.cols
                &&& forall|c: int| 0 <= c < x@.len() ==> #[trigger] x@[c] < 3
                &&& a.solved_by(b@, to_ints(x@))
                &&& exists|piv: Seq<int>|
                    {
                        &&& piv.len() <= a.rows
                        &&& forall|k: int|
                            0 <= k < piv.len() ==> 0 <= #[trigger] piv[k] < a.cols && !a.col_is_zero(
                                piv[k],
                            )
                        &&& forall|c: int|
                            0 <= c < a.cols && !piv.contains(c) ==> #[trigger] x@[c] == targets@[c] % 3
                    }
                &&& forall|c: int| 0 <= c < a.cols && #[trigger] in_span_before(*a, c) ==> x@[c] == targets@[c] % 3
            },
            None => forall|x: Seq<int>| x.len() == a.cols ==> !#[trigger] a.solved_by(b@, x),
        },
{
    let m = a.rows;
    let n = a.cols;
    let mut aug = build_augmented(a, b);
    let ghost w = (n + 1) as int;
    proof {
        assert forall|x: Seq<int>| x.len() == n implies (#[trigger] a.solved_by(b@, x) <==> aug_solved(aug, x)) by {
            lemma_aug_init(*a, b@, aug, x);
        }
        assert forall|c: int| 0 <= c < n && a.col_is_zero(c) implies forall|r: int|
            0 <= r < m ==> #[trigger] aug.entry(r, c) == 0 by {
            assert forall|r: int| 0 <= r < m implies #[trigger] aug.entry(r, c) == 0 by {
                assert(a.entry(r, c) == 0);
            }
        }
    }
    let mut pivot_col: usize = 0;
    let mut pivot_row: usize = 0;
    let mut pivots: Vec<usize> = Vec::new();
    while pivot_row < m && pivot_col < n
        invariant
            a.wf(),
            m == a.rows,
            n == a.cols,
            b@.len() == m,
            w == n + 1,
            aug.wf(),
            aug.reduced(),
            aug.rows == m,
            aug.cols == n + 1,
            pivot_row <= m,
            pivot_col <= n,
            pivot_row <= pivot_col,
            pivots@.len() == pivot_row,
            forall|k: int| 0 <= k < pivot_row ==> #[trigger] pivots@[k] < pivot_col,
            forall|k1: int, k2: int|
                0 <= k1 < k2 < pivot_row ==> #[trigger] pivots@[k1] < #[trigger] pivots@[k2],
            forall|k: int| 0 <= k < pivot_row ==> #[trigger] aug.entry(k, pivots@[k] as int) == 1,
            forall|k: int, c: int|
                0 <= k < pivot_row && 0 <= c < pivots@[k] ==> #[trigger] aug.entry(k, c) == 0,
            forall|r: int, c: int|
                pivot_row <= r < m && 0 <= c < pivot_col ==> #[trigger] aug.entry(r, c) == 0,
            forall|c: int, r: int|
                0 <= c < n && a.col_is_zero(c) && 0 <= r < m ==> #[trigger] aug.entry(r, c) == 0,
            forall|x: Seq<int>| x.len() == n ==> (#[trigger] a.solved_by(b@, x) <==> aug_solved(aug, x)),
        decreases (m - pivot_row) + (n - pivot_col),
    {
        let found = find_pivot(&aug, pivot_row, pivot_col);
        match found {
            None => {
                pivot_col = pivot_col + 1;
            },
            Some(swap_row) => {
                let ghost before_swap = aug;
                aug.swap_rows(pivot_row, swap_row);
                let ghost after_swap = aug;
                proof {
                    assert forall|rr: int, c: int| 0 <= rr < m && 0 <= c < n + 1 implies #[trigger] aug.entry(rr, c)
                        == before_swap.entry(
                        if rr == pivot_row {
                            swap_row as int
                        } else if rr == swap_row {
                            pivot_row as int
                        } else {
                            rr
                        },
                        c,
                    ) by {
                        let s = if rr == pivot_row {
                            swap_row as int
                        } else if rr == swap_row {
                            pivot_row as int
                        } else {
                            rr
                        };
                        assert(aug.data@[rr * (n + 1) + c] == before_swap.data@[s * (n + 1) + c]);
                    }
                    assert forall|x: Seq<int>| x.len() == n implies (#[trigger] a.solved_by(b@, x)
                        <==> aug_solved(aug, x)) by {
                        lemma_swap_preserves(before_swap, aug, pivot_row as int, swap_row as int, x);
                    }
                    // rows at or below the pivot row still start with zeros
                    assert forall|r: int, c: int|
                        pivot_row <= r < m && 0 <= c < pivot_col implies #[trigger] aug.entry(r, c) == 0 by {
                        let s = if r == pivot_row {
                            swap_row as int
                        } else if r == swap_row {
                            pivot_row as int
                        } else {
                            r
                        };
                        assert(aug.entry(r, c) == before_swap.entry(s, c));
                    }
                    assert forall|k: int| 0 <= k < pivot_row implies #[trigger] aug.entry(k, pivots@[k] as int)
                        == 1 by {
                        assert(aug.entry(k, pivots@[k] as int) == before_swap.entry(k, pivots@[k] as int));
                    }
                    assert forall|k: int, c: int|
                        0 <= k < pivot_row && 0 <= c < pivots@[k] implies #[trigger] aug.entry(k, c) == 0 by {
                        assert(aug.entry(k, c) == before_swap.entry(k, c));
                    }
                    assert forall|c: int, r: int|
                        0 <= c < n && a.col_is_zero(c) && 0 <= r < m implies #[trigger] aug.entry(r, c)
                        == 0 by {
                        let s = if r == pivot_row {
                            swap_row as int
                        } else if r == swap_row {
                            pivot_row as int
                        } else {
                            r
                        };
                        assert(aug.entry(r, c) == before_swap.entry(s, c));
                        assert(before_swap.entry(s, c) == 0);
                    }
                    assert(aug.entry(pivot_row as int, pivot_col as int) == before_swap.entry(
                        swap_row as int,
                        pivot_col as int,
                    ));
                }
                normalize_row(&mut aug, pivot_row, pivot_col);
                let ghost normalized = aug;
                proof {
                    let v = after_swap.entry(pivot_row as int, pivot_col as int);
                    assert(v == 1 || v == 2);
                    assert forall|x: Seq<int>| x.len() == n implies (#[trigger] a.solved_by(b@, x)
                        <==> aug_solved(aug, x)) by {
                        lemma_scale_preserves(after_swap, aug, pivot_row as int, v, x);
                    }
                    assert forall|c: int| 0 <= c < pivot_col implies #[trigger] aug.entry(
                        pivot_row as int,
                        c,
                    ) == 0 by {
                        assert(after_swap.entry(pivot_row as int, c) == 0);
                    }
                }
                let mut r: usize = 0;
                while r < m
                    invariant
                        a.wf(),
                        m == a.rows,
                        n == a.cols,
                        b@.len() == m,
                        aug.wf(),
                        aug.reduced(),
                        aug.rows == m,
                        aug.cols == n + 1,
                        pivot_row < m,
                        pivot_col < n,
                        pivot_row <= pivot_col,
                        0 <= r <= m,
                        pivots@.len() == pivot_row,
                        forall|k: int| 0 <= k < pivot_row ==> #[trigger] pivots@[k] < pivot_col,
                        normalized.rows == m,
                        normalized.cols == n + 1,
                        // the pivot row never changes here
                        forall|c: int| 0 <= c < n + 1 ==> #[trigger] aug.entry(pivot_row as int, c)
                            == normalized.entry(pivot_row as int, c),
                        normalized.entry(pivot_row as int, pivot_col as int) == 1,
                        forall|c: int| 0 <= c < pivot_col ==> #[trigger] normalized.entry(pivot_row as int, c) == 0,
                        // rows not yet visited are as after normalisation
                        forall|rr: int, c: int|
                            r <= rr < m && 0 <= c < n + 1 ==> #[trigger] aug.entry(rr, c) == normalized.entry(rr, c),
                        // visited rows keep their leading part and lose the pivot column
                        forall|rr: int, c: int|
                            0 <= rr < r && rr != pivot_row && 0 <= c < pivot_col ==> #[trigger] aug.entry(rr, c)
                                == normalized.entry(rr, c),
                        forall|rr: int| 0 <= rr < r && rr != pivot_row ==> #[trigger] aug.entry(rr, pivot_col as int) == 0,
                        forall|c: int, rr: int|
                            0 <= c < n && a.col_is_zero(c) && 0 <= rr < m ==> #[trigger] aug.entry(rr, c) == 0,
                        forall|x: Seq<int>| x.len() == n ==> (#[trigger] a.solved_by(b@, x) <==> aug_solved(aug, x)),
                    decreases m - r,
                {
                    if r != pivot_row {
                        let ghost before = aug;
                        proof {
                            assert forall|c: int| 0 <= c < pivot_col implies #[trigger] aug.entry(pivot_row as int, c) == 0 by {
                                assert(aug.entry(pivot_row as int, c) == normalized.entry(pivot_row as int, c));
                            }
                            assert(aug.entry(pivot_row as int, pivot_col as int) == 1);
                        }
                        eliminate_row(&mut aug, r, pivot_row, pivot_col);
                        proof {
                            let f = before.entry(r as int, pivot_col as int);
                            assert forall|x: Seq<int>| x.len() == n implies (#[trigger] a.solved_by(b@, x)
                                <==> aug_solved(aug, x)) by {
                                lemma_combo_preserves(before, aug, r as int, pivot_row as int, f, x);
                            }
                            assert forall|c: int, rr: int|
                                0 <= c < n && a.col_is_zero(c) && 0 <= rr < m implies #[trigger] aug.entry(rr, c)
                                == 0 by {
                                assert(before.entry(rr, c) == 0);
                                assert(before.entry(pivot_row as int, c) == 0);
                            }
                        }
                    }
                    r = r + 1;
                }
                proof {
                    let pr = pivot_row as int;
                    let pc = pivot_col as int;
                    // the pivot column is not a zero column of A
                    assert(aug.entry(pr, pc) == 1);
                    assert forall|k: int| 0 <= k < pr implies #[trigger] aug.entry(k, pivots@[k] as int) == 1 by {
                        assert(aug.entry(k, pivots@[k] as int) == normalized.entry(k, pivots@[k] as int));
                        assert(normalized.entry(k, pivots@[k] as int) == after_swap.entry(k, pivots@[k] as int));
                    }
                    assert forall|k: int, c: int|
                        0 <= k < pr && 0 <= c < pivots@[k] implies #[trigger] aug.entry(k, c) == 0 by {
                        assert(aug.entry(k, c) == normalized.entry(k, c));
                        assert(normalized.entry(k, c) == after_swap.entry(k, c));
                    }
                    assert forall|rr: int, c: int|
                        pr + 1 <= rr < m && 0 <= c < pc + 1 implies #[trigger] aug.entry(rr, c) == 0 by {
                        if c < pc {
                            assert(aug.entry(rr, c) == normalized.entry(rr, c));
                            assert(normalized.entry(rr, c) == after_swap.entry(rr, c));
                        }
                    }
                }
                pivots.push(pivot_col);
                proof {
                    let pr = pivot_row as int;
                    assert forall|k: int| 0 <= k < pr + 1 implies #[trigger] aug.entry(k, pivots@[k] as int) == 1 by {
                        if k == pr {
                            assert(pivots@[k] == pivot_col);
                        }
                    }
                    assert forall|k: int, c: int|
                        0 <= k < pr + 1 && 0 <= c < pivots@[k] implies #[trigger] aug.entry(k, c) == 0 by {
                        if k == pr {
                            assert(pivots@[k] == pivot_col);
                            assert(aug.entry(pr, c) == normalized.entry(pr, c));
                        }
                    }
                }
                pivot_row = pivot_row + 1;
                pivot_col = pivot_col + 1;
            },
        }
    }
    // Consistency check: an all-zero row with a nonzero right-hand side.
    let mut r: usize = 0;
    while r < m
        invariant
            aug.wf(),
            aug.reduced(),
            aug.rows == m,
            aug.cols == n + 1,
            m == a.rows,
            n == a.cols,
            a.wf(),
            b@.len() == m,
            0 <= r <= m,
            forall|x: Seq<int>| x.len() == n ==> (#[trigger] a.solved_by(b@, x) <==> aug_solved(aug, x)),
            forall|rr: int|
                0 <= rr < r ==> (exists|c: int| 0 <= c < n && #[trigger] aug.entry(rr, c) != 0) || aug.entry(rr, n as int) == 0,
        decreases m - r,
    {
        let mut all_zero = true;
        let mut c: usize = 0;
        while c < n
            invariant
                aug.wf(),
                aug.rows == m,
                aug.cols == n + 1,
                r < m,
                0 <= c <= n,
                all_zero <==> forall|cc: int| 0 <= cc < c ==> #[trigger] aug.entry(r as int, cc) == 0,
            decreases n - c,
        {
            proof {
                lemma_index_bound(r as int, c as int, m as int, (n + 1) as int);
            }
            if aug.get(r, c) % 3 != 0 {
                all_zero = false;
            }
            proof {
                assert(aug.entry(r as int, c as int) == (aug.data@[r * (n + 1) + c] % 3) as int);
            }
            c = c + 1;
        }
        proof {
            lemma_index_bound(r as int, n as int, m as int, (n + 1) as int);
        }
        if all_zero && aug.get(r, n) % 3 != 0 {
            proof {
                assert forall|x: Seq<int>| x.len() == n implies !#[trigger] a.solved_by(b@, x) by {
                    assert forall|cc: int| 0 <= cc < n implies #[trigger] entry3(aug.data@, r as int * aug.cols, cc) == 0 by {
                        assert(aug.entry(r as int, cc) == 0);
                    }
                    lemma_dot_zero(aug.data@, r as int * aug.cols, x, 0, n as int);
                    let rhs = aug.entry(r as int, n as int);
                    assert(rhs == 1 || rhs == 2);
                    if cong3(0, rhs) {
                        lemma_small_cong3(0, rhs);
                    }
                    assert(!cong3(aug.row_value(r as int, x, n as int), rhs));
                    assert(!cong3(aug.row_value(r as int, x, aug.cols - 1), aug.entry(r as int, aug.cols - 1)));
                    assert(!aug_solved(aug, x));
                }
            }
            return None;
        }
        r = r + 1;
    }
    // Back-substitution: free variables keep their targets.
    let mut x: Vec<u8> = Vec::with_capacity(n);
    let mut i: usize = 0;
    while i < n
        invariant
            0 <= i <= n,
            n == a.cols,
            targets@.len() == n,
            x@.len() == i,
            forall|c: int| 0 <= c < i ==> #[trigger] x@[c] == targets@[c] % 3,
        decreases n - i,
    {
        x.push(targets[i] % 3);
        i = i + 1;
    }
    let pr = pivot_row;
    let mut k = pr;
    while k > 0
        invariant
            aug.wf(),
            aug.reduced(),
            aug.rows == m,
            aug.cols == n + 1,
            m == a.rows,
            n == a.cols,
            targets@.len() == n,
            pr <= m,
            pr <= n,
            0 <= k <= pr,
            pivots@.len() == pr,
            x@.len() == n,
            forall|c: int| 0 <= c < n ==> #[trigger] x@[c] < 3,
            forall|kk: int| 0 <= kk < pr ==> #[trigger] pivots@[kk] < n,
            forall|k1: int, k2: int| 0 <= k1 < k2 < pr ==> #[trigger] pivots@[k1] < #[trigger] pivots@[k2],
            forall|kk: int| 0 <= kk < pr ==> #[trigger] aug.entry(kk, pivots@[kk] as int) == 1,
            forall|kk: int, c: int| 0 <= kk < pr && 0 <= c < pivots@[kk] ==> #[trigger] aug.entry(kk, c) == 0,
            forall|c: int|
                0 <= c < n && (forall|kk: int| 0 <= kk < pr ==> #[trigger] pivots@[kk] != c) ==> #[trigger] x@[c]
                    == targets@[c] % 3,
            forall|kk: int|
                k <= kk < pr ==> cong3(#[trigger] aug.row_value(kk, to_ints(x@), n as int), aug.entry(kk, n as int)),
        decreases k,
    {
        k = k - 1;
        let q = pivots[k];
        proof {
            lemma_index_bound(k as int, n as int, m as int, (n + 1) as int);
        }
        let mut val = aug.get(k, n);
        let mut c = q + 1;
        let ghost xi = to_ints(x@);
        while c < n
            invariant
                aug.wf(),
                aug.reduced(),
                aug.rows == m,
                aug.cols == n + 1,
                k < m,
                q < n,
                q + 1 <= c <= n,
                x@.len() == n,
                xi == to_ints(x@),
                forall|cc: int| 0 <= cc < n ==> #[trigger] x@[cc] < 3,
                val < 3,
                cong3(val as int, aug.entry(k as int, n as int) - row_dot(aug.data@, k * (n + 1), xi, q + 1, c as int)),
            decreases n - c,
        {
            proof {
                lemma_index_bound(k as int, c as int, m as int, (n + 1) as int);
                assert(aug.data@[k * (n + 1) + c] < 3);
                assert(x@[c as int] < 3);
            }
            let e = aug.get(k, c);
            let xv = x[c];
            proof {
                assert(e * xv <= 4) by (nonlinear_arith)
                    requires
                        e < 3,
                        xv < 3,
                ;
            }
            let t = gf3_mul(e, xv);
            let ghost old_val = val;
            val = gf3_sub(val, t);
            proof {
                let ee = entry3(aug.data@, k * (n + 1), c as int);
                assert(ee == e as int);
                assert(xi[c as int] == xv as int);
                let base = aug.entry(k as int, n as int);
                let before = row_dot(aug.data@, k * (n + 1), xi, q + 1, c as int);
                assert(row_dot(aug.data@, k * (n + 1), xi, q + 1, c + 1) == before + ee * (xv as int));
                lemma_mod_cong3((e * xv) as int);
                lemma_mod_cong3((old_val + 3 - t) as int);
                // val ≡ old_val - e·xv ≡ base - before - e·xv
                assert(cong3(val as int, old_val + 3 - t));
                assert(cong3(old_val + 3 - t, old_val - (e * xv) as int)) by {
                    lemma_cong3_symm(t as int, (e * xv) as int);
                    lemma_cong3_mul(t as int, (e * xv) as int, -1);
                    lemma_cong3_add(old_val + 3, old_val as int, t as int * -1, (e * xv) as int * -1);
                    assert((old_val + 3 - old_val) % 3 == 0);
                }
                lemma_cong3_trans(val as int, old_val + 3 - t, old_val - (e * xv) as int);
                lemma_cong3_add(old_val as int, base - before, -(e * xv) as int, -(e * xv) as int);
                lemma_cong3_trans(val as int, old_val - (e * xv) as int, base - before - (e * xv) as int);
                assert((e * xv) as int == ee * (xv as int));
            }
            c = c + 1;
        }
        let ghost x_before = x@;
        x.set(q, val);
        proof {
            let xb = to_ints(x_before);
            let xa = to_ints(x@);
            assert(xa =~= xb.update(q as int, val as int));
            let kk0 = k as int;
            let base = k * (n + 1);
            // the new row is satisfied
            assert forall|cc: int| 0 <= cc < q implies #[trigger] entry3(aug.data@, base, cc) == 0 by {
                assert(aug.entry(kk0, cc) == 0);
            }
            lemma_dot_zero(aug.data@, base, xa, 0, q as int);
            lemma_dot_split(aug.data@, base, xa, 0, q as int, n as int);
            lemma_dot_split(aug.data@, base, xa, q as int, q + 1, n as int);
            assert(row_dot(aug.data@, base, xa, q as int, q as int) == 0);
            assert(row_dot(aug.data@, base, xa, q as int, q + 1) == entry3(aug.data@, base, q as int) * xa[q as int]);
            assert(aug.entry(kk0, q as int) == 1);
            lemma_dot_ext(aug.data@, base, xa, aug.data@, base, xb, q + 1, n as int);
            let d = row_dot(aug.data@, base, xb, q + 1, n as int);
            assert(base == kk0 * aug.cols);
            assert(xa[q as int] == val as int);
            let eq = entry3(aug.data@, base, q as int);
            assert(eq == 1);
            let xq = xa[q as int];
            assert(eq * xq == xq) by (nonlinear_arith)
                requires
                    eq == 1,
            ;
            assert(row_dot(aug.data@, base, xa, q as int, q + 1) == val as int);
            assert(row_dot(aug.data@, base, xa, 0, n as int) == val as int + d);
            assert(aug.row_value(kk0, xa, n as int) == val as int + d);
            assert(cong3(val as int + d, aug.entry(kk0, n as int))) by {
                lemma_cong3_add(val as int, aug.entry(kk0, n as int) - d, d, d);
            }
            // previously satisfied rows do not see column q
            assert forall|kk: int| k <= kk < pr implies cong3(
                #[trigger] aug.row_value(kk, to_ints(x@), n as int),
                aug.entry(kk, n as int),
            ) by {
                if kk > kk0 {
                    assert(pivots@[kk0] < pivots@[kk]);
                    assert(aug.entry(kk, q as int) == 0);
                    lemma_dot_update_zero(aug.data@, kk * (n + 1), xb, q as int, val as int, 0, n as int);
                    assert(cong3(aug.row_value(kk, xb, n as int), aug.entry(kk, n as int)));
                }
            }
            assert forall|c: int| 0 <= c < n implies #[trigger] x@[c] < 3 by {
                if c != q {
                    assert(x@[c] == x_before[c]);
                }
            }
            assert forall|c: int|
                0 <= c < n && (forall|kk: int| 0 <= kk < pr ==> #[trigger] pivots@[kk] != c) implies #[trigger] x@[c]
                    == targets@[c] % 3 by {
                assert(pivots@[kk0] != c);
                assert(x@[c] == x_before[c]);
            }
        }
    }
    proof {
        let xi = to_ints(x@);
        // non-pivot rows are all zero with a zero right-hand side
        assert forall|r: int| 0 <= r < m implies cong3(
            #[trigger] aug.row_value(r, xi, aug.cols - 1),
            aug.entry(r, aug.cols - 1),
        ) by {
            if r >= pr {
                assert(pr == m || pivot_col == n);
                assert(pr < m);
                assert forall|c: int| 0 <= c < n implies #[trigger] entry3(aug.data@, r * (n + 1), c) == 0 by {
                    assert(aug.entry(r, c) == 0);
                }
                lemma_dot_zero(aug.data@, r * (n + 1), xi, 0, n as int);
                if aug.entry(r, n as int) != 0 {
                    let c = choose|c: int| 0 <= c < n && #[trigger] aug.entry(r, c) != 0;
                    assert(aug.entry(r, c) == 0);
                }
            }
        }
        assert(a.solved_by(b@, xi));
        let piv = Seq::new(pr as nat, |kk: int| pivots@[kk] as int);
        assert forall|kk: int| 0 <= kk < piv.len() implies 0 <= #[trigger] piv[kk] < n && !a.col_is_zero(piv[kk]) by {
            assert(aug.entry(kk, pivots@[kk] as int) == 1);
        }
        assert forall|c: int| 0 <= c < n && !piv.contains(c) implies #[trigger] x@[c] == targets@[c] % 3 by {
            assert forall|kk: int| 0 <= kk < pr implies #[trigger] pivots@[kk] != c by {
                assert(piv[kk] == pivots@[kk] as int);
            }
        }
        assert(x@.len() == a.cols);
        assert(forall|c: int| 0 <= c < x@.len() ==> #[trigger] x@[c] < 3);
        assert(piv.len() <= a.rows);
        assert forall|c: int| 0 <= c < a.cols && #[trigger] in_span_before(*a, c) implies x@[c] == targets@[c] % 3 by {
            if piv.contains(c) {
                let kk = choose|kk: int| 0 <= kk < piv.len() && piv[kk] == c;
                assert(aug.entry(kk, c) == 1);
                assert forall|cc: int| 0 <= cc < c implies #[trigger] aug.entry(kk, cc) == 0 by {
                    assert(cc < pivots@[kk]);
                }
                lemma_pivot_not_in_span(*a, b@, aug, xi, kk, c);
            }
        }
    }
    Some(x)
}


/// Solve `A·x = b` over GF(3); free variables are set to 0.
///
/// Returns `Some(x)` with `x.len() == A.cols`, or `None` exactly when the
/// system is inconsistent.
pub fn solve_gf3(a: &Gf3Matrix, b: &[u8]) -> (res: Option<Vec<u8>>)
    requires
        a.wf(),
        b@.len() == a.rows,
        a.cols < usize::MAX,
        a.rows * (a.cols + 1) <= usize::MAX,
    ensures
        match res {
            Some(x) => {
                &&& x@.len() == a.cols
                &&& forall|c: int| 0 <= c < x@.len() ==> #[trigger] x@[c] < 3
                &&& a.solved_by(b@, to_ints(x@))
                &&& exists|piv: Seq<int>|
                    {
                        &&& piv.len() <= a.rows
                        &&& forall|k: int|
                            0 <= k < piv.len() ==> 0 <= #[trigger] piv[k] < a.cols && !a.col_is_zero(
                                piv[k],
                            )
                        &&& forall|c: int| 0 <= c < a.cols && !piv.contains(c) ==> #[trigger] x@[c] == 0
                    }
                &&& forall|c: int| 0 <= c < a.cols && #[trigger] in_span_before(*a, c) ==> x@[c] == 0
            },
            None => forall|x: Seq<int>| x.len() == a.cols ==> !#[trigger] a.solved_by(b@, x),
        },
{
    solve_gf3_with_default(a, b, 0)
}

/// Like `solve_gf3`, but free (unpivoted) variables are set to
/// `default_free mod 3`. Free variables are unconstrained, so any value works:
/// the pivot variables adjust through back-substitution.
pub fn solve_gf3_with_default(a: &Gf3Matrix, b: &[u8], default_free: u8) -> (res: Option<Vec<u8>>)
    requires
        a.wf(),
        b@.len() == a.rows,
        a.cols < usize::MAX,
        a.rows * (a.cols + 1) <= usize::MAX,
    ensures
        match res {
            Some(x) => {
                &&& x@.len() == a.cols
                &&& forall|c: int| 0 <= c < x@.len() ==> #[trigger] x@[c] < 3
                &&& a.solved_by(b@, to_ints(x@))
                &&& exists|piv: Seq<int>|
                    {
                        &&& piv.len() <= a.rows
                        &&& forall|k: int|
                            0 <= k < piv.len() ==> 0 <= #[trigger] piv[k] < a.cols && !a.col_is_zero(
                                piv[k],
                            )
                        &&& forall|c: int|
                            0 <= c < a.cols && !piv.contains(c) ==> #[trigger] x@[c] == default_free % 3
                    }
                &&& forall|c: int| 0 <= c < a.cols && #[trigger] in_span_before(*a, c) ==> x@[c] == default_free % 3
            },
            None => forall|x: Seq<int>| x.len() == a.cols ==> !#[trigger] a.solved_by(b@, x),
        },
{
    let targets = vec![default_free % 3; a.cols];
    let res = solve_gf3_with_targets(a, b, &targets);
    proof {
        if res is Some {
            let x = res->Some_0;
            let piv = choose|piv: Seq<int>|
                {
                    &&& piv.len() <= a.rows
                    &&& forall|k: int|
                        0 <= k < piv.len() ==> 0 <= #[trigger] piv[k] < a.cols && !a.col_is_zero(
                            piv[k],
                        )
                    &&& forall|c: int|
                        0 <= c < a.cols && !piv.contains(c) ==> #[trigger] x@[c] == targets@[c] % 3
                };
            assert forall|c: int| 0 <= c < a.cols && !piv.contains(c) implies #[trigger] x@[c] == default_free % 3 by {
                assert(targets@[c] == default_free % 3);
            }
            assert forall|c: int| 0 <= c < a.cols && #[trigger] in_span_before(*a, c) implies x@[c] == default_free % 3 by {
                assert(targets@[c] == default_free % 3);
            }
        }
    }
    res
}

} // verus!
