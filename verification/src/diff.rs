//! Cost-based alignment of two ordered entity sequences: the structural
//! diff engine.  Entities are identified by an optional name; aligning two
//! entities costs nothing when their names agree and `mismatch` when they
//! differ, while leaving an entity unpaired costs `step`.  The engine
//! returns an interleaved sequence of pairs of indices into the two
//! inputs, with unpaired sides absent.

use vstd::prelude::*;
use crate::model::copy_name;
use crate::model::opt_name_eq;
use crate::model::Section;
use crate::model::Symbol;

verus! {

/// `r` is a complete, order-preserving alignment of `a[0..i)` with
/// `b[0..j)`: every left index below `i` and every right index below `j`
/// appears exactly once, in increasing order, interleaved.
pub open spec fn aligns(r: Seq<(Option<usize>, Option<usize>)>, i: int, j: int) -> bool
    decreases r.len(),
{
    if r.len() == 0 {
        i == 0 && j == 0
    } else {
        match r.last() {
            (Some(x), Some(y)) => i >= 1 && j >= 1 && x == i - 1 && y == j - 1 && aligns(
                r.drop_last(),
                i - 1,
                j - 1,
            ),
            (Some(x), None) => i >= 1 && x == i - 1 && aligns(r.drop_last(), i - 1, j),
            (None, Some(y)) => j >= 1 && y == j - 1 && aligns(r.drop_last(), i, j - 1),
            (None, None) => false,
        }
    }
}

/// Cost of pairing two names: free when equal, `mismatch` otherwise.
pub open spec fn pair_cost(x: Option<Seq<u8>>, y: Option<Seq<u8>>, mismatch: int) -> int {
    if x == y {
        0
    } else {
        mismatch
    }
}

/// Total cost of an alignment: `step` per unpaired element, the name
/// mismatch cost per pair.
pub open spec fn align_cost_of(
    r: Seq<(Option<usize>, Option<usize>)>,
    a: Seq<Option<Seq<u8>>>,
    b: Seq<Option<Seq<u8>>>,
    step: int,
    mismatch: int,
) -> int
    decreases r.len(),
{
    if r.len() == 0 {
        0
    } else {
        align_cost_of(r.drop_last(), a, b, step, mismatch) + (match r.last() {
            (Some(x), Some(y)) => pair_cost(a[x as int], b[y as int], mismatch),
            _ => step,
        })
    }
}

/// The minimum achievable cost of aligning the suffixes `a[i..]` and
/// `b[j..]`: the standard sequence-alignment recurrence.
pub open spec fn min_cost(
    a: Seq<Option<Seq<u8>>>,
    b: Seq<Option<Seq<u8>>>,
    step: int,
    mismatch: int,
    i: int,
    j: int,
) -> int
    decreases a.len() + b.len() - i - j,
{
    if !(0 <= i <= a.len()) || !(0 <= j <= b.len()) {
        0
    } else if i == a.len() && j == b.len() {
        0
    } else if i == a.len() {
        step + min_cost(a, b, step, mismatch, i, j + 1)
    } else if j == b.len() {
        step + min_cost(a, b, step, mismatch, i + 1, j)
    } else {
        let dmatch = pair_cost(a[i], b[j], mismatch) + min_cost(a, b, step, mismatch, i + 1, j + 1);
        let ddel = step + min_cost(a, b, step, mismatch, i + 1, j);
        let dins = step + min_cost(a, b, step, mismatch, i, j + 1);
        if dmatch <= ddel && dmatch <= dins {
            dmatch
        } else if ddel <= dins {
            ddel
        } else {
            dins
        }
    }
}

proof fn lemma_min_cost_bounds(
    a: Seq<Option<Seq<u8>>>,
    b: Seq<Option<Seq<u8>>>,
    step: int,
    mismatch: int,
    i: int,
    j: int,
)
    requires
        0 <= step,
        0 <= mismatch,
        0 <= i <= a.len(),
        0 <= j <= b.len(),
    ensures
        0 <= min_cost(a, b, step, mismatch, i, j) <= (a.len() - i + b.len() - j) * (step
            + mismatch),
    decreases a.len() + b.len() - i - j,
{
    let c = step + mismatch;
    if i == a.len() && j == b.len() {
    } else if i == a.len() {
        lemma_min_cost_bounds(a, b, step, mismatch, i, j + 1);
        assert((b.len() - j) * c == (b.len() - j - 1) * c + c) by (nonlinear_arith);
    } else if j == b.len() {
        lemma_min_cost_bounds(a, b, step, mismatch, i + 1, j);
        assert((a.len() - i) * c == (a.len() - i - 1) * c + c) by (nonlinear_arith);
    } else {
        lemma_min_cost_bounds(a, b, step, mismatch, i + 1, j + 1);
        lemma_min_cost_bounds(a, b, step, mismatch, i + 1, j);
        lemma_min_cost_bounds(a, b, step, mismatch, i, j + 1);
        assert((a.len() - i + b.len() - j) * c == (a.len() - i - 1 + b.len() - j) * c + c)
            by (nonlinear_arith);
    }
}

/// On two equal key sequences the minimal alignment cost is zero from any
/// point of the diagonal on.
proof fn lemma_min_cost_diag(
    a: Seq<Option<Seq<u8>>>,
    b: Seq<Option<Seq<u8>>>,
    step: int,
    mismatch: int,
    k: int,
)
    requires
        a == b,
        0 <= step,
        0 <= mismatch,
        0 <= k <= a.len(),
    ensures
        min_cost(a, b, step, mismatch, k, k) == 0,
    decreases a.len() - k,
{
    if k < a.len() {
        lemma_min_cost_diag(a, b, step, mismatch, k + 1);
        lemma_min_cost_bounds(a, b, step, mismatch, k + 1, k);
        lemma_min_cost_bounds(a, b, step, mismatch, k, k + 1);
    }
}

proof fn lemma_aligns_cost_bound(
    r: Seq<(Option<usize>, Option<usize>)>,
    a: Seq<Option<Seq<u8>>>,
    b: Seq<Option<Seq<u8>>>,
    step: int,
    mismatch: int,
    i: int,
    j: int,
)
    requires
        aligns(r, i, j),
        0 <= step,
        0 <= mismatch,
        i <= a.len(),
        j <= b.len(),
    ensures
        align_cost_of(r, a, b, step, mismatch) + min_cost(a, b, step, mismatch, i, j)
            >= min_cost(a, b, step, mismatch, 0, 0),
    decreases r.len(),
{
    if r.len() == 0 {
    } else {
        match r.last() {
            (Some(x), Some(y)) => {
                lemma_aligns_cost_bound(r.drop_last(), a, b, step, mismatch, i - 1, j - 1);
                assert(min_cost(a, b, step, mismatch, i - 1, j - 1) <= pair_cost(
                    a[i - 1],
                    b[j - 1],
                    mismatch,
                ) + min_cost(a, b, step, mismatch, i, j));
            },
            (Some(x), None) => {
                lemma_aligns_cost_bound(r.drop_last(), a, b, step, mismatch, i - 1, j);
                assert(min_cost(a, b, step, mismatch, i - 1, j) <= step + min_cost(
                    a,
                    b,
                    step,
                    mismatch,
                    i,
                    j,
                ));
            },
            (None, Some(y)) => {
                lemma_aligns_cost_bound(r.drop_last(), a, b, step, mismatch, i, j - 1);
                assert(min_cost(a, b, step, mismatch, i, j - 1) <= step + min_cost(
                    a,
                    b,
                    step,
                    mismatch,
                    i,
                    j,
                ));
            },
            (None, None) => {},
        }
    }
}

/// The alignment recurrence is a true minimum: every complete alignment
/// of the two key sequences costs at least `min_cost` taken from the
/// start, so an alignment whose cost equals it is minimal.
pub proof fn lemma_min_cost_is_minimal(
    r: Seq<(Option<usize>, Option<usize>)>,
    a: Seq<Option<Seq<u8>>>,
    b: Seq<Option<Seq<u8>>>,
    step: int,
    mismatch: int,
)
    requires
        aligns(r, a.len() as int, b.len() as int),
        0 <= step,
        0 <= mismatch,
    ensures
        align_cost_of(r, a, b, step, mismatch) >= min_cost(a, b, step, mismatch, 0, 0),
{
    lemma_aligns_cost_bound(r, a, b, step, mismatch, a.len() as int, b.len() as int);
}

fn key_eq(x: &Option<Vec<u8>>, y: &Option<Vec<u8>>) -> (r: bool)
    ensures
        r == (x.deep_view() == y.deep_view()),
{
    opt_name_eq(x, y)
}

proof fn lemma_cell_index(n: int, m: int, i: int, j: int)
    requires
        0 <= i <= n,
        0 <= j <= m,
        (n + 1) * (m + 1) <= usize::MAX,
    ensures
        0 <= i * (m + 1) + j < (n + 1) * (m + 1),
{
    assert(i * (m + 1) + j < (n + 1) * (m + 1)) by (nonlinear_arith)
        requires
            0 <= i <= n,
            0 <= j <= m,
    ;
    assert(0 <= i * (m + 1)) by (nonlinear_arith)
        requires
            0 <= i,
            0 <= m,
    ;
}

proof fn lemma_cell_distinct(m: int, i: int, j: int, i2: int, j2: int)
    requires
        0 <= i,
        0 <= i2,
        0 <= j <= m,
        0 <= j2 <= m,
        !(i == i2 && j == j2),
    ensures
        i * (m + 1) + j != i2 * (m + 1) + j2,
{
    assert(i * (m + 1) + j != i2 * (m + 1) + j2) by (nonlinear_arith)
        requires
            0 <= i,
            0 <= i2,
            0 <= j <= m,
            0 <= j2 <= m,
            !(i == i2 && j == j2),
    ;
}

proof fn lemma_cap(n: int, m: int, step: int, mismatch: int, i: int, j: int)
    requires
        0 <= i <= n,
        0 <= j <= m,
        0 <= step,
        0 <= mismatch,
    ensures
        (n - i + m - j) * (step + mismatch) <= (n + m) * (step + mismatch),
{
    assert((n - i + m - j) * (step + mismatch) <= (n + m) * (step + mismatch))
        by (nonlinear_arith)
        requires
            0 <= i <= n,
            0 <= j <= m,
            0 <= step,
            0 <= mismatch,
    ;
}

/// Align two lists of optional names with the given per-step and
/// per-mismatch costs.  The result pairs index `x` of `a` with index `y`
/// of `b` where the two elements are matched, and leaves the other side
/// absent where an element is purely added or removed; it consumes both
/// inputs completely, in order, and its total cost is the minimum of the
/// alignment recurrence.  Two equal inputs come back fully matched in
/// their original order.
pub fn diff_list(a: &Vec<Option<Vec<u8>>>, b: &Vec<Option<Vec<u8>>>, step: u64, mismatch: u64)
    -> (r: Vec<(Option<usize>, Option<usize>)>)
    requires
        (a@.len() + 1) * (b@.len() + 1) <= usize::MAX,
        (a@.len() + b@.len()) * (step + mismatch) + step + mismatch <= u64::MAX,
    ensures
        aligns(r@, a@.len() as int, b@.len() as int),
        align_cost_of(r@, a.deep_view(), b.deep_view(), step as int, mismatch as int)
            == min_cost(a.deep_view(), b.deep_view(), step as int, mismatch as int, 0, 0),
        a.deep_view() == b.deep_view() ==> r@ == Seq::new(
            a@.len(),
            |x: int| (Some(x as usize), Some(x as usize)),
        ),
        forall|r2: Seq<(Option<usize>, Option<usize>)>|
            #[trigger] aligns(r2, a@.len() as int, b@.len() as int) ==> align_cost_of(
                r2,
                a.deep_view(),
                b.deep_view(),
                step as int,
                mismatch as int,
            ) >= align_cost_of(r@, a.deep_view(), b.deep_view(), step as int, mismatch as int),
{
    let ghost ak = a.deep_view();
    let ghost bk = b.deep_view();
    let n = a.len();
    let m = b.len();
    proof {
        assert(ak.len() == n && bk.len() == m);
        assert(forall|x: int| 0 <= x < n ==> ak[x] == #[trigger] a@[x].deep_view());
        assert(forall|x: int| 0 <= x < m ==> bk[x] == #[trigger] b@[x].deep_view());
        assert(m + 1 <= usize::MAX && n + 1 <= usize::MAX) by (nonlinear_arith)
            requires
                (n + 1) * (m + 1) <= usize::MAX,
                0 <= n,
                0 <= m,
        ;
    }
    let width = m + 1;
    // The table holds, at entry `i * width + j`, the minimal cost of
    // aligning the suffixes from `i` and `j` on.
    let mut dp: Vec<u64> = Vec::new();
    let table = (n + 1) * width;
    let mut z: usize = 0;
    while z < table
        invariant
            dp@.len() == z,
            0 <= z <= table,
        decreases table - z,
    {
        dp.push(0);
        z = z + 1;
    }
    let mut i: usize = n + 1;
    while i > 0
        invariant
            0 <= i <= n + 1,
            n == a@.len(),
            m == b@.len(),
            width == m + 1,
            table == (n + 1) * width,
            ak == a.deep_view(),
            bk == b.deep_view(),
            ak.len() == n,
            bk.len() == m,
            dp@.len() == table,
            (n + 1) * (m + 1) <= usize::MAX,
            (n + m) * (step + mismatch) + step + mismatch <= u64::MAX,
            forall|i2: int, j2: int| #![trigger dp@[i2 * (m + 1) + j2]]
                i <= i2 <= n && 0 <= j2 <= m ==> dp@[i2 * (m + 1) + j2] == min_cost(
                    ak,
                    bk,
                    step as int,
                    mismatch as int,
                    i2,
                    j2,
                ),
        decreases i,
    {
        i = i - 1;
        let mut j: usize = m + 1;
        while j > 0
            invariant
                0 <= i <= n,
                0 <= j <= m + 1,
                n == a@.len(),
                m == b@.len(),
                width == m + 1,
                table == (n + 1) * width,
                ak == a.deep_view(),
                bk == b.deep_view(),
                ak.len() == n,
                bk.len() == m,
                dp@.len() == table,
                (n + 1) * (m + 1) <= usize::MAX,
                (n + m) * (step + mismatch) + step + mismatch <= u64::MAX,
                forall|i2: int, j2: int| #![trigger dp@[i2 * (m + 1) + j2]]
                    i < i2 <= n && 0 <= j2 <= m ==> dp@[i2 * (m + 1) + j2] == min_cost(
                        ak,
                        bk,
                        step as int,
                        mismatch as int,
                        i2,
                        j2,
                    ),
                forall|j2: int| #![trigger dp@[i * (m + 1) + j2]]
                    j <= j2 <= m ==> dp@[i * (m + 1) + j2] == min_cost(
                        ak,
                        bk,
                        step as int,
                        mismatch as int,
                        i as int,
                        j2,
                    ),
            decreases j,
        {
            j = j - 1;
            proof {
                lemma_cell_index(n as int, m as int, i as int, j as int);
                if i < n {
                    lemma_cell_index(n as int, m as int, i + 1, j as int);
                    lemma_min_cost_bounds(ak, bk, step as int, mismatch as int, i + 1, j as int);
                    lemma_cap(n as int, m as int, step as int, mismatch as int, i + 1, j as int);
                }
                if j < m {
                    lemma_cell_index(n as int, m as int, i as int, j + 1);
                    lemma_min_cost_bounds(ak, bk, step as int, mismatch as int, i as int, j + 1);
                    lemma_cap(n as int, m as int, step as int, mismatch as int, i as int, j + 1);
                }
                if i < n && j < m {
                    lemma_cell_index(n as int, m as int, i + 1, j + 1);
                    lemma_min_cost_bounds(ak, bk, step as int, mismatch as int, i + 1, j + 1);
                    lemma_cap(n as int, m as int, step as int, mismatch as int, i + 1, j + 1);
                }
            }
            let v: u64 = if i == n && j == m {
                0
            } else if i == n {
                step + dp[i * width + (j + 1)]
            } else if j == m {
                step + dp[(i + 1) * width + j]
            } else {
                let pc: u64 = if key_eq(&a[i], &b[j]) {
                    0
                } else {
                    mismatch
                };
                let dmatch = pc + dp[(i + 1) * width + (j + 1)];
                let ddel = step + dp[(i + 1) * width + j];
                let dins = step + dp[i * width + (j + 1)];
                if dmatch <= ddel && dmatch <= dins {
                    dmatch
                } else if ddel <= dins {
                    ddel
                } else {
                    dins
                }
            };
            let ghost dp_pre = dp@;
            dp[i * width + j] = v;
            proof {
                assert(dp@ == dp_pre.update(i * (m + 1) + j, v));
                assert(dp@[i * (m + 1) + j] == min_cost(
                    ak,
                    bk,
                    step as int,
                    mismatch as int,
                    i as int,
                    j as int,
                ));
                assert forall|i2: int, j2: int| #![trigger dp@[i2 * (m + 1) + j2]]
                    i < i2 <= n && 0 <= j2 <= m implies dp@[i2 * (m + 1) + j2] == min_cost(
                    ak,
                    bk,
                    step as int,
                    mismatch as int,
                    i2,
                    j2,
                ) by {
                    lemma_cell_distinct(m as int, i as int, j as int, i2, j2);
                    lemma_cell_index(n as int, m as int, i2, j2);
                    assert(dp_pre[i2 * (m + 1) + j2] == min_cost(
                        ak,
                        bk,
                        step as int,
                        mismatch as int,
                        i2,
                        j2,
                    ));
                }
                assert forall|j2: int| #![trigger dp@[i * (m + 1) + j2]]
                    j < j2 <= m implies dp@[i * (m + 1) + j2] == min_cost(
                    ak,
                    bk,
                    step as int,
                    mismatch as int,
                    i as int,
                    j2,
                ) by {
                    lemma_cell_distinct(m as int, i as int, j as int, i as int, j2);
                    lemma_cell_index(n as int, m as int, i as int, j2);
                    assert(dp_pre[i * (m + 1) + j2] == min_cost(
                        ak,
                        bk,
                        step as int,
                        mismatch as int,
                        i as int,
                        j2,
                    ));
                }
            }
        }
    }
    // Walk the table forward, preferring a match, then a removal, then an
    // insertion, so that equal inputs read off the diagonal.
    let mut out: Vec<(Option<usize>, Option<usize>)> = Vec::new();
    let mut x: usize = 0;
    let mut y: usize = 0;
    proof {
        if ak == bk {
            assert(out@ =~= Seq::new(0, |q: int| (Some(q as usize), Some(q as usize))));
        }
    }
    while x < n || y < m
        invariant
            0 <= x <= n,
            0 <= y <= m,
            n == a@.len(),
            m == b@.len(),
            width == m + 1,
            ak == a.deep_view(),
            bk == b.deep_view(),
            ak.len() == n,
            bk.len() == m,
            dp@.len() == (n + 1) * width,
            (n + 1) * (m + 1) <= usize::MAX,
            (n + m) * (step + mismatch) + step + mismatch <= u64::MAX,
            forall|i2: int, j2: int| #![trigger dp@[i2 * (m + 1) + j2]]
                0 <= i2 <= n && 0 <= j2 <= m ==> dp@[i2 * (m + 1) + j2] == min_cost(
                    ak,
                    bk,
                    step as int,
                    mismatch as int,
                    i2,
                    j2,
                ),
            aligns(out@, x as int, y as int),
            align_cost_of(out@, ak, bk, step as int, mismatch as int) + min_cost(
                ak,
                bk,
                step as int,
                mismatch as int,
                x as int,
                y as int,
            ) == min_cost(ak, bk, step as int, mismatch as int, 0, 0),
            ak == bk ==> (x == y && out@ == Seq::new(
                x as nat,
                |q: int| (Some(q as usize), Some(q as usize)),
            )),
        decreases n - x + m - y,
    {
        let ghost out0 = out@;
        proof {
            lemma_cell_index(n as int, m as int, x as int, y as int);
            if x < n {
                lemma_cell_index(n as int, m as int, x + 1, y as int);
                lemma_min_cost_bounds(ak, bk, step as int, mismatch as int, x + 1, y as int);
                lemma_cap(n as int, m as int, step as int, mismatch as int, x + 1, y as int);
            }
            if y < m {
                lemma_cell_index(n as int, m as int, x as int, y + 1);
                lemma_min_cost_bounds(ak, bk, step as int, mismatch as int, x as int, y + 1);
                lemma_cap(n as int, m as int, step as int, mismatch as int, x as int, y + 1);
            }
            if x < n && y < m {
                lemma_cell_index(n as int, m as int, x + 1, y + 1);
                lemma_min_cost_bounds(ak, bk, step as int, mismatch as int, x + 1, y + 1);
                lemma_cap(n as int, m as int, step as int, mismatch as int, x + 1, y + 1);
            }
            if ak == bk && x < n {
                lemma_min_cost_diag(ak, bk, step as int, mismatch as int, x as int);
                lemma_min_cost_diag(ak, bk, step as int, mismatch as int, x + 1);
            }
        }
        if x < n && y < m && dp[x * width + y] == (if key_eq(&a[x], &b[y]) {
            0
        } else {
            mismatch
        }) + dp[(x + 1) * width + (y + 1)] {
            out.push((Some(x), Some(y)));
            x = x + 1;
            y = y + 1;
            proof {
                assert(out@.drop_last() =~= out0);
            }
        } else if x < n && (y == m || dp[x * width + y] == step + dp[(x + 1) * width + y]) {
            out.push((Some(x), None));
            x = x + 1;
            proof {
                assert(out@.drop_last() =~= out0);
            }
        } else {
            out.push((None, Some(y)));
            y = y + 1;
            proof {
                assert(out@.drop_last() =~= out0);
            }
        }
        proof {
            if ak == bk {
                assert(out@ =~= Seq::new(x as nat, |q: int| (Some(q as usize), Some(q as usize))));
            }
        }
    }
    proof {
        assert forall|r2: Seq<(Option<usize>, Option<usize>)>|
            #[trigger] aligns(r2, n as int, m as int) implies align_cost_of(
            r2,
            ak,
            bk,
            step as int,
            mismatch as int,
        ) >= align_cost_of(out@, ak, bk, step as int, mismatch as int) by {
            lemma_min_cost_is_minimal(r2, ak, bk, step as int, mismatch as int);
        }
    }
    out
}

impl Section {
    /// Flat cost of treating a section as purely added or removed.
    pub fn step_cost() -> (r: u64)
        ensures
            r == 1,
    {
        1
    }

    /// Cost of aligning two sections: zero for equal names, two otherwise,
    /// so that a renamed section weighs more than a reordered one.
    pub fn diff_cost(&self, other: &Section) -> (r: u64)
        ensures
            r == pair_cost(self.name.deep_view(), other.name.deep_view(), 2),
    {
        if opt_name_eq(&self.name, &other.name) {
            0
        } else {
            2
        }
    }
}

impl Symbol {
    /// Flat cost of treating a symbol as purely added or removed.
    pub fn step_cost() -> (r: u64)
        ensures
            r == 1,
    {
        1
    }

    /// Cost of aligning two symbols: zero for equal names, two otherwise.
    pub fn diff_cost(&self, other: &Symbol) -> (r: u64)
        ensures
            r == pair_cost(self.name.deep_view(), other.name.deep_view(), 2),
    {
        if opt_name_eq(&self.name, &other.name) {
            0
        } else {
            2
        }
    }
}

/// The alignment identities of a section list: the section names.
pub open spec fn section_keys(ss: Seq<Section>) -> Seq<Option<Seq<u8>>> {
    ss.map_values(|s: Section| s.name.deep_view())
}

/// The alignment identities of a symbol list: the symbol names.
pub open spec fn symbol_keys(ss: Seq<Symbol>) -> Seq<Option<Seq<u8>>> {
    ss.map_values(|s: Symbol| s.name.deep_view())
}

/// Structurally diff two section lists by name, at unit step cost and
/// mismatch cost two.
pub fn diff_sections(a: &Vec<Section>, b: &Vec<Section>) -> (r: Vec<
    (Option<usize>, Option<usize>),
>)
    requires
        (a@.len() + 1) * (b@.len() + 1) <= usize::MAX,
        (a@.len() + b@.len()) * 3 + 3 <= u64::MAX,
    ensures
        aligns(r@, a@.len() as int, b@.len() as int),
        align_cost_of(r@, section_keys(a@), section_keys(b@), 1, 2) == min_cost(
            section_keys(a@),
            section_keys(b@),
            1,
            2,
            0,
            0,
        ),
        section_keys(a@) == section_keys(b@) ==> r@ == Seq::new(
            a@.len(),
            |x: int| (Some(x as usize), Some(x as usize)),
        ),
        forall|r2: Seq<(Option<usize>, Option<usize>)>|
            #[trigger] aligns(r2, a@.len() as int, b@.len() as int) ==> align_cost_of(
                r2,
                section_keys(a@),
                section_keys(b@),
                1,
                2,
            ) >= align_cost_of(r@, section_keys(a@), section_keys(b@), 1, 2),
{
    let mut ka: Vec<Option<Vec<u8>>> = Vec::new();
    let mut i: usize = 0;
    while i < a.len()
        invariant
            0 <= i <= a@.len(),
            ka@.len() == i,
            forall|x: int| #![trigger ka@[x]]
                0 <= x < i ==> ka@[x].deep_view() == a@[x].name.deep_view(),
        decreases a@.len() - i,
    {
        ka.push(copy_name(&a[i].name));
        i = i + 1;
    }
    let mut kb: Vec<Option<Vec<u8>>> = Vec::new();
    let mut j: usize = 0;
    while j < b.len()
        invariant
            0 <= j <= b@.len(),
            kb@.len() == j,
            forall|x: int| #![trigger kb@[x]]
                0 <= x < j ==> kb@[x].deep_view() == b@[x].name.deep_view(),
        decreases b@.len() - j,
    {
        kb.push(copy_name(&b[j].name));
        j = j + 1;
    }
    proof {
        assert(ka.deep_view() =~= section_keys(a@));
        assert(kb.deep_view() =~= section_keys(b@));
    }
    diff_list(&ka, &kb, 1, 2)
}

/// Structurally diff two symbol lists by name, at unit step cost and
/// mismatch cost two.
pub fn diff_symbols(a: &Vec<Symbol>, b: &Vec<Symbol>) -> (r: Vec<(Option<usize>, Option<usize>)>)
    requires
        (a@.len() + 1) * (b@.len() + 1) <= usize::MAX,
        (a@.len() + b@.len()) * 3 + 3 <= u64::MAX,
    ensures
        aligns(r@, a@.len() as int, b@.len() as int),
        align_cost_of(r@, symbol_keys(a@), symbol_keys(b@), 1, 2) == min_cost(
            symbol_keys(a@),
            symbol_keys(b@),
            1,
            2,
            0,
            0,
        ),
        symbol_keys(a@) == symbol_keys(b@) ==> r@ == Seq::new(
            a@.len(),
            |x: int| (Some(x as usize), Some(x as usize)),
        ),
        forall|r2: Seq<(Option<usize>, Option<usize>)>|
            #[trigger] aligns(r2, a@.len() as int, b@.len() as int) ==> align_cost_of(
                r2,
                symbol_keys(a@),
                symbol_keys(b@),
                1,
                2,
            ) >= align_cost_of(r@, symbol_keys(a@), symbol_keys(b@), 1, 2),
{
    let mut ka: Vec<Option<Vec<u8>>> = Vec::new();
    let mut i: usize = 0;
    while i < a.len()
        invariant
            0 <= i <= a@.len(),
            ka@.len() == i,
            forall|x: int| #![trigger ka@[x]]
                0 <= x < i ==> ka@[x].deep_view() == a@[x].name.deep_view(),
        decreases a@.len() - i,
    {
        ka.push(copy_name(&a[i].name));
        i = i + 1;
    }
    let mut kb: Vec<Option<Vec<u8>>> = Vec::new();
    let mut j: usize = 0;
    while j < b.len()
        invariant
            0 <= j <= b@.len(),
            kb@.len() == j,
            forall|x: int| #![trigger kb@[x]]
                0 <= x < j ==> kb@[x].deep_view() == b@[x].name.deep_view(),
        decreases b@.len() - j,
    {
        kb.push(copy_name(&b[j].name));
        j = j + 1;
    }
    proof {
        assert(ka.deep_view() =~= symbol_keys(a@));
        assert(kb.deep_view() =~= symbol_keys(b@));
    }
    diff_list(&ka, &kb, 1, 2)
}

} // verus!
