use vstd::prelude::*;

verus! {

/// The positional byte hash: the sum of `i * s[i]` over every position `i`.
pub open spec fn hash_spec(s: Seq<u8>) -> int
    decreases s.len(),
{
    if s.len() == 0 {
        0
    } else {
        hash_spec(s.drop_last()) + (s.len() - 1) * (s.last() as int)
    }
}

/// The hash never goes below zero.
pub proof fn lemma_hash_nonneg(s: Seq<u8>)
    ensures
        hash_spec(s) >= 0,
    decreases s.len(),
{
    if s.len() > 0 {
        lemma_hash_nonneg(s.drop_last());
        assert((s.len() - 1) * (s.last() as int) >= 0) by (nonlinear_arith)
            requires
                s.len() >= 1,
        ;
    }
}

/// Hashing a prefix never gives more than hashing the whole sequence.
pub proof fn lemma_hash_prefix_le(s: Seq<u8>, k: int)
    requires
        0 <= k <= s.len(),
    ensures
        hash_spec(s.take(k)) <= hash_spec(s),
    decreases s.len(),
{
    if k < s.len() {
        lemma_hash_prefix_le(s.drop_last(), k);
        assert(s.drop_last().take(k) =~= s.take(k));
        assert((s.len() - 1) * (s.last() as int) >= 0) by (nonlinear_arith)
            requires
                s.len() >= 1,
        ;
    } else {
        assert(s.take(k) =~= s);
    }
}

/// Hashing a suffix never gives more than hashing the whole sequence:
/// every byte of the suffix sits at a position no greater than its position in `s`.
pub proof fn lemma_hash_suffix_le(s: Seq<u8>, k: int)
    requires
        0 <= k <= s.len(),
    ensures
        hash_spec(s.skip(k)) <= hash_spec(s),
    decreases s.len(),
{
    if k == s.len() {
        assert(s.skip(k) =~= Seq::<u8>::empty());
        lemma_hash_nonneg(s);
    } else {
        lemma_hash_suffix_le(s.drop_last(), k);
        assert(s.skip(k).drop_last() =~= s.drop_last().skip(k));
        let n = s.len() - 1;
        let m = s.skip(k).len() - 1;
        assert(m * (s.last() as int) <= n * (s.last() as int)) by (nonlinear_arith)
            requires
                0 <= m <= n,
        ;
    }
}

/// Hashes a byte string: the sum of `i * token[i]` over its positions.
pub fn get_hash_val(token: &[u8]) -> (hash_val: u32)
    requires
        hash_spec(token@) <= u32::MAX,
    ensures
        hash_val == hash_spec(token@),
{
    let mut hash_val: u32 = 0;
    let mut i: usize = 0;
    while i < token.len()
        invariant
            i <= token.len(),
            hash_spec(token@) <= u32::MAX,
            hash_val == hash_spec(token@.take(i as int)),
        decreases token.len() - i,
    {
        let ghost step: int = (i as int) * (token[i as int] as int);
        proof {
            lemma_hash_prefix_le(token@, i + 1);
            let t = token@.take(i + 1);
            assert(t.drop_last() =~= token@.take(i as int));
            assert(t.last() == token[i as int]);
            assert(hash_spec(t) == hash_spec(token@.take(i as int)) + step);
            lemma_hash_nonneg(token@.take(i as int));
            assert(step >= 0) by (nonlinear_arith)
                requires
                    step == (i as int) * (token[i as int] as int),
                    i >= 0,
            ;
        }
        if token[i] != 0 {
            let b = token[i];
            assert(i <= i * b) by (nonlinear_arith)
                requires
                    b >= 1,
            ;
            hash_val = hash_val + (i as u32) * (b as u32);
        } else {
            let b = token[i];
            assert(step == 0) by (nonlinear_arith)
                requires
                    step == (i as int) * (b as int),
                    b == 0,
            ;
        }
        i = i + 1;
    }
    assert(token@.take(i as int) =~= token@);
    hash_val
}


/// Whether the hash of `token` fits in 32 bits, that is, whether `get_hash_val`
/// can hash it.
pub fn hash_fits(token: &[u8]) -> (r: bool)
    ensures
        r == (hash_spec(token@) <= u32::MAX),
{
    let mut sum: u64 = 0;
    let mut i: usize = 0;
    while i < token.len()
        invariant
            i <= token.len(),
            sum == hash_spec(token@.take(i as int)),
            sum <= u32::MAX,
        decreases token.len() - i,
    {
        let ghost step: int = (i as int) * (token[i as int] as int);
        proof {
            let t = token@.take(i + 1);
            assert(t.drop_last() =~= token@.take(i as int));
            assert(t.last() == token[i as int]);
            assert(hash_spec(t) == hash_spec(token@.take(i as int)) + step);
        }
        let b = token[i];
        if b != 0 {
            if i > u32::MAX as usize {
                assert(step >= i) by (nonlinear_arith)
                    requires
                        step == (i as int) * (b as int),
                        b >= 1,
                        i >= 0,
                ;
                proof {
                    lemma_hash_prefix_le(token@, i + 1);
                    lemma_hash_nonneg(token@.take(i as int));
                }
                return false;
            }
            assert(step <= (u32::MAX as int) * 255) by (nonlinear_arith)
                requires
                    step == (i as int) * (b as int),
                    0 <= i <= u32::MAX,
                    b <= 255,
            ;
            sum = sum + (i as u64) * (b as u64);
            if sum > u32::MAX as u64 {
                proof {
                    lemma_hash_prefix_le(token@, i + 1);
                }
                return false;
            }
        } else {
            assert(step == 0) by (nonlinear_arith)
                requires
                    step == (i as int) * (b as int),
                    b == 0,
            ;
        }
        i = i + 1;
    }
    assert(token@.take(i as int) =~= token@);
    true
}

/// The smallest of three integers.
pub open spec fn min3(x: int, y: int, z: int) -> int {
    if x <= y && x <= z {
        x
    } else if y <= z {
        y
    } else {
        z
    }
}

/// The table before any row past the first is filled: a row-major buffer of
/// `a.len() * b.len()` cells whose cells `1 .. b.len()` hold their own index.
pub open spec fn lev_init(a: Seq<u8>, b: Seq<u8>) -> Seq<int> {
    Seq::new(a.len() * b.len(), |k: int| if 1 <= k < b.len() { k } else { 0 })
}

/// The value written for cell `(i, j)`: rows are `a.len()` cells apart, and the cell
/// takes the least of the cell above plus one, the cell to the left plus one, and
/// the cell above-left plus one when `a[i]` and `b[j]` differ.
pub open spec fn lev_cell(t: Seq<int>, a: Seq<u8>, b: Seq<u8>, i: int, j: int) -> int {
    let w = a.len() as int;
    let cost: int = if a[i] == b[j] { 0 } else { 1 };
    min3(t[(i - 1) * w + j] + 1, t[i * w + j - 1] + 1, t[(i - 1) * w + j - 1] + cost)
}

/// Row `i` written up to (not including) column `j`: first its leading cell gets `i`,
/// then cells `1 .. j` are written from left to right.
pub open spec fn lev_row(t: Seq<int>, a: Seq<u8>, b: Seq<u8>, i: int, j: int) -> Seq<int>
    decreases j,
{
    if j <= 1 {
        t.update(i * (a.len() as int), i)
    } else {
        let r = lev_row(t, a, b, i, j - 1);
        r.update(i * (a.len() as int) + j - 1, lev_cell(r, a, b, i, j - 1))
    }
}

/// The table once rows `1 .. i` have been written.
pub open spec fn lev_rows(a: Seq<u8>, b: Seq<u8>, i: int) -> Seq<int>
    decreases i,
{
    if i <= 1 {
        lev_init(a, b)
    } else {
        lev_row(lev_rows(a, b, i - 1), a, b, i - 1, b.len() as int)
    }
}

/// The edit-distance table result: the cell at offset `(a.len() - 1) * b.len()` of the
/// filled table.
pub open spec fn levenshtein_spec(a: Seq<u8>, b: Seq<u8>) -> int {
    lev_rows(a, b, a.len() as int)[(a.len() - 1) * b.len()]
}

proof fn lemma_cell_index(w: int, bl: int, i: int, j: int)
    requires
        1 <= w <= bl,
        0 <= i < w,
        0 <= j < bl,
    ensures
        0 <= i * w + j < w * bl,
        0 <= i * w,
        i >= 1 ==> (i - 1) * w == i * w - w,
{
    assert(0 <= i * w + j < w * bl) by (nonlinear_arith)
        requires
            1 <= w <= bl,
            0 <= i < w,
            0 <= j < bl,
    ;
    assert(0 <= i * w) by (nonlinear_arith)
        requires
            1 <= w,
            0 <= i,
    ;
    assert(i >= 1 ==> (i - 1) * w == i * w - w) by (nonlinear_arith);
}

/// Fills a row-major table of `a.len() * b.len()` cells with the edit-distance
/// recurrence (consecutive rows `a.len()` cells apart) and returns the cell at
/// offset `(a.len() - 1) * b.len()`.
pub fn levenshtein(a: &[u8], b: &[u8]) -> (lev: u32)
    requires
        1 <= a.len() <= b.len(),
        a.len() * b.len() <= usize::MAX,
        a.len() + b.len() <= u32::MAX,
    ensures
        lev == levenshtein_spec(a@, b@),
{
    let a_len = a.len();
    let b_len = b.len();
    let size = a_len * b_len;
    let ghost bound: int = a_len + b_len - 2;
    let mut lev: Vec<u32> = Vec::new();
    while lev.len() < size
        invariant
            lev.len() <= size,
            forall|k: int| 0 <= k < lev.len() ==> lev@[k] == 0,
        decreases size - lev.len(),
    {
        lev.push(0);
    }
    assert(b_len <= size) by (nonlinear_arith)
        requires
            size == a_len * b_len,
            a_len >= 1,
    ;
    let mut n: usize = 1;
    while n < b_len
        invariant
            1 <= n <= b_len,
            b_len <= size,
            b_len <= u32::MAX,
            lev.len() == size,
            forall|k: int|
                0 <= k < size ==> lev@[k] == (if 1 <= k < n { k } else { 0 }),
        decreases b_len - n,
    {
        lev.set(n, n as u32);
        n = n + 1;
    }
    assert(lev@.map_values(|v: u32| v as int) =~= lev_rows(a@, b@, 1));
    let mut i: usize = 1;
    while i < a_len
        invariant
            1 <= i <= a_len,
            a_len == a@.len(),
            b_len == b@.len(),
            1 <= a_len <= b_len,
            a_len + b_len <= u32::MAX,
            size == a_len * b_len,
            bound == a_len + b_len - 2,
            lev.len() == size,
            lev@.map_values(|v: u32| v as int) == lev_rows(a@, b@, i as int),
            forall|k: int| 0 <= k < size ==> lev@[k] <= bound,
        decreases a_len - i,
    {
        proof {
            lemma_cell_index(a_len as int, b_len as int, i as int, 0);
            lemma_cell_index(a_len as int, b_len as int, i as int, (b_len - 1) as int);
        }
        let row = i * a_len;
        let ghost base = lev_rows(a@, b@, i as int);
        lev.set(row, i as u32);
        assert(lev@.map_values(|v: u32| v as int) =~= lev_row(base, a@, b@, i as int, 1));
        let mut j: usize = 1;
        while j < b_len
            invariant
                1 <= i < a_len,
                1 <= j <= b_len,
                a_len == a@.len(),
                b_len == b@.len(),
                1 <= a_len <= b_len,
                a_len + b_len <= u32::MAX,
                size == a_len * b_len,
                bound == a_len + b_len - 2,
                row == i * a_len,
                row + b_len <= size,
                lev.len() == size,
                lev@.map_values(|v: u32| v as int) == lev_row(base, a@, b@, i as int, j as int),
                forall|k: int| 0 <= k < size ==> lev@[k] <= bound,
                lev@[row + j - 1] <= i + j - 1,
            decreases b_len - j,
        {
            proof {
                lemma_cell_index(a_len as int, b_len as int, i as int, j as int);
                lemma_cell_index(a_len as int, b_len as int, (i - 1) as int, j as int);
                lemma_cell_index(a_len as int, b_len as int, (i - 1) as int, (j - 1) as int);
            }
            let ghost t = lev_row(base, a@, b@, i as int, j as int);
            let up_idx = row - a_len + j;
            let up = lev[up_idx] + 1;
            let left = lev[row + j - 1] + 1;
            let diag = if a[i] == b[j] {
                lev[up_idx - 1]
            } else {
                lev[up_idx - 1] + 1
            };
            let mut best = up;
            if left < best {
                best = left;
            }
            if diag < best {
                best = diag;
            }
            assert(t[up_idx as int] == lev@[up_idx as int]);
            assert(t[row + j - 1] == lev@[row + j - 1]);
            assert(t[up_idx - 1] == lev@[up_idx - 1]);
            assert(best == lev_cell(t, a@, b@, i as int, j as int));
            assert(best <= i + j);
            lev.set(row + j, best);
            assert(lev@.map_values(|v: u32| v as int) =~= lev_row(base, a@, b@, i as int, j + 1));
            j = j + 1;
        }
        i = i + 1;
    }
    proof {
        lemma_cell_index(a_len as int, b_len as int, (a_len - 1) as int, 0);
        assert((a_len - 1) * b_len < size) by (nonlinear_arith)
            requires
                size == a_len * b_len,
                a_len >= 1,
                b_len >= 1,
        ;
        assert((a_len - 1) * b_len >= 0) by (nonlinear_arith)
            requires
                a_len >= 1,
        ;
    }
    let last = (a_len - 1) * b_len;
    assert(lev@.map_values(|v: u32| v as int)[last as int] == lev@[last as int] as int);
    lev[last]
}


/// The cell `(i, j)` of a row-major table whose rows are `w` cells apart.
pub open spec fn table_at(t: Seq<int>, w: int, i: int, j: int) -> int {
    t[i * w + j]
}

/// The cost of lining up `x` with `y`: 0 when they are equal, 1 otherwise.
pub open spec fn match_cost(x: u8, y: u8) -> int {
    if x == y {
        0
    } else {
        1
    }
}

proof fn lemma_lev_row_len(t0: Seq<int>, a: Seq<u8>, b: Seq<u8>, i: int, j: int)
    requires
        1 <= a.len() <= b.len(),
        0 <= i < a.len(),
        1 <= j <= b.len(),
        t0.len() == a.len() * b.len(),
    ensures
        lev_row(t0, a, b, i, j).len() == t0.len(),
        forall|k: int|
            0 <= k < t0.len() && !(i * a.len() <= k < i * a.len() + j) ==> #[trigger] lev_row(
                t0,
                a,
                b,
                i,
                j,
            )[k] == t0[k],
        lev_row(t0, a, b, i, j)[i * a.len()] == i,
    decreases j,
{
    lemma_cell_index(a.len() as int, b.len() as int, i, 0);
    if j > 1 {
        lemma_lev_row_len(t0, a, b, i, j - 1);
        lemma_cell_index(a.len() as int, b.len() as int, i, j - 1);
    }
}

proof fn lemma_lev_row_later(t0: Seq<int>, a: Seq<u8>, b: Seq<u8>, i: int, j: int, m: int)
    requires
        1 <= a.len() <= b.len(),
        0 <= i < a.len(),
        1 <= j <= m <= b.len(),
        t0.len() == a.len() * b.len(),
    ensures
        forall|k: int|
            0 <= k < t0.len() && (k < i * a.len() + j || k >= i * a.len() + m) ==> #[trigger] lev_row(
                t0,
                a,
                b,
                i,
                m,
            )[k] == lev_row(t0, a, b, i, j)[k],
    decreases m - j,
{
    if m > j {
        lemma_lev_row_later(t0, a, b, i, j, m - 1);
        lemma_lev_row_len(t0, a, b, i, m - 1);
        lemma_cell_index(a.len() as int, b.len() as int, i, m - 1);
    }
}

/// How the table is filled, row by row. Before any row past the first, the table has
/// `a.len() * b.len()` cells, cell `k` holding `k` for `1 <= k < b.len()` and 0
/// otherwise. Filling row `i` (for `1 <= i < a.len()`, rows `a.len()` cells apart)
/// changes only the cells `i * a.len() .. i * a.len() + b.len()`: its first cell gets
/// `i`, and every cell `(i, j)` with `1 <= j < b.len()` gets the least of the cell above
/// plus one, the cell to its left plus one, and the cell above-left plus the cost of
/// `a[i]` against `b[j]`, where a neighbour already written in this row is read as
/// written, and any other as it was before the row. The result is the cell at offset
/// `(a.len() - 1) * b.len()` of the filled table.
pub proof fn lemma_levenshtein_fill(a: Seq<u8>, b: Seq<u8>, i: int)
    requires
        1 <= a.len() <= b.len(),
        1 <= i < a.len(),
    ensures
        lev_rows(a, b, 1) == Seq::new(
            a.len() * b.len(),
            |k: int| if 1 <= k < b.len() { k } else { 0 },
        ),
        levenshtein_spec(a, b) == lev_rows(a, b, a.len() as int)[(a.len() - 1) * b.len()],
        lev_rows(a, b, i + 1).len() == a.len() * b.len(),
        forall|k: int|
            0 <= k < a.len() * b.len() && !(i * a.len() <= k < i * a.len() + b.len())
                ==> #[trigger] lev_rows(a, b, i + 1)[k] == lev_rows(a, b, i)[k],
        table_at(lev_rows(a, b, i + 1), a.len() as int, i, 0) == i,
        forall|j: int|
            1 <= j < b.len() ==> #[trigger] table_at(lev_rows(a, b, i + 1), a.len() as int, i, j)
                == min3(
                (if i * a.len() <= (i - 1) * a.len() + j {
                    lev_rows(a, b, i + 1)[(i - 1) * a.len() + j]
                } else {
                    lev_rows(a, b, i)[(i - 1) * a.len() + j]
                }) + 1,
                table_at(lev_rows(a, b, i + 1), a.len() as int, i, j - 1) + 1,
                (if i * a.len() <= (i - 1) * a.len() + j - 1 {
                    lev_rows(a, b, i + 1)[(i - 1) * a.len() + j - 1]
                } else {
                    lev_rows(a, b, i)[(i - 1) * a.len() + j - 1]
                }) + match_cost(a[i], b[j]),
            ),
    decreases i,
{
    let w = a.len() as int;
    let n = b.len() as int;
    assert(lev_rows(a, b, 1) =~= Seq::new(
        a.len() * b.len(),
        |k: int| if 1 <= k < b.len() { k } else { 0 },
    ));
    if i > 1 {
        lemma_levenshtein_fill(a, b, i - 1);
    }
    let t0 = lev_rows(a, b, i);
    let t1 = lev_rows(a, b, i + 1);
    assert(t0.len() == w * n);
    assert(t1 == lev_row(t0, a, b, i, n));
    lemma_lev_row_len(t0, a, b, i, n);
    lemma_cell_index(w, n, i, 0);
    assert forall|j: int| 1 <= j < n implies #[trigger] table_at(t1, w, i, j) == min3(
        (if i * w <= (i - 1) * w + j {
            t1[(i - 1) * w + j]
        } else {
            t0[(i - 1) * w + j]
        }) + 1,
        table_at(t1, w, i, j - 1) + 1,
        (if i * w <= (i - 1) * w + j - 1 {
            t1[(i - 1) * w + j - 1]
        } else {
            t0[(i - 1) * w + j - 1]
        }) + match_cost(a[i], b[j]),
    ) by {
        lemma_cell_index(w, n, i, j);
        lemma_cell_index(w, n, i - 1, j);
        lemma_cell_index(w, n, i - 1, j - 1);
        lemma_lev_row_len(t0, a, b, i, j);
        lemma_lev_row_len(t0, a, b, i, j + 1);
        lemma_lev_row_later(t0, a, b, i, j, n);
        lemma_lev_row_later(t0, a, b, i, j + 1, n);
        let r = lev_row(t0, a, b, i, j);
        assert(lev_row(t0, a, b, i, j + 1) == r.update(i * w + j, lev_cell(r, a, b, i, j)));
        assert(t1[i * w + j] == lev_row(t0, a, b, i, j + 1)[i * w + j]);
        assert(t1[i * w + j - 1] == r[i * w + j - 1]);
        assert(t1[(i - 1) * w + j] == r[(i - 1) * w + j]);
        assert(t1[(i - 1) * w + j - 1] == r[(i - 1) * w + j - 1]);
    }
}

} // verus!
