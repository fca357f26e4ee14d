use vstd::prelude::*;

verus! {

/// Score of two equal characters.
pub const MATCH_SCORE: i32 = 3;

/// Score of two different characters.
pub const MISMATCH_SCORE: i32 = -1;

/// Score of a gap on either side.
pub const GAP_SCORE: i32 = -2;

/// Largest reference length whose scores are sure to fit in an `i32`.
pub const MAX_REFERENCE_LEN: usize = 0x2aaa_aaaa;

pub open spec fn larger(a: int, b: int) -> int {
    if a >= b { a } else { b }
}

pub open spec fn pair_score(r: Seq<char>, h: Seq<char>, i: nat, j: nat) -> int {
    if r[i - 1] == h[j - 1] { MATCH_SCORE as int } else { MISMATCH_SCORE as int }
}

/// The local-alignment table: `cell(r, h, i, j)` is the best score of an
/// alignment that ends after `i` characters of `r` and `j` characters of `h`.
pub open spec fn cell(r: Seq<char>, h: Seq<char>, i: nat, j: nat) -> int
    decreases i + j,
{
    if i == 0 || j == 0 {
        0
    } else {
        larger(
            0,
            larger(
                cell(r, h, (i - 1) as nat, (j - 1) as nat) + pair_score(r, h, i, j),
                larger(
                    cell(r, h, (i - 1) as nat, j) + GAP_SCORE,
                    cell(r, h, i, (j - 1) as nat) + GAP_SCORE,
                ),
            ),
        )
    }
}

/// Largest entry of row `i` among its first `j` columns.
pub open spec fn row_max(r: Seq<char>, h: Seq<char>, i: nat, j: nat) -> int
    decreases j,
{
    if j == 0 {
        0
    } else {
        larger(row_max(r, h, i, (j - 1) as nat), cell(r, h, i, j))
    }
}

/// Largest entry of the first `i` rows.
pub open spec fn table_max(r: Seq<char>, h: Seq<char>, i: nat) -> int
    decreases i,
{
    if i == 0 {
        0
    } else {
        larger(table_max(r, h, (i - 1) as nat), row_max(r, h, i, h.len()))
    }
}

/// The first row, among the first `i`, that holds `table_max(r, h, i)`
/// (0 while no entry is positive): a later row takes over only when it
/// holds a strictly larger score.
pub open spec fn best_row(r: Seq<char>, h: Seq<char>, i: nat) -> nat
    decreases i,
{
    if i == 0 {
        0
    } else if table_max(r, h, (i - 1) as nat) >= row_max(r, h, i, h.len()) {
        best_row(r, h, (i - 1) as nat)
    } else {
        i
    }
}

/// The alignment result: `None` when no entry is positive, else the zero-based
/// end offset in `r` of the best alignment (its first occurrence) and its score.
pub open spec fn alignment_of(r: Seq<char>, h: Seq<char>) -> Option<(int, int)> {
    let best = table_max(r, h, r.len());
    if best == 0 {
        None
    } else {
        Some((best_row(r, h, r.len()) - 1, best))
    }
}

/// Every entry of the table lies between 0 and three points per character.
pub proof fn lemma_cell_bounds(r: Seq<char>, h: Seq<char>, i: nat, j: nat)
    ensures
        0 <= cell(r, h, i, j) <= 3 * i,
        cell(r, h, i, j) <= 3 * j,
    decreases i + j,
{
    if i > 0 && j > 0 {
        lemma_cell_bounds(r, h, (i - 1) as nat, (j - 1) as nat);
        lemma_cell_bounds(r, h, (i - 1) as nat, j);
        lemma_cell_bounds(r, h, i, (j - 1) as nat);
    }
}

proof fn lemma_row_max_bounds(r: Seq<char>, h: Seq<char>, i: nat, j: nat)
    ensures
        0 <= row_max(r, h, i, j) <= 3 * i,
        row_max(r, h, i, j) <= 3 * j,
        forall|b: nat| 1 <= b <= j ==> cell(r, h, i, b) <= #[trigger] row_max(r, h, i, j),
    decreases j,
{
    if j > 0 {
        lemma_row_max_bounds(r, h, i, (j - 1) as nat);
        lemma_cell_bounds(r, h, i, j);
    }
}

proof fn lemma_table_max_bounds(r: Seq<char>, h: Seq<char>, i: nat)
    ensures
        0 <= table_max(r, h, i) <= 3 * i,
        table_max(r, h, i) <= 3 * h.len(),
        best_row(r, h, i) <= i,
        forall|a: nat| 1 <= a <= i ==> row_max(r, h, a, h.len()) <= #[trigger] table_max(r, h, i),
    decreases i,
{
    if i > 0 {
        lemma_table_max_bounds(r, h, (i - 1) as nat);
        lemma_row_max_bounds(r, h, i, h.len());
    }
}

/// A positive result ends inside the reference, with a score of at most
/// three points per reference character.
pub proof fn lemma_alignment_bounds(r: Seq<char>, h: Seq<char>)
    ensures
        alignment_of(r, h) matches Some((k, s)) ==> 0 <= k < r.len() && 0 < s <= 3 * r.len(),
{
    lemma_table_max_bounds(r, h, r.len());
    if table_max(r, h, r.len()) > 0 {
        lemma_best_row_positive(r, h, r.len());
    }
}

proof fn lemma_first_best_row(r: Seq<char>, h: Seq<char>, i: nat, a: nat)
    requires
        1 <= a <= i,
        row_max(r, h, a, h.len()) >= table_max(r, h, i),
    ensures
        best_row(r, h, i) <= a,
    decreases i,
{
    lemma_table_max_bounds(r, h, i);
    if a < i {
        lemma_table_max_bounds(r, h, (i - 1) as nat);
        lemma_first_best_row(r, h, (i - 1) as nat, a);
    }
}

proof fn lemma_diagonal(r: Seq<char>, h: Seq<char>, p: nat, t: nat)
    requires
        t <= h.len(),
        p + h.len() <= r.len(),
        r.subrange(p as int, (p + h.len()) as int) == h,
    ensures
        cell(r, h, p + t, t) >= 3 * t,
    decreases t,
{
    if t > 0 {
        lemma_diagonal(r, h, p, (t - 1) as nat);
        assert(r[p + t - 1] == r.subrange(p as int, (p + h.len()) as int)[t - 1]);
    }
}

/// When `h` stands in `r` at offset `p`, the alignment scores three points per
/// character of `h` and ends no later than the end of that occurrence.
pub proof fn lemma_exact_occurrence(r: Seq<char>, h: Seq<char>, p: nat)
    requires
        0 < h.len(),
        p + h.len() <= r.len(),
        r.subrange(p as int, (p + h.len()) as int) == h,
    ensures
        alignment_of(r, h) matches Some((k, s)) && s == 3 * h.len() && k < p + h.len(),
{
    let a = p + h.len();
    lemma_diagonal(r, h, p, h.len());
    lemma_row_max_bounds(r, h, a, h.len());
    lemma_table_max_bounds(r, h, r.len());
    lemma_first_best_row(r, h, r.len(), a);
    lemma_best_row_positive(r, h, r.len());
}

proof fn lemma_cells_zero(r: Seq<char>, h: Seq<char>, i: nat, j: nat)
    requires
        forall|a: int, b: int| 0 <= a < r.len() && 0 <= b < h.len() ==> r[a] != h[b],
        i <= r.len(),
        j <= h.len(),
    ensures
        cell(r, h, i, j) == 0,
    decreases i + j,
{
    if i > 0 && j > 0 {
        lemma_cells_zero(r, h, (i - 1) as nat, (j - 1) as nat);
        lemma_cells_zero(r, h, (i - 1) as nat, j);
        lemma_cells_zero(r, h, i, (j - 1) as nat);
    }
}

proof fn lemma_rows_zero(r: Seq<char>, h: Seq<char>, i: nat, j: nat)
    requires
        forall|a: int, b: int| 0 <= a < r.len() && 0 <= b < h.len() ==> r[a] != h[b],
        i <= r.len(),
        j <= h.len(),
    ensures
        row_max(r, h, i, j) == 0,
    decreases j,
{
    if j > 0 {
        lemma_rows_zero(r, h, i, (j - 1) as nat);
        lemma_cells_zero(r, h, i, j);
    }
}

/// With no character in common, nothing aligns.
pub proof fn lemma_no_common_character(r: Seq<char>, h: Seq<char>, i: nat)
    requires
        forall|a: int, b: int| 0 <= a < r.len() && 0 <= b < h.len() ==> r[a] != h[b],
        i <= r.len(),
    ensures
        table_max(r, h, i) == 0,
        i == r.len() ==> alignment_of(r, h) is None,
    decreases i,
{
    if i > 0 {
        lemma_no_common_character(r, h, (i - 1) as nat);
        lemma_rows_zero(r, h, i, h.len());
    }
}

/// Runs the local alignment of `hypothesis` against `reference`: `None` when
/// either is empty or no pair of characters scores, else the end offset in
/// `reference` of the first best alignment and its score, which is positive.
pub fn run_smith_waterman(reference: &[char], hypothesis: &[char]) -> (res: Option<(usize, i32)>)
    requires
        reference@.len() <= MAX_REFERENCE_LEN,
    ensures
        res == match alignment_of(reference@, hypothesis@) {
            None => None::<(usize, i32)>,
            Some((k, s)) => Some((k as usize, s as i32)),
        },
        (reference@.len() == 0 || hypothesis@.len() == 0) ==> res is None,
        res matches Some((_, s)) ==> s > 0,
        res matches Some((k, _)) ==> k < reference@.len(),
{
    let m = reference.len();
    let n = hypothesis.len();
    let ghost r = reference@;
    let ghost h = hypothesis@;
    if m == 0 || n == 0 {
        proof {
            if m == 0 {
            } else {
                lemma_empty_hypothesis(r, h, m as nat);
            }
        }
        return None;
    }
    let mut prev: Vec<i32> = Vec::new();
    prev.push(0);
    let mut j: usize = 0;
    while j < n
        invariant
            j <= n,
            prev@.len() == j + 1,
            forall|k: int| 0 <= k <= j ==> prev@[k] == 0,
        decreases n - j,
    {
        prev.push(0);
        j = j + 1;
    }
    let mut max_score: i32 = 0;
    let mut max_pos_i: usize = 0;
    let mut i: usize = 1;
    while i <= m
        invariant
            1 <= i <= m + 1,
            m == r.len(),
            n == h.len(),
            r == reference@,
            h == hypothesis@,
            m <= MAX_REFERENCE_LEN,
            prev@.len() == n + 1,
            forall|k: int| 0 <= k <= n ==> prev@[k] == cell(r, h, (i - 1) as nat, k as nat),
            max_score == table_max(r, h, (i - 1) as nat),
            max_pos_i == best_row(r, h, (i - 1) as nat),
        decreases m + 1 - i,
    {
        let mut cur: Vec<i32> = Vec::new();
        cur.push(0);
        let mut j: usize = 0;
        while j < n
            invariant
                1 <= i <= m,
                0 <= j <= n,
                m == r.len(),
                n == h.len(),
                r == reference@,
                h == hypothesis@,
                m <= MAX_REFERENCE_LEN,
                prev@.len() == n + 1,
                forall|k: int| 0 <= k <= n ==> prev@[k] == cell(r, h, (i - 1) as nat, k as nat),
                cur@.len() == j + 1,
                forall|k: int| 0 <= k <= j ==> cur@[k] == cell(r, h, i as nat, k as nat),
                max_score == larger(table_max(r, h, (i - 1) as nat), row_max(r, h, i as nat, j as nat)),
                max_pos_i == (if table_max(r, h, (i - 1) as nat) >= row_max(r, h, i as nat, j as nat) {
                    best_row(r, h, (i - 1) as nat)
                } else {
                    i as nat
                }),
            decreases n - j,
        {
            let c: usize = j + 1;
            proof {
                lemma_cell_bounds(r, h, (i - 1) as nat, j as nat);
                lemma_cell_bounds(r, h, (i - 1) as nat, c as nat);
                lemma_cell_bounds(r, h, i as nat, j as nat);
            }
            let s_match: i32 = if reference[i - 1] == hypothesis[j] {
                MATCH_SCORE
            } else {
                MISMATCH_SCORE
            };
            let score_diag = prev[j] + s_match;
            let score_up = prev[c] + GAP_SCORE;
            let score_left = cur[j] + GAP_SCORE;
            let mut val: i32 = score_diag;
            if score_up > val {
                val = score_up;
            }
            if score_left > val {
                val = score_left;
            }
            if val < 0 {
                val = 0;
            }
            assert(val == cell(r, h, i as nat, c as nat));
            cur.push(val);
            if val > max_score {
                max_score = val;
                max_pos_i = i;
            }
            j = c;
        }
        prev = cur;
        i = i + 1;
    }
    if max_score == 0 {
        None
    } else {
        proof {
            lemma_best_row_positive(r, h, m as nat);
            lemma_alignment_bounds(r, h);
        }
        Some((max_pos_i - 1, max_score))
    }
}

proof fn lemma_empty_hypothesis(r: Seq<char>, h: Seq<char>, i: nat)
    requires
        h.len() == 0,
    ensures
        table_max(r, h, i) == 0,
    decreases i,
{
    if i > 0 {
        lemma_empty_hypothesis(r, h, (i - 1) as nat);
    }
}

proof fn lemma_best_row_positive(r: Seq<char>, h: Seq<char>, i: nat)
    requires
        table_max(r, h, i) > 0,
    ensures
        1 <= best_row(r, h, i) <= i,
    decreases i,
{
    if i > 0 && table_max(r, h, (i - 1) as nat) >= row_max(r, h, i, h.len()) {
        lemma_best_row_positive(r, h, (i - 1) as nat);
    }
}

} // verus!
