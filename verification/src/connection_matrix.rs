//! A sparse incidence structure between two index spaces.
//!
//! A connection matrix holds a sorted list of `(row, column)` pairs in
//! compressed rows: one array of columns, and one array that says where each
//! row starts in it. The pairs are its mathematical content; everything the
//! matrix answers is stated over them.

use crate::error::MeshError;
use crate::sorting::{
    is_sorted, is_sorted_pairs, lemma_sorted_pairs, lemma_sorted_pairs_contains,
    lemma_sorted_pairs_of_sorted, pair_le, sort_pairs, sorted_pairs,
};
use crate::index_set::{extended, from_slice, strictly_increasing, to_sorted_vec};
use std::collections::BTreeSet;
use vstd::prelude::*;
use vstd::std_specs::iter::IteratorSpec;

verus! {

/// The number of rows of a matrix with the sorted pairs `pairs`: one more
/// than the largest row, and one for a matrix without pairs.
pub open spec fn row_count(pairs: Seq<(usize, usize)>) -> int {
    if pairs.len() == 0 {
        1
    } else {
        pairs.last().0 + 1
    }
}

/// The largest column among `pairs`, and zero if there is none.
pub open spec fn max_column(pairs: Seq<(usize, usize)>) -> int
    decreases pairs.len(),
{
    if pairs.len() == 0 {
        0
    } else {
        let rest = max_column(pairs.drop_last());
        if pairs.last().1 > rest {
            pairs.last().1 as int
        } else {
            rest
        }
    }
}

/// The column bound of a matrix with the pairs `pairs`: one more than the
/// largest column.
pub open spec fn column_count(pairs: Seq<(usize, usize)>) -> int {
    max_column(pairs) + 1
}

/// The columns of the pairs in row `r`, in the order of the pairs.
pub open spec fn columns_of(pairs: Seq<(usize, usize)>, r: int) -> Seq<usize>
    decreases pairs.len(),
{
    if pairs.len() == 0 {
        Seq::empty()
    } else if pairs.last().0 == r {
        columns_of(pairs.drop_last(), r).push(pairs.last().1)
    } else {
        columns_of(pairs.drop_last(), r)
    }
}

/// How many of the pairs lie in a row below `r`.
pub open spec fn rows_below(pairs: Seq<(usize, usize)>, r: int) -> int
    decreases pairs.len(),
{
    if pairs.len() == 0 {
        0
    } else {
        rows_below(pairs.drop_last(), r) + if pairs.last().0 < r {
            1int
        } else {
            0int
        }
    }
}

/// No entry is larger than a later one.
pub open spec fn ascending(s: Seq<usize>) -> bool {
    forall|i: int, j: int| 0 <= i < j < s.len() ==> #[trigger] s[i] <= #[trigger] s[j]
}

/// Every column is small enough for the column bound to be a `usize`.
pub open spec fn columns_fit(pairs: Seq<(usize, usize)>) -> bool {
    forall|k: int| 0 <= k < pairs.len() ==> (#[trigger] pairs[k]).1 < usize::MAX
}

/// The pairs with row and column exchanged.
pub open spec fn swapped(pairs: Seq<(usize, usize)>) -> Seq<(usize, usize)> {
    Seq::new(pairs.len(), |k: int| (pairs[k].1, pairs[k].0))
}

/// The largest column is the one value that bounds every column and is a
/// column itself, or zero.
pub proof fn lemma_max_column(pairs: Seq<(usize, usize)>, m: int)
    requires
        forall|k: int| 0 <= k < pairs.len() ==> (#[trigger] pairs[k]).1 <= m,
        m == 0 || exists|k: int| 0 <= k < pairs.len() && (#[trigger] pairs[k]).1 == m,
    ensures
        max_column(pairs) == m,
    decreases pairs.len(),
{
    if pairs.len() > 0 {
        let rest = pairs.drop_last();
        lemma_max_column_bounds(rest);
        assert forall|k: int| 0 <= k < rest.len() implies (#[trigger] rest[k]).1 <= m by {
            assert(rest[k] == pairs[k]);
        }
        if pairs.last().1 == m {
        } else {
            if m != 0 {
                let k = choose|k: int| 0 <= k < pairs.len() && (#[trigger] pairs[k]).1 == m;
                assert(rest[k] == pairs[k]);
            }
            lemma_max_column(rest, m);
        }
    }
}

/// The largest column bounds every column, and is a column or zero.
pub proof fn lemma_max_column_bounds(pairs: Seq<(usize, usize)>)
    ensures
        forall|k: int| 0 <= k < pairs.len() ==> (#[trigger] pairs[k]).1 <= max_column(pairs),
        max_column(pairs) == 0 || exists|k: int|
            0 <= k < pairs.len() && (#[trigger] pairs[k]).1 == max_column(pairs),
        max_column(pairs) >= 0,
    decreases pairs.len(),
{
    if pairs.len() > 0 {
        let rest = pairs.drop_last();
        lemma_max_column_bounds(rest);
        let last = pairs.len() - 1;
        assert forall|k: int| 0 <= k < pairs.len() implies (#[trigger] pairs[k]).1 <= max_column(
            pairs,
        ) by {
            if k < last {
                assert(rest[k] == pairs[k]);
            }
        }
        if pairs.last().1 > max_column(rest) {
            assert(pairs[last].1 == max_column(pairs));
        } else if max_column(rest) != 0 {
            let k = choose|k: int| 0 <= k < rest.len() && (#[trigger] rest[k]).1 == max_column(rest);
            assert(pairs[k] == rest[k]);
        }
    }
}

/// The largest column depends on the pairs alone, not on their order.
pub proof fn lemma_max_column_same_pairs(a: Seq<(usize, usize)>, b: Seq<(usize, usize)>)
    requires
        forall|p: (usize, usize)| a.contains(p) <==> b.contains(p),
    ensures
        max_column(a) == max_column(b),
{
    lemma_max_column_bounds(a);
    lemma_max_column_bounds(b);
    let m = max_column(a);
    assert forall|k: int| 0 <= k < b.len() implies (#[trigger] b[k]).1 <= m by {
        assert(b.contains(b[k]));
        let j = choose|j: int| 0 <= j < a.len() && a[j] == b[k];
        assert(a[j].1 <= m);
    }
    if m != 0 {
        let j = choose|j: int| 0 <= j < a.len() && (#[trigger] a[j]).1 == m;
        assert(a.contains(a[j]));
        let k = choose|k: int| 0 <= k < b.len() && b[k] == a[j];
        assert(b[k].1 == m);
    }
    lemma_max_column(b, m);
}

/// Where the pairs of row `r` form the run from `lo` up to `hi`, the
/// columns of the row are the columns of that run.
proof fn lemma_columns_of_run(pairs: Seq<(usize, usize)>, r: int, lo: int, hi: int)
    requires
        0 <= lo <= hi <= pairs.len(),
        forall|k: int| 0 <= k < pairs.len() ==> (lo <= k < hi <==> (#[trigger] pairs[k]).0 == r),
    ensures
        columns_of(pairs, r) == Seq::new((hi - lo) as nat, |i: int| pairs[lo + i].1),
    decreases pairs.len(),
{
    let n = pairs.len() as int;
    let want = Seq::new((hi - lo) as nat, |i: int| pairs[lo + i].1);
    if n == 0 {
        assert(columns_of(pairs, r) =~= want);
    } else {
        let rest = pairs.drop_last();
        assert forall|k: int| 0 <= k < rest.len() implies rest[k] == pairs[k] by {}
        if hi == n && lo < hi {
            assert(pairs[n - 1].0 == r);
            lemma_columns_of_run(rest, r, lo, hi - 1);
            assert(columns_of(pairs, r) =~= want);
        } else if hi == n {
            assert(pairs[n - 1].0 != r);
            lemma_columns_of_run(rest, r, n - 1, n - 1);
            assert(columns_of(pairs, r) =~= want);
        } else {
            assert(pairs[n - 1].0 != r);
            lemma_columns_of_run(rest, r, lo, hi);
            assert(columns_of(pairs, r) =~= want);
        }
    }
}

/// A column stands in row `r` exactly if the pair of the two is among the
/// pairs.
pub proof fn lemma_columns_of_contains(pairs: Seq<(usize, usize)>, r: usize, c: usize)
    ensures
        columns_of(pairs, r as int).contains(c) <==> pairs.contains((r, c)),
    decreases pairs.len(),
{
    if pairs.len() > 0 {
        let n = pairs.len() as int;
        let rest = pairs.drop_last();
        let last = pairs.last();
        lemma_columns_of_contains(rest, r, c);
        let cols = columns_of(pairs, r as int);
        let before = columns_of(rest, r as int);
        if pairs.contains((r, c)) {
            let k = choose|k: int| 0 <= k < n && pairs[k] == (r, c);
            if k < n - 1 {
                assert(rest[k] == (r, c));
                let j = choose|j: int| 0 <= j < before.len() && before[j] == c;
                assert(cols[j] == c);
            } else {
                assert(cols[cols.len() - 1] == c);
            }
        }
        if cols.contains(c) {
            let j = choose|j: int| 0 <= j < cols.len() && cols[j] == c;
            if last.0 == r && j == cols.len() - 1 {
                assert(pairs[n - 1] == (r, c));
            } else {
                assert(before[j] == c);
                let k = choose|k: int| 0 <= k < rest.len() && rest[k] == (r, c);
                assert(pairs[k] == (r, c));
            }
        }
    }
}

/// Where exactly the first `cut` pairs lie in rows below `r`, `cut` is the
/// number of such pairs.
proof fn lemma_rows_below(pairs: Seq<(usize, usize)>, r: int, cut: int)
    requires
        0 <= cut <= pairs.len(),
        forall|k: int| 0 <= k < pairs.len() ==> (k < cut <==> (#[trigger] pairs[k]).0 < r),
    ensures
        rows_below(pairs, r) == cut,
    decreases pairs.len(),
{
    if pairs.len() > 0 {
        let n = pairs.len() as int;
        let rest = pairs.drop_last();
        assert forall|k: int| 0 <= k < rest.len() implies rest[k] == pairs[k] by {}
        if cut == n {
            assert(pairs[n - 1].0 < r);
            lemma_rows_below(rest, r, cut - 1);
        } else {
            assert(!(pairs[n - 1].0 < r));
            lemma_rows_below(rest, r, cut);
        }
    }
}

/// One more entry of a sequence is one more member of its set.
pub proof fn lemma_take_to_set(s: Seq<usize>, i: int)
    requires
        0 <= i < s.len(),
    ensures
        s.take(i + 1).to_set() == s.take(i).to_set().insert(s[i]),
{
    let before = s.take(i);
    let after = s.take(i + 1);
    assert forall|x: usize| after.to_set().contains(x) <==> before.to_set().insert(s[i]).contains(
        x,
    ) by {
        if before.contains(x) {
            let k = choose|k: int| 0 <= k < before.len() && before[k] == x;
            assert(after[k] == x);
        }
        if x == s[i] {
            assert(after[i] == x);
        }
        if after.contains(x) {
            let k = choose|k: int| 0 <= k < after.len() && after[k] == x;
            if k < i {
                assert(before[k] == x);
            }
        }
    }
    assert(after.to_set() =~= before.to_set().insert(s[i]));
}

/// `fr` cuts `len` entries into consecutive rows.
spec fn is_row_pointer(fr: Seq<usize>, len: int) -> bool {
    &&& 2 <= fr.len() <= usize::MAX
    &&& fr[0] == 0
    &&& fr[fr.len() - 1] == len
    &&& forall|a: int, b: int| 0 <= a <= b < fr.len() ==> #[trigger] fr[a] <= #[trigger] fr[b]
}

/// Entry `k` lies in row `r`.
spec fn in_row(fr: Seq<usize>, r: int, k: int) -> bool {
    0 <= r < fr.len() - 1 && fr[r] <= k < fr[r + 1]
}

/// The row that entry `k` lies in.
spec fn row_at(fr: Seq<usize>, k: int) -> int {
    choose|r: int| in_row(fr, r, k)
}

/// The pairs that the two arrays of a compressed layout stand for.
spec fn pairs_of(fr: Seq<usize>, to: Seq<usize>) -> Seq<(usize, usize)> {
    Seq::new(to.len(), |k: int| (row_at(fr, k) as usize, to[k]))
}

/// The three parts of a matrix fit together: the rows cut the columns, the
/// last row is not empty unless it is the only one, the pairs stand in
/// order, and `to_max` is the largest column.
spec fn is_layout(fr: Seq<usize>, to: Seq<usize>, to_max: usize) -> bool {
    &&& is_row_pointer(fr, to.len() as int)
    &&& (fr.len() == 2 || fr[fr.len() - 2] < fr[fr.len() - 1])
    &&& is_sorted(pairs_of(fr, to))
    &&& forall|k: int| 0 <= k < to.len() ==> #[trigger] to[k] <= to_max
    &&& (to_max == 0 || exists|k: int| 0 <= k < to.len() && #[trigger] to[k] == to_max)
    &&& to_max < usize::MAX
}

proof fn lemma_find_row(fr: Seq<usize>, k: int, hi: int) -> (r: int)
    requires
        0 < hi < fr.len(),
        fr[0] <= k < fr[hi],
    ensures
        0 <= r < hi,
        fr[r] <= k < fr[r + 1],
    decreases hi,
{
    if fr[hi - 1] <= k {
        hi - 1
    } else {
        lemma_find_row(fr, k, hi - 1)
    }
}

/// Each entry lies in exactly one row.
proof fn lemma_row_at(fr: Seq<usize>, len: int, k: int)
    requires
        is_row_pointer(fr, len),
        0 <= k < len,
    ensures
        0 <= row_at(fr, k) < fr.len() - 1,
        fr[row_at(fr, k)] <= k < fr[row_at(fr, k) + 1],
        forall|r: int| in_row(fr, r, k) ==> r == row_at(fr, k),
{
    let w = lemma_find_row(fr, k, fr.len() - 1);
    assert(in_row(fr, w, k));
    let c = row_at(fr, k);
    assert forall|r: int| in_row(fr, r, k) implies r == c by {
        if r < c {
            assert(fr[r + 1] <= fr[c]);
        } else if c < r {
            assert(fr[c + 1] <= fr[r]);
        }
    }
}

/// The pairs of a compressed layout, entry by entry.
proof fn lemma_pairs_of(fr: Seq<usize>, to: Seq<usize>)
    requires
        is_row_pointer(fr, to.len() as int),
    ensures
        pairs_of(fr, to).len() == to.len(),
        forall|k: int|
            0 <= k < to.len() ==> {
                let p = #[trigger] pairs_of(fr, to)[k];
                &&& p.1 == to[k]
                &&& 0 <= p.0 < fr.len() - 1
                &&& fr[p.0 as int] <= k < fr[p.0 + 1]
            },
{
    assert forall|k: int| 0 <= k < to.len() implies {
        let p = #[trigger] pairs_of(fr, to)[k];
        &&& p.1 == to[k]
        &&& 0 <= p.0 < fr.len() - 1
        &&& fr[p.0 as int] <= k < fr[p.0 + 1]
    } by {
        lemma_row_at(fr, to.len() as int, k);
    }
}

/// Sorted indices: compressed rows of a sparse matrix without its values.
#[derive(Debug)]
pub struct ConnectionMatrix {
    /// `fr[r]` is where row `r` starts in `to`; one entry more than rows
    fr: Vec<usize>,
    /// the columns, row after row
    to: Vec<usize>,
    /// the largest column, zero where there is none
    to_max: usize,
}

impl View for ConnectionMatrix {
    type V = Seq<(usize, usize)>;

    /// The pairs of the matrix in lexicographic order.
    closed spec fn view(&self) -> Seq<(usize, usize)> {
        pairs_of(self.fr@, self.to@)
    }
}

impl ConnectionMatrix {
    #[verifier::type_invariant]
    pub closed spec fn well_formed(&self) -> bool {
        is_layout(self.fr@, self.to@, self.to_max)
    }

    /// The number of rows.
    pub open spec fn num_rows(&self) -> int {
        row_count(self@)
    }

    /// The column bound: one more than the largest column.
    pub open spec fn num_cols(&self) -> int {
        column_count(self@)
    }

    /// The columns of row `r`.
    pub open spec fn row(&self, r: int) -> Seq<usize> {
        columns_of(self@, r)
    }

    /// The columns that the rows in `rows` are connected to.
    pub open spec fn image(&self, rows: Set<usize>) -> Set<usize> {
        Set::new(|c: usize| exists|r: usize| rows.contains(r) && self@.contains((r, c)))
    }

    /// What holds of the pairs of every matrix.
    pub proof fn lemma_pairs(&self)
        requires
            self.well_formed(),
        ensures
            is_sorted(self@),
            columns_fit(self@),
            self.num_rows() >= 1,
            self.num_cols() >= 1,
            self.num_cols() <= usize::MAX,
            forall|k: int|
                0 <= k < self@.len() ==> (#[trigger] self@[k]).0 < self.num_rows() && self@[k].1
                    < self.num_cols(),
    {
        self.lemma_layout();
        lemma_max_column_bounds(self@);
    }

    /// How the two arrays and the pairs belong together.
    proof fn lemma_layout(&self)
        requires
            self.well_formed(),
        ensures
            self@.len() == self.to@.len(),
            self.fr@.len() == self.num_rows() + 1,
            self.to_max == max_column(self@),
            is_sorted(self@),
            forall|k: int|
                0 <= k < self@.len() ==> {
                    let p = #[trigger] self@[k];
                    &&& p.1 == self.to@[k]
                    &&& 0 <= p.0 < self.num_rows()
                    &&& self.fr@[p.0 as int] <= k < self.fr@[p.0 + 1]
                },
            forall|r: int, k: int|
                0 <= r <= self.num_rows() && 0 <= k < self@.len() ==> (k < #[trigger] self.fr@[r]
                    <==> (#[trigger] self@[k]).0 < r),
    {
        let fr = self.fr@;
        let to = self.to@;
        let pairs = self@;
        lemma_pairs_of(fr, to);
        let rows = fr.len() - 1;
        if to.len() == 0 {
            assert(fr[rows - 1] <= fr[rows]);
        } else {
            let last = to.len() - 1;
            assert(pairs.last() == pairs[last]);
            let r = pairs[last].0 as int;
            if r < rows - 1 {
                assert(fr[r + 1] <= fr[rows - 1]);
            }
        }
        assert forall|k: int| 0 <= k < pairs.len() implies (#[trigger] pairs[k]).1
            <= self.to_max by {
            assert(to[k] <= self.to_max);
        }
        if self.to_max != 0 {
            let k = choose|k: int| 0 <= k < to.len() && #[trigger] to[k] == self.to_max;
            assert(pairs[k].1 == self.to_max);
        }
        lemma_max_column(pairs, self.to_max as int);
        assert forall|r: int, k: int| 0 <= r <= rows && 0 <= k < pairs.len() implies (k
            < #[trigger] fr[r] <==> (#[trigger] pairs[k]).0 < r) by {
            let p = pairs[k].0 as int;
            if p < r {
                assert(fr[p + 1] <= fr[r]);
            } else {
                assert(fr[r] <= fr[p]);
            }
        }
    }

    /// Matrices with the same pairs have the same layout.
    proof fn lemma_same_pairs_same_layout(a: Self, b: Self)
        requires
            a.well_formed(),
            b.well_formed(),
            a@ == b@,
        ensures
            a.fr@ == b.fr@,
            a.to@ == b.to@,
            a.to_max == b.to_max,
    {
        a.lemma_layout();
        b.lemma_layout();
        let pairs = a@;
        assert forall|k: int| 0 <= k < a.to@.len() implies a.to@[k] == b.to@[k] by {
            assert(a@[k].1 == a.to@[k]);
            assert(b@[k].1 == b.to@[k]);
        }
        assert(a.to@ =~= b.to@);
        assert forall|r: int| 0 <= r < a.fr@.len() implies a.fr@[r] == b.fr@[r] by {
            let x = a.fr@[r] as int;
            let y = b.fr@[r] as int;
            let last = a.fr@.len() - 1;
            assert(a.fr@[r] <= a.fr@[last]);
            assert(b.fr@[r] <= b.fr@[last]);
            if x < y {
                assert(x < b.fr@[r] <==> pairs[x].0 < r);
                assert(x < a.fr@[r] <==> pairs[x].0 < r);
            } else if y < x {
                assert(y < a.fr@[r] <==> pairs[y].0 < r);
                assert(y < b.fr@[r] <==> pairs[y].0 < r);
            }
        }
        assert(a.fr@ =~= b.fr@);
    }

    /// Compresses pairs that stand in lexicographic order.
    fn build(indices: &Vec<(usize, usize)>) -> (m: Self)
        requires
            is_sorted(indices@),
            columns_fit(indices@),
        ensures
            m@ == indices@,
    {
        let len = indices.len();
        let mut to: Vec<usize> = Vec::with_capacity(len);
        let mut fr: Vec<usize> = Vec::new();
        fr.push(0);
        let mut current_fr: usize = 0;
        let mut to_max: usize = 0;
        let mut n: usize = 0;
        while n < len
            invariant
                len == indices@.len(),
                n <= len,
                is_sorted(indices@),
                columns_fit(indices@),
                to@.len() == n,
                forall|k: int| 0 <= k < n ==> #[trigger] to@[k] == indices@[k].1,
                fr@.len() == current_fr + 1,
                fr@[0] == 0,
                forall|a: int, b: int| 0 <= a <= b < fr@.len() ==> #[trigger] fr@[a] <= #[trigger] fr@[b],
                forall|r: int| 0 <= r < fr@.len() ==> #[trigger] fr@[r] <= n,
                n == 0 ==> current_fr == 0,
                n > 0 ==> current_fr == indices@[n - 1].0,
                forall|r: int, k: int|
                    0 <= r < fr@.len() && 0 <= k < len ==> (k < #[trigger] fr@[r] <==> (
                    #[trigger] indices@[k]).0 < r),
                forall|k: int| 0 <= k < n ==> #[trigger] to@[k] <= to_max,
                to_max == 0 || exists|k: int| 0 <= k < n && #[trigger] to@[k] == to_max,
                to_max < usize::MAX,
            decreases len - n,
        {
            let (f, t) = indices[n];
            proof {
                if n > 0 {
                    assert(pair_le(indices@[n - 1], indices@[n as int]));
                }
            }
            while f != current_fr
                invariant
                    len == indices@.len(),
                    n < len,
                    is_sorted(indices@),
                    f == indices@[n as int].0,
                    current_fr <= f,
                    fr@.len() == current_fr + 1,
                    fr@[0] == 0,
                    forall|a: int, b: int|
                        0 <= a <= b < fr@.len() ==> #[trigger] fr@[a] <= #[trigger] fr@[b],
                    forall|r: int| 0 <= r < fr@.len() ==> #[trigger] fr@[r] <= n,
                    n == 0 || current_fr >= indices@[n - 1].0,
                    forall|r: int, k: int|
                        0 <= r < fr@.len() && 0 <= k < len ==> (k < #[trigger] fr@[r] <==> (
                        #[trigger] indices@[k]).0 < r),
                decreases f - current_fr,
            {
                let ghost before = fr@;
                fr.push(n);
                current_fr += 1;
                proof {
                    assert forall|r: int, k: int| 0 <= r < fr@.len() && 0 <= k < len implies (k
                        < #[trigger] fr@[r] <==> (#[trigger] indices@[k]).0 < r) by {
                        if r < before.len() {
                            assert(fr@[r] == before[r]);
                        } else {
                            if k < n {
                                assert(pair_le(indices@[k], indices@[n - 1]));
                            } else if k > n {
                                assert(pair_le(indices@[n as int], indices@[k]));
                            }
                        }
                    }
                    assert forall|a: int, b: int| 0 <= a <= b < fr@.len() implies #[trigger] fr@[a]
                        <= #[trigger] fr@[b] by {
                        if b < before.len() {
                            assert(before[a] <= before[b]);
                        } else if a < before.len() {
                            assert(before[a] <= n);
                        }
                    }
                }
            }
            if t > to_max {
                to_max = t;
            }
            let ghost prev = to@;
            to.push(t);
            proof {
                assert(to@[n as int] == t);
                assert forall|k: int| 0 <= k < n + 1 implies #[trigger] to@[k] <= to_max by {
                    if k < n {
                        assert(prev[k] == to@[k]);
                    }
                }
                if to_max != 0 && to_max != t {
                    let k = choose|k: int| 0 <= k < n && #[trigger] prev[k] == to_max;
                    assert(to@[k] == to_max);
                }
            }
            n += 1;
        }
        let ghost before = fr@;
        fr.push(len);
        proof {
            assert forall|r: int, k: int| 0 <= r < fr@.len() && 0 <= k < len implies (k
                < #[trigger] fr@[r] <==> (#[trigger] indices@[k]).0 < r) by {
                if r < before.len() {
                    assert(fr@[r] == before[r]);
                } else if k < len - 1 {
                    assert(pair_le(indices@[k], indices@[len - 1]));
                }
            }
            assert forall|a: int, b: int| 0 <= a <= b < fr@.len() implies #[trigger] fr@[a]
                <= #[trigger] fr@[b] by {
                if b < before.len() {
                    assert(before[a] <= before[b]);
                } else if a < before.len() {
                    assert(before[a] <= len);
                }
            }
            assert(fr@.len() == fr.len());
            assert(is_row_pointer(fr@, len as int));
            lemma_pairs_of(fr@, to@);
            let pairs = pairs_of(fr@, to@);
            assert forall|k: int| 0 <= k < len implies pairs[k] == indices@[k] by {
                let r = indices@[k].0 as int;
                assert(in_row(fr@, r, k)) by {
                    assert(!(k < fr@[r]));
                    assert(k < fr@[r + 1]);
                }
                lemma_row_at(fr@, len as int, k);
                assert(to@[k] == indices@[k].1);
            }
            assert(pairs =~= indices@);
            if len > 0 {
                assert(!(len - 1 < fr@[current_fr as int]));
            }
            assert(is_layout(fr@, to@, to_max));
        }
        ConnectionMatrix { fr, to, to_max }
    }

    /// Create a connection matrix from pairs of indices that come in
    /// lexicographic order, and refuse pairs that do not.
    pub fn from_sorted_vec(indices: Vec<(usize, usize)>) -> (res: Result<Self, MeshError>)
        requires
            columns_fit(indices@),
        ensures
            match res {
                Ok(m) => is_sorted(indices@) && m@ == indices@,
                Err(e) => !is_sorted(indices@) && e == MeshError::UnsortedInputViolation,
            },
    {
        if is_sorted_pairs(indices.as_slice()) {
            Ok(Self::build(&indices))
        } else {
            Err(MeshError::UnsortedInputViolation)
        }
    }

    /// Create a connection matrix from pairs of indices in any order. The
    /// pairs are sorted; a pair that is given twice is kept twice.
    pub fn from_vec(indices: Vec<(usize, usize)>) -> (m: Self)
        requires
            columns_fit(indices@),
        ensures
            m@ == sorted_pairs(indices@),
    {
        let ghost given = indices@;
        let sorted = sort_pairs(indices);
        proof {
            lemma_sorted_pairs(given);
            lemma_sorted_pairs_contains(given);
            assert forall|k: int| 0 <= k < sorted@.len() implies (#[trigger] sorted@[k]).1
                < usize::MAX by {
                assert(sorted@.contains(sorted@[k]));
                assert(given.contains(sorted@[k]));
            }
        }
        Self::build(&sorted)
    }

    /// Create a connection matrix from a series of pairs of indices. The
    /// pairs are sorted.
    pub fn from_iter<Iter: Iterator<Item = (usize, usize)>>(iter: Iter) -> (m: Self)
        requires
            iter.obeys_prophetic_iter_laws(),
            iter.decrease() is Some,
            columns_fit(iter.remaining()),
        ensures
            m@ == sorted_pairs(iter.remaining()),
    {
        let mut rest = iter;
        let mut indices: Vec<(usize, usize)> = Vec::new();
        loop
            invariant
                rest.obeys_prophetic_iter_laws(),
                rest.decrease() is Some,
                indices@ + rest.remaining() == iter.remaining(),
            ensures
                indices@ == iter.remaining(),
            decreases rest.decrease()->0,
        {
            match rest.next() {
                Some(pair) => {
                    indices.push(pair);
                },
                None => {
                    break ;
                },
            }
        }
        Self::from_vec(indices)
    }

    /// The columns of a row that the matrix has.
    fn row_slice(&self, from_index: usize) -> (s: &[usize])
        requires
            from_index < self.num_rows(),
        ensures
            s@ == self.row(from_index as int),
            ascending(s@),
    {
        proof {
            use_type_invariant(self);
            self.lemma_layout();
        }
        let first = self.fr[from_index];
        let last = self.fr[from_index + 1];
        proof {
            let r = from_index as int;
            assert(self.fr@[r] <= self.fr@[r + 1]);
            assert(self.fr@[r + 1] <= self.fr@[self.fr@.len() - 1]);
            assert forall|k: int| 0 <= k < self@.len() implies (first <= k < last <==> (
            #[trigger] self@[k]).0 == r) by {
                assert(k < self.fr@[r] <==> self@[k].0 < r);
                assert(k < self.fr@[r + 1] <==> self@[k].0 < r + 1);
            }
            lemma_columns_of_run(self@, r, first as int, last as int);
            let columns = self.to@.subrange(first as int, last as int);
            assert(columns =~= self.row(r));
            assert forall|i: int, j: int| 0 <= i < j < columns.len() implies #[trigger] columns[i]
                <= #[trigger] columns[j] by {
                assert(pair_le(self@[first + i], self@[first + j]));
            }
        }
        vstd::slice::slice_subrange(self.to.as_slice(), first, last)
    }

    /// The columns of row `from_index`, in increasing order.
    pub fn get_connected(&self, from_index: usize) -> (res: Result<&[usize], MeshError>)
        ensures
            match res {
                Ok(s) => from_index < self.num_rows() && s@ == self.row(from_index as int)
                    && ascending(s@),
                Err(e) => from_index >= self.num_rows() && e == MeshError::IndexOutOfRange,
            },
    {
        proof {
            use_type_invariant(self);
            self.lemma_layout();
        }
        if from_index < self.fr.len() - 1 {
            Ok(self.row_slice(from_index))
        } else {
            Err(MeshError::IndexOutOfRange)
        }
    }

    /// The number of rows and the column bound.
    pub fn shape(&self) -> (s: (usize, usize))
        ensures
            s.0 == self.num_rows(),
            s.1 == self.num_cols(),
    {
        proof {
            use_type_invariant(self);
            self.lemma_layout();
        }
        (self.fr.len() - 1, self.to_max + 1)
    }

    /// The pairs of the matrix, one after the other in lexicographic order.
    pub fn indices(&self) -> (iter: IndexIter<'_>)
        ensures
            iter.pairs_left() == self@,
    {
        proof {
            use_type_invariant(self);
            assert(self@.skip(0) =~= self@);
        }
        IndexIter { matrix: self, f_index: 0, t_index: 0 }
    }

    /// The matrix with rows and columns exchanged.
    pub fn transpose(&self) -> (t: Self)
        ensures
            t@ == sorted_pairs(swapped(self@)),
            t.num_rows() == self.num_cols(),
            t.num_cols() == self.num_rows(),
    {
        proof {
            use_type_invariant(self);
            self.lemma_layout();
            lemma_transposed_rows(self@);
            lemma_transposed_columns(self@);
        }
        let mut flipped: Vec<(usize, usize)> = Vec::with_capacity(self.to.len());
        let mut pairs = self.indices();
        loop
            invariant
                flipped@.len() <= self@.len(),
                pairs.pairs_left() == self@.skip(flipped@.len() as int),
                forall|k: int|
                    0 <= k < flipped@.len() ==> #[trigger] flipped@[k] == (self@[k].1, self@[k].0),
            ensures
                flipped@ == swapped(self@),
            decreases pairs.pairs_left().len(),
        {
            let ghost done = flipped@.len() as int;
            match pairs.next() {
                Some(pair) => {
                    flipped.push((pair.1, pair.0));
                    proof {
                        assert(self@.skip(done)[0] == self@[done]);
                        assert(self@.skip(done).drop_first() =~= self@.skip(done + 1));
                    }
                },
                None => {
                    assert(flipped@ =~= swapped(self@));
                    break ;
                },
            }
        }
        proof {
            assert forall|k: int| 0 <= k < flipped@.len() implies (#[trigger] flipped@[k]).1
                < usize::MAX by {
                assert(self@[k].0 < self.num_rows());
            }
        }
        Self::from_vec(flipped)
    }

    /// The columns that the rows in `rows`, all of which the matrix has, are
    /// connected to.
    pub(crate) fn image_of(&self, rows: &BTreeSet<usize>) -> (s: BTreeSet<usize>)
        requires
            forall|r: usize| rows@.contains(r) ==> r < self.num_rows(),
        ensures
            s@ == self.image(rows@),
    {
        let members = to_sorted_vec(rows);
        let mut out: BTreeSet<usize> = BTreeSet::new();
        let mut i: usize = 0;
        proof {
            assert(self.image(members@.take(0).to_set()) =~= Set::<usize>::empty());
        }
        while i < members.len()
            invariant
                i <= members@.len(),
                members@.to_set() == rows@,
                forall|r: usize| rows@.contains(r) ==> r < self.num_rows(),
                out@ == self.image(members@.take(i as int).to_set()),
            decreases members@.len() - i,
        {
            let r = members[i];
            proof {
                assert(members@.contains(r));
                assert(rows@.contains(r));
                lemma_take_to_set(members@, i as int);
                self.lemma_image_insert(members@.take(i as int).to_set(), r);
            }
            out = extended(out, self.row_slice(r));
            i += 1;
        }
        proof {
            assert(members@.take(members@.len() as int) =~= members@);
        }
        out
    }

    /// The columns that the rows in `rows` are connected to.
    pub fn gather_connected(&self, rows: &BTreeSet<usize>) -> (res: Result<
        BTreeSet<usize>,
        MeshError,
    >)
        ensures
            match res {
                Ok(s) => s@ == self.image(rows@) && forall|r: usize|
                    rows@.contains(r) ==> r < self.num_rows(),
                Err(e) => e == MeshError::IndexOutOfRange && exists|r: usize|
                    rows@.contains(r) && r >= self.num_rows(),
            },
    {
        let members = to_sorted_vec(rows);
        let count = members.len();
        let bound = self.shape().0;
        if count > 0 && members[count - 1] >= bound {
            proof {
                let r = members@[count - 1];
                assert(members@.contains(r));
                assert(rows@.contains(r) && r >= self.num_rows());
            }
            return Err(MeshError::IndexOutOfRange);
        }
        proof {
            assert forall|r: usize| rows@.contains(r) implies r < self.num_rows() by {
                assert(members@.contains(r));
                let k = choose|k: int| 0 <= k < members@.len() && members@[k] == r;
                if k < count - 1 {
                    assert(members@[k] < members@[count - 1]);
                }
            }
        }
        Ok(self.image_of(rows))
    }

    /// The columns that the rows listed in `from_indices` are connected to,
    /// each once and in increasing order.
    pub fn map(&self, from_indices: &[usize]) -> (res: Result<Vec<usize>, MeshError>)
        ensures
            match res {
                Ok(v) => {
                    &&& strictly_increasing(v@)
                    &&& v@.to_set() == self.image(from_indices@.to_set())
                    &&& forall|k: int|
                        0 <= k < from_indices@.len() ==> #[trigger] from_indices@[k]
                            < self.num_rows()
                },
                Err(e) => e == MeshError::IndexOutOfRange && exists|k: int|
                    0 <= k < from_indices@.len() && #[trigger] from_indices@[k] >= self.num_rows(),
            },
    {
        let rows = from_slice(from_indices);
        match self.gather_connected(&rows) {
            Ok(columns) => {
                proof {
                    assert forall|k: int| 0 <= k < from_indices@.len() implies #[trigger] from_indices@[k]
                        < self.num_rows() by {
                        assert(from_indices@.contains(from_indices@[k]));
                        assert(rows@.contains(from_indices@[k]));
                    }
                }
                Ok(to_sorted_vec(&columns))
            },
            Err(e) => {
                proof {
                    let r = choose|r: usize| rows@.contains(r) && r >= self.num_rows();
                    assert(from_indices@.contains(r));
                    let k = choose|k: int| 0 <= k < from_indices@.len() && from_indices@[k] == r;
                    assert(from_indices@[k] >= self.num_rows());
                }
                Err(e)
            },
        }
    }

    /// Where each row starts among the columns, and at the end the number
    /// of pairs.
    pub fn row_pointers(&self) -> (s: &[usize])
        ensures
            s@.len() == self.num_rows() + 1,
            forall|r: int| 0 <= r < s@.len() ==> #[trigger] s@[r] == rows_below(self@, r),
    {
        proof {
            use_type_invariant(self);
            self.lemma_layout();
            assert forall|r: int| 0 <= r < self.fr@.len() implies #[trigger] self.fr@[r]
                == rows_below(self@, r) by {
                let last = self.fr@.len() - 1;
                assert(self.fr@[r] <= self.fr@[last]);
                assert forall|k: int| 0 <= k < self@.len() implies (k < self.fr@[r] <==> (
                #[trigger] self@[k]).0 < r) by {
                    assert(k < self.fr@[r] <==> self@[k].0 < r);
                }
                lemma_rows_below(self@, r, self.fr@[r] as int);
            }
        }
        self.fr.as_slice()
    }

    /// The columns of all pairs, row after row.
    pub fn columns(&self) -> (s: &[usize])
        ensures
            s@.len() == self@.len(),
            forall|k: int| 0 <= k < s@.len() ==> #[trigger] s@[k] == self@[k].1,
    {
        proof {
            use_type_invariant(self);
            self.lemma_layout();
        }
        self.to.as_slice()
    }

    /// Building a matrix from the pairs of a matrix gives the same pairs
    /// again: they stand in order already, and sorting leaves them so.
    pub proof fn lemma_round_trip(&self)
        requires
            self.well_formed(),
        ensures
            sorted_pairs(self@) == self@,
    {
        self.lemma_layout();
        lemma_sorted_pairs_of_sorted(self@);
    }

    /// Every connected column lies below the column bound.
    pub proof fn lemma_image_in_range(&self, rows: Set<usize>)
        requires
            self.well_formed(),
        ensures
            forall|c: usize| self.image(rows).contains(c) ==> c < self.num_cols(),
    {
        self.lemma_pairs();
        assert forall|c: usize| self.image(rows).contains(c) implies c < self.num_cols() by {
            let r = choose|r: usize| rows.contains(r) && self@.contains((r, c));
            let k = choose|k: int| 0 <= k < self@.len() && self@[k] == (r, c);
            assert(self@[k].1 < self.num_cols());
        }
    }

    /// The columns that a set of rows is connected to are the columns of
    /// these rows, taken together.
    pub proof fn lemma_image_is_union_of_rows(&self, rows: Set<usize>)
        ensures
            forall|c: usize|
                self.image(rows).contains(c) <==> exists|r: usize|
                    rows.contains(r) && #[trigger] self.row(r as int).contains(c),
            self.image(Set::<usize>::empty()) == Set::<usize>::empty(),
    {
        assert forall|c: usize|
            self.image(rows).contains(c) <==> exists|r: usize|
                rows.contains(r) && #[trigger] self.row(r as int).contains(c) by {
            if self.image(rows).contains(c) {
                let r = choose|r: usize| rows.contains(r) && self@.contains((r, c));
                lemma_columns_of_contains(self@, r, c);
                assert(rows.contains(r) && self.row(r as int).contains(c));
            }
            if exists|r: usize| rows.contains(r) && #[trigger] self.row(r as int).contains(c) {
                let r = choose|r: usize| rows.contains(r) && #[trigger] self.row(r as int).contains(c);
                lemma_columns_of_contains(self@, r, c);
                assert(rows.contains(r) && self@.contains((r, c)));
            }
        }
        assert(self.image(Set::<usize>::empty()) =~= Set::<usize>::empty());
    }

    /// Taking one more row adds the columns of that row.
    pub proof fn lemma_image_insert(&self, rows: Set<usize>, r: usize)
        ensures
            self.image(rows.insert(r)) == self.image(rows).union(self.row(r as int).to_set()),
    {
        let lhs = self.image(rows.insert(r));
        let rhs = self.image(rows).union(self.row(r as int).to_set());
        assert forall|c: usize| lhs.contains(c) <==> rhs.contains(c) by {
            lemma_columns_of_contains(self@, r, c);
            if lhs.contains(c) {
                let q = choose|q: usize| rows.insert(r).contains(q) && self@.contains((q, c));
                if q != r {
                    assert(rows.contains(q) && self@.contains((q, c)));
                }
            }
            if self.image(rows).contains(c) {
                let q = choose|q: usize| rows.contains(q) && self@.contains((q, c));
                assert(rows.insert(r).contains(q) && self@.contains((q, c)));
            }
            if self.row(r as int).contains(c) {
                assert(rows.insert(r).contains(r) && self@.contains((r, c)));
            }
        }
        assert(lhs =~= rhs);
    }
}

impl Clone for ConnectionMatrix {
    fn clone(&self) -> (m: Self)
        ensures
            m@ == self@,
    {
        proof {
            use_type_invariant(self);
        }
        let fr = self.fr.clone();
        let to = self.to.clone();
        assert(fr@ =~= self.fr@);
        assert(to@ =~= self.to@);
        ConnectionMatrix { fr, to, to_max: self.to_max }
    }
}

impl PartialEq for ConnectionMatrix {
    /// Two matrices are equal if they hold the same pairs.
    fn eq(&self, other: &Self) -> (r: bool) {
        proof {
            use_type_invariant(self);
            use_type_invariant(other);
            if self@ == other@ {
                Self::lemma_same_pairs_same_layout(*self, *other);
            }
        }
        let r = self.to_max == other.to_max && self.fr == other.fr && self.to == other.to;
        proof {
            if r {
                assert(self.fr@ =~= other.fr@);
                assert(self.to@ =~= other.to@);
            }
        }
        r
    }
}

impl vstd::std_specs::cmp::PartialEqSpecImpl for ConnectionMatrix {
    open spec fn obeys_eq_spec() -> bool {
        true
    }

    open spec fn eq_spec(&self, other: &Self) -> bool {
        self@ == other@
    }
}

impl Eq for ConnectionMatrix {

}

/// Walks over the pairs of a matrix in lexicographic order.
#[derive(Debug)]
pub struct IndexIter<'mat> {
    matrix: &'mat ConnectionMatrix,
    /// the row of the next pair, or a row before it
    f_index: usize,
    /// the place of the next pair among the columns
    t_index: usize,
}

impl<'mat> IndexIter<'mat> {
    #[verifier::type_invariant]
    spec fn well_formed(&self) -> bool {
        &&& self.matrix.well_formed()
        &&& self.t_index <= self.matrix.to@.len()
        &&& self.f_index < self.matrix.fr@.len() - 1
        &&& self.matrix.fr@[self.f_index as int] <= self.t_index
    }

    /// The pairs that are still to come.
    pub closed spec fn pairs_left(&self) -> Seq<(usize, usize)> {
        self.matrix@.skip(self.t_index as int)
    }
}

impl<'mat> Iterator for IndexIter<'mat> {
    type Item = (usize, usize);

    fn next(&mut self) -> (r: Option<(usize, usize)>) {
        proof {
            use_type_invariant(&*self);
            self.matrix.lemma_layout();
        }
        let matrix = self.matrix;
        if self.t_index >= matrix.to.len() {
            return None;
        }
        while matrix.fr[self.f_index + 1] <= self.t_index
            invariant
                matrix == self.matrix,
                matrix.well_formed(),
                self.t_index == old(self).t_index,
                self.t_index < matrix.to@.len(),
                self.f_index < matrix.fr@.len() - 1,
                matrix.fr@[self.f_index as int] <= self.t_index,
            decreases matrix.fr@.len() - self.f_index,
        {
            proof {
                let last = matrix.fr@.len() - 1;
                assert(matrix.fr@[self.f_index + 1] <= matrix.fr@[last]);
            }
            self.f_index += 1;
        }
        let pair = (self.f_index, matrix.to[self.t_index]);
        proof {
            let k = self.t_index as int;
            assert(in_row(matrix.fr@, self.f_index as int, k));
            lemma_row_at(matrix.fr@, matrix.to@.len() as int, k);
            assert(matrix@[k] == pair);
            assert(matrix@.skip(k + 1) =~= matrix@.skip(k).drop_first());
        }
        self.t_index += 1;
        Some(pair)
    }
}

impl<'mat> vstd::std_specs::iter::IteratorSpecImpl for IndexIter<'mat> {
    open spec fn obeys_prophetic_iter_laws(&self) -> bool {
        true
    }

    open spec fn remaining(&self) -> Seq<(usize, usize)> {
        self.pairs_left()
    }

    open spec fn will_return_none(&self) -> bool {
        true
    }

    open spec fn initial_value_relation(&self, init: &Self) -> bool {
        init.pairs_left() == self.pairs_left()
    }

    open spec fn decrease(&self) -> Option<nat> {
        Some(self.pairs_left().len())
    }

    open spec fn peek(&self, index: int) -> Option<(usize, usize)> {
        if 0 <= index < self.pairs_left().len() {
            Some(self.pairs_left()[index])
        } else {
            None
        }
    }
}

/// Exchanging rows and columns exchanges them in every pair.
pub proof fn lemma_swapped_contains(pairs: Seq<(usize, usize)>, r: usize, c: usize)
    ensures
        swapped(pairs).contains((c, r)) <==> pairs.contains((r, c)),
{
    let s = swapped(pairs);
    if pairs.contains((r, c)) {
        let k = choose|k: int| 0 <= k < pairs.len() && pairs[k] == (r, c);
        assert(s[k] == (c, r));
    }
    if s.contains((c, r)) {
        let k = choose|k: int| 0 <= k < s.len() && s[k] == (c, r);
        assert(pairs[k] == (r, c));
    }
}

/// The transposed pairs connect `c` to `r` exactly if the pairs connect `r`
/// to `c`.
pub proof fn lemma_transposed_contains(pairs: Seq<(usize, usize)>, r: usize, c: usize)
    ensures
        sorted_pairs(swapped(pairs)).contains((c, r)) <==> pairs.contains((r, c)),
{
    lemma_swapped_contains(pairs, r, c);
    lemma_sorted_pairs_contains(swapped(pairs));
}

/// Sorting keeps the column bound.
pub proof fn lemma_sorted_columns(pairs: Seq<(usize, usize)>)
    ensures
        column_count(sorted_pairs(pairs)) == column_count(pairs),
{
    lemma_sorted_pairs_contains(pairs);
    lemma_max_column_same_pairs(sorted_pairs(pairs), pairs);
}

/// The transposed pairs have as many rows as the pairs have columns.
pub proof fn lemma_transposed_rows(pairs: Seq<(usize, usize)>)
    ensures
        row_count(sorted_pairs(swapped(pairs))) == column_count(pairs),
{
    let t = sorted_pairs(swapped(pairs));
    lemma_sorted_pairs(swapped(pairs));
    lemma_sorted_pairs_contains(swapped(pairs));
    lemma_max_column_bounds(pairs);
    if pairs.len() > 0 {
        let n = pairs.len() as int;
        let top = t[n - 1];
        assert(t.contains(top));
        assert(swapped(pairs).contains(top));
        lemma_swapped_contains(pairs, top.1, top.0);
        let at = choose|k: int| 0 <= k < n && pairs[k] == (top.1, top.0);
        assert(pairs[at].1 == top.0);
        assert forall|k: int| 0 <= k < n implies (#[trigger] pairs[k]).1 <= top.0 by {
            lemma_swapped_contains(pairs, pairs[k].0, pairs[k].1);
            assert(pairs.contains(pairs[k]));
            assert(t.contains((pairs[k].1, pairs[k].0)));
            let j = choose|j: int| 0 <= j < t.len() && t[j] == (pairs[k].1, pairs[k].0);
            if j < n - 1 {
                assert(pair_le(t[j], t[n - 1]));
            }
        }
        lemma_max_column(pairs, top.0 as int);
    }
}

/// The transposed pairs of sorted pairs have as many columns as the pairs
/// have rows.
pub proof fn lemma_transposed_columns(pairs: Seq<(usize, usize)>)
    requires
        is_sorted(pairs),
    ensures
        column_count(sorted_pairs(swapped(pairs))) == row_count(pairs),
{
    let t = sorted_pairs(swapped(pairs));
    lemma_sorted_pairs(swapped(pairs));
    lemma_sorted_pairs_contains(swapped(pairs));
    if pairs.len() > 0 {
        let n = pairs.len() as int;
        let high = pairs[n - 1].0;
        assert forall|k: int| 0 <= k < t.len() implies (#[trigger] t[k]).1 <= high by {
            assert(t.contains(t[k]));
            assert(swapped(pairs).contains(t[k]));
            lemma_swapped_contains(pairs, t[k].1, t[k].0);
            let j = choose|j: int| 0 <= j < n && pairs[j] == (t[k].1, t[k].0);
            if j < n - 1 {
                assert(pair_le(pairs[j], pairs[n - 1]));
            }
        }
        lemma_swapped_contains(pairs, pairs[n - 1].0, pairs[n - 1].1);
        assert(pairs.contains(pairs[n - 1]));
        assert(t.contains((pairs[n - 1].1, high)));
        let j = choose|j: int| 0 <= j < t.len() && t[j] == (pairs[n - 1].1, high);
        assert(t[j].1 == high);
        lemma_max_column(t, high as int);
    }
}

/// Exchanging rows and columns exchanges them in every count of a pair.
proof fn lemma_swapped_count(pairs: Seq<(usize, usize)>, r: usize, c: usize)
    ensures
        swapped(pairs).to_multiset().count((c, r)) == pairs.to_multiset().count((r, c)),
    decreases pairs.len(),
{
    broadcast use vstd::seq_lib::group_to_multiset_ensures;

    if pairs.len() == 0 {
        assert(swapped(pairs) =~= Seq::<(usize, usize)>::empty());
        assert(pairs =~= Seq::<(usize, usize)>::empty());
        assert(Seq::<(usize, usize)>::empty().to_multiset().count((r, c)) == 0) by {
            assert(!Seq::<(usize, usize)>::empty().contains((r, c)));
        }
        assert(Seq::<(usize, usize)>::empty().to_multiset().count((c, r)) == 0) by {
            assert(!Seq::<(usize, usize)>::empty().contains((c, r)));
        }
    } else {
        let rest = pairs.drop_last();
        let last = pairs.last();
        lemma_swapped_count(rest, r, c);
        assert(pairs =~= rest.push(last));
        assert(swapped(pairs) =~= swapped(rest).push((last.1, last.0)));
        vstd::seq_lib::to_multiset_build(rest, last);
        vstd::seq_lib::to_multiset_build(swapped(rest), (last.1, last.0));
    }
}

/// Transposing twice gives back the pairs of a matrix.
pub proof fn lemma_transposed_twice(pairs: Seq<(usize, usize)>)
    requires
        is_sorted(pairs),
    ensures
        sorted_pairs(swapped(sorted_pairs(swapped(pairs)))) == pairs,
{
    let once = sorted_pairs(swapped(pairs));
    let back = swapped(once);
    lemma_sorted_pairs(swapped(pairs));
    lemma_sorted_pairs(back);
    assert forall|p: (usize, usize)| back.to_multiset().count(p) == pairs.to_multiset().count(
        p,
    ) by {
        lemma_swapped_count(once, p.1, p.0);
        lemma_swapped_count(pairs, p.0, p.1);
    }
    assert(back.to_multiset() =~= pairs.to_multiset());
    crate::sorting::lemma_sorted_same_pairs(sorted_pairs(back), pairs);
}

} // verus!
