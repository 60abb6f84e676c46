//! Row-by-row traversal of a row-major buffer, for reading and for writing.
//!
//! Both traversals are described by one mathematical model: the cells that
//! remain, a sequence whose length is a whole number of rows, and the row
//! width. Each operation is a function on that model, and the laws at the
//! end of this file are proved about the model.
use vstd::prelude::*;
use crate::arith::{lemma_row_bounds, lemma_row_count, lemma_whole_rows};

verus! {

/// The remaining cells form whole rows of width `w`.
pub open spec fn whole_rows<T>(s: Seq<T>, w: nat) -> bool {
    w > 0 && s.len() % w == 0
}

/// How many rows remain.
pub open spec fn row_count<T>(s: Seq<T>, w: nat) -> nat {
    s.len() / w
}

/// The `k`-th remaining row.
pub open spec fn row_of<T>(s: Seq<T>, w: nat, k: int) -> Seq<T> {
    s.subrange(k * w, (k + 1) * w)
}

/// What one step forward yields.
pub open spec fn next_row<T>(s: Seq<T>, w: nat) -> Option<Seq<T>> {
    if s.len() == 0 {
        None
    } else {
        Some(row_of(s, w, 0))
    }
}

/// What remains after one step forward.
pub open spec fn next_rest<T>(s: Seq<T>, w: nat) -> Seq<T> {
    if s.len() == 0 {
        s
    } else {
        s.skip(w as int)
    }
}

/// What skipping `n` rows and taking the one after them yields.
pub open spec fn nth_row<T>(s: Seq<T>, w: nat, n: nat) -> Option<Seq<T>> {
    if n >= row_count(s, w) {
        None
    } else {
        Some(row_of(s, w, n as int))
    }
}

/// What remains after skipping `n` rows and taking the one after them.
pub open spec fn nth_rest<T>(s: Seq<T>, w: nat, n: nat) -> Seq<T> {
    if n >= row_count(s, w) {
        Seq::empty()
    } else {
        s.skip(((n + 1) * w) as int)
    }
}

/// The final remaining row, taken from the tail.
pub open spec fn last_row<T>(s: Seq<T>, w: nat) -> Option<Seq<T>> {
    if s.len() == 0 {
        None
    } else {
        Some(s.subrange(s.len() - w, s.len() as int))
    }
}

/// What remains after `k` steps forward.
pub open spec fn rest_after<T>(s: Seq<T>, w: nat, k: nat) -> Seq<T>
    decreases k,
{
    if k == 0 {
        s
    } else {
        next_rest(rest_after(s, w, (k - 1) as nat), w)
    }
}

/// The first `k` rows, one after the other.
pub open spec fn concat_rows<T>(s: Seq<T>, w: nat, k: nat) -> Seq<T>
    decreases k,
{
    if k == 0 {
        Seq::empty()
    } else {
        concat_rows(s, w, (k - 1) as nat) + row_of(s, w, k - 1)
    }
}

/// A traversal of the rows of a buffer. Each row is a shared slice.
#[derive(Clone, Debug)]
pub struct Rows<'a, T> {
    slice: &'a [T],
    num_columns: usize,
}

impl<'a, T> View for Rows<'a, T> {
    type V = Seq<T>;

    /// The cells not yet yielded.
    closed spec fn view(&self) -> Seq<T> {
        self.slice@
    }
}

impl<'a, T> Rows<'a, T> {
    /// The row width.
    pub closed spec fn width(&self) -> nat {
        self.num_columns as nat
    }

    /// The remaining cells are whole rows.
    pub open spec fn wf(&self) -> bool {
        whole_rows(self@, self.width())
    }

    /// A traversal of `slice` in rows of `num_columns` cells.
    pub fn new(slice: &'a [T], num_columns: usize) -> (rows: Self)
        requires
            num_columns > 0,
            slice@.len() % (num_columns as nat) == 0,
        ensures
            rows.wf(),
            rows@ == slice@,
            rows.width() == num_columns,
    {
        Rows { slice, num_columns }
    }

    /// The number of rows not yet yielded.
    pub fn len(&self) -> (n: usize)
        requires
            self.wf(),
        ensures
            n == row_count(self@, self.width()),
    {
        self.slice.len() / self.num_columns
    }

    /// Yields the next row and moves one row forward, or yields nothing
    /// when no row remains.
    pub fn next(&mut self) -> (row: Option<&'a [T]>)
        requires
            old(self).wf(),
        ensures
            final(self).wf(),
            final(self).width() == old(self).width(),
            final(self)@ == next_rest(old(self)@, old(self).width()),
            row is Some <==> next_row(old(self)@, old(self).width()) is Some,
            row is Some ==> next_row(old(self)@, old(self).width()) == Some(row.unwrap()@),
            row is Some ==> row_count(final(self)@, final(self).width()) + 1 == row_count(
                old(self)@,
                old(self).width(),
            ),
    {
        proof {
            lemma_step(self@, self.width());
        }
        if self.slice.len() == 0 {
            None
        } else {
            let (head, tail) = self.slice.split_at(self.num_columns);
            self.slice = tail;
            Some(head)
        }
    }

    /// The exact number of rows not yet yielded, as both bounds.
    pub fn size_hint(&self) -> (hint: (usize, Option<usize>))
        requires
            self.wf(),
        ensures
            hint.0 == row_count(self@, self.width()),
            hint.1 == Some(hint.0),
    {
        let n = self.len();
        (n, Some(n))
    }

    /// Consumes the traversal and returns how many rows it still had.
    pub fn count(self) -> (n: usize)
        requires
            self.wf(),
        ensures
            n == row_count(self@, self.width()),
    {
        self.len()
    }

    /// Skips `n` rows and yields the one after them. When fewer than
    /// `n + 1` rows remain, nothing is yielded and nothing remains.
    pub fn nth(&mut self, n: usize) -> (row: Option<&'a [T]>)
        requires
            old(self).wf(),
        ensures
            final(self).wf(),
            final(self).width() == old(self).width(),
            final(self)@ == nth_rest(old(self)@, old(self).width(), n as nat),
            row is Some <==> nth_row(old(self)@, old(self).width(), n as nat) is Some,
            row is Some ==> nth_row(old(self)@, old(self).width(), n as nat) == Some(
                row.unwrap()@,
            ),
            row is Some ==> row_count(final(self)@, final(self).width()) + n + 1 == row_count(
                old(self)@,
                old(self).width(),
            ),
    {
        let total: usize = self.slice.len();
        let count: usize = self.len();
        proof {
            lemma_skip(self@, self.width(), n as nat);
        }
        if n >= count {
            let (_, tail) = self.slice.split_at(total);
            self.slice = tail;
            assert(self.slice@ =~= Seq::empty());
            None
        } else {
            let start: usize = n * self.num_columns;
            let end: usize = start + self.num_columns;
            let (head, tail) = self.slice.split_at(end);
            let (_, nth) = head.split_at(start);
            self.slice = tail;
            assert(nth@ =~= row_of(old(self)@, old(self).width(), n as int));
            Some(nth)
        }
    }

    /// Consumes the traversal and yields its final row, or nothing when no
    /// row remains.
    pub fn last(self) -> (row: Option<&'a [T]>)
        requires
            self.wf(),
        ensures
            row is Some <==> last_row(self@, self.width()) is Some,
            row is Some ==> last_row(self@, self.width()) == Some(row.unwrap()@),
    {
        proof {
            lemma_step(self@, self.width());
        }
        let total: usize = self.slice.len();
        if total == 0 {
            None
        } else {
            let start: usize = total - self.num_columns;
            let (_, last) = self.slice.split_at(start);
            Some(last)
        }
    }
}

/// A traversal of the rows of a buffer. Each row is an exclusive slice, and
/// no two rows that one traversal yields overlap.
#[derive(Debug)]
pub struct RowsMut<'a, T> {
    /// The region not yet yielded. It is always there between calls; a
    /// method takes it out, splits it into what it yields and what stays,
    /// and puts the rest back.
    slice: Option<&'a mut [T]>,
    num_columns: usize,
}

impl<'a, T> View for RowsMut<'a, T> {
    type V = Seq<T>;

    /// The cells not yet yielded, as they are now.
    open spec fn view(&self) -> Seq<T> {
        self.region().unwrap()@
    }
}

impl<'a, T> RowsMut<'a, T> {
    /// The row width.
    pub closed spec fn width(&self) -> nat {
        self.num_columns as nat
    }

    /// The exclusive borrow of the cells not yet yielded.
    pub closed spec fn region(&self) -> Option<&'a mut [T]> {
        self.slice
    }

    /// The traversal holds a region, and its cells are whole rows.
    pub open spec fn wf(&self) -> bool {
        self.region() is Some && whole_rows(self@, self.width())
    }

    /// A traversal of `slice` in rows of `num_columns` cells. What the
    /// traversal's region holds in the end is what `slice` holds.
    pub fn new(slice: &'a mut [T], num_columns: usize) -> (rows: Self)
        requires
            num_columns > 0,
            old(slice)@.len() % (num_columns as nat) == 0,
        ensures
            rows.wf(),
            rows@ == old(slice)@,
            rows.width() == num_columns,
            final(slice)@ == final(rows.region().unwrap())@,
    {
        RowsMut { slice: Some(slice), num_columns }
    }

    /// The number of rows not yet yielded.
    pub fn len(&self) -> (n: usize)
        requires
            self.wf(),
        ensures
            n == row_count(self@, self.width()),
    {
        match &self.slice {
            Some(s) => s.len() / self.num_columns,
            None => 0,
        }
    }

    /// Yields the next row and moves one row forward, or yields nothing
    /// when no row remains. The region held before ends as the yielded row
    /// followed by the region held afterwards.
    pub fn next(&mut self) -> (row: Option<&'a mut [T]>)
        requires
            old(self).wf(),
        ensures
            final(self).wf(),
            final(self).width() == old(self).width(),
            final(self)@ == next_rest(old(self)@, old(self).width()),
            row is Some <==> next_row(old(self)@, old(self).width()) is Some,
            row is Some ==> next_row(old(self)@, old(self).width()) == Some(row.unwrap()@),
            row is Some ==> row_count(final(self)@, final(self).width()) + 1 == row_count(
                old(self)@,
                old(self).width(),
            ),
            row is Some ==> final(old(self).region().unwrap())@ == final(row.unwrap())@ + final(final(self).region().unwrap())@,
            row is None ==> final(old(self).region().unwrap())@ == final(final(self).region().unwrap())@,
    {
        proof {
            lemma_step(self@, self.width());
        }
        match self.slice.take() {
            None => None,
            Some(s) => {
                if s.len() == 0 {
                    self.slice = Some(s);
                    None
                } else {
                    let (head, tail) = s.split_at_mut(self.num_columns);
                    self.slice = Some(tail);
                    Some(head)
                }
            },
        }
    }

    /// The exact number of rows not yet yielded, as both bounds.
    pub fn size_hint(&self) -> (hint: (usize, Option<usize>))
        requires
            self.wf(),
        ensures
            hint.0 == row_count(self@, self.width()),
            hint.1 == Some(hint.0),
    {
        let n = self.len();
        (n, Some(n))
    }

    /// Consumes the traversal and returns how many rows it still had.
    pub fn count(self) -> (n: usize)
        requires
            self.wf(),
        ensures
            n == row_count(self@, self.width()),
    {
        self.len()
    }

    /// Skips `n` rows and yields the one after them. When fewer than
    /// `n + 1` rows remain, nothing is yielded and nothing remains. The
    /// region held before ends as its skipped rows unchanged, then the
    /// yielded row if there is one, then the region held afterwards.
    pub fn nth(&mut self, n: usize) -> (row: Option<&'a mut [T]>)
        requires
            old(self).wf(),
        ensures
            final(self).wf(),
            final(self).width() == old(self).width(),
            final(self)@ == nth_rest(old(self)@, old(self).width(), n as nat),
            row is Some <==> nth_row(old(self)@, old(self).width(), n as nat) is Some,
            row is Some ==> nth_row(old(self)@, old(self).width(), n as nat) == Some(
                row.unwrap()@,
            ),
            row is Some ==> row_count(final(self)@, final(self).width()) + n + 1 == row_count(
                old(self)@,
                old(self).width(),
            ),
            row is Some ==> final(old(self).region().unwrap())@ == old(self)@.subrange(
                0,
                n * old(self).width(),
            ) + final(row.unwrap())@ + final(final(self).region().unwrap())@,
            row is None ==> final(old(self).region().unwrap())@ == old(self)@ + final(final(self).region().unwrap())@,
    {
        let count: usize = self.len();
        proof {
            lemma_skip(self@, self.width(), n as nat);
        }
        match self.slice.take() {
            None => None,
            Some(s) => {
                let total: usize = s.len();
                if n >= count {
                    let (_, tail) = s.split_at_mut(total);
                    assert(tail@ =~= Seq::empty());
                    self.slice = Some(tail);
                    None
                } else {
                    let start: usize = n * self.num_columns;
                    let end: usize = start + self.num_columns;
                    let (head, tail) = s.split_at_mut(end);
                    let (_, nth) = head.split_at_mut(start);
                    assert(nth@ =~= row_of(old(self)@, old(self).width(), n as int));
                    self.slice = Some(tail);
                    Some(nth)
                }
            },
        }
    }

    /// Consumes the traversal and yields its final row, or nothing when no
    /// row remains. The region held before ends as its earlier rows
    /// unchanged, then the yielded row.
    pub fn last(self) -> (row: Option<&'a mut [T]>)
        requires
            self.wf(),
        ensures
            row is Some <==> last_row(self@, self.width()) is Some,
            row is Some ==> last_row(self@, self.width()) == Some(row.unwrap()@),
            row is Some ==> final(self.region().unwrap())@ == self@.subrange(
                0,
                self@.len() - self.width(),
            ) + final(row.unwrap())@,
            row is None ==> final(self.region().unwrap())@ == self@,
    {
        proof {
            lemma_step(self@, self.width());
        }
        match self.slice {
            None => None,
            Some(s) => {
                let total: usize = s.len();
                if total == 0 {
                    None
                } else {
                    let start: usize = total - self.num_columns;
                    let (_, last) = s.split_at_mut(start);
                    Some(last)
                }
            },
        }
    }
}

/// One step forward stays within the remaining cells and leaves whole rows.
pub proof fn lemma_step<T>(s: Seq<T>, w: nat)
    requires
        whole_rows(s, w),
    ensures
        s.len() > 0 ==> s.len() >= w,
        whole_rows(next_rest(s, w), w),
        s.len() > 0 ==> row_count(next_rest(s, w), w) + 1 == row_count(s, w),
        s.len() == 0 ==> row_count(s, w) == 0,
{
    let n = s.len() as int;
    let q = n / (w as int);
    lemma_whole_rows(n, w as int);
    if n > 0 {
        assert((q - 1) * w == n - w) by (nonlinear_arith)
            requires n == q * w;
        lemma_row_count(q - 1, w as int);
    }
}

/// Skipping to row `n` stays within the remaining cells and leaves whole
/// rows.
pub proof fn lemma_skip<T>(s: Seq<T>, w: nat, n: nat)
    requires
        whole_rows(s, w),
    ensures
        s.len() == row_count(s, w) * w,
        n < row_count(s, w) ==> 0 <= n * w && n * w + w == (n + 1) * w && (n + 1) * w
            <= s.len(),
        whole_rows(nth_rest(s, w, n), w),
        n < row_count(s, w) ==> row_count(nth_rest(s, w, n), w) + n + 1 == row_count(s, w),
{
    let len = s.len() as int;
    let q = len / (w as int);
    lemma_whole_rows(len, w as int);
    if n < q {
        lemma_row_bounds(n as int, q, w as int);
        assert((q - n - 1) * w == len - (n + 1) * w) by (nonlinear_arith)
            requires len == q * w;
        lemma_row_count(q - n - 1, w as int);
    }
}

/// After `k` steps forward, with at least `k` rows to begin with, what
/// remains is the buffer without its first `k` rows.
pub proof fn lemma_rest_after<T>(s: Seq<T>, w: nat, k: nat)
    requires
        whole_rows(s, w),
        k <= row_count(s, w),
    ensures
        0 <= k * w <= s.len(),
        rest_after(s, w, k) == s.skip((k * w) as int),
        whole_rows(rest_after(s, w, k), w),
        row_count(rest_after(s, w, k), w) + k == row_count(s, w),
    decreases k,
{
    let q = row_count(s, w) as int;
    lemma_skip(s, w, 0);
    if k == 0 {
        assert(0 * w == 0) by (nonlinear_arith);
        assert(s.skip(0) =~= s);
    } else {
        lemma_rest_after(s, w, (k - 1) as nat);
        lemma_row_bounds(k - 1, q, w as int);
        let prev = rest_after(s, w, (k - 1) as nat);
        assert(prev.len() == s.len() - (k - 1) * w);
        assert(prev.len() >= w);
        lemma_step(prev, w);
        assert(prev.skip(w as int) =~= s.skip((k * w) as int));
    }
}

/// A traversal yields the rows in increasing order, each `w` cells long:
/// the step after `k` earlier ones yields row `k`, and the step after as
/// many steps as there are rows yields nothing.
pub proof fn lemma_rows_in_order<T>(s: Seq<T>, w: nat, k: nat)
    requires
        whole_rows(s, w),
        k <= row_count(s, w),
    ensures
        k < row_count(s, w) ==> next_row(rest_after(s, w, k), w) == Some(row_of(s, w, k as int))
            && row_of(s, w, k as int).len() == w,
        k == row_count(s, w) ==> next_row(rest_after(s, w, k), w) is None,
{
    let q = row_count(s, w) as int;
    lemma_rest_after(s, w, k);
    lemma_skip(s, w, k);
    let rest = rest_after(s, w, k);
    lemma_step(rest, w);
    if k < q {
        assert(rest.len() > 0);
        assert(0 * w == 0 && (0 + 1) * w == w) by (nonlinear_arith);
        assert(row_of(rest, w, 0) =~= row_of(s, w, k as int));
    }
}

/// The first `k` rows, one after the other, are the first `k * w` cells.
pub proof fn lemma_concat_prefix<T>(s: Seq<T>, w: nat, k: nat)
    requires
        whole_rows(s, w),
        k <= row_count(s, w),
    ensures
        0 <= k * w <= s.len(),
        concat_rows(s, w, k) == s.subrange(0, (k * w) as int),
    decreases k,
{
    let q = row_count(s, w) as int;
    lemma_skip(s, w, 0);
    if k == 0 {
        assert(0 * w == 0) by (nonlinear_arith);
        assert(concat_rows(s, w, 0) =~= s.subrange(0, 0));
    } else {
        lemma_concat_prefix(s, w, (k - 1) as nat);
        lemma_row_bounds(k - 1, q, w as int);
        assert(concat_rows(s, w, k) =~= s.subrange(0, (k * w) as int));
    }
}

/// All the rows of a traversal, one after the other, are the cells it
/// started with.
pub proof fn lemma_rows_cover<T>(s: Seq<T>, w: nat)
    requires
        whole_rows(s, w),
    ensures
        concat_rows(s, w, row_count(s, w)) == s,
{
    lemma_concat_prefix(s, w, row_count(s, w));
    lemma_skip(s, w, 0);
    assert(s.subrange(0, s.len() as int) =~= s);
}

/// Skipping to row `n` yields the row that `n + 1` single steps yield
/// last, and leaves what those steps leave.
pub proof fn lemma_nth_is_repeated_next<T>(s: Seq<T>, w: nat, n: nat)
    requires
        whole_rows(s, w),
        n < row_count(s, w),
    ensures
        nth_row(s, w, n) == next_row(rest_after(s, w, n), w),
        nth_rest(s, w, n) == rest_after(s, w, n + 1),
{
    lemma_rows_in_order(s, w, n);
    lemma_rest_after(s, w, n + 1);
}

/// Skipping past the end yields nothing and leaves nothing, so the next
/// step yields nothing either.
pub proof fn lemma_nth_past_end<T>(s: Seq<T>, w: nat, n: nat)
    requires
        whole_rows(s, w),
        n >= row_count(s, w),
    ensures
        nth_row(s, w, n) is None,
        nth_rest(s, w, n).len() == 0,
        next_row(nth_rest(s, w, n), w) is None,
{
}

/// Taking the last row yields the row that stepping through the whole
/// traversal yields last.
pub proof fn lemma_last_is_final_row<T>(s: Seq<T>, w: nat)
    requires
        whole_rows(s, w),
        s.len() > 0,
    ensures
        row_count(s, w) >= 1,
        last_row(s, w) == next_row(rest_after(s, w, (row_count(s, w) - 1) as nat), w),
        next_row(rest_after(s, w, row_count(s, w)), w) is None,
{
    let q = row_count(s, w);
    lemma_step(s, w);
    lemma_skip(s, w, (q - 1) as nat);
    lemma_rows_in_order(s, w, (q - 1) as nat);
    lemma_rows_in_order(s, w, q);
    assert(s.subrange(s.len() - w, s.len() as int) =~= row_of(s, w, q - 1));
}

} // verus!
