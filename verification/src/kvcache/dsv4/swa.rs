//! Sliding window of the latest key/value rows.
//!
//! The rows lie one after another, oldest first, so that attention sweeps them
//! without any index arithmetic. Once the window is full, a new row pushes the
//! oldest one out.

use crate::kvcache::dsv4::shape::{DSV4_HEAD_DIM, DSV4_N_SWA};
use crate::kvcache::Error;
use vstd::prelude::*;
use vstd::slice::slice_subrange;

verus! {

/// What a window holds.
#[verifier::ext_equal]
pub struct WindowView {
    /// The rows, oldest first, one after another.
    pub rows: Seq<u32>,
    /// Number of rows.
    pub count: nat,
    /// Most rows the window holds.
    pub cap: nat,
    /// Width of a row.
    pub head_dim: nat,
}

impl WindowView {
    /// The row at `idx`, counted from the oldest.
    pub open spec fn row(self, idx: int) -> Seq<u32> {
        self.rows.subrange(idx * self.head_dim, (idx + 1) * self.head_dim)
    }

    /// The window after a row came in.
    pub open spec fn appended(self, row: Seq<u32>) -> WindowView {
        if self.count < self.cap {
            WindowView { rows: self.rows + row, count: self.count + 1, ..self }
        } else {
            WindowView { rows: self.rows.skip(self.head_dim as int) + row, ..self }
        }
    }

    /// The window with its latest `keep` rows alone.
    pub open spec fn truncated(self, keep: nat) -> WindowView {
        if keep >= self.count {
            self
        } else {
            WindowView {
                rows: self.rows.skip((self.count - keep) * self.head_dim),
                count: keep,
                ..self
            }
        }
    }

    /// The window without rows.
    pub open spec fn cleared(self) -> WindowView {
        WindowView { rows: seq![], count: 0, ..self }
    }
}

/// A window without rows.
pub open spec fn empty_window(cap: nat, head_dim: nat) -> WindowView {
    WindowView { rows: seq![], count: 0, cap, head_dim }
}

/// The latest key/value rows of a layer, oldest first.
#[derive(Debug)]
pub struct RawSwaRing {
    buf: Vec<u32>,
    n_raw: usize,
    cap: usize,
    head_dim: usize,
}

impl View for RawSwaRing {
    type V = WindowView;

    closed spec fn view(&self) -> WindowView {
        WindowView {
            rows: self.buf@,
            count: self.n_raw as nat,
            cap: self.cap as nat,
            head_dim: self.head_dim as nat,
        }
    }
}

impl RawSwaRing {
    /// The rows held fill the buffer and do not exceed the capacity.
    pub closed spec fn wf(&self) -> bool {
        &&& 0 < self.cap
        &&& 0 < self.head_dim
        &&& self.n_raw <= self.cap
        &&& self.buf@.len() == self.n_raw * self.head_dim
        &&& self.cap * self.head_dim <= usize::MAX
    }

    /// What `wf` says of the view.
    pub proof fn lemma_wf(&self)
        requires
            self.wf(),
        ensures
            0 < self@.cap,
            0 < self@.head_dim,
            self@.count <= self@.cap,
            self@.rows.len() == self@.count * self@.head_dim,
            self@.cap * self@.head_dim <= usize::MAX,
    {
    }

    /// An empty window of 128 rows of width 512.
    pub fn with_dsv4_defaults() -> (r: Self)
        ensures
            r.wf(),
            r@ == empty_window(DSV4_N_SWA as nat, DSV4_HEAD_DIM as nat),
    {
        Self::new(DSV4_N_SWA, DSV4_HEAD_DIM)
    }

    /// An empty window of `cap` rows of width `head_dim`.
    pub fn new(cap: usize, head_dim: usize) -> (r: Self)
        requires
            0 < cap,
            0 < head_dim,
            cap * head_dim <= usize::MAX,
        ensures
            r.wf(),
            r@ == empty_window(cap as nat, head_dim as nat),
    {
        RawSwaRing { buf: Vec::new(), n_raw: 0, cap, head_dim }
    }

    /// Drops the first `n` numbers of the buffer.
    fn drop_front(&mut self, n: usize)
        requires
            n <= old(self).buf@.len(),
        ensures
            final(self).buf@ == old(self).buf@.skip(n as int),
            final(self).n_raw == old(self).n_raw,
            final(self).cap == old(self).cap,
            final(self).head_dim == old(self).head_dim,
    {
        let len: usize = self.buf.len();
        let ghost before = self.buf@;
        for i in 0..len - n
            invariant
                len == before.len(),
                n <= len,
                self.buf@.len() == len,
                self.n_raw == old(self).n_raw,
                self.cap == old(self).cap,
                self.head_dim == old(self).head_dim,
                forall|k: int| 0 <= k < i ==> self.buf@[k] == before[k + n],
                forall|k: int| i <= k < len ==> self.buf@[k] == before[k],
        {
            let v: u32 = self.buf[i + n];
            self.buf.set(i, v);
        }
        self.buf.truncate(len - n);
        assert(self.buf@ =~= before.skip(n as int));
    }

    /// Takes a row in; a full window loses its oldest one.
    pub fn append(&mut self, row: &[u32]) -> (res: Result<(), Error>)
        requires
            old(self).wf(),
        ensures
            final(self).wf(),
            row@.len() != old(self)@.head_dim ==> {
                &&& final(self)@ == old(self)@
                &&& res == Err::<(), Error>(
                    (Error::ShapeMismatch {
                        what: "RawSwaRing::append: row length",
                        expected: old(self)@.head_dim as usize,
                        actual: row@.len() as usize,
                    }),
                )
            },
            row@.len() == old(self)@.head_dim ==> {
                &&& final(self)@ == old(self)@.appended(row@)
                &&& res is Ok
            },
    {
        let dim: usize = self.head_dim;
        if row.len() != dim {
            return Err(
                Error::ShapeMismatch {
                    what: "RawSwaRing::append: row length",
                    expected: dim,
                    actual: row.len(),
                },
            );
        }
        let ghost before = self.buf@;
        if self.n_raw < self.cap {
            self.buf.extend_from_slice(row);
            assert(self.buf@ =~= before + row@);
            assert((self.n_raw + 1) * self.head_dim == self.n_raw * self.head_dim + self.head_dim)
                by (nonlinear_arith);
            self.n_raw = self.n_raw + 1;
        } else {
            assert(self.n_raw * self.head_dim >= self.head_dim) by (nonlinear_arith)
                requires
                    self.n_raw >= 1,
            ;
            self.drop_front(dim);
            let ghost kept = self.buf@;
            self.buf.extend_from_slice(row);
            assert(self.buf@ =~= kept + row@);
        }
        Ok(())
    }

    /// Number of rows held.
    pub fn len(&self) -> (n: usize)
        ensures
            n == self@.count,
    {
        self.n_raw
    }

    /// Most rows the window holds.
    pub fn capacity(&self) -> (n: usize)
        ensures
            n == self@.cap,
    {
        self.cap
    }

    /// Width of a row.
    pub fn head_dim(&self) -> (n: usize)
        ensures
            n == self@.head_dim,
    {
        self.head_dim
    }

    /// Whether no row is held.
    pub fn is_empty(&self) -> (r: bool)
        ensures
            r == (self@.count == 0),
    {
        self.n_raw == 0
    }

    /// Whether the next row pushes the oldest one out.
    pub fn is_full(&self) -> (r: bool)
        ensures
            r == (self@.count == self@.cap),
    {
        self.n_raw == self.cap
    }

    /// All rows, oldest first, one after another.
    pub fn rows(&self) -> (r: &[u32])
        ensures
            r@ == self@.rows,
    {
        self.buf.as_slice()
    }

    /// The row at `idx`, counted from the oldest.
    pub fn row(&self, idx: usize) -> (res: Result<&[u32], Error>)
        requires
            self.wf(),
        ensures
            idx >= self@.count ==> res == Err::<&[u32], Error>(
                (Error::IndexOutOfRange {
                    what: "RawSwaRing::row",
                    idx,
                    len: self@.count as usize,
                }),
            ),
            idx < self@.count ==> res is Ok && res->Ok_0@ == self@.row(idx as int),
    {
        if idx >= self.n_raw {
            return Err(
                Error::IndexOutOfRange { what: "RawSwaRing::row", idx, len: self.n_raw },
            );
        }
        assert((idx + 1) * self.head_dim <= self.n_raw * self.head_dim) by (nonlinear_arith)
            requires
                idx + 1 <= self.n_raw,
        ;
        assert((idx + 1) * self.head_dim == idx * self.head_dim + self.head_dim) by (nonlinear_arith);
        assert(idx * self.head_dim >= 0) by (nonlinear_arith);
        let len: usize = self.buf.len();
        let off: usize = idx * self.head_dim;
        Ok(slice_subrange(self.buf.as_slice(), off, off + self.head_dim))
    }

    /// Drops every row.
    pub fn clear(&mut self)
        requires
            old(self).wf(),
        ensures
            final(self).wf(),
            final(self)@ == old(self)@.cleared(),
    {
        self.buf.clear();
        self.n_raw = 0;
        assert(self.buf@ =~= seq![]);
    }

    /// Keeps the latest `keep` rows alone.
    pub fn truncate_to_recent(&mut self, keep: usize)
        requires
            old(self).wf(),
        ensures
            final(self).wf(),
            final(self)@ == old(self)@.truncated(keep as nat),
    {
        if keep >= self.n_raw {
            return;
        }
        let gone: usize = self.n_raw - keep;
        assert(gone * self.head_dim + keep * self.head_dim == self.n_raw * self.head_dim)
            by (nonlinear_arith)
            requires
                gone + keep == self.n_raw,
        ;
        assert(keep * self.head_dim >= 0) by (nonlinear_arith);
        let len: usize = self.buf.len();
        self.drop_front(gone * self.head_dim);
        self.n_raw = keep;
    }
}

/// The rows one after another.
pub open spec fn joined(rows: Seq<Seq<u32>>) -> Seq<u32>
    decreases rows.len(),
{
    if rows.len() == 0 {
        seq![]
    } else {
        joined(rows.drop_last()) + rows.last()
    }
}

/// A window that took in `rows` one by one.
pub open spec fn fed(window: WindowView, rows: Seq<Seq<u32>>) -> WindowView
    decreases rows.len(),
{
    if rows.len() == 0 {
        window
    } else {
        fed(window, rows.drop_last()).appended(rows.last())
    }
}

/// The latest rows of a history, at most `cap` of them.
pub open spec fn latest(rows: Seq<Seq<u32>>, cap: nat) -> Seq<Seq<u32>> {
    if rows.len() <= cap {
        rows
    } else {
        rows.skip(rows.len() - cap)
    }
}

proof fn lemma_joined_first(rows: Seq<Seq<u32>>)
    requires
        rows.len() > 0,
    ensures
        joined(rows) == rows[0] + joined(rows.skip(1)),
    decreases rows.len(),
{
    if rows.len() == 1 {
        assert(rows.drop_last() =~= seq![]);
        assert(rows.skip(1) =~= seq![]);
        assert(joined(rows.skip(1)) =~= seq![]);
        assert(joined(rows) =~= rows[0] + joined(rows.skip(1)));
    } else {
        lemma_joined_first(rows.drop_last());
        assert(rows.drop_last().skip(1) =~= rows.skip(1).drop_last());
        assert(joined(rows) =~= rows[0] + joined(rows.skip(1)));
    }
}

/// A window holds the latest rows that came in, as many as it has room for,
/// in the order in which they came.
pub proof fn law_window_holds_the_latest(cap: nat, head_dim: nat, rows: Seq<Seq<u32>>)
    requires
        0 < cap,
        forall|i: int| 0 <= i < rows.len() ==> #[trigger] rows[i].len() == head_dim,
    ensures
        fed(empty_window(cap, head_dim), rows).rows == joined(latest(rows, cap)),
        fed(empty_window(cap, head_dim), rows).count == latest(rows, cap).len(),
        fed(empty_window(cap, head_dim), rows).cap == cap,
        fed(empty_window(cap, head_dim), rows).head_dim == head_dim,
    decreases rows.len(),
{
    if rows.len() == 0 {
    } else {
        let init = rows.drop_last();
        assert forall|i: int| 0 <= i < init.len() implies #[trigger] init[i].len() == head_dim by {
            assert(init[i] == rows[i]);
        }
        law_window_holds_the_latest(cap, head_dim, init);
        let before = fed(empty_window(cap, head_dim), init);
        let kept = latest(init, cap);
        assert(fed(empty_window(cap, head_dim), rows) == before.appended(rows.last()));
        if init.len() < cap {
            assert(latest(rows, cap).drop_last() =~= kept);
            assert(latest(rows, cap).last() == rows.last());
        } else {
            lemma_joined_first(kept);
            assert(kept[0] == rows[init.len() - cap]);
            assert(kept[0].len() == head_dim);
            assert(joined(kept).skip(head_dim as int) =~= joined(kept.skip(1)));
            assert(latest(rows, cap).drop_last() =~= kept.skip(1));
            assert(latest(rows, cap).last() == rows.last());
        }
    }
}

} // verus!
