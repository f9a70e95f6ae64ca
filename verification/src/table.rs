//! The per-process resource table of one kind of resource (mutexes or
//! semaphores): the vector of available units, and the allocation and
//! request matrices, one row per thread slot and one column per resource.
use vstd::prelude::*;

verus! {

/// The view of one matrix row: a thread slot without a row has `None`.
pub open spec fn row_view(r: Option<Vec<usize>>) -> Option<Seq<usize>> {
    match r {
        Some(v) => Some(v@),
        None => None,
    }
}

/// The view of a whole matrix.
pub open spec fn rows_view(rows: Seq<Option<Vec<usize>>>) -> Seq<Option<Seq<usize>>> {
    rows.map_values(|r: Option<Vec<usize>>| row_view(r))
}

/// Entry `(i, j)` of a matrix; a thread slot without a row counts as zero.
pub open spec fn entry(rows: Seq<Option<Seq<usize>>>, i: int, j: int) -> int {
    match rows[i] {
        Some(r) => r[j] as int,
        None => 0,
    }
}

/// The sum of column `j` over the first `n` rows.
pub open spec fn col_sum(rows: Seq<Option<Seq<usize>>>, j: int, n: int) -> int
    decreases n,
{
    if n <= 0 {
        0
    } else {
        col_sum(rows, j, n - 1) + entry(rows, n - 1, j)
    }
}

/// The sum of column `j` over those of the first `n` rows that `mask` selects.
pub open spec fn masked_sum(rows: Seq<Option<Seq<usize>>>, mask: Seq<bool>, j: int, n: int) -> int
    decreases n,
{
    if n <= 0 {
        0
    } else {
        masked_sum(rows, mask, j, n - 1) + if mask[n - 1] {
            entry(rows, n - 1, j)
        } else {
            0
        }
    }
}

/// Every present row has one entry per resource.
pub open spec fn rows_wf(rows: Seq<Option<Seq<usize>>>, width: int) -> bool {
    forall|i: int|
        0 <= i < rows.len() && (#[trigger] rows[i]).is_some() ==> rows[i].unwrap().len() == width
}

/// The matrix with entry `(i, j)` set to `v`.
pub open spec fn with_entry(rows: Seq<Option<Seq<usize>>>, i: int, j: int, v: usize) -> Seq<
    Option<Seq<usize>>,
> {
    rows.update(i, Some(rows[i].unwrap().update(j, v)))
}

/// The matrix with column `j` of every present row set to zero.
pub open spec fn zero_column(rows: Seq<Option<Seq<usize>>>, j: int) -> Seq<Option<Seq<usize>>> {
    rows.map_values(
        |r: Option<Seq<usize>>|
            match r {
                Some(s) => Some(s.update(j, 0usize)),
                None => None,
            },
    )
}

/// The matrix with a zero column appended to every present row.
pub open spec fn push_zero_column(rows: Seq<Option<Seq<usize>>>) -> Seq<Option<Seq<usize>>> {
    rows.map_values(
        |r: Option<Seq<usize>>|
            match r {
                Some(s) => Some(s.push(0usize)),
                None => None,
            },
    )
}

/// The bookkeeping of one kind of resource, as the banker's algorithm
/// sees it.
///
/// `available[j]` counts the free units of resource `j`;
/// `allocation[t][j]` the units of `j` that thread slot `t` holds;
/// `request[t][j]` the units of `j` that thread `t` waits for.
/// A slot whose thread never had a row holds `None`.
pub struct ResourceTable {
    pub available: Vec<usize>,
    pub allocation: Vec<Option<Vec<usize>>>,
    pub request: Vec<Option<Vec<usize>>>,
}

/// The mathematical content of a [`ResourceTable`].
#[verifier::ext_equal]
pub struct TableView {
    pub available: Seq<usize>,
    pub allocation: Seq<Option<Seq<usize>>>,
    pub request: Seq<Option<Seq<usize>>>,
}

impl View for ResourceTable {
    type V = TableView;

    open spec fn view(&self) -> TableView {
        TableView {
            available: self.available@,
            allocation: rows_view(self.allocation@),
            request: rows_view(self.request@),
        }
    }
}

impl TableView {
    /// The number of resources (columns).
    pub open spec fn width(self) -> int {
        self.available.len() as int
    }

    /// The number of thread slots (rows).
    pub open spec fn height(self) -> int {
        self.allocation.len() as int
    }

    pub open spec fn held_by(self, i: int, j: int) -> int {
        entry(self.allocation, i, j)
    }

    pub open spec fn req(self, i: int, j: int) -> int {
        entry(self.request, i, j)
    }

    /// The units of resource `j` in existence: free ones plus held ones.
    pub open spec fn held(self, j: int) -> int {
        self.available[j] + col_sum(self.allocation, j, self.height())
    }

    /// The table is consistent with the thread slots `tasks` (`true` for a
    /// live thread): one row per slot, a row of full width for every live
    /// thread, and no resource with more units than a `usize` counts.
    pub open spec fn wf(self, tasks: Seq<bool>) -> bool {
        &&& self.allocation.len() == tasks.len()
        &&& self.request.len() == tasks.len()
        &&& rows_wf(self.allocation, self.width())
        &&& rows_wf(self.request, self.width())
        &&& forall|i: int|
            0 <= i < tasks.len() && #[trigger] tasks[i] ==> self.allocation[i].is_some()
                && self.request[i].is_some()
        &&& forall|j: int| 0 <= j < self.width() ==> #[trigger] self.held(j) <= usize::MAX
    }

    /// The table after resource `id` is (re)created with `init` free units
    /// and no holder or waiter: slot `id` is reused when it exists, else a
    /// new column is appended.
    pub open spec fn add_resource(self, id: int, init: usize) -> TableView {
        if id < self.width() {
            TableView {
                available: self.available.update(id, init),
                allocation: zero_column(self.allocation, id),
                request: zero_column(self.request, id),
            }
        } else {
            TableView {
                available: self.available.push(init),
                allocation: push_zero_column(self.allocation),
                request: push_zero_column(self.request),
            }
        }
    }

    /// Thread `tid` starts waiting for one unit of `id`.
    pub open spec fn request_one(self, tid: int, id: int) -> TableView {
        TableView {
            available: self.available,
            allocation: self.allocation,
            request: with_entry(self.request, tid, id, (self.req(tid, id) + 1) as usize),
        }
    }

    /// The unit that thread `tid` waited for is handed to it.
    pub open spec fn grant_one(self, tid: int, id: int) -> TableView {
        TableView {
            available: self.available.update(id, (self.available[id] - 1) as usize),
            allocation: with_entry(self.allocation, tid, id, (self.held_by(tid, id) + 1) as usize),
            request: with_entry(self.request, tid, id, (self.req(tid, id) - 1) as usize),
        }
    }

    /// Thread `tid` gives one unit of `id` back.
    pub open spec fn release_one(self, tid: int, id: int) -> TableView {
        TableView {
            available: self.available.update(id, (self.available[id] + 1) as usize),
            allocation: with_entry(self.allocation, tid, id, (self.held_by(tid, id) - 1) as usize),
            request: self.request,
        }
    }
}

/// Appending a row leaves the sums over the old rows alone.
pub proof fn lemma_col_sum_push_row(rows: Seq<Option<Seq<usize>>>, row: Option<Seq<usize>>, j: int, n: int)
    requires
        0 <= n <= rows.len(),
    ensures
        col_sum(rows.push(row), j, n) == col_sum(rows, j, n),
    decreases n,
{
    if n > 0 {
        lemma_col_sum_push_row(rows, row, j, n - 1);
    }
}

/// Column sums change only in the column that an entry update touches.
pub proof fn lemma_col_sum_with_entry(
    rows: Seq<Option<Seq<usize>>>,
    i: int,
    j: int,
    v: usize,
    k: int,
    n: int,
)
    requires
        0 <= i < rows.len(),
        rows[i].is_some(),
        0 <= j < rows[i].unwrap().len(),
        0 <= k < rows[i].unwrap().len(),
        0 <= n <= rows.len(),
    ensures
        col_sum(with_entry(rows, i, j, v), k, n) == col_sum(rows, k, n) + if k == j && i < n {
            v - entry(rows, i, j)
        } else {
            0
        },
    decreases n,
{
    if n > 0 {
        lemma_col_sum_with_entry(rows, i, j, v, k, n - 1);
    }
}

/// Clearing a column makes its sum zero and leaves the other sums alone.
pub proof fn lemma_col_sum_zero_column(rows: Seq<Option<Seq<usize>>>, width: int, j: int, k: int, n: int)
    requires
        rows_wf(rows, width),
        0 <= j < width,
        0 <= k < width,
        0 <= n <= rows.len(),
    ensures
        col_sum(zero_column(rows, j), k, n) == if k == j {
            0
        } else {
            col_sum(rows, k, n)
        },
    decreases n,
{
    if n > 0 {
        lemma_col_sum_zero_column(rows, width, j, k, n - 1);
        assert(rows[n - 1].is_some() ==> rows[n - 1].unwrap().len() == width);
    }
}

/// Appending a zero column leaves the old sums alone and sums to zero itself.
pub proof fn lemma_col_sum_push_column(rows: Seq<Option<Seq<usize>>>, width: int, k: int, n: int)
    requires
        rows_wf(rows, width),
        0 <= k <= width,
        0 <= n <= rows.len(),
    ensures
        col_sum(push_zero_column(rows), k, n) == if k == width {
            0
        } else {
            col_sum(rows, k, n)
        },
    decreases n,
{
    if n > 0 {
        lemma_col_sum_push_column(rows, width, k, n - 1);
        assert(rows[n - 1].is_some() ==> rows[n - 1].unwrap().len() == width);
    }
}

/// Sets entry `(i, j)` of a matrix.
pub(crate) fn set_entry(rows: &mut Vec<Option<Vec<usize>>>, i: usize, j: usize, v: usize)
    requires
        i < old(rows).len(),
        old(rows)@[i as int].is_some(),
        j < old(rows)@[i as int].unwrap().len(),
    ensures
        final(rows).len() == old(rows).len(),
        rows_view(final(rows)@) == with_entry(rows_view(old(rows)@), i as int, j as int, v),
{
    let mut slot: Option<Vec<usize>> = None;
    rows.set_and_swap(i, &mut slot);
    let mut row = slot.unwrap();
    row.set(j, v);
    rows.set(i, Some(row));
    assert(rows_view(rows@) =~= with_entry(rows_view(old(rows)@), i as int, j as int, v));
}

/// Appends a zero to row `i` of a matrix.
fn push_zero(rows: &mut Vec<Option<Vec<usize>>>, i: usize)
    requires
        i < old(rows).len(),
        old(rows)@[i as int].is_some(),
    ensures
        final(rows).len() == old(rows).len(),
        rows_view(final(rows)@) == rows_view(old(rows)@).update(
            i as int,
            Some(old(rows)@[i as int].unwrap()@.push(0usize)),
        ),
{
    let mut slot: Option<Vec<usize>> = None;
    rows.set_and_swap(i, &mut slot);
    let mut row = slot.unwrap();
    row.push(0);
    rows.set(i, Some(row));
    assert(rows_view(rows@) =~= rows_view(old(rows)@).update(
        i as int,
        Some(old(rows)@[i as int].unwrap()@.push(0usize)),
    ));
}

/// Sets column `j` of every present row to zero.
pub(crate) fn clear_column(rows: &mut Vec<Option<Vec<usize>>>, j: usize, Ghost(width): Ghost<int>)
    requires
        rows_wf(rows_view(old(rows)@), width),
        j < width,
    ensures
        final(rows).len() == old(rows).len(),
        rows_view(final(rows)@) == zero_column(rows_view(old(rows)@), j as int),
{
    let n = rows.len();
    for i in 0..n
        invariant
            rows.len() == n,
            n == old(rows).len(),
            forall|k: int|
                0 <= k < i ==> #[trigger] rows_view(rows@)[k] == zero_column(
                    rows_view(old(rows)@),
                    j as int,
                )[k],
            forall|k: int| i <= k < n ==> #[trigger] rows_view(rows@)[k] == rows_view(old(rows)@)[k],
            rows_wf(rows_view(old(rows)@), width),
            j < width,
    {
        if rows[i].is_some() {
            assert(rows_view(rows@)[i as int] == rows_view(old(rows)@)[i as int]);
            assert(rows_view(old(rows)@)[i as int].is_some());
            set_entry(rows, i, j, 0);
        }
    }
    assert(rows_view(rows@) =~= zero_column(rows_view(old(rows)@), j as int));
}

/// Appends a zero column to every present row.
pub(crate) fn push_zero_column_exec(rows: &mut Vec<Option<Vec<usize>>>)
    ensures
        final(rows).len() == old(rows).len(),
        rows_view(final(rows)@) == push_zero_column(rows_view(old(rows)@)),
{
    let n = rows.len();
    for i in 0..n
        invariant
            rows.len() == n,
            n == old(rows).len(),
            forall|k: int|
                0 <= k < i ==> #[trigger] rows_view(rows@)[k] == push_zero_column(
                    rows_view(old(rows)@),
                )[k],
            forall|k: int| i <= k < n ==> #[trigger] rows_view(rows@)[k] == rows_view(old(rows)@)[k],
    {
        if rows[i].is_some() {
            assert(rows_view(rows@)[i as int] == rows_view(old(rows)@)[i as int]);
            push_zero(rows, i);
        }
    }
    assert(rows_view(rows@) =~= push_zero_column(rows_view(old(rows)@)));
}

/// Column sums are never negative.
pub proof fn lemma_col_sum_nonneg(rows: Seq<Option<Seq<usize>>>, j: int, n: int)
    ensures
        0 <= col_sum(rows, j, n),
    decreases n,
{
    if n > 0 {
        lemma_col_sum_nonneg(rows, j, n - 1);
    }
}

/// One entry is at most the sum of its column.
pub proof fn lemma_entry_le_col_sum(rows: Seq<Option<Seq<usize>>>, i: int, j: int, n: int)
    requires
        0 <= i < n,
    ensures
        entry(rows, i, j) <= col_sum(rows, j, n),
    decreases n,
{
    lemma_col_sum_nonneg(rows, j, n - 1);
    if i < n - 1 {
        lemma_entry_le_col_sum(rows, i, j, n - 1);
    }
}

impl TableView {
    /// The table with entry `(tid, id)` of the request matrix set to `v`.
    pub open spec fn set_request(self, tid: int, id: int, v: usize) -> TableView {
        TableView {
            available: self.available,
            allocation: self.allocation,
            request: with_entry(self.request, tid, id, v),
        }
    }
}

impl ResourceTable {
    /// (Re)creates resource `id` with `init` free units and no holder or
    /// waiter; `id` is an existing column or the next new one.
    pub(crate) fn add_resource(&mut self, id: usize, init: usize, Ghost(tasks): Ghost<Seq<bool>>)
        requires
            old(self)@.wf(tasks),
            id <= old(self)@.width(),
        ensures
            final(self)@ == old(self)@.add_resource(id as int, init),
            final(self)@.wf(tasks),
    {
        let ghost t0 = self@;
        let ghost n = t0.height();
        if id < self.available.len() {
            self.available.set(id, init);
            clear_column(&mut self.allocation, id, Ghost(t0.width()));
            clear_column(&mut self.request, id, Ghost(t0.width()));
            let ghost t = self@;
            assert forall|j: int| 0 <= j < t.width() implies #[trigger] t.held(j) <= usize::MAX by {
                lemma_col_sum_zero_column(t0.allocation, t0.width(), id as int, j, n);
                assert(t0.held(j) <= usize::MAX);
            }
        } else {
            self.available.push(init);
            push_zero_column_exec(&mut self.allocation);
            push_zero_column_exec(&mut self.request);
            let ghost t = self@;
            assert forall|j: int| 0 <= j < t.width() implies #[trigger] t.held(j) <= usize::MAX by {
                lemma_col_sum_push_column(t0.allocation, t0.width(), j, n);
                if j < t0.width() {
                    assert(t0.held(j) <= usize::MAX);
                }
            }
        }
        let ghost t = self@;
        assert forall|i: int| 0 <= i < t.allocation.len() && (#[trigger] t.allocation[i]).is_some()
            implies t.allocation[i].unwrap().len() == t.width() by {
            assert(t0.allocation[i].is_some());
        }
        assert forall|i: int| 0 <= i < t.request.len() && (#[trigger] t.request[i]).is_some()
            implies t.request[i].unwrap().len() == t.width() by {
            assert(t0.request[i].is_some());
        }
        assert forall|i: int| 0 <= i < tasks.len() && #[trigger] tasks[i]
            implies t.allocation[i].is_some() && t.request[i].is_some() by {
            assert(t0.allocation[i].is_some() && t0.request[i].is_some());
        }
    }

    /// Sets how many units of `id` thread `tid` waits for.
    pub(crate) fn set_request(&mut self, tid: usize, id: usize, v: usize, Ghost(tasks): Ghost<Seq<bool>>)
        requires
            old(self)@.wf(tasks),
            tid < old(self)@.height(),
            old(self)@.request[tid as int].is_some(),
            id < old(self)@.width(),
        ensures
            final(self)@ == old(self)@.set_request(tid as int, id as int, v),
            final(self)@.wf(tasks),
    {
        let ghost t0 = self@;
        set_entry(&mut self.request, tid, id, v);
        let ghost t = self@;
        assert forall|i: int| 0 <= i < t.request.len() && (#[trigger] t.request[i]).is_some()
            implies t.request[i].unwrap().len() == t.width() by {
            assert(t0.request[i].is_some());
        }
        assert forall|j: int| 0 <= j < t.width() implies #[trigger] t.held(j) <= usize::MAX by {
            assert(t0.held(j) <= usize::MAX);
        }
    }

    /// Hands thread `tid` the unit of `id` that it waited for.
    pub(crate) fn grant_one(&mut self, tid: usize, id: usize, Ghost(tasks): Ghost<Seq<bool>>)
        requires
            old(self)@.wf(tasks),
            tid < old(self)@.height(),
            old(self)@.allocation[tid as int].is_some(),
            old(self)@.request[tid as int].is_some(),
            id < old(self)@.width(),
            old(self)@.req(tid as int, id as int) > 0,
            old(self)@.available[id as int] > 0,
        ensures
            final(self)@ == old(self)@.grant_one(tid as int, id as int),
            final(self)@.wf(tasks),
            forall|j: int| 0 <= j < old(self)@.width() ==> #[trigger] final(self)@.held(j) == old(self)@.held(j),
    {
        let ghost t0 = self@;
        let ghost n = t0.height();
        proof {
            lemma_entry_le_col_sum(t0.allocation, tid as int, id as int, n);
            assert(t0.held(id as int) <= usize::MAX);
        }
        let a = self.available[id];
        self.available.set(id, a - 1);
        let held = self.allocation[tid].as_ref().unwrap()[id];
        assert(held == t0.held_by(tid as int, id as int));
        set_entry(&mut self.allocation, tid, id, held + 1);
        let r = self.request[tid].as_ref().unwrap()[id];
        assert(r == t0.req(tid as int, id as int));
        set_entry(&mut self.request, tid, id, r - 1);
        let ghost t = self@;
        assert forall|j: int| 0 <= j < t0.width() implies #[trigger] t.held(j) == t0.held(j) by {
            lemma_col_sum_with_entry(t0.allocation, tid as int, id as int, (held + 1) as usize, j, n);
        }
        assert forall|j: int| 0 <= j < t.width() implies #[trigger] t.held(j) <= usize::MAX by {
            assert(t0.held(j) <= usize::MAX);
        }
        assert forall|i: int| 0 <= i < t.allocation.len() && (#[trigger] t.allocation[i]).is_some()
            implies t.allocation[i].unwrap().len() == t.width() by {
            assert(t0.allocation[i].is_some());
        }
        assert forall|i: int| 0 <= i < t.request.len() && (#[trigger] t.request[i]).is_some()
            implies t.request[i].unwrap().len() == t.width() by {
            assert(t0.request[i].is_some());
        }
    }

    /// Takes back one unit of `id` from thread `tid`.
    pub(crate) fn release_one(&mut self, tid: usize, id: usize, Ghost(tasks): Ghost<Seq<bool>>)
        requires
            old(self)@.wf(tasks),
            tid < old(self)@.height(),
            old(self)@.allocation[tid as int].is_some(),
            id < old(self)@.width(),
            old(self)@.held_by(tid as int, id as int) > 0,
        ensures
            final(self)@ == old(self)@.release_one(tid as int, id as int),
            final(self)@.wf(tasks),
            forall|j: int| 0 <= j < old(self)@.width() ==> #[trigger] final(self)@.held(j) == old(self)@.held(j),
    {
        let ghost t0 = self@;
        let ghost n = t0.height();
        proof {
            lemma_entry_le_col_sum(t0.allocation, tid as int, id as int, n);
            assert(t0.held(id as int) <= usize::MAX);
        }
        let a = self.available[id];
        self.available.set(id, a + 1);
        let held = self.allocation[tid].as_ref().unwrap()[id];
        assert(held == t0.held_by(tid as int, id as int));
        set_entry(&mut self.allocation, tid, id, held - 1);
        let ghost t = self@;
        assert forall|j: int| 0 <= j < t0.width() implies #[trigger] t.held(j) == t0.held(j) by {
            lemma_col_sum_with_entry(t0.allocation, tid as int, id as int, (held - 1) as usize, j, n);
        }
        assert forall|j: int| 0 <= j < t.width() implies #[trigger] t.held(j) <= usize::MAX by {
            assert(t0.held(j) <= usize::MAX);
        }
        assert forall|i: int| 0 <= i < t.allocation.len() && (#[trigger] t.allocation[i]).is_some()
            implies t.allocation[i].unwrap().len() == t.width() by {
            assert(t0.allocation[i].is_some());
        }
    }
}

/// Acquiring one unit and giving it back is no change at all: recording a
/// request for a free unit of `id`, granting it and releasing it again
/// leaves the table as it was.
pub proof fn release_undoes_acquire(t: TableView, tasks: Seq<bool>, tid: int, id: int)
    requires
        t.wf(tasks),
        0 <= tid < tasks.len(),
        tasks[tid],
        0 <= id < t.width(),
        t.req(tid, id) < usize::MAX,
        t.available[id] > 0,
    ensures
        t.request_one(tid, id).grant_one(tid, id).release_one(tid, id) == t,
{
    lemma_entry_le_col_sum(t.allocation, tid, id, t.height());
    assert(t.held(id) <= usize::MAX);
    let u = t.request_one(tid, id).grant_one(tid, id).release_one(tid, id);
    assert(u.available =~= t.available);
    assert(u.allocation =~~= t.allocation);
    assert(u.request =~~= t.request);
}

/// A freshly created resource has exactly its initial units, all free:
/// no thread holds or waits for any of it, and every other resource keeps
/// its units.
pub proof fn new_resource_is_free(t: TableView, tasks: Seq<bool>, id: int, init: usize)
    requires
        t.wf(tasks),
        0 <= id <= t.width(),
    ensures
        t.add_resource(id, init).available[id] == init,
        t.add_resource(id, init).held(id) == init,
        forall|i: int|
            0 <= i < t.height() ==> #[trigger] t.add_resource(id, init).held_by(i, id) == 0
                && t.add_resource(id, init).req(i, id) == 0,
        forall|j: int|
            0 <= j < t.width() && j != id ==> #[trigger] t.add_resource(id, init).held(j) == t.held(
                j,
            ),
{
    let u = t.add_resource(id, init);
    let n = t.height();
    if id < t.width() {
        lemma_col_sum_zero_column(t.allocation, t.width(), id, id, n);
        assert forall|j: int| 0 <= j < t.width() && j != id implies #[trigger] u.held(j) == t.held(j) by {
            lemma_col_sum_zero_column(t.allocation, t.width(), id, j, n);
        }
        assert forall|i: int| 0 <= i < n implies #[trigger] u.held_by(i, id) == 0 && u.req(i, id) == 0 by {
            assert(t.allocation[i].is_some() ==> t.allocation[i].unwrap().len() == t.width());
            assert(t.request[i].is_some() ==> t.request[i].unwrap().len() == t.width());
        }
    } else {
        lemma_col_sum_push_column(t.allocation, t.width(), id, n);
        assert forall|j: int| 0 <= j < t.width() && j != id implies #[trigger] u.held(j) == t.held(j) by {
            lemma_col_sum_push_column(t.allocation, t.width(), j, n);
        }
        assert forall|i: int| 0 <= i < n implies #[trigger] u.held_by(i, id) == 0 && u.req(i, id) == 0 by {
            assert(t.allocation[i].is_some() ==> t.allocation[i].unwrap().len() == t.width());
            assert(t.request[i].is_some() ==> t.request[i].unwrap().len() == t.width());
        }
    }
}

/// Changing what a thread waits for keeps a table well formed.
pub proof fn set_request_keeps_wf(t: TableView, tasks: Seq<bool>, tid: int, id: int, v: usize)
    requires
        t.wf(tasks),
        0 <= tid < t.height(),
        t.request[tid].is_some(),
        0 <= id < t.width(),
    ensures
        t.set_request(tid, id, v).wf(tasks),
        t.request_one(tid, id) == t.set_request(tid, id, (t.req(tid, id) + 1) as usize),
{
    let u = t.set_request(tid, id, v);
    assert forall|i: int| 0 <= i < u.request.len() && (#[trigger] u.request[i]).is_some()
        implies u.request[i].unwrap().len() == u.width() by {
        assert(t.request[i].is_some());
    }
    assert forall|j: int| 0 <= j < u.width() implies #[trigger] u.held(j) <= usize::MAX by {
        assert(t.held(j) <= usize::MAX);
    }
}

} // verus!
