//! The banker's safety check: can every live thread still run to
//! completion, in some order, if each gets what it waits for and then
//! gives back all it holds?
use vstd::prelude::*;
use crate::table::{ResourceTable, TableView, col_sum, entry, masked_sum};

verus! {

/// Which of `n` thread slots occur in `order`.
pub open spec fn mask_of(order: Seq<int>, n: int) -> Seq<bool> {
    Seq::new(n as nat, |i: int| order.contains(i))
}

/// The free units of each resource once the threads that `mask` selects
/// have finished and given back everything they hold.
pub open spec fn work_after(t: TableView, mask: Seq<bool>) -> Seq<int> {
    Seq::new(
        t.available.len(),
        |j: int| t.available[j] + masked_sum(t.allocation, mask, j, t.height()),
    )
}

/// Everything thread `i` waits for can be met from `work`.
pub open spec fn can_finish(t: TableView, i: int, work: Seq<int>) -> bool {
    forall|j: int| 0 <= j < work.len() ==> t.req(i, j) <= #[trigger] work[j]
}

/// `order` runs every live thread of `tasks` exactly once, and each one,
/// when its turn comes, finds what it waits for among the units that are
/// free once the threads before it have finished.
pub open spec fn is_safe_order(t: TableView, tasks: Seq<bool>, order: Seq<int>) -> bool {
    &&& order.no_duplicates()
    &&& forall|k: int|
        0 <= k < order.len() ==> 0 <= #[trigger] order[k] < tasks.len() && tasks[order[k]]
    &&& forall|i: int| 0 <= i < tasks.len() && #[trigger] tasks[i] ==> order.contains(i)
    &&& forall|k: int|
        0 <= k < order.len() ==> can_finish(
            t,
            #[trigger] order[k],
            work_after(t, mask_of(order.take(k), tasks.len() as int)),
        )
}

/// The state is safe: some order lets every live thread finish.
pub open spec fn is_safe(t: TableView, tasks: Seq<bool>) -> bool {
    exists|order: Seq<int>| #[trigger] is_safe_order(t, tasks, order)
}

proof fn lemma_masked_sum_bounds(rows: Seq<Option<Seq<usize>>>, mask: Seq<bool>, j: int, n: int)
    ensures
        0 <= masked_sum(rows, mask, j, n) <= col_sum(rows, j, n),
    decreases n,
{
    if n > 0 {
        lemma_masked_sum_bounds(rows, mask, j, n - 1);
    }
}

proof fn lemma_masked_sum_add(rows: Seq<Option<Seq<usize>>>, mask: Seq<bool>, i: int, j: int, n: int)
    requires
        0 <= i < mask.len(),
        !mask[i],
        n <= mask.len(),
    ensures
        masked_sum(rows, mask.update(i, true), j, n) == masked_sum(rows, mask, j, n) + if i < n {
            entry(rows, i, j)
        } else {
            0
        },
    decreases n,
{
    if n > 0 {
        lemma_masked_sum_add(rows, mask, i, j, n - 1);
    }
}

proof fn lemma_masked_sum_mono(rows: Seq<Option<Seq<usize>>>, m1: Seq<bool>, m2: Seq<bool>, j: int, n: int)
    requires
        n <= m1.len(),
        n <= m2.len(),
        forall|k: int| 0 <= k < n && #[trigger] m1[k] ==> m2[k],
    ensures
        masked_sum(rows, m1, j, n) <= masked_sum(rows, m2, j, n),
    decreases n,
{
    if n > 0 {
        lemma_masked_sum_mono(rows, m1, m2, j, n - 1);
        assert(m1[n - 1] ==> m2[n - 1]);
    }
}

/// More threads finished means at least as many free units.
proof fn lemma_work_mono(t: TableView, m1: Seq<bool>, m2: Seq<bool>)
    requires
        m1.len() == t.height(),
        m2.len() == t.height(),
        forall|k: int| 0 <= k < t.height() && #[trigger] m1[k] ==> m2[k],
    ensures
        forall|j: int|
            0 <= j < t.available.len() ==> #[trigger] work_after(t, m1)[j] <= work_after(t, m2)[j],
{
    assert forall|j: int| 0 <= j < t.available.len() implies #[trigger] work_after(t, m1)[j]
        <= work_after(t, m2)[j] by {
        lemma_masked_sum_mono(t.allocation, m1, m2, j, t.height());
    }
}

proof fn lemma_can_finish_mono(t: TableView, i: int, w1: Seq<int>, w2: Seq<int>)
    requires
        w1.len() == w2.len(),
        forall|j: int| 0 <= j < w1.len() ==> #[trigger] w1[j] <= w2[j],
        can_finish(t, i, w1),
    ensures
        can_finish(t, i, w2),
{
    assert forall|j: int| 0 <= j < w2.len() implies t.req(i, j) <= #[trigger] w2[j] by {
        assert(w1[j] <= w2[j]);
    }
}

/// A duplicate-free sequence of indices below `n` has at most `n` elements.
proof fn lemma_distinct_len(s: Seq<int>, n: int)
    requires
        0 <= n,
        s.no_duplicates(),
        forall|k: int| 0 <= k < s.len() ==> 0 <= #[trigger] s[k] < n,
    ensures
        s.len() <= n,
{
    s.unique_seq_to_set();
    vstd::set_lib::lemma_int_range(0, n);
    assert(s.to_set().subset_of(vstd::set_lib::set_int_range(0, n)));
    vstd::set_lib::lemma_len_subset(s.to_set(), vstd::set_lib::set_int_range(0, n));
}

/// If no live thread outside `done` can finish with what `done` frees,
/// then every safe order begins with threads of `done` only; so no safe
/// order exists when some live thread is missing from `done`.
proof fn lemma_prefix_within(t: TableView, tasks: Seq<bool>, s: Seq<int>, done: Seq<int>, p: int)
    requires
        t.wf(tasks),
        is_safe_order(t, tasks, s),
        0 <= p <= s.len(),
        forall|k: int|
            0 <= k < tasks.len() && tasks[k] && !done.contains(k) ==> !can_finish(
                t,
                k,
                #[trigger] work_after(t, mask_of(done, tasks.len() as int)),
            ),
    ensures
        forall|q: int| 0 <= q < p ==> done.contains(#[trigger] s[q]),
    decreases p,
{
    if p > 0 {
        lemma_prefix_within(t, tasks, s, done, p - 1);
        let n = tasks.len() as int;
        let x = s[p - 1];
        let before = mask_of(s.take(p - 1), n);
        let after = mask_of(done, n);
        assert forall|k: int| 0 <= k < t.height() && #[trigger] before[k] implies after[k] by {
            let pre = s.take(p - 1);
            assert(pre.contains(k));
            let q = choose|q: int| 0 <= q < pre.len() && #[trigger] pre[q] == k;
            assert(s[q] == k);
        }
        lemma_work_mono(t, before, after);
        assert(can_finish(t, x, work_after(t, before)));
        lemma_can_finish_mono(t, x, work_after(t, before), work_after(t, after));
        assert(0 <= x < n && tasks[x]);
    }
}

/// Sums the units held by thread `i` into `work`.
fn give_back(t: &ResourceTable, tasks: &Vec<bool>, i: usize, work: &mut Vec<usize>, Ghost(mask): Ghost<Seq<bool>>)
    requires
        t@.wf(tasks@),
        i < tasks.len(),
        tasks@[i as int],
        mask.len() == tasks.len(),
        !mask[i as int],
        old(work).len() == t.available.len(),
        forall|j: int| 0 <= j < old(work).len() ==> #[trigger] old(work)@[j] == work_after(t@, mask)[j],
    ensures
        final(work).len() == old(work).len(),
        forall|j: int|
            0 <= j < final(work).len() ==> #[trigger] final(work)@[j] == work_after(t@, mask.update(i as int, true))[j],
{
    let ghost n = tasks.len() as int;
    let ghost grown = mask.update(i as int, true);
    let m = work.len();
    let row = t.allocation[i].as_ref().unwrap();
    assert(row@ == t@.allocation[i as int].unwrap());
    assert forall|j: int| 0 <= j < m implies #[trigger] work_after(t@, grown)[j] == old(work)@[j] + row@[j]
        && work_after(t@, grown)[j] <= usize::MAX by {
        lemma_masked_sum_add(t@.allocation, mask, i as int, j, n);
        lemma_masked_sum_bounds(t@.allocation, grown, j, n);
        assert(t@.held(j) <= usize::MAX);
    }
    for j in 0..m
        invariant
            work.len() == m,
            m == t.available.len(),
            row@.len() == m,
            forall|k: int| 0 <= k < j ==> #[trigger] work@[k] == work_after(t@, grown)[k],
            forall|k: int| j <= k < m ==> #[trigger] work@[k] == old(work)@[k],
            forall|k: int| 0 <= k < m ==> #[trigger] work_after(t@, grown)[k] == old(work)@[k] + row@[k]
                && work_after(t@, grown)[k] <= usize::MAX,
    {
        assert(work_after(t@, grown)[j as int] == old(work)@[j as int] + row@[j as int]);
        let sum = work[j] + row[j];
        work.set(j, sum);
    }
}

/// Whether everything thread `i` waits for can be met from `work`.
fn fits(t: &ResourceTable, i: usize, work: &Vec<usize>) -> (ok: bool)
    requires
        i < t.request.len(),
        t@.request[i as int].is_some(),
        t@.request[i as int].unwrap().len() == work.len(),
    ensures
        ok == forall|j: int| 0 <= j < work.len() ==> t@.req(i as int, j) <= #[trigger] work@[j],
{
    let row = t.request[i].as_ref().unwrap();
    assert(row@ == t@.request[i as int].unwrap());
    let m = work.len();
    for j in 0..m
        invariant
            m == work.len(),
            row@.len() == m,
            t@.request[i as int].is_some(),
            row@ == t@.request[i as int].unwrap(),
            forall|k: int| 0 <= k < j ==> t@.req(i as int, k) <= #[trigger] work@[k],
    {
        assert(t@.req(i as int, j as int) == row@[j as int]);
        if work[j] < row[j] {
            return false;
        }
    }
    true
}

/// The banker's safety check over one resource table: starting from the
/// free units, repeatedly pick the first live, unfinished thread whose
/// requests can all be met, let it finish and take back what it holds;
/// the state is safe when every live thread finishes this way.
///
/// The answer is exactly whether a safe order exists.
pub fn check_safe(t: &ResourceTable, tasks: &Vec<bool>) -> (safe: bool)
    requires
        t@.wf(tasks@),
    ensures
        safe == is_safe(t@, tasks@),
{
    let n = tasks.len();
    let mut work: Vec<usize> = t.available.clone();
    assert(work@ =~= t.available@);
    let mut finish: Vec<bool> = Vec::new();
    for k in 0..n
        invariant
            n == tasks.len(),
            finish.len() == k,
            forall|q: int| 0 <= q < k ==> #[trigger] finish@[q] == !tasks@[q],
    {
        finish.push(!tasks[k]);
    }
    let ghost mut order: Seq<int> = Seq::empty();
    proof {
        assert forall|j: int| 0 <= j < work.len() implies #[trigger] work@[j] == work_after(
            t@,
            mask_of(order, n as int),
        )[j] by {
            lemma_masked_sum_zero(t@.allocation, mask_of(order, n as int), j, n as int);
        }
    }
    let mut i: usize = 0;
    while i < n
        invariant
            n == tasks.len(),
            n == finish.len(),
            work.len() == t.available.len(),
            t@.wf(tasks@),
            i <= n,
            order.no_duplicates(),
            order.len() <= n,
            forall|k: int| 0 <= k < order.len() ==> 0 <= #[trigger] order[k] < n && tasks@[order[k]],
            forall|k: int| 0 <= k < n ==> #[trigger] finish@[k] == (!tasks@[k] || order.contains(k)),
            forall|k: int|
                0 <= k < order.len() ==> can_finish(
                    t@,
                    #[trigger] order[k],
                    work_after(t@, mask_of(order.take(k), n as int)),
                ),
            forall|j: int|
                0 <= j < work.len() ==> #[trigger] work@[j] == work_after(t@, mask_of(order, n as int))[j],
            forall|k: int|
                0 <= k < i ==> #[trigger] finish@[k] || !can_finish(t@, k, work_after(t@, mask_of(order, n as int))),
        decreases n - order.len(), n - i,
    {
        if !finish[i] {
            let ghost w = work_after(t@, mask_of(order, n as int));
            let ok = fits(t, i, &work);
            assert(ok == can_finish(t@, i as int, w)) by {
                if ok {
                    assert forall|j: int| 0 <= j < w.len() implies t@.req(i as int, j) <= #[trigger] w[j] by {
                        assert(work@[j] == w[j]);
                    }
                }
                if can_finish(t@, i as int, w) {
                    assert forall|j: int| 0 <= j < work.len() implies t@.req(i as int, j) <= #[trigger] work@[j] by {
                        assert(work@[j] == w[j]);
                    }
                }
            }
            if ok {
                let ghost old_order = order;
                give_back(t, tasks, i, &mut work, Ghost(mask_of(order, n as int)));
                finish.set(i, true);
                proof {
                    broadcast use vstd::seq_lib::lemma_seq_contains_after_push;
                    order = order.push(i as int);
                    assert(mask_of(order, n as int) =~= mask_of(old_order, n as int).update(i as int, true));
                    assert forall|k: int| 0 <= k < order.len() implies can_finish(
                        t@,
                        #[trigger] order[k],
                        work_after(t@, mask_of(order.take(k), n as int)),
                    ) by {
                        if k < old_order.len() {
                            assert(order.take(k) =~= old_order.take(k));
                        } else {
                            assert(order.take(k) =~= old_order);
                        }
                    }
                    lemma_distinct_len(order, n as int);
                }
                i = 0;
                continue;
            }
        }
        i = i + 1;
    }
    let ghost w = work_after(t@, mask_of(order, n as int));
    for k in 0..n
        invariant
            n == tasks.len(),
            n == finish.len(),
            t@.wf(tasks@),
            order.no_duplicates(),
            forall|q: int| 0 <= q < order.len() ==> 0 <= #[trigger] order[q] < n && tasks@[order[q]],
            forall|q: int| 0 <= q < n ==> #[trigger] finish@[q] == (!tasks@[q] || order.contains(q)),
            forall|q: int|
                0 <= q < order.len() ==> can_finish(
                    t@,
                    #[trigger] order[q],
                    work_after(t@, mask_of(order.take(q), n as int)),
                ),
            forall|q: int| 0 <= q < n ==> #[trigger] finish@[q] || !can_finish(t@, q, w),
            w == work_after(t@, mask_of(order, n as int)),
            forall|q: int| 0 <= q < k ==> #[trigger] finish@[q],
    {
        if !finish[k] {
            proof {
                if is_safe(t@, tasks@) {
                    let s = choose|s: Seq<int>| #[trigger] is_safe_order(t@, tasks@, s);
                    assert forall|q: int|
                        0 <= q < tasks@.len() && tasks@[q] && !order.contains(q) implies !can_finish(
                        t@,
                        q,
                        #[trigger] work_after(t@, mask_of(order, tasks@.len() as int)),
                    ) by {
                        assert(!finish@[q]);
                    }
                    lemma_prefix_within(t@, tasks@, s, order, s.len() as int);
                    assert(tasks@[k as int]);
                    assert(s.contains(k as int));
                    let q = choose|q: int| 0 <= q < s.len() && #[trigger] s[q] == k as int;
                    assert(order.contains(s[q]));
                }
            }
            return false;
        }
    }
    proof {
        assert forall|q: int| 0 <= q < tasks@.len() && #[trigger] tasks@[q] implies order.contains(q) by {
            assert(finish@[q]);
        }
        assert(is_safe_order(t@, tasks@, order));
    }
    true
}

proof fn lemma_masked_sum_zero(rows: Seq<Option<Seq<usize>>>, mask: Seq<bool>, j: int, n: int)
    requires
        n <= mask.len(),
        forall|k: int| 0 <= k < n ==> !#[trigger] mask[k],
    ensures
        masked_sum(rows, mask, j, n) == 0,
    decreases n,
{
    if n > 0 {
        lemma_masked_sum_zero(rows, mask, j, n - 1);
    }
}

/// The live thread slots below `n`, in increasing order.
pub open spec fn live_slots(tasks: Seq<bool>, n: int) -> Seq<int>
    decreases n,
{
    if n <= 0 {
        Seq::empty()
    } else if tasks[n - 1] {
        live_slots(tasks, n - 1).push(n - 1)
    } else {
        live_slots(tasks, n - 1)
    }
}

proof fn lemma_live_slots(tasks: Seq<bool>, n: int)
    requires
        0 <= n <= tasks.len(),
    ensures
        live_slots(tasks, n).no_duplicates(),
        forall|k: int|
            0 <= k < live_slots(tasks, n).len() ==> 0 <= #[trigger] live_slots(tasks, n)[k] < n
                && tasks[live_slots(tasks, n)[k]],
        forall|i: int| 0 <= i < n && #[trigger] tasks[i] ==> live_slots(tasks, n).contains(i),
    decreases n,
{
    broadcast use vstd::seq_lib::lemma_seq_contains_after_push;

    if n > 0 {
        lemma_live_slots(tasks, n - 1);
        let prev = live_slots(tasks, n - 1);
        if tasks[n - 1] {
            let cur = prev.push(n - 1);
            assert forall|k: int| 0 <= k < cur.len() implies 0 <= #[trigger] cur[k] < n && tasks[cur[k]] by {
                if k < prev.len() {
                    assert(cur[k] == prev[k]);
                }
            }
            assert forall|a: int, b: int| 0 <= a < cur.len() && 0 <= b < cur.len() && a != b implies cur[a] != cur[b] by {
                if a < prev.len() && b < prev.len() {
                    assert(cur[a] == prev[a] && cur[b] == prev[b]);
                } else if a < prev.len() {
                    assert(cur[a] == prev[a]);
                } else if b < prev.len() {
                    assert(cur[b] == prev[b]);
                }
            }
        }
    }
}

/// When no live thread waits for anything, the state is safe: the live
/// threads can finish one after another in any order.
pub proof fn no_waiting_is_safe(t: TableView, tasks: Seq<bool>)
    requires
        t.wf(tasks),
        forall|i: int, j: int|
            0 <= i < tasks.len() && tasks[i] && 0 <= j < t.width() ==> #[trigger] t.req(i, j) == 0,
    ensures
        is_safe(t, tasks),
{
    let n = tasks.len() as int;
    let order = live_slots(tasks, n);
    lemma_live_slots(tasks, n);
    assert forall|k: int| 0 <= k < order.len() implies can_finish(
        t,
        #[trigger] order[k],
        work_after(t, mask_of(order.take(k), n)),
    ) by {
        let w = work_after(t, mask_of(order.take(k), n));
        assert forall|j: int| 0 <= j < w.len() implies t.req(order[k], j) <= #[trigger] w[j] by {
            lemma_masked_sum_bounds(t.allocation, mask_of(order.take(k), n), j, t.height());
        }
    }
    assert(is_safe_order(t, tasks, order));
}

/// With a single live thread, the state is safe exactly when everything
/// that thread waits for is free.
pub proof fn lone_thread_safe_iff_fits(t: TableView, tasks: Seq<bool>, tid: int)
    requires
        t.wf(tasks),
        0 <= tid < tasks.len(),
        tasks[tid],
        forall|i: int| 0 <= i < tasks.len() && i != tid ==> !#[trigger] tasks[i],
    ensures
        is_safe(t, tasks) <==> forall|j: int| 0 <= j < t.width() ==> #[trigger] t.req(tid, j) <= t.available[j],
{
    let n = tasks.len() as int;
    let none = mask_of(Seq::<int>::empty(), n);
    assert forall|j: int| 0 <= j < t.width() implies #[trigger] work_after(t, none)[j] == t.available[j] by {
        lemma_masked_sum_zero(t.allocation, none, j, t.height());
    }
    if is_safe(t, tasks) {
        let s = choose|s: Seq<int>| #[trigger] is_safe_order(t, tasks, s);
        assert(s.contains(tid));
        let q = choose|q: int| 0 <= q < s.len() && #[trigger] s[q] == tid;
        assert(s[0] == tid);
        assert(s.take(0) =~= Seq::<int>::empty());
        assert(can_finish(t, s[0], work_after(t, mask_of(s.take(0), n))));
        assert forall|j: int| 0 <= j < t.width() implies #[trigger] t.req(tid, j) <= t.available[j] by {
            assert(work_after(t, none)[j] == t.available[j]);
        }
    }
    if forall|j: int| 0 <= j < t.width() ==> #[trigger] t.req(tid, j) <= t.available[j] {
        let order = seq![tid];
        assert(order.take(0) =~= Seq::<int>::empty());
        assert forall|i: int| 0 <= i < tasks.len() && #[trigger] tasks[i] implies order.contains(i) by {
            assert(order[0] == tid);
        }
        assert(can_finish(t, order[0], work_after(t, mask_of(order.take(0), n))));
        assert(is_safe_order(t, tasks, order));
    }
}

/// More free units never make a safe state unsafe: with the same holdings
/// and the same waits, a table whose free units are, resource by resource,
/// at least those of a safe table is safe too.
pub proof fn safe_mono_available(t1: TableView, t2: TableView, tasks: Seq<bool>)
    requires
        t1.allocation == t2.allocation,
        t1.request == t2.request,
        t1.available.len() == t2.available.len(),
        forall|j: int| 0 <= j < t1.available.len() ==> #[trigger] t1.available[j] <= t2.available[j],
    ensures
        is_safe(t1, tasks) ==> is_safe(t2, tasks),
{
    if is_safe(t1, tasks) {
        let n = tasks.len() as int;
        let s = choose|s: Seq<int>| #[trigger] is_safe_order(t1, tasks, s);
        assert forall|k: int| 0 <= k < s.len() implies can_finish(
            t2,
            #[trigger] s[k],
            work_after(t2, mask_of(s.take(k), n)),
        ) by {
            let m = mask_of(s.take(k), n);
            assert(can_finish(t1, s[k], work_after(t1, m)));
            assert forall|j: int| 0 <= j < work_after(t2, m).len() implies t2.req(s[k], j)
                <= #[trigger] work_after(t2, m)[j] by {
                assert(work_after(t1, m)[j] <= work_after(t2, m)[j]);
                assert(t1.req(s[k], j) <= work_after(t1, m)[j]);
            }
        }
        assert(is_safe_order(t2, tasks, s));
    }
}

/// `p` lists each of the indices `0..n` exactly once.
pub open spec fn is_permutation(p: Seq<int>, n: int) -> bool {
    &&& p.len() == n
    &&& p.no_duplicates()
    &&& forall|k: int| 0 <= k < n ==> 0 <= #[trigger] p[k] < n
}

/// `s` renumbered by `p`: what slot `p[k]` held, slot `k` now holds.
pub open spec fn renumber<A>(s: Seq<A>, p: Seq<int>) -> Seq<A> {
    Seq::new(p.len(), |k: int| s[p[k]])
}

/// The table with its thread rows renumbered by `p`.
pub open spec fn renumber_table(t: TableView, p: Seq<int>) -> TableView {
    TableView {
        available: t.available,
        allocation: renumber(t.allocation, p),
        request: renumber(t.request, p),
    }
}

/// The sum of `f(0) + ... + f(n - 1)`.
spec fn sum_of(f: spec_fn(int) -> int, n: int) -> int
    decreases n,
{
    if n <= 0 {
        0
    } else {
        sum_of(f, n - 1) + f(n - 1)
    }
}

proof fn lemma_sum_ext(f: spec_fn(int) -> int, g: spec_fn(int) -> int, n: int)
    requires
        forall|i: int| 0 <= i < n ==> #[trigger] f(i) == g(i),
    ensures
        sum_of(f, n) == sum_of(g, n),
    decreases n,
{
    if n > 0 {
        lemma_sum_ext(f, g, n - 1);
    }
}

proof fn lemma_sum_update(f: spec_fn(int) -> int, g: spec_fn(int) -> int, n: int, k: int)
    requires
        0 <= k < n,
        forall|i: int| 0 <= i < n && i != k ==> #[trigger] f(i) == g(i),
    ensures
        sum_of(g, n) == sum_of(f, n) - f(k) + g(k),
    decreases n,
{
    if n - 1 == k {
        lemma_sum_ext(f, g, n - 1);
    } else {
        lemma_sum_update(f, g, n - 1, k);
    }
}

/// A permutation of `0..n` reaches every index below `n`.
proof fn lemma_permutation_onto(p: Seq<int>, n: int, i: int)
    requires
        is_permutation(p, n),
        0 <= i < n,
    ensures
        p.contains(i),
{
    if !p.contains(i) {
        let range = vstd::set_lib::set_int_range(0, n);
        p.unique_seq_to_set();
        vstd::set_lib::lemma_int_range(0, n);
        assert(p.to_set().subset_of(range.remove(i)));
        vstd::set_lib::lemma_len_subset(p.to_set(), range.remove(i));
    }
}

/// Summing in the order a permutation gives changes nothing.
proof fn lemma_sum_permuted(f: spec_fn(int) -> int, p: Seq<int>, n: int)
    requires
        is_permutation(p, n),
    ensures
        sum_of(|i: int| f(p[i]), n) == sum_of(f, n),
    decreases n,
{
    if n > 0 {
        lemma_permutation_onto(p, n, n - 1);
        let k = choose|k: int| 0 <= k < p.len() && #[trigger] p[k] == n - 1;
        let q = Seq::new((n - 1) as nat, |i: int| if i == k { p[n - 1] } else { p[i] });
        assert forall|a: int, b: int| 0 <= a < q.len() && 0 <= b < q.len() && a != b implies q[a] != q[b] by {
            assert(p[a] != p[b]);
            assert(p[a] != p[n - 1] && p[b] != p[n - 1]);
        }
        assert forall|a: int| 0 <= a < n - 1 implies 0 <= #[trigger] q[a] < n - 1 by {
            assert(p[a] != p[k] || a == k);
            assert(p[n - 1] != p[k] || k == n - 1);
        }
        lemma_sum_permuted(f, q, n - 1);
        let g1 = |i: int| f(p[i]);
        let g2 = |i: int| f(q[i]);
        if k < n - 1 {
            lemma_sum_update(g1, g2, n - 1, k);
        } else {
            lemma_sum_ext(g1, g2, n - 1);
        }
    }
}

proof fn lemma_masked_is_sum(rows: Seq<Option<Seq<usize>>>, mask: Seq<bool>, j: int, n: int)
    ensures
        masked_sum(rows, mask, j, n) == sum_of(
            |i: int|
                if mask[i] {
                    entry(rows, i, j)
                } else {
                    0
                },
            n,
        ),
    decreases n,
{
    if n > 0 {
        lemma_masked_is_sum(rows, mask, j, n - 1);
    }
}

/// Renumbering the rows together with the set of finished threads leaves
/// the free units unchanged.
proof fn lemma_work_renumbered(t: TableView, p: Seq<int>, mask: Seq<bool>, mask2: Seq<bool>)
    requires
        is_permutation(p, t.height()),
        mask.len() == t.height(),
        mask2.len() == t.height(),
        forall|k: int| 0 <= k < t.height() ==> #[trigger] mask2[k] == mask[p[k]],
    ensures
        forall|j: int|
            0 <= j < t.width() ==> #[trigger] work_after(renumber_table(t, p), mask2)[j] == work_after(
                t,
                mask,
            )[j],
{
    let n = t.height();
    let t2 = renumber_table(t, p);
    assert forall|j: int| 0 <= j < t.width() implies #[trigger] work_after(t2, mask2)[j]
        == work_after(t, mask)[j] by {
        let f = |i: int|
            if mask[i] {
                entry(t.allocation, i, j)
            } else {
                0
            };
        let g = |k: int|
            if mask2[k] {
                entry(t2.allocation, k, j)
            } else {
                0
            };
        lemma_masked_is_sum(t.allocation, mask, j, n);
        lemma_masked_is_sum(t2.allocation, mask2, j, n);
        lemma_sum_ext(g, |k: int| f(p[k]), n);
        lemma_sum_permuted(f, p, n);
    }
}

/// The inverse of a permutation of `0..n`.
spec fn inverse(p: Seq<int>, n: int) -> Seq<int> {
    Seq::new(n as nat, |i: int| choose|k: int| 0 <= k < n && p[k] == i)
}

proof fn lemma_inverse(p: Seq<int>, n: int)
    requires
        is_permutation(p, n),
    ensures
        is_permutation(inverse(p, n), n),
        forall|i: int| 0 <= i < n ==> p[#[trigger] inverse(p, n)[i]] == i,
        forall|k: int| 0 <= k < n ==> inverse(p, n)[#[trigger] p[k]] == k,
{
    let q = inverse(p, n);
    assert forall|i: int| 0 <= i < n implies 0 <= #[trigger] q[i] < n && p[q[i]] == i by {
        lemma_permutation_onto(p, n, i);
        let k = choose|k: int| 0 <= k < p.len() && #[trigger] p[k] == i;
        assert(0 <= k < n && p[k] == i);
    }
    assert forall|k: int| 0 <= k < n implies q[#[trigger] p[k]] == k by {
        let i = p[k];
        assert(p[q[i]] == i);
    }
    assert forall|a: int, b: int| 0 <= a < q.len() && 0 <= b < q.len() && a != b implies q[a] != q[b] by {
        assert(p[q[a]] == a && p[q[b]] == b);
    }
}

proof fn lemma_renumber_keeps_safe(t: TableView, tasks: Seq<bool>, p: Seq<int>)
    requires
        is_permutation(p, tasks.len() as int),
        t.allocation.len() == tasks.len(),
        t.request.len() == tasks.len(),
    ensures
        is_safe(t, tasks) ==> is_safe(renumber_table(t, p), renumber(tasks, p)),
{
    if is_safe(t, tasks) {
        let n = tasks.len() as int;
        let t2 = renumber_table(t, p);
        let tasks2 = renumber(tasks, p);
        let s = choose|s: Seq<int>| #[trigger] is_safe_order(t, tasks, s);
        lemma_inverse(p, n);
        let q = inverse(p, n);
        let s2 = s.map_values(|x: int| q[x]);
        assert forall|a: int, b: int| 0 <= a < s2.len() && 0 <= b < s2.len() && a != b implies s2[a] != s2[b] by {
            assert(s[a] != s[b]);
            assert(p[q[s[a]]] == s[a] && p[q[s[b]]] == s[b]);
        }
        assert forall|m: int| 0 <= m < s2.len() implies 0 <= #[trigger] s2[m] < tasks2.len() && tasks2[s2[m]] by {
            assert(0 <= s[m] < n && tasks[s[m]]);
            assert(p[q[s[m]]] == s[m]);
        }
        assert forall|k: int| 0 <= k < tasks2.len() && #[trigger] tasks2[k] implies s2.contains(k) by {
            assert(tasks[p[k]]);
            assert(s.contains(p[k]));
            let r = choose|r: int| 0 <= r < s.len() && #[trigger] s[r] == p[k];
            assert(s2[r] == k);
        }
        assert forall|m: int| 0 <= m < s2.len() implies can_finish(
            t2,
            #[trigger] s2[m],
            work_after(t2, mask_of(s2.take(m), n)),
        ) by {
            let mask = mask_of(s.take(m), n);
            let mask2 = mask_of(s2.take(m), n);
            assert forall|k: int| 0 <= k < n implies #[trigger] mask2[k] == mask[p[k]] by {
                if s2.take(m).contains(k) {
                    let r = choose|r: int| 0 <= r < m && #[trigger] s2.take(m)[r] == k;
                    assert(s.take(m)[r] == p[k]);
                }
                if s.take(m).contains(p[k]) {
                    let r = choose|r: int| 0 <= r < m && #[trigger] s.take(m)[r] == p[k];
                    assert(s2.take(m)[r] == k);
                }
            }
            lemma_work_renumbered(t, p, mask, mask2);
            assert(can_finish(t, s[m], work_after(t, mask)));
            assert(p[s2[m]] == s[m]);
            assert forall|j: int| 0 <= j < work_after(t2, mask2).len() implies t2.req(s2[m], j)
                <= #[trigger] work_after(t2, mask2)[j] by {
                assert(work_after(t2, mask2)[j] == work_after(t, mask)[j]);
                assert(t.req(s[m], j) <= work_after(t, mask)[j]);
            }
        }
        assert(is_safe_order(t2, tasks2, s2));
    }
}

/// The verdict does not depend on how thread slots are numbered: moving
/// every thread, with its rows, from slot `p[k]` to slot `k` keeps a safe
/// state safe and an unsafe one unsafe.
pub proof fn safe_under_renumbering(t: TableView, tasks: Seq<bool>, p: Seq<int>)
    requires
        is_permutation(p, tasks.len() as int),
        t.allocation.len() == tasks.len(),
        t.request.len() == tasks.len(),
    ensures
        is_safe(renumber_table(t, p), renumber(tasks, p)) == is_safe(t, tasks),
{
    let n = tasks.len() as int;
    lemma_renumber_keeps_safe(t, tasks, p);
    lemma_inverse(p, n);
    let q = inverse(p, n);
    let t2 = renumber_table(t, p);
    let tasks2 = renumber(tasks, p);
    lemma_renumber_keeps_safe(t2, tasks2, q);
    assert(renumber(tasks2, q) =~= tasks);
    assert(renumber(t2.allocation, q) =~= t.allocation);
    assert(renumber(t2.request, q) =~= t.request);
    assert(renumber_table(t2, q) =~= t);
}

/// `u` is `t` with only what thread `tid` waits for changed.
pub open spec fn same_but_waits_of(t: TableView, u: TableView, tid: int) -> bool {
    &&& u.available == t.available
    &&& u.allocation == t.allocation
    &&& u.request.len() == t.request.len()
    &&& forall|i: int| 0 <= i < t.request.len() && i != tid ==> #[trigger] u.request[i] == t.request[i]
}

/// Where slot `x` of an order goes when the entry at `r` is moved to the front.
spec fn to_front(x: int, r: int) -> int {
    if x == r {
        0
    } else if x < r {
        x + 1
    } else {
        x
    }
}

/// Where slot `m` of the reordered sequence came from.
spec fn from_front(m: int, r: int) -> int {
    if m == 0 {
        r
    } else if m - 1 < r {
        m - 1
    } else {
        m
    }
}

/// A safe state stays safe when one live thread starts waiting for
/// something that the free units can already cover: that thread can run
/// first, and everyone else then finds at least as much as before.
pub proof fn fitting_waiter_keeps_safe(t: TableView, u: TableView, tasks: Seq<bool>, tid: int)
    requires
        same_but_waits_of(t, u, tid),
        t.allocation.len() == tasks.len(),
        t.request.len() == tasks.len(),
        is_safe(t, tasks),
        0 <= tid < tasks.len(),
        tasks[tid],
        forall|j: int| 0 <= j < u.available.len() ==> #[trigger] u.req(tid, j) <= u.available[j],
    ensures
        is_safe(u, tasks),
{
    let n = tasks.len() as int;
    let s = choose|s: Seq<int>| #[trigger] is_safe_order(t, tasks, s);
    assert(s.contains(tid));
    let r = choose|r: int| 0 <= r < s.len() && #[trigger] s[r] == tid;
    let len = s.len() as int;
    let s2 = Seq::new(s.len(), |m: int| s[from_front(m, r)]);
    assert forall|a: int, b: int| 0 <= a < len && 0 <= b < len && a != b implies s2[a] != s2[b] by {
        assert(s[from_front(a, r)] != s[from_front(b, r)]);
    }
    assert forall|m: int| 0 <= m < s2.len() implies 0 <= #[trigger] s2[m] < tasks.len() && tasks[s2[m]] by {
        assert(s2[m] == s[from_front(m, r)]);
    }
    assert forall|i: int| 0 <= i < tasks.len() && #[trigger] tasks[i] implies s2.contains(i) by {
        assert(s.contains(i));
        let x = choose|x: int| 0 <= x < s.len() && #[trigger] s[x] == i;
        assert(s2[to_front(x, r)] == i);
    }
    assert forall|m: int| 0 <= m < s2.len() implies can_finish(
        u,
        #[trigger] s2[m],
        work_after(u, mask_of(s2.take(m), n)),
    ) by {
        let m2 = mask_of(s2.take(m), n);
        if m == 0 {
            assert(s2.take(0) =~= Seq::<int>::empty());
            assert forall|j: int| 0 <= j < work_after(u, m2).len() implies u.req(s2[m], j)
                <= #[trigger] work_after(u, m2)[j] by {
                lemma_masked_sum_zero(u.allocation, m2, j, u.height());
            }
        } else {
            let o = from_front(m, r);
            let m1 = mask_of(s.take(o), n);
            assert forall|k: int| 0 <= k < t.height() && #[trigger] m1[k] implies m2[k] by {
                let pre = s.take(o);
                let x = choose|x: int| 0 <= x < pre.len() && #[trigger] pre[x] == k;
                assert(s[x] == k);
                assert(s2.take(m)[to_front(x, r)] == k);
            }
            lemma_work_mono(t, m1, m2);
            assert(can_finish(t, s[o], work_after(t, m1)));
            lemma_can_finish_mono(t, s[o], work_after(t, m1), work_after(t, m2));
            assert(s2[m] == s[o] && s[o] != tid);
            assert(u.request[s[o]] == t.request[s[o]]);
            assert forall|j: int| 0 <= j < work_after(u, m2).len() implies u.req(s2[m], j)
                <= #[trigger] work_after(u, m2)[j] by {
                assert(work_after(u, m2)[j] == work_after(t, m2)[j]);
                assert(t.req(s[o], j) <= work_after(t, m2)[j]);
            }
        }
    }
    assert(is_safe_order(u, tasks, s2));
}

/// The live threads other than `tid`.
pub open spec fn others(tasks: Seq<bool>, tid: int) -> Seq<bool> {
    Seq::new(tasks.len(), |i: int| tasks[i] && i != tid)
}

/// Where slot `x` of an order goes when the entry at `r` is moved to the back.
spec fn to_back(x: int, r: int, len: int) -> int {
    if x < r {
        x
    } else if x > r {
        x - 1
    } else {
        len - 1
    }
}

/// Where slot `m` of the reordered sequence came from.
spec fn from_back(m: int, r: int, len: int) -> int {
    if m < r {
        m
    } else if m < len - 1 {
        m + 1
    } else {
        r
    }
}

proof fn lemma_masked_sum_zero_row(rows: Seq<Option<Seq<usize>>>, m1: Seq<bool>, m2: Seq<bool>, i: int, j: int, n: int)
    requires
        n <= m1.len(),
        n <= m2.len(),
        entry(rows, i, j) == 0,
        forall|k: int| 0 <= k < n && k != i ==> #[trigger] m1[k] == m2[k],
    ensures
        masked_sum(rows, m1, j, n) == masked_sum(rows, m2, j, n),
    decreases n,
{
    if n > 0 {
        lemma_masked_sum_zero_row(rows, m1, m2, i, j, n - 1);
    }
}

/// A safe state stays safe when a live thread that holds nothing starts
/// waiting for something that is covered once all other live threads have
/// finished: that thread can simply run last, and since it gives back
/// nothing, everyone before it finds as much as before.
pub proof fn idle_waiter_keeps_safe(t: TableView, u: TableView, tasks: Seq<bool>, tid: int)
    requires
        same_but_waits_of(t, u, tid),
        t.allocation.len() == tasks.len(),
        t.request.len() == tasks.len(),
        is_safe(t, tasks),
        0 <= tid < tasks.len(),
        tasks[tid],
        forall|j: int| 0 <= j < t.available.len() ==> #[trigger] t.held_by(tid, j) == 0,
        forall|j: int|
            0 <= j < u.available.len() ==> #[trigger] u.req(tid, j) <= work_after(t, others(tasks, tid))[j],
    ensures
        is_safe(u, tasks),
{
    let n = tasks.len() as int;
    let s = choose|s: Seq<int>| #[trigger] is_safe_order(t, tasks, s);
    assert(s.contains(tid));
    let r = choose|r: int| 0 <= r < s.len() && #[trigger] s[r] == tid;
    let len = s.len() as int;
    let s2 = Seq::new(s.len(), |m: int| s[from_back(m, r, len)]);
    assert forall|a: int, b: int| 0 <= a < len && 0 <= b < len && a != b implies s2[a] != s2[b] by {
        assert(s[from_back(a, r, len)] != s[from_back(b, r, len)]);
    }
    assert forall|m: int| 0 <= m < s2.len() implies 0 <= #[trigger] s2[m] < tasks.len() && tasks[s2[m]] by {
        assert(s2[m] == s[from_back(m, r, len)]);
    }
    assert forall|i: int| 0 <= i < tasks.len() && #[trigger] tasks[i] implies s2.contains(i) by {
        assert(s.contains(i));
        let x = choose|x: int| 0 <= x < s.len() && #[trigger] s[x] == i;
        assert(s2[to_back(x, r, len)] == i);
    }
    assert forall|m: int| 0 <= m < s2.len() implies can_finish(
        u,
        #[trigger] s2[m],
        work_after(u, mask_of(s2.take(m), n)),
    ) by {
        let m2 = mask_of(s2.take(m), n);
        if m == len - 1 {
            let oth = others(tasks, tid);
            assert forall|k: int| 0 <= k < n implies #[trigger] m2[k] == oth[k] by {
                if m2[k] {
                    let pre = s2.take(m);
                    let y = choose|y: int| 0 <= y < pre.len() && #[trigger] pre[y] == k;
                    assert(s2[y] == s[from_back(y, r, len)]);
                }
                if oth[k] {
                    assert(s.contains(k));
                    let x = choose|x: int| 0 <= x < s.len() && #[trigger] s[x] == k;
                    assert(x != r);
                    assert(s2.take(m)[to_back(x, r, len)] == k);
                }
            }
            assert(m2 =~= oth);
            assert(s2[m] == tid);
            assert forall|j: int| 0 <= j < work_after(u, m2).len() implies u.req(s2[m], j)
                <= #[trigger] work_after(u, m2)[j] by {
                assert(work_after(u, m2)[j] == work_after(t, oth)[j]);
            }
        } else {
            let o = from_back(m, r, len);
            let m1 = mask_of(s.take(o), n);
            let m3 = m2.update(tid, true);
            assert forall|k: int| 0 <= k < t.height() && #[trigger] m1[k] implies m3[k] by {
                let pre = s.take(o);
                let x = choose|x: int| 0 <= x < pre.len() && #[trigger] pre[x] == k;
                assert(s[x] == k);
                if x != r {
                    assert(s2.take(m)[to_back(x, r, len)] == k);
                }
            }
            lemma_work_mono(t, m1, m3);
            assert forall|j: int| 0 <= j < t.available.len() implies #[trigger] work_after(t, m3)[j]
                == work_after(t, m2)[j] by {
                assert(t.held_by(tid, j) == 0);
                lemma_masked_sum_zero_row(t.allocation, m3, m2, tid, j, t.height());
            }
            assert(can_finish(t, s[o], work_after(t, m1)));
            assert(s2[m] == s[o] && s[o] != tid);
            assert(u.request[s[o]] == t.request[s[o]]);
            assert forall|j: int| 0 <= j < work_after(u, m2).len() implies u.req(s2[m], j)
                <= #[trigger] work_after(u, m2)[j] by {
                assert(work_after(u, m2)[j] == work_after(t, m2)[j]);
                assert(work_after(t, m1)[j] <= work_after(t, m3)[j]);
                assert(t.req(s[o], j) <= work_after(t, m1)[j]);
            }
        }
    }
    assert(is_safe_order(u, tasks, s2));
}

} // verus!
