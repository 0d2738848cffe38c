use vstd::prelude::*;
use vstd::set_lib::*;

verus! {

// ---------------------------------------------------------------------------
// The mathematical model of the safety check.
//
// `available[k]` is the free amount of resource `k`, `allocation[i][k]` what
// thread `i` holds of it and `need[i][k]` what thread `i` still waits for.
// The check considers the threads `0 .. available.len()` (one thread per
// resource column, as the kernel's tables are laid out), compares a need row
// with the work vector on the columns both have, and releases an allocation
// row on the columns both have.
// ---------------------------------------------------------------------------

/// The rows of a matrix, each taken by its view.
pub open spec fn rows_view<T>(rows: Seq<Vec<T>>) -> Seq<Seq<T>> {
    rows.map_values(|r: Vec<T>| r@)
}

/// A sequence of machine integers read as mathematical integers.
pub open spec fn ints(s: Seq<usize>) -> Seq<int> {
    s.map_values(|x: usize| x as int)
}

/// What thread `i` holds of resource `k` (nothing outside its row).
pub open spec fn held(alloc: Seq<Seq<usize>>, i: int, k: int) -> int {
    if 0 <= k < alloc[i].len() {
        alloc[i][k] as int
    } else {
        0
    }
}

/// What the threads `i < upto` marked in `mask` hold of resource `k`.
pub open spec fn released(alloc: Seq<Seq<usize>>, mask: Seq<bool>, k: int, upto: nat) -> int
    decreases upto,
{
    if upto == 0 {
        0
    } else {
        released(alloc, mask, k, (upto - 1) as nat) + if mask[upto - 1] {
            held(alloc, upto - 1, k)
        } else {
            0
        }
    }
}

/// The mask in which every one of `n` threads is marked.
pub open spec fn all_marked(n: nat) -> Seq<bool> {
    Seq::new(n, |i: int| true)
}

/// The resources free once the threads marked in `mask` have run to the end
/// and given back what they hold.
pub open spec fn work_with(avail: Seq<usize>, alloc: Seq<Seq<usize>>, mask: Seq<bool>) -> Seq<int> {
    Seq::new(avail.len(), |k: int| avail[k] as int + released(alloc, mask, k, avail.len()))
}

/// A need row can be met from `work`, column by column where both exist.
pub open spec fn runnable(need_row: Seq<usize>, work: Seq<int>) -> bool {
    forall|k: int| 0 <= k < need_row.len() && k < work.len() ==> need_row[k] as int <= work[k]
}

/// The mask of the threads that come before position `m` in `order`.
pub open spec fn done_before(order: Seq<int>, m: int, n: nat) -> Seq<bool> {
    Seq::new(n, |i: int| order.take(m).contains(i))
}

/// `order` runs every thread exactly once, and each thread's need can be met
/// from what is free after the threads before it have finished.
pub open spec fn is_safe_order(
    avail: Seq<usize>,
    alloc: Seq<Seq<usize>>,
    need: Seq<Seq<usize>>,
    order: Seq<int>,
) -> bool {
    let n = avail.len();
    &&& order.len() == n
    &&& forall|j: int| 0 <= j < n ==> 0 <= #[trigger] order[j] < n
    &&& order.no_duplicates()
    &&& forall|m: int|
        0 <= m < n ==> runnable(
            need[#[trigger] order[m]],
            work_with(avail, alloc, done_before(order, m, n)),
        )
}

/// No order lets every thread run to the end: the state is deadlocked.
pub open spec fn deadlocked(avail: Seq<usize>, alloc: Seq<Seq<usize>>, need: Seq<Seq<usize>>) -> bool {
    !exists|order: Seq<int>| is_safe_order(avail, alloc, need, order)
}

/// What the check needs of its input: a need and an allocation row for each
/// thread it considers, and work sums that fit in a machine word.
pub open spec fn detect_ready(avail: Seq<usize>, alloc: Seq<Seq<usize>>, need: Seq<Seq<usize>>) -> bool {
    let n = avail.len();
    &&& alloc.len() >= n
    &&& need.len() >= n
    &&& forall|k: int|
        0 <= k < n ==> avail[k] + #[trigger] released(alloc, all_marked(n), k, n) <= usize::MAX
}

// ---------------------------------------------------------------------------
// Lemmas on the model.
// ---------------------------------------------------------------------------

/// Marking more threads never frees less.
proof fn lemma_released_mono(
    alloc: Seq<Seq<usize>>,
    small: Seq<bool>,
    big: Seq<bool>,
    k: int,
    upto: nat,
)
    requires
        small.len() >= upto,
        big.len() >= upto,
        alloc.len() >= upto,
        forall|i: int| 0 <= i < upto && #[trigger] small[i] ==> big[i],
    ensures
        released(alloc, small, k, upto) <= released(alloc, big, k, upto),
    decreases upto,
{
    if upto > 0 {
        lemma_released_mono(alloc, small, big, k, (upto - 1) as nat);
    }
}

/// Marking one more thread frees exactly what it holds.
proof fn lemma_released_mark(alloc: Seq<Seq<usize>>, mask: Seq<bool>, i: int, k: int, upto: nat)
    requires
        mask.len() >= upto,
        0 <= i < mask.len(),
        !mask[i],
    ensures
        released(alloc, mask.update(i, true), k, upto) == released(alloc, mask, k, upto) + if i
            < upto {
            held(alloc, i, k)
        } else {
            0
        },
    decreases upto,
{
    if upto > 0 {
        lemma_released_mark(alloc, mask, i, k, (upto - 1) as nat);
    }
}

/// Need rows that fit a work vector fit every larger one.
proof fn lemma_runnable_mono(need_row: Seq<usize>, w1: Seq<int>, w2: Seq<int>)
    requires
        runnable(need_row, w1),
        w1.len() == w2.len(),
        forall|k: int| 0 <= k < w1.len() ==> w1[k] <= w2[k],
    ensures
        runnable(need_row, w2),
{
    assert forall|k: int| 0 <= k < need_row.len() && k < w2.len() implies need_row[k] as int
        <= w2[k] by {
        assert(w1[k] <= w2[k]);
    }
}

/// A duplicate-free sequence of `n` indices below `n` holds every index.
proof fn lemma_full_order_covers(order: Seq<int>, n: nat)
    requires
        order.len() == n,
        forall|j: int| 0 <= j < n ==> 0 <= #[trigger] order[j] < n,
        order.no_duplicates(),
    ensures
        forall|i: int| 0 <= i < n ==> order.contains(i),
{
    broadcast use vstd::seq_lib::seq_to_set_is_finite;

    order.unique_seq_to_set();
    lemma_int_range(0, n as int);
    let s = order.to_set();
    let r = set_int_range(0, n as int);
    assert(s.subset_of(r)) by {
        assert forall|x: int| s.contains(x) implies r.contains(x) by {
            let j = order.index_of(x);
            assert(order[j] == x);
        }
    }
    lemma_subset_equality(s, r);
    assert forall|i: int| 0 <= i < n implies order.contains(i) by {
        assert(r.contains(i));
        assert(s.contains(i));
    }
}

/// A duplicate-free sequence of indices below `n` has at most `n` entries,
/// and exactly `n` when it holds every index.
proof fn lemma_order_len(order: Seq<int>, n: nat)
    requires
        forall|j: int| 0 <= j < order.len() ==> 0 <= #[trigger] order[j] < n,
        order.no_duplicates(),
    ensures
        order.len() <= n,
        (forall|i: int| 0 <= i < n ==> order.contains(i)) ==> order.len() == n,
{
    broadcast use vstd::seq_lib::seq_to_set_is_finite;

    order.unique_seq_to_set();
    lemma_int_range(0, n as int);
    let s = order.to_set();
    let r = set_int_range(0, n as int);
    assert(s.subset_of(r)) by {
        assert forall|x: int| s.contains(x) implies r.contains(x) by {
            let j = order.index_of(x);
            assert(order[j] == x);
        }
    }
    lemma_len_subset(s, r);
    if forall|i: int| 0 <= i < n ==> order.contains(i) {
        assert(s =~= r) by {
            assert forall|x: int| r.contains(x) implies s.contains(x) by {
                assert(order.contains(x));
            }
        }
    }
}

/// The first position of `order`, from `from` on, whose thread is unmarked.
proof fn lemma_first_unmarked(order: Seq<int>, mask: Seq<bool>, from: int, n: nat) -> (m: int)
    requires
        0 <= from <= n,
        order.len() == n,
        mask.len() == n,
        forall|j: int| 0 <= j < n ==> 0 <= #[trigger] order[j] < n,
        forall|j: int| 0 <= j < from ==> #[trigger] mask[order[j]],
        exists|j: int| from <= j < n && !#[trigger] mask[order[j]],
    ensures
        from <= m < n,
        !mask[order[m]],
        forall|j: int| 0 <= j < m ==> #[trigger] mask[order[j]],
    decreases n - from,
{
    if !mask[order[from]] {
        from
    } else {
        assert forall|j: int| 0 <= j < from + 1 implies #[trigger] mask[order[j]] by {}
        assert(exists|j: int| from + 1 <= j < n && !#[trigger] mask[order[j]]) by {
            let j = choose|j: int| from <= j < n && !#[trigger] mask[order[j]];
            assert(j != from);
        }
        lemma_first_unmarked(order, mask, from + 1, n)
    }
}

/// When some thread is unmarked and no unmarked thread's need fits what the
/// marked threads free, no safe order exists.
proof fn lemma_stuck_is_deadlocked(
    avail: Seq<usize>,
    alloc: Seq<Seq<usize>>,
    need: Seq<Seq<usize>>,
    mask: Seq<bool>,
    stuck: int,
)
    requires
        mask.len() == avail.len(),
        alloc.len() >= avail.len(),
        0 <= stuck < avail.len(),
        !mask[stuck],
        forall|j: int|
            0 <= j < avail.len() && !#[trigger] mask[j] ==> !runnable(
                need[j],
                work_with(avail, alloc, mask),
            ),
    ensures
        deadlocked(avail, alloc, need),
{
    let n = avail.len();
    if exists|order: Seq<int>| is_safe_order(avail, alloc, need, order) {
        let order = choose|order: Seq<int>| is_safe_order(avail, alloc, need, order);
        lemma_full_order_covers(order, n);
        assert(order.contains(stuck));
        let js = order.index_of(stuck);
        assert(!mask[order[js]]);
        let m = lemma_first_unmarked(order, mask, 0, n);
        let before = done_before(order, m, n);
        assert forall|i: int| 0 <= i < n && #[trigger] before[i] implies mask[i] by {
            assert(order.take(m).contains(i));
            let j = order.take(m).index_of(i);
            assert(order[j] == i);
        }
        assert forall|k: int| 0 <= k < n implies work_with(avail, alloc, before)[k] <= work_with(
            avail,
            alloc,
            mask,
        )[k] by {
            lemma_released_mono(alloc, before, mask, k, n);
        }
        assert(runnable(need[order[m]], work_with(avail, alloc, before)));
        lemma_runnable_mono(
            need[order[m]],
            work_with(avail, alloc, before),
            work_with(avail, alloc, mask),
        );
        assert(false);
    }
}

/// Nothing is released when no thread is marked.
proof fn lemma_released_zero(alloc: Seq<Seq<usize>>, mask: Seq<bool>, k: int, upto: nat)
    requires
        mask.len() >= upto,
        forall|i: int| 0 <= i < upto ==> !#[trigger] mask[i],
    ensures
        released(alloc, mask, k, upto) == 0,
    decreases upto,
{
    if upto > 0 {
        lemma_released_zero(alloc, mask, k, (upto - 1) as nat);
    }
}

/// The state of the check between steps: `order` lists the finished
/// threads in the order they finished, and each of them could run when it
/// did.
spec fn progress(
    avail: Seq<usize>,
    alloc: Seq<Seq<usize>>,
    need: Seq<Seq<usize>>,
    order: Seq<int>,
    finish: Seq<bool>,
) -> bool {
    let n = avail.len();
    &&& finish.len() == n
    &&& forall|j: int| 0 <= j < order.len() ==> 0 <= #[trigger] order[j] < n
    &&& order.no_duplicates()
    &&& forall|i: int| 0 <= i < n ==> #[trigger] finish[i] == order.contains(i)
    &&& forall|m: int|
        0 <= m < order.len() ==> runnable(
            need[#[trigger] order[m]],
            work_with(avail, alloc, done_before(order, m, n)),
        )
}

/// Finishing thread `i` keeps every work entry within a machine word.
proof fn lemma_step_fits(
    avail: Seq<usize>,
    alloc: Seq<Seq<usize>>,
    need: Seq<Seq<usize>>,
    finish: Seq<bool>,
    i: int,
)
    requires
        detect_ready(avail, alloc, need),
        finish.len() == avail.len(),
        0 <= i < avail.len(),
        !finish[i],
    ensures
        forall|k: int|
            0 <= k < avail.len() && k < alloc[i].len() ==> #[trigger] work_with(avail, alloc, finish)[k]
                + alloc[i][k] <= usize::MAX,
{
    let n = avail.len();
    assert forall|k: int|
        0 <= k < n && k < alloc[i].len() implies #[trigger] work_with(avail, alloc, finish)[k]
        + alloc[i][k] <= usize::MAX by {
        lemma_released_mark(alloc, finish, i, k, n);
        lemma_released_mono(alloc, finish.update(i, true), all_marked(n), k, n);
        assert(avail[k] + released(alloc, all_marked(n), k, n) <= usize::MAX);
    }
}

/// Finishing a runnable unfinished thread extends the progress.
proof fn lemma_progress_step(
    avail: Seq<usize>,
    alloc: Seq<Seq<usize>>,
    need: Seq<Seq<usize>>,
    order: Seq<int>,
    finish: Seq<bool>,
    i: int,
)
    requires
        progress(avail, alloc, need, order, finish),
        0 <= i < avail.len(),
        !finish[i],
        runnable(need[i], work_with(avail, alloc, finish)),
    ensures
        progress(avail, alloc, need, order.push(i), finish.update(i, true)),
{
    let n = avail.len();
    let o2 = order.push(i);
    let f2 = finish.update(i, true);
    assert(!order.contains(i));
    assert(done_before(order, order.len() as int, n) =~= finish) by {
        assert(order.take(order.len() as int) =~= order);
    }
    assert forall|m: int| 0 <= m <= order.len() implies done_before(o2, m, n) == done_before(
        order,
        m,
        n,
    ) by {
        assert(o2.take(m) =~= order.take(m));
    }
    assert forall|m: int| 0 <= m < o2.len() implies runnable(
        need[#[trigger] o2[m]],
        work_with(avail, alloc, done_before(o2, m, n)),
    ) by {
        if m < order.len() {
            assert(o2[m] == order[m]);
        } else {
            assert(o2[m] == i);
        }
    }
    assert forall|x: int| 0 <= x < n implies #[trigger] f2[x] == o2.contains(x) by {
        if x == i {
            assert(o2[order.len() as int] == i);
        } else {
            if o2.contains(x) {
                let j = o2.index_of(x);
                assert(order[j] == x);
            }
            if order.contains(x) {
                let j = order.index_of(x);
                assert(o2[j] == x);
            }
        }
    }
}

/// A progress that lists `n` threads is a safe order.
proof fn lemma_progress_safe(
    avail: Seq<usize>,
    alloc: Seq<Seq<usize>>,
    need: Seq<Seq<usize>>,
    order: Seq<int>,
    finish: Seq<bool>,
)
    requires
        progress(avail, alloc, need, order, finish),
        order.len() == avail.len(),
    ensures
        !deadlocked(avail, alloc, need),
{
    assert(is_safe_order(avail, alloc, need, order));
}

/// When every thread has finished, the order in which they did is safe.
proof fn lemma_progress_complete(
    avail: Seq<usize>,
    alloc: Seq<Seq<usize>>,
    need: Seq<Seq<usize>>,
    order: Seq<int>,
    finish: Seq<bool>,
)
    requires
        progress(avail, alloc, need, order, finish),
        forall|t: int| 0 <= t < avail.len() ==> #[trigger] finish[t],
    ensures
        !deadlocked(avail, alloc, need),
{
    let n = avail.len();
    assert forall|t: int| 0 <= t < n implies order.contains(t) by {
        assert(finish[t]);
    }
    lemma_order_len(order, n);
    lemma_progress_safe(avail, alloc, need, order, finish);
}

/// A progress that lists at least `n` threads lists exactly `n`, and is safe.
proof fn lemma_progress_len(
    avail: Seq<usize>,
    alloc: Seq<Seq<usize>>,
    need: Seq<Seq<usize>>,
    order: Seq<int>,
    finish: Seq<bool>,
)
    requires
        progress(avail, alloc, need, order, finish),
        order.len() >= avail.len(),
    ensures
        !deadlocked(avail, alloc, need),
{
    lemma_order_len(order, avail.len());
    lemma_progress_safe(avail, alloc, need, order, finish);
}

// ---------------------------------------------------------------------------
// The check itself.
// ---------------------------------------------------------------------------

/// Whether `need_row` fits `work` on every column that both have.
fn row_fits(need_row: &Vec<usize>, work: &Vec<usize>) -> (fits: bool)
    ensures
        fits == runnable(need_row@, ints(work@)),
{
    let len = if need_row.len() < work.len() {
        need_row.len()
    } else {
        work.len()
    };
    let mut k: usize = 0;
    while k < len
        invariant
            k <= len,
            len <= need_row.len(),
            len <= work.len(),
            len == need_row.len() || len == work.len(),
            forall|j: int| 0 <= j < k ==> need_row@[j] <= work@[j],
        decreases len - k,
    {
        if need_row[k] > work[k] {
            assert(!runnable(need_row@, ints(work@))) by {
                assert(ints(work@)[k as int] == work@[k as int] as int);
            }
            return false;
        }
        k = k + 1;
    }
    assert forall|j: int|
        0 <= j < need_row@.len() && j < ints(work@).len() implies need_row@[j] as int <= ints(
        work@,
    )[j] by {}
    true
}

/// Adds `alloc_row` to `work` on every column that both have.
fn release_row(work: &mut Vec<usize>, alloc_row: &Vec<usize>)
    requires
        forall|k: int|
            0 <= k < old(work).len() && k < alloc_row.len() ==> old(work)@[k] + alloc_row@[k]
                <= usize::MAX,
    ensures
        final(work).len() == old(work).len(),
        forall|k: int|
            0 <= k < old(work).len() ==> #[trigger] final(work)@[k] == old(work)@[k] + if k
                < alloc_row.len() {
                alloc_row@[k] as int
            } else {
                0
            },
{
    let len = if alloc_row.len() < work.len() {
        alloc_row.len()
    } else {
        work.len()
    };
    let mut k: usize = 0;
    while k < len
        invariant
            k <= len,
            len <= alloc_row.len(),
            len <= work.len(),
            len == alloc_row.len() || len == work.len(),
            work.len() == old(work).len(),
            forall|j: int|
                0 <= j < old(work).len() && j < alloc_row.len() ==> old(work)@[j] + alloc_row@[j]
                    <= usize::MAX,
            forall|j: int| 0 <= j < k ==> #[trigger] work@[j] == old(work)@[j] + alloc_row@[j],
            forall|j: int| k <= j < work.len() ==> #[trigger] work@[j] == old(work)@[j],
        decreases len - k,
    {
        let w = work[k] + alloc_row[k];
        work.set(k, w);
        k = k + 1;
    }
}

/// Banker's safety check: repeatedly lets every unfinished thread whose need
/// fits the free resources run to the end and give back what it holds; the
/// state is deadlocked when a pass finishes no thread while some thread is
/// unfinished.
///
/// The result is exactly whether the state is deadlocked: `false` if and
/// only if some order lets every thread run to the end.
pub fn deadlock_detect(available: &Vec<usize>, allocation: &[Vec<usize>], need: &[Vec<usize>]) -> (deadlock: bool)
    requires
        detect_ready(available@, rows_view(allocation@), rows_view(need@)),
    ensures
        deadlock == deadlocked(available@, rows_view(allocation@), rows_view(need@)),
{
    let ghost avail = available@;
    let ghost alloc = rows_view(allocation@);
    let ghost needs = rows_view(need@);
    let len = available.len();
    let ghost n = len as nat;
    let mut work: Vec<usize> = Vec::new();
    let mut finish: Vec<bool> = Vec::new();
    let mut k: usize = 0;
    while k < len
        invariant
            k <= len,
            len == available.len(),
            work@ =~= available@.take(k as int),
            finish@ =~= Seq::new(k as nat, |i: int| false),
        decreases len - k,
    {
        work.push(available[k]);
        finish.push(false);
        k = k + 1;
    }
    proof {
        assert forall|k: int| 0 <= k < n implies ints(work@)[k] == work_with(avail, alloc, finish@)[k] by {
            lemma_released_zero(alloc, finish@, k, n);
        }
        assert(ints(work@) =~= work_with(avail, alloc, finish@));
    }
    let ghost mut order: Seq<int> = Seq::empty();
    let mut round: usize = 0;
    while round < len
        invariant
            len == available.len(),
            avail == available@,
            alloc == rows_view(allocation@),
            needs == rows_view(need@),
            n == len,
            detect_ready(avail, alloc, needs),
            round <= len,
            work.len() == len,
            finish.len() == len,
            progress(avail, alloc, needs, order, finish@),
            ints(work@) == work_with(avail, alloc, finish@),
            order.len() >= round,
        decreases len - round,
    {
        let mut flag = false;
        let ghost pass_finish = finish@;
        let mut i: usize = 0;
        while i < len
            invariant
                len == available.len(),
                avail == available@,
                alloc == rows_view(allocation@),
                needs == rows_view(need@),
                n == len,
                detect_ready(avail, alloc, needs),
                round < len,
                i <= len,
                work.len() == len,
                finish.len() == len,
                progress(avail, alloc, needs, order, finish@),
                ints(work@) == work_with(avail, alloc, finish@),
                flag ==> order.len() >= round + 1,
                !flag ==> order.len() >= round,
                !flag ==> finish@ == pass_finish,
                !flag ==> forall|j: int|
                    0 <= j < i && !#[trigger] finish@[j] ==> !runnable(
                        needs[j],
                        work_with(avail, alloc, finish@),
                    ),
            decreases len - i,
        {
            if !finish[i] && row_fits(&need[i], &work) {
                proof {
                    assert(needs[i as int] == need@[i as int]@);
                    assert(runnable(needs[i as int], work_with(avail, alloc, finish@)));
                    lemma_step_fits(avail, alloc, needs, finish@, i as int);
                    assert(allocation@[i as int]@ == alloc[i as int]);
                    assert forall|k: int|
                        0 <= k < work.len() && k < allocation@[i as int].len() implies work@[k]
                        + allocation@[i as int]@[k] <= usize::MAX by {
                        assert(ints(work@)[k] == work@[k] as int);
                        assert(work_with(avail, alloc, finish@)[k] + alloc[i as int][k]
                            <= usize::MAX);
                    }
                }
                let ghost old_work = work@;
                let ghost old_finish = finish@;
                release_row(&mut work, &allocation[i]);
                finish.set(i, true);
                proof {
                    lemma_progress_step(avail, alloc, needs, order, old_finish, i as int);
                    order = order.push(i as int);
                    assert forall|k: int| 0 <= k < n implies ints(work@)[k] == work_with(
                        avail,
                        alloc,
                        finish@,
                    )[k] by {
                        lemma_released_mark(alloc, old_finish, i as int, k, n);
                        assert(allocation@[i as int]@ == alloc[i as int]);
                        assert(ints(old_work)[k] == old_work[k] as int);
                        assert(ints(work@)[k] == work@[k] as int);
                        assert(work@[k] == old_work[k] + held(alloc, i as int, k));
                    }
                    assert(ints(work@) =~= work_with(avail, alloc, finish@));
                }
                flag = true;
            }
            i = i + 1;
        }
        if !flag {
            let mut j: usize = 0;
            while j < len
                invariant
                    j <= len,
                    finish.len() == len,
                    n == len,
                    len == available.len(),
                    avail == available@,
                    alloc == rows_view(allocation@),
                    needs == rows_view(need@),
                    detect_ready(avail, alloc, needs),
                    progress(avail, alloc, needs, order, finish@),
                    forall|t: int| 0 <= t < j ==> #[trigger] finish@[t],
                    forall|t: int|
                        0 <= t < len && !#[trigger] finish@[t] ==> !runnable(
                            needs[t],
                            work_with(avail, alloc, finish@),
                        ),
                decreases len - j,
            {
                if !finish[j] {
                    proof {
                        lemma_stuck_is_deadlocked(avail, alloc, needs, finish@, j as int);
                    }
                    return true;
                }
                j = j + 1;
            }
            proof {
                lemma_progress_complete(avail, alloc, needs, order, finish@);
            }
            return false;
        }
        round = round + 1;
    }
    proof {
        lemma_progress_len(avail, alloc, needs, order, finish@);
    }
    false
}

// ---------------------------------------------------------------------------
// The answer does not depend on how the threads are numbered.
// ---------------------------------------------------------------------------

/// `p` renumbers the threads `0 .. n`: it lists each of them once.
pub open spec fn is_renumbering(p: Seq<int>, n: nat) -> bool {
    &&& p.len() == n
    &&& forall|j: int| 0 <= j < n ==> 0 <= #[trigger] p[j] < n
    &&& p.no_duplicates()
}

/// What the first `m` threads of `order` hold of resource `k`.
spec fn order_sum(alloc: Seq<Seq<usize>>, order: Seq<int>, k: int, m: nat) -> int
    decreases m,
{
    if m == 0 {
        0
    } else {
        order_sum(alloc, order, k, (m - 1) as nat) + held(alloc, order[m - 1], k)
    }
}

/// Releasing the threads before position `m` of a duplicate-free order
/// frees what they hold, summed along the order.
proof fn lemma_released_along_order(alloc: Seq<Seq<usize>>, order: Seq<int>, m: nat, n: nat, k: int)
    requires
        m <= order.len(),
        forall|j: int| 0 <= j < order.len() ==> 0 <= #[trigger] order[j] < n,
        order.no_duplicates(),
    ensures
        released(alloc, done_before(order, m as int, n), k, n) == order_sum(alloc, order, k, m),
    decreases m,
{
    if m == 0 {
        assert forall|i: int| 0 <= i < n implies !#[trigger] done_before(order, 0, n)[i] by {
            assert(order.take(0) =~= Seq::<int>::empty());
        }
        lemma_released_zero(alloc, done_before(order, 0, n), k, n);
    } else {
        let prev = done_before(order, m - 1, n);
        let x = order[m - 1];
        lemma_released_along_order(alloc, order, (m - 1) as nat, n, k);
        assert(!prev[x]) by {
            if order.take(m - 1).contains(x) {
                let j = order.take(m - 1).index_of(x);
                assert(order[j] == order[m - 1]);
            }
        }
        assert(done_before(order, m as int, n) =~= prev.update(x, true)) by {
            assert forall|i: int| 0 <= i < n implies #[trigger] done_before(order, m as int, n)[i]
                == prev.update(x, true)[i] by {
                if order.take(m as int).contains(i) {
                    let j = order.take(m as int).index_of(i);
                    if j < m - 1 {
                        assert(order.take(m - 1)[j] == i);
                    }
                }
                if order.take(m - 1).contains(i) {
                    let j = order.take(m - 1).index_of(i);
                    assert(order.take(m as int)[j] == i);
                }
                if i == x {
                    assert(order.take(m as int)[m - 1] == x);
                }
            }
        }
        lemma_released_mark(alloc, prev, x, k, n);
    }
}

/// Two orders whose threads hold the same, position by position, free the
/// same.
proof fn lemma_order_sum_same(
    alloc: Seq<Seq<usize>>,
    order: Seq<int>,
    alloc2: Seq<Seq<usize>>,
    order2: Seq<int>,
    k: int,
    m: nat,
)
    requires
        m <= order.len(),
        m <= order2.len(),
        forall|j: int| 0 <= j < m ==> #[trigger] alloc2[order2[j]] == alloc[order[j]],
    ensures
        order_sum(alloc, order, k, m) == order_sum(alloc2, order2, k, m),
    decreases m,
{
    if m > 0 {
        lemma_order_sum_same(alloc, order, alloc2, order2, k, (m - 1) as nat);
        assert(alloc2[order2[m - 1]] == alloc[order[m - 1]]);
    }
}

/// A safe order of the renumbered tables `alloc2`, `need2` gives a safe
/// order of `alloc`, `need`.
proof fn lemma_safe_order_transfers(
    avail: Seq<usize>,
    alloc: Seq<Seq<usize>>,
    need: Seq<Seq<usize>>,
    p: Seq<int>,
    alloc2: Seq<Seq<usize>>,
    need2: Seq<Seq<usize>>,
    order2: Seq<int>,
)
    requires
        is_renumbering(p, avail.len()),
        forall|i: int| 0 <= i < avail.len() ==> #[trigger] alloc2[i] == alloc[p[i]],
        forall|i: int| 0 <= i < avail.len() ==> #[trigger] need2[i] == need[p[i]],
        is_safe_order(avail, alloc2, need2, order2),
    ensures
        !deadlocked(avail, alloc, need),
{
    let n = avail.len();
    let order = Seq::new(n, |j: int| p[order2[j]]);
    assert forall|j: int| 0 <= j < n implies 0 <= #[trigger] order[j] < n by {
        assert(0 <= order2[j] < n);
    }
    assert(order.no_duplicates()) by {
        assert forall|a: int, b: int| 0 <= a < order.len() && 0 <= b < order.len() && a != b implies order[a]
            != order[b] by {
            assert(0 <= order2[a] < n && 0 <= order2[b] < n);
            assert(order2[a] != order2[b]);
        }
    }
    assert forall|m: int| 0 <= m < n implies runnable(
        need[#[trigger] order[m]],
        work_with(avail, alloc, done_before(order, m, n)),
    ) by {
        assert(0 <= order2[m] < n);
        assert(need2[order2[m]] == need[order[m]]);
        assert(runnable(need2[order2[m]], work_with(avail, alloc2, done_before(order2, m, n))));
        assert forall|j: int| 0 <= j < m implies #[trigger] alloc[order[j]] == alloc2[order2[j]] by {
            assert(0 <= order2[j] < n);
        }
        assert forall|k: int| 0 <= k < n implies work_with(avail, alloc, done_before(order, m, n))[k]
            == work_with(avail, alloc2, done_before(order2, m, n))[k] by {
            lemma_released_along_order(alloc, order, m as nat, n, k);
            lemma_released_along_order(alloc2, order2, m as nat, n, k);
            lemma_order_sum_same(alloc2, order2, alloc, order, k, m as nat);
        }
        assert(work_with(avail, alloc, done_before(order, m, n)) =~= work_with(
            avail,
            alloc2,
            done_before(order2, m, n),
        ));
    }
    assert(is_safe_order(avail, alloc, need, order));
}

/// Renumbering the threads does not change the answer: when row `i` of
/// `alloc2` and `need2` is row `p[i]` of `alloc` and `need`, for a
/// renumbering `p` of the threads that the check considers, both states are
/// deadlocked or neither is.
pub proof fn law_deadlock_ignores_thread_order(
    avail: Seq<usize>,
    alloc: Seq<Seq<usize>>,
    need: Seq<Seq<usize>>,
    p: Seq<int>,
    alloc2: Seq<Seq<usize>>,
    need2: Seq<Seq<usize>>,
)
    requires
        is_renumbering(p, avail.len()),
        forall|i: int| 0 <= i < avail.len() ==> #[trigger] alloc2[i] == alloc[p[i]],
        forall|i: int| 0 <= i < avail.len() ==> #[trigger] need2[i] == need[p[i]],
    ensures
        deadlocked(avail, alloc2, need2) == deadlocked(avail, alloc, need),
{
    let n = avail.len();
    if !deadlocked(avail, alloc2, need2) {
        let order2 = choose|o: Seq<int>| is_safe_order(avail, alloc2, need2, o);
        lemma_safe_order_transfers(avail, alloc, need, p, alloc2, need2, order2);
    }
    if !deadlocked(avail, alloc, need) {
        let order = choose|o: Seq<int>| is_safe_order(avail, alloc, need, o);
        lemma_full_order_covers(p, n);
        let q = Seq::new(n, |i: int| p.index_of(i));
        assert forall|i: int| 0 <= i < n implies 0 <= #[trigger] q[i] < n && p[q[i]] == i by {
            assert(p.contains(i));
        }
        assert(q.no_duplicates()) by {
            assert forall|a: int, b: int| 0 <= a < q.len() && 0 <= b < q.len() && a != b implies q[a]
                != q[b] by {
                assert(p[q[a]] == a && p[q[b]] == b);
            }
        }
        assert forall|i: int| 0 <= i < n implies #[trigger] alloc[i] == alloc2[q[i]] by {
            assert(0 <= q[i] < n && p[q[i]] == i);
        }
        assert forall|i: int| 0 <= i < n implies #[trigger] need[i] == need2[q[i]] by {
            assert(0 <= q[i] < n && p[q[i]] == i);
        }
        lemma_safe_order_transfers(avail, alloc2, need2, q, alloc, need, order);
    }
}

} // verus!
