//! Choosing the cores that the workers are pinned to.
//!
//! Workers are spread over physical cores first: one logical core of every
//! physical core is taken before a second one of any, and the packages with
//! more logical cores are drained before those with fewer.

use vstd::prelude::*;

verus! {

/// Where a logical core sits: its number, and the package and the physical
/// core it belongs to, as far as the machine tells.
#[derive(Debug, Clone, Copy)]
pub struct CpuTopoEntry {
    pub core: usize,
    pub package_id: Option<u32>,
    pub core_id: Option<u32>,
}

/// The entries of `topo` before `upto` that sit in the package `package`.
pub open spec fn package_size(topo: Seq<CpuTopoEntry>, package: Option<u32>, upto: int) -> nat
    decreases upto,
{
    if upto <= 0 {
        0
    } else {
        package_size(topo, package, upto - 1) + if topo[upto - 1].package_id == package {
            1nat
        } else {
            0nat
        }
    }
}

/// The position of the first entry of `topo` in the package of entry `i`.
pub open spec fn package_first(topo: Seq<CpuTopoEntry>, i: int, from: int) -> int
    decreases i - from,
{
    if from >= i || topo[from].package_id == topo[i].package_id {
        from
    } else {
        package_first(topo, i, from + 1)
    }
}

/// Entry `i` is drained before entry `j`: its package holds more entries;
/// or as many, and comes first; or it is the same package, and `i` comes
/// first.
pub open spec fn drains_before(topo: Seq<CpuTopoEntry>, i: int, j: int) -> bool {
    let size_i = package_size(topo, topo[i].package_id, topo.len() as int);
    let size_j = package_size(topo, topo[j].package_id, topo.len() as int);
    let first_i = package_first(topo, i, 0);
    let first_j = package_first(topo, j, 0);
    size_i > size_j || (size_i == size_j && (first_i < first_j || (first_i == first_j && i < j)))
}

/// The entries among the first `upto` that are drained before entry `i`.
pub open spec fn rank(topo: Seq<CpuTopoEntry>, i: int, upto: int) -> nat
    decreases upto,
{
    if upto <= 0 {
        0
    } else {
        rank(topo, i, upto - 1) + if drains_before(topo, upto - 1, i) {
            1nat
        } else {
            0nat
        }
    }
}

/// `order` lists the entries as they are drained: every entry stands at the
/// position that is the number of entries drained before it.
pub open spec fn is_drain_order(topo: Seq<CpuTopoEntry>, order: Seq<usize>) -> bool {
    &&& order.len() == topo.len()
    &&& forall|k: int| 0 <= k < order.len() ==> #[trigger] order[k] < topo.len()
    &&& forall|i: int|
        0 <= i < topo.len() ==> order[rank(topo, i, topo.len() as int) as int] == i
}

/// Two entries are logical cores of one physical core.
pub open spec fn same_physical(a: CpuTopoEntry, b: CpuTopoEntry) -> bool {
    a.package_id == b.package_id && a.core_id == b.core_id
}

/// An entry before position `k` of `order` shares its physical core with the
/// entry at `k`.
pub open spec fn physical_seen(topo: Seq<CpuTopoEntry>, order: Seq<usize>, k: int) -> bool {
    exists|j: int| 0 <= j < k && same_physical(topo[order[j] as int], topo[order[k] as int])
}

/// The first pass over the first `upto` entries in drain order: the first
/// logical core of every physical core, up to `limit` cores.
pub open spec fn spread(topo: Seq<CpuTopoEntry>, order: Seq<usize>, upto: int, limit: int) -> Seq<
    usize,
>
    decreases upto,
{
    if upto <= 0 {
        Seq::empty()
    } else {
        let before = spread(topo, order, upto - 1, limit);
        if before.len() < limit && !physical_seen(topo, order, upto - 1) {
            before.push(topo[order[upto - 1] as int].core)
        } else {
            before
        }
    }
}

/// The second pass over the first `upto` entries in drain order, on top of
/// the cores `chosen`: every core that is not chosen yet, up to `limit`
/// cores.
pub open spec fn fill(
    topo: Seq<CpuTopoEntry>,
    order: Seq<usize>,
    chosen: Seq<usize>,
    upto: int,
    limit: int,
) -> Seq<usize>
    decreases upto,
{
    if upto <= 0 {
        chosen
    } else {
        let before = fill(topo, order, chosen, upto - 1, limit);
        let core = topo[order[upto - 1] as int].core;
        if before.len() < limit && !before.contains(core) {
            before.push(core)
        } else {
            before
        }
    }
}

/// The cores for `workers` workers, given the entries in drain order.
pub open spec fn pinned(topo: Seq<CpuTopoEntry>, order: Seq<usize>, workers: int) -> Seq<usize> {
    let n = topo.len() as int;
    fill(topo, order, spread(topo, order, n, workers), n, workers)
}

proof fn lemma_rank_bound(topo: Seq<CpuTopoEntry>, i: int, upto: int)
    requires
        0 <= i < topo.len(),
        0 <= upto <= topo.len(),
    ensures
        rank(topo, i, upto) <= upto,
        upto > i ==> rank(topo, i, upto) < upto,
    decreases upto,
{
    if upto > 0 {
        lemma_rank_bound(topo, i, upto - 1);
        if upto - 1 == i {
            assert(!drains_before(topo, i, i));
        }
    }
}

proof fn lemma_spread_bound(topo: Seq<CpuTopoEntry>, order: Seq<usize>, upto: int, limit: int)
    requires
        0 <= limit,
    ensures
        spread(topo, order, upto, limit).len() <= limit,
        spread(topo, order, upto, limit).len() <= if upto > 0 {
            upto
        } else {
            0
        },
    decreases upto,
{
    if upto > 0 {
        lemma_spread_bound(topo, order, upto - 1, limit);
    }
}

proof fn lemma_fill_bound(
    topo: Seq<CpuTopoEntry>,
    order: Seq<usize>,
    chosen: Seq<usize>,
    upto: int,
    limit: int,
)
    requires
        chosen.len() <= limit,
    ensures
        chosen.len() <= fill(topo, order, chosen, upto, limit).len() <= limit,
    decreases upto,
{
    if upto > 0 {
        lemma_fill_bound(topo, order, chosen, upto - 1, limit);
    }
}

/// The number of entries in the package of entry `i`.
fn size_of_package(topo: &Vec<CpuTopoEntry>, i: usize) -> (r: usize)
    requires
        i < topo@.len(),
    ensures
        r == package_size(topo@, topo@[i as int].package_id, topo@.len() as int),
{
    let mut count: usize = 0;
    let mut j: usize = 0;
    while j < topo.len()
        invariant
            i < topo@.len(),
            j <= topo@.len(),
            count == package_size(topo@, topo@[i as int].package_id, j as int),
            count <= j,
        decreases topo@.len() - j,
    {
        if same_package(topo[j].package_id, topo[i].package_id) {
            count += 1;
        }
        j += 1;
    }
    count
}

fn same_package(a: Option<u32>, b: Option<u32>) -> (r: bool)
    ensures
        r == (a == b),
{
    match (a, b) {
        (Some(x), Some(y)) => x == y,
        (None, None) => true,
        _ => false,
    }
}

/// The position of the first entry in the package of entry `i`.
fn first_of_package(topo: &Vec<CpuTopoEntry>, i: usize) -> (r: usize)
    requires
        i < topo@.len(),
    ensures
        r == package_first(topo@, i as int, 0),
        r <= i,
{
    let mut j: usize = 0;
    while j < i && !same_package(topo[j].package_id, topo[i].package_id)
        invariant
            j <= i < topo@.len(),
            package_first(topo@, i as int, 0) == package_first(topo@, i as int, j as int),
        decreases i - j,
    {
        j += 1;
    }
    j
}

/// The entries of `topo` in the order in which they are drained.
pub fn drain_order(topo: &Vec<CpuTopoEntry>) -> (order: Vec<usize>)
    ensures
        is_drain_order(topo@, order@),
{
    let n: usize = topo.len();
    let mut sizes: Vec<usize> = Vec::new();
    let mut firsts: Vec<usize> = Vec::new();
    let mut i: usize = 0;
    while i < n
        invariant
            i <= n == topo@.len(),
            sizes@.len() == i,
            firsts@.len() == i,
            forall|k: int|
                0 <= k < i ==> #[trigger] sizes@[k] == package_size(
                    topo@,
                    topo@[k].package_id,
                    n as int,
                ),
            forall|k: int| 0 <= k < i ==> #[trigger] firsts@[k] == package_first(topo@, k, 0),
        decreases n - i,
    {
        sizes.push(size_of_package(topo, i));
        firsts.push(first_of_package(topo, i));
        i += 1;
    }
    let mut order: Vec<usize> = vec![0usize; n];
    let mut i: usize = 0;
    while i < n
        invariant
            i <= n == topo@.len(),
            order@.len() == n,
            sizes@.len() == n,
            firsts@.len() == n,
            forall|k: int|
                0 <= k < n ==> #[trigger] sizes@[k] == package_size(
                    topo@,
                    topo@[k].package_id,
                    n as int,
                ),
            forall|k: int| 0 <= k < n ==> #[trigger] firsts@[k] == package_first(topo@, k, 0),
            forall|k: int| 0 <= k < n ==> #[trigger] order@[k] < n || n == 0,
            forall|k: int| 0 <= k < i ==> order@[rank(topo@, k, n as int) as int] == k,
        decreases n - i,
    {
        let mut before: usize = 0;
        let mut j: usize = 0;
        while j < n
            invariant
                i < n == topo@.len(),
                j <= n,
                sizes@.len() == n,
                firsts@.len() == n,
                forall|k: int|
                    0 <= k < n ==> #[trigger] sizes@[k] == package_size(
                        topo@,
                        topo@[k].package_id,
                        n as int,
                    ),
                forall|k: int| 0 <= k < n ==> #[trigger] firsts@[k] == package_first(topo@, k, 0),
                before == rank(topo@, i as int, j as int),
                before <= j,
            decreases n - j,
        {
            let earlier: bool = sizes[j] > sizes[i] || (sizes[j] == sizes[i] && (firsts[j]
                < firsts[i] || (firsts[j] == firsts[i] && j < i)));
            if earlier {
                before += 1;
            }
            j += 1;
        }
        proof {
            lemma_rank_bound(topo@, i as int, n as int);
            lemma_distinct_ranks(topo@, i as int, n as int);
        }
        let ghost prior = order@;
        order.set(before, i);
        proof {
            assert forall|k: int| 0 <= k < i + 1 implies order@[rank(topo@, k, n as int) as int]
                == k by {
                if k < i {
                    lemma_rank_bound(topo@, k, n as int);
                    assert(rank(topo@, k, n as int) != rank(topo@, i as int, n as int));
                    assert(prior[rank(topo@, k, n as int) as int] == k);
                }
            }
        }
        i += 1;
    }
    order
}

/// No two entries are drained at once: of two entries one is drained before
/// the other.
proof fn lemma_drains_total(topo: Seq<CpuTopoEntry>, i: int, j: int)
    requires
        0 <= i < topo.len(),
        0 <= j < topo.len(),
        i != j,
    ensures
        drains_before(topo, i, j) != drains_before(topo, j, i),
{
}

proof fn lemma_drains_transitive(topo: Seq<CpuTopoEntry>, i: int, j: int, k: int)
    requires
        drains_before(topo, i, j),
        drains_before(topo, j, k),
    ensures
        drains_before(topo, i, k),
{
}

/// An entry that is drained before another has fewer entries drained before
/// it.
proof fn lemma_rank_grows(topo: Seq<CpuTopoEntry>, i: int, j: int, upto: int)
    requires
        0 <= i < topo.len(),
        0 <= j < topo.len(),
        0 <= upto <= topo.len(),
        drains_before(topo, i, j),
    ensures
        rank(topo, i, upto) <= rank(topo, j, upto),
        upto > i ==> rank(topo, i, upto) < rank(topo, j, upto),
    decreases upto,
{
    if upto > 0 {
        lemma_rank_grows(topo, i, j, upto - 1);
        if drains_before(topo, upto - 1, i) {
            lemma_drains_transitive(topo, upto - 1, i, j);
        }
        if upto - 1 == i {
            assert(!drains_before(topo, i, i));
        }
    }
}

/// Different entries stand at different positions of the drain order.
proof fn lemma_distinct_ranks(topo: Seq<CpuTopoEntry>, i: int, n: int)
    requires
        0 <= i < topo.len(),
        n == topo.len(),
    ensures
        forall|k: int| 0 <= k < n && k != i ==> rank(topo, k, n) != rank(topo, i, n),
{
    assert forall|k: int| 0 <= k < n && k != i implies rank(topo, k, n) != rank(topo, i, n) by {
        lemma_drains_total(topo, i, k);
        if drains_before(topo, i, k) {
            lemma_rank_grows(topo, i, k, n);
        } else {
            lemma_rank_grows(topo, k, i, n);
        }
    }
}

/// The cores to pin `worker_threads` workers to, one each, out of the
/// logical cores `topo`. The entries are gone through in drain order twice:
/// first every entry is taken whose physical core has not come up before,
/// then every entry whose core is not taken yet. Both passes stop once there
/// is a core for every worker.
pub fn choose_pinned_cores(worker_threads: usize, topo: &Vec<CpuTopoEntry>) -> (r: Vec<usize>)
    ensures
        r@.len() <= worker_threads,
        r@.len() <= 2 * topo@.len(),
        exists|order: Seq<usize>|
            #![auto]
            is_drain_order(topo@, order) && r@ == pinned(topo@, order, worker_threads as int),
{
    let n: usize = topo.len();
    let order: Vec<usize> = drain_order(topo);
    let mut selected: Vec<usize> = Vec::new();
    let mut k: usize = 0;
    while k < n
        invariant
            k <= n == topo@.len(),
            is_drain_order(topo@, order@),
            selected@ == spread(topo@, order@, k as int, worker_threads as int),
        decreases n - k,
    {
        if selected.len() < worker_threads {
            let entry: CpuTopoEntry = topo[order[k]];
            let mut seen: bool = false;
            let mut j: usize = 0;
            while j < k && !seen
                invariant
                    j <= k < n == topo@.len(),
                    is_drain_order(topo@, order@),
                    entry == topo@[order@[k as int] as int],
                    seen ==> physical_seen(topo@, order@, k as int),
                    !seen ==> forall|t: int|
                        0 <= t < j ==> !same_physical(
                            topo@[order@[t] as int],
                            topo@[order@[k as int] as int],
                        ),
                decreases k - j + if seen {
                    0int
                } else {
                    1int
                },
            {
                let other: CpuTopoEntry = topo[order[j]];
                if same_package(other.package_id, entry.package_id) && same_package(
                    other.core_id,
                    entry.core_id,
                ) {
                    seen = true;
                } else {
                    j += 1;
                }
            }
            if !seen {
                selected.push(entry.core);
            }
        }
        k += 1;
    }
    proof {
        lemma_spread_bound(topo@, order@, n as int, worker_threads as int);
    }
    let ghost first_pass = selected@;
    let mut k: usize = 0;
    while k < n
        invariant
            k <= n == topo@.len(),
            is_drain_order(topo@, order@),
            first_pass.len() <= worker_threads,
            first_pass.len() <= n,
            selected@ == fill(topo@, order@, first_pass, k as int, worker_threads as int),
            selected@.len() <= first_pass.len() + k,
        decreases n - k,
    {
        proof {
            lemma_fill_bound(topo@, order@, first_pass, k as int, worker_threads as int);
        }
        if selected.len() < worker_threads {
            let core: usize = topo[order[k]].core;
            let mut taken: bool = false;
            let mut j: usize = 0;
            while j < selected.len() && !taken
                invariant
                    j <= selected@.len(),
                    taken ==> selected@.contains(core),
                    !taken ==> forall|t: int| 0 <= t < j ==> selected@[t] != core,
                decreases selected@.len() - j + if taken {
                    0int
                } else {
                    1int
                },
            {
                if selected[j] == core {
                    taken = true;
                } else {
                    j += 1;
                }
            }
            if !taken {
                selected.push(core);
            }
        }
        k += 1;
    }
    proof {
        lemma_fill_bound(topo@, order@, first_pass, n as int, worker_threads as int);
    }
    selected
}

} // verus!
