//! Chain decomposition: the jobs are split into chains, each of them totally
//! ordered by direct precedence.

use vstd::prelude::*;
use crate::algo::{Instance, InstanceView, PartialRelation, comparable, precedes, ranks};
use crate::error::SchedulingError;
use crate::order::{lemma_comparable_ranked, lemma_reverse};

verus! {

/// The job indices of one chain.
pub open spec fn chain_of(row: Seq<usize>) -> Seq<int> {
    Seq::new(row.len(), |x: int| row[x] as int)
}

/// The job indices of each chain.
pub open spec fn chains_of(rows: Seq<Vec<usize>>) -> Seq<Seq<int>> {
    Seq::new(rows.len(), |c: int| chain_of(rows[c]@))
}

/// Job `j` is comparable to every job of the chain.
pub open spec fn joins(pairs: Seq<(int, int)>, chain: Seq<int>, j: int) -> bool {
    forall|x: int| 0 <= x < chain.len() ==> comparable(pairs, #[trigger] chain[x], j)
}

/// The first chain, from `from` on, that job `j` joins; the number of chains
/// if there is none.
pub open spec fn first_fit(pairs: Seq<(int, int)>, chains: Seq<Seq<int>>, j: int, from: int) -> int
    decreases chains.len() - from,
{
    if from >= chains.len() {
        chains.len() as int
    } else if joins(pairs, chains[from], j) {
        from
    } else {
        first_fit(pairs, chains, j, from + 1)
    }
}

/// The chains with job `j` added: at the end of the first chain that it
/// joins, or as a new chain of its own.
pub open spec fn with_job(pairs: Seq<(int, int)>, chains: Seq<Seq<int>>, j: int) -> Seq<Seq<int>> {
    let c = first_fit(pairs, chains, j, 0);
    if c < chains.len() {
        chains.update(c, chains[c].push(j))
    } else {
        chains.push(seq![j])
    }
}

/// The first `count` jobs, added to the chains one after the other.
pub open spec fn grouped(pairs: Seq<(int, int)>, count: int) -> Seq<Seq<int>>
    decreases count,
{
    if count <= 0 {
        Seq::empty()
    } else {
        with_job(pairs, grouped(pairs, count - 1), count - 1)
    }
}

/// Each job of the chain directly precedes every later one.
pub open spec fn ordered(pairs: Seq<(int, int)>, chain: Seq<int>) -> bool {
    forall|a: int, b: int|
        0 <= a < b < chain.len() ==> precedes(pairs, #[trigger] chain[a], #[trigger] chain[b])
}

/// Any two jobs at different places of the chain are comparable.
pub open spec fn pairwise_comparable(pairs: Seq<(int, int)>, chain: Seq<int>) -> bool {
    forall|a: int, b: int|
        0 <= a < chain.len() && 0 <= b < chain.len() && a != b ==> comparable(
            pairs,
            #[trigger] chain[a],
            #[trigger] chain[b],
        )
}

/// The two chains hold the same jobs, and as many.
pub open spec fn same_jobs(left: Seq<int>, right: Seq<int>) -> bool {
    &&& left.len() == right.len()
    &&& forall|j: int| left.contains(j) <==> right.contains(j)
}

/// Job `j` stands in one of the chains.
pub open spec fn located(chains: Seq<Seq<int>>, j: int) -> bool {
    exists|c: int, x: int|
        0 <= c < chains.len() && 0 <= x < chains[c].len() && (#[trigger] chains[c][x]) == j
}

/// The chains hold the jobs below `count`, each of them once.
pub open spec fn partitions(chains: Seq<Seq<int>>, count: int) -> bool {
    &&& forall|c: int, x: int|
        0 <= c < chains.len() && 0 <= x < chains[c].len() ==> 0 <= (#[trigger] chains[c][x]) < count
    &&& forall|j: int| 0 <= j < count ==> #[trigger] located(chains, j)
    &&& forall|c: int, x: int, d: int, y: int|
        0 <= c < chains.len() && 0 <= x < chains[c].len() && 0 <= d < chains.len() && 0 <= y
            < chains[d].len() && (#[trigger] chains[c][x]) == (#[trigger] chains[d][y]) ==> c == d
            && x == y
}

/// The chains are those into which the jobs fall one after the other, each
/// chain ordered by direct precedence.
pub open spec fn decomposes(instance: InstanceView, chains: Seq<Seq<int>>) -> bool {
    let groups = grouped(instance.constraints, instance.jobs.len() as int);
    &&& chains.len() == groups.len()
    &&& forall|c: int|
        0 <= c < chains.len() ==> same_jobs(#[trigger] chains[c], groups[c]) && ordered(
            instance.constraints,
            chains[c],
        )
}

/// What holds of the chains while the jobs are added: they hold the jobs
/// below `count`, each once, no chain is empty, and the
/// jobs of a chain are comparable to each other.
pub open spec fn grouping(pairs: Seq<(int, int)>, chains: Seq<Seq<int>>, count: int) -> bool {
    &&& partitions(chains, count)
    &&& forall|c: int| 0 <= c < chains.len() ==> (#[trigger] chains[c]).len() >= 1
    &&& forall|c: int| 0 <= c < chains.len() ==> pairwise_comparable(pairs, #[trigger] chains[c])
}

/// The first chain that a job joins lies between `from` and the number of
/// chains.
pub proof fn lemma_first_fit_range(pairs: Seq<(int, int)>, chains: Seq<Seq<int>>, j: int, from: int)
    requires
        0 <= from <= chains.len(),
    ensures
        from <= first_fit(pairs, chains, j, from) <= chains.len(),
    decreases chains.len() - from,
{
    if from < chains.len() && !joins(pairs, chains[from], j) {
        lemma_first_fit_range(pairs, chains, j, from + 1);
    }
}

proof fn lemma_first_fit(pairs: Seq<(int, int)>, chains: Seq<Seq<int>>, j: int, from: int)
    requires
        0 <= from <= chains.len(),
    ensures
        from <= first_fit(pairs, chains, j, from) <= chains.len(),
        first_fit(pairs, chains, j, from) < chains.len() ==> joins(
            pairs,
            chains[first_fit(pairs, chains, j, from)],
            j,
        ),
        forall|c: int|
            from <= c < first_fit(pairs, chains, j, from) ==> !joins(pairs, #[trigger] chains[c], j),
    decreases chains.len() - from,
{
    if from < chains.len() && !joins(pairs, chains[from], j) {
        lemma_first_fit(pairs, chains, j, from + 1);
    }
}

/// Adding the next job keeps the chains a grouping.
proof fn lemma_with_job(pairs: Seq<(int, int)>, chains: Seq<Seq<int>>, j: int)
    requires
        grouping(pairs, chains, j),
        0 <= j,
        forall|a: int, b: int| a != b ==> (#[trigger] comparable(pairs, a, b) <==> comparable(pairs, b, a)),
    ensures
        grouping(pairs, with_job(pairs, chains, j), j + 1),
{
    let next = with_job(pairs, chains, j);
    let c = first_fit(pairs, chains, j, 0);
    lemma_first_fit(pairs, chains, j, 0);
    assert forall|d: int, y: int| 0 <= d < next.len() && 0 <= y < next[d].len() implies 0 <= (
    #[trigger] next[d][y]) < j + 1 by {
        if d < chains.len() && y < chains[d].len() {
            assert(next[d][y] == chains[d][y]);
        }
    }
    assert forall|i: int| 0 <= i < j + 1 implies #[trigger] located(next, i) by {
        if i == j {
            if c < chains.len() {
                assert(next[c][chains[c].len() as int] == j);
            } else {
                assert(next[c][0] == j);
            }
        } else {
            assert(located(chains, i));
            let (d, y) = choose|d: int, y: int|
                0 <= d < chains.len() && 0 <= y < chains[d].len() && (#[trigger] chains[d][y]) == i;
            assert(next[d][y] == i);
        }
    }
    assert forall|d: int, y: int, e: int, z: int|
        0 <= d < next.len() && 0 <= y < next[d].len() && 0 <= e < next.len() && 0 <= z
            < next[e].len() && (#[trigger] next[d][y]) == (#[trigger] next[e][z]) implies d == e
        && y == z by {
        let old_d = d < chains.len() && y < chains[d].len();
        let old_e = e < chains.len() && z < chains[e].len();
        if old_d {
            assert(next[d][y] == chains[d][y]);
        } else {
            assert(next[d][y] == j);
        }
        if old_e {
            assert(next[e][z] == chains[e][z]);
        } else {
            assert(next[e][z] == j);
        }
    }
    assert forall|d: int| 0 <= d < next.len() implies pairwise_comparable(pairs, #[trigger] next[d]) by {
        if d < chains.len() {
            assert(pairwise_comparable(pairs, chains[d]));
            assert forall|a: int, b: int|
                0 <= a < next[d].len() && 0 <= b < next[d].len() && a != b implies comparable(
                pairs,
                #[trigger] next[d][a],
                #[trigger] next[d][b],
            ) by {
                if a < chains[d].len() && b < chains[d].len() {
                    assert(next[d][a] == chains[d][a]);
                    assert(next[d][b] == chains[d][b]);
                } else if a < chains[d].len() {
                    assert(next[d][a] == chains[d][a]);
                    assert(comparable(pairs, chains[d][a], j));
                } else {
                    assert(next[d][b] == chains[d][b]);
                    assert(comparable(pairs, chains[d][b], j));
                    assert(chains[d][b] != j);
                }
            }
        }
    }
}

/// Under a ranking, being comparable does not depend on the side.
proof fn lemma_comparable_symmetric(pairs: Seq<(int, int)>)
    ensures
        forall|a: int, b: int| a != b ==> (#[trigger] comparable(pairs, a, b) <==> comparable(pairs, b, a)),
{
    assert forall|a: int, b: int| a != b implies (#[trigger] comparable(pairs, a, b) <==> comparable(
        pairs,
        b,
        a,
    )) by {
        lemma_reverse(pairs, a, b);
    }
}

/// The chains into which the first `count` jobs fall hold each of these jobs
/// once, and the jobs of a chain are comparable to each other.
pub proof fn lemma_grouped(pairs: Seq<(int, int)>, count: int)
    requires
        0 <= count,
    ensures
        grouping(pairs, grouped(pairs, count), count),
    decreases count,
{
    if count > 0 {
        lemma_grouped(pairs, count - 1);
        lemma_comparable_symmetric(pairs);
        lemma_with_job(pairs, grouped(pairs, count - 1), count - 1);
    }
}


/// The chains that decompose a well-formed instance hold every job once.
pub proof fn lemma_decomposition_partitions(instance: InstanceView, chains: Seq<Seq<int>>)
    requires
        instance.wf(),
        decomposes(instance, chains),
    ensures
        partitions(chains, instance.jobs.len() as int),
        forall|c: int| 0 <= c < chains.len() ==> (#[trigger] chains[c]).len() >= 1,
{
    let n = instance.jobs.len() as int;
    let pairs = instance.constraints;
    let groups = grouped(pairs, n);
    lemma_grouped(pairs, n);
    let rank = choose|rank: Seq<int>| #[trigger] ranks(rank, n, pairs);
    assert forall|c: int, x: int| 0 <= c < chains.len() && 0 <= x < chains[c].len() implies 0 <= (
    #[trigger] chains[c][x]) < n by {
        assert(same_jobs(chains[c], groups[c]));
        assert(chains[c].contains(chains[c][x]));
        let y = choose|y: int| 0 <= y < groups[c].len() && groups[c][y] == chains[c][x];
        assert(0 <= groups[c][y] < n);
    }
    assert forall|j: int| 0 <= j < n implies #[trigger] located(chains, j) by {
        assert(located(groups, j));
        let (c, y) = choose|c: int, y: int|
            0 <= c < groups.len() && 0 <= y < groups[c].len() && (#[trigger] groups[c][y]) == j;
        assert(same_jobs(chains[c], groups[c]));
        assert(groups[c].contains(j));
        let x = choose|x: int| 0 <= x < chains[c].len() && chains[c][x] == j;
        assert(chains[c][x] == j);
    }
    assert forall|c: int, x: int, d: int, y: int|
        0 <= c < chains.len() && 0 <= x < chains[c].len() && 0 <= d < chains.len() && 0 <= y
            < chains[d].len() && (#[trigger] chains[c][x]) == (#[trigger] chains[d][y]) implies c
        == d && x == y by {
        let j = chains[c][x];
        assert(same_jobs(chains[c], groups[c]));
        assert(same_jobs(chains[d], groups[d]));
        assert(chains[c].contains(j));
        assert(chains[d].contains(j));
        let u = choose|u: int| 0 <= u < groups[c].len() && groups[c][u] == j;
        let v = choose|v: int| 0 <= v < groups[d].len() && groups[d][v] == j;
        assert(groups[c][u] == groups[d][v]);
        if x != y {
            assert(ordered(pairs, chains[c]));
            if x < y {
                assert(precedes(pairs, chains[c][x], chains[c][y]));
            } else {
                assert(precedes(pairs, chains[c][y], chains[c][x]));
            }
            lemma_comparable_ranked(rank, n, pairs, j, j);
        }
    }
    assert forall|c: int| 0 <= c < chains.len() implies (#[trigger] chains[c]).len() >= 1 by {
        assert(same_jobs(chains[c], groups[c]));
    }
}

/// Whether job `j` is comparable to every job of the chain.
fn joins_chain(instance: &Instance, chain: &Vec<usize>, j: usize) -> (yes: bool)
    requires
        instance@.wf(),
        j < instance.jobs.len(),
        forall|x: int| 0 <= x < chain.len() ==> #[trigger] chain[x] < instance.jobs.len(),
    ensures
        yes == joins(instance@.constraints, chain_of(chain@), j as int),
{
    let mut x: usize = 0;
    while x < chain.len()
        invariant
            x <= chain.len(),
            instance@.wf(),
            j < instance.jobs.len(),
            forall|x: int| 0 <= x < chain.len() ==> #[trigger] chain[x] < instance.jobs.len(),
            forall|y: int|
                0 <= y < x ==> comparable(instance@.constraints, #[trigger] chain_of(chain@)[y], j as int),
        decreases chain.len() - x,
    {
        let member = chain[x];
        assert(instance@.jobs[member as int].index == member);
        assert(instance@.jobs[j as int].index == j);
        if !instance.jobs[member].is_comparable(instance.constraints.as_slice(), &instance.jobs[j]) {
            assert(!comparable(instance@.constraints, chain_of(chain@)[x as int], j as int));
            return false;
        }
        x += 1;
    }
    true
}

/// Adds the jobs to the chains one after the other: each to the first chain
/// all of whose jobs it is comparable to, or to a new chain.
fn group_jobs(instance: &Instance) -> (chains: Vec<Vec<usize>>)
    requires
        instance@.wf(),
    ensures
        chains_of(chains@) == grouped(instance@.constraints, instance@.jobs.len() as int),
{
    let n = instance.jobs.len();
    let ghost pairs = instance@.constraints;
    let mut chains: Vec<Vec<usize>> = Vec::new();
    let mut j: usize = 0;
    assert(chains_of(chains@) =~~= grouped(pairs, 0));
    while j < n
        invariant
            j <= n,
            n == instance.jobs.len(),
            pairs == instance@.constraints,
            instance@.wf(),
            chains_of(chains@) == grouped(pairs, j as int),
        decreases n - j,
    {
        let ghost before = chains_of(chains@);
        proof {
            lemma_grouped(pairs, j as int);
            lemma_first_fit(pairs, before, j as int, 0);
        }
        let mut c: usize = 0;
        let mut found = false;
        while c < chains.len() && !found
            invariant
                c <= chains.len(),
                instance@.wf(),
                j < n,
                n == instance.jobs.len(),
                pairs == instance@.constraints,
                before == chains_of(chains@),
                grouping(pairs, before, j as int),
                first_fit(pairs, before, j as int, 0) == first_fit(pairs, before, j as int, c as int),
                found ==> c < chains.len() && joins(pairs, before[c as int], j as int),
            decreases chains.len() - c + if found { 0int } else { 1int },
        {
            assert forall|x: int| 0 <= x < chains[c as int].len() implies #[trigger] chains[c as int][x]
                < n by {
                assert(before[c as int][x] == chains[c as int][x]);
            }
            if joins_chain(instance, &chains[c], j) {
                found = true;
            } else {
                c += 1;
            }
        }
        if found {
            let mut longer: Vec<usize> = Vec::new();
            let mut x: usize = 0;
            while x < chains[c].len()
                invariant
                    c < chains.len(),
                    x <= chains[c as int].len(),
                    longer@ == chains[c as int]@.subrange(0, x as int),
                decreases chains[c as int].len() - x,
            {
                longer.push(chains[c][x]);
                x += 1;
            }
            longer.push(j);
            chains.set(c, longer);
            assert(chains_of(chains@) =~~= with_job(pairs, before, j as int));
        } else {
            let mut alone: Vec<usize> = Vec::new();
            alone.push(j);
            chains.push(alone);
            assert(chains_of(chains@) =~~= with_job(pairs, before, j as int));
        }
        j += 1;
    }
    chains
}

/// Job `j` is among the first `upto` jobs of the chain.
spec fn within(chain: Seq<int>, upto: int, j: int) -> bool {
    exists|x: int| 0 <= x < upto && chain[x] == j
}

/// Orders a chain whose jobs are comparable to each other.
fn sort_comparable(instance: &Instance, chain: &Vec<usize>) -> (sorted: Vec<usize>)
    requires
        instance@.wf(),
        forall|x: int| 0 <= x < chain.len() ==> #[trigger] chain[x] < instance.jobs.len(),
        pairwise_comparable(instance@.constraints, chain_of(chain@)),
    ensures
        same_jobs(chain_of(sorted@), chain_of(chain@)),
        ordered(instance@.constraints, chain_of(sorted@)),
{
    let ghost pairs = instance@.constraints;
    let ghost n = instance@.jobs.len() as int;
    let ghost rank = choose|rank: Seq<int>| #[trigger] ranks(rank, n, pairs);
    let ghost given = chain_of(chain@);
    let mut sorted: Vec<usize> = Vec::new();
    let mut k: usize = 0;
    while k < chain.len()
        invariant
            k <= chain.len(),
            instance@.wf(),
            pairs == instance@.constraints,
            n == instance@.jobs.len(),
            ranks(rank, n, pairs),
            given == chain_of(chain@),
            forall|x: int| 0 <= x < chain.len() ==> #[trigger] chain[x] < instance.jobs.len(),
            pairwise_comparable(pairs, given),
            sorted.len() == k,
            ordered(pairs, chain_of(sorted@)),
            forall|y: int| 0 <= y < k ==> within(given, k as int, #[trigger] chain_of(sorted@)[y]),
            forall|x: int| 0 <= x < k ==> chain_of(sorted@).contains(#[trigger] given[x]),
        decreases chain.len() - k,
    {
        let job = chain[k];
        let ghost before = chain_of(sorted@);
        assert forall|y: int| 0 <= y < k implies comparable(pairs, job as int, #[trigger] before[y])
            && job != before[y] by {
            assert(within(given, k as int, before[y]));
            let x = choose|x: int| 0 <= x < k && given[x] == before[y];
            assert(comparable(pairs, given[k as int], given[x]));
            lemma_comparable_ranked(rank, n, pairs, job as int, before[y]);
        }
        let mut at: usize = 0;
        let mut stop = false;
        while at < sorted.len() && !stop
            invariant
                at <= sorted.len(),
                sorted.len() == k,
                k < chain.len(),
                job == chain[k as int],
                instance@.wf(),
                pairs == instance@.constraints,
                n == instance@.jobs.len(),
                ranks(rank, n, pairs),
                before == chain_of(sorted@),
                forall|x: int| 0 <= x < chain.len() ==> #[trigger] chain[x] < instance.jobs.len(),
                forall|y: int| 0 <= y < k ==> (#[trigger] before[y]) < n,
                forall|y: int|
                    0 <= y < k ==> comparable(pairs, job as int, #[trigger] before[y]) && job
                        != before[y],
                forall|y: int| 0 <= y < at ==> precedes(pairs, #[trigger] before[y], job as int),
                stop ==> at < sorted.len() && precedes(pairs, job as int, before[at as int]),
            decreases sorted.len() - at + if stop { 0int } else { 1int },
        {
            let other = sorted[at];
            assert(other == before[at as int]);
            assert(instance@.jobs[job as int].index == job);
            assert(instance@.jobs[other as int].index == other);
            if instance.jobs[job].less_than(instance.constraints.as_slice(), &instance.jobs[other]) {
                stop = true;
            } else {
                proof {
                    lemma_comparable_ranked(rank, n, pairs, job as int, other as int);
                }
                at += 1;
            }
        }
        sorted.insert(at, job);
        proof {
            let after = chain_of(sorted@);
            assert forall|y: int| 0 <= y < k + 1 implies (if y < at {
                after[y] == before[y]
            } else if y == at {
                after[y] == job
            } else {
                after[y] == before[y - 1]
            }) by {}
            assert forall|a: int, b: int| 0 <= a < b < after.len() implies precedes(
                pairs,
                #[trigger] after[a],
                #[trigger] after[b],
            ) by {
                if b < at {
                    assert(precedes(pairs, before[a], before[b]));
                } else if b == at {
                    assert(precedes(pairs, before[a], job as int));
                } else if a == at {
                    // the job precedes the one it stopped at, which precedes
                    // every later one
                    lemma_comparable_ranked(rank, n, pairs, job as int, before[at as int]);
                    if b - 1 > at {
                        assert(precedes(pairs, before[at as int], before[b - 1]));
                        lemma_comparable_ranked(rank, n, pairs, before[at as int], before[b - 1]);
                    }
                    lemma_comparable_ranked(rank, n, pairs, job as int, before[b - 1]);
                } else if a < at {
                    assert(precedes(pairs, before[a], before[b - 1]));
                } else {
                    assert(precedes(pairs, before[a - 1], before[b - 1]));
                }
            }
            assert forall|y: int| 0 <= y < k + 1 implies within(given, k + 1, #[trigger] after[y]) by {
                if y == at {
                    assert(given[k as int] == after[y]);
                } else {
                    let z = if y < at {
                        y
                    } else {
                        y - 1
                    };
                    assert(within(given, k as int, before[z]));
                    let x = choose|x: int| 0 <= x < k && given[x] == before[z];
                    assert(given[x] == after[y]);
                }
            }
            assert forall|x: int| 0 <= x < k + 1 implies after.contains(#[trigger] given[x]) by {
                if x == k {
                    assert(after[at as int] == given[x]);
                } else {
                    assert(before.contains(given[x]));
                    let z = choose|z: int| 0 <= z < before.len() && before[z] == given[x];
                    if z < at {
                        assert(after[z] == given[x]);
                    } else {
                        assert(after[z + 1] == given[x]);
                    }
                }
            }
        }
        k += 1;
    }
    proof {
        let after = chain_of(sorted@);
        assert forall|j: int| after.contains(j) <==> given.contains(j) by {
            if after.contains(j) {
                let y = choose|y: int| 0 <= y < after.len() && after[y] == j;
                assert(within(given, k as int, after[y]));
                let x = choose|x: int| 0 <= x < k && given[x] == after[y];
                assert(given[x] == j);
            }
            if given.contains(j) {
                let x = choose|x: int| 0 <= x < given.len() && given[x] == j;
                assert(after.contains(given[x]));
            }
        }
    }
    sorted
}

/// Decomposes the jobs into chains. The jobs are taken by rising index, and
/// each joins the first chain all of whose jobs it is directly constrained
/// with, or starts a new chain; then each chain is ordered so that every job
/// directly precedes the later ones.
pub fn preprocess(instance: &Instance) -> (chains: Vec<Vec<usize>>)
    requires
        instance@.wf(),
    ensures
        decomposes(instance@, chains_of(chains@)),
        chains_of(chains@) == decomposition(instance@),
        partitions(chains_of(chains@), instance@.jobs.len() as int),
        forall|c: int| 0 <= c < chains.len() ==> (#[trigger] chains[c]).len() >= 1,
{
    let groups = group_jobs(instance);
    let ghost pairs = instance@.constraints;
    let ghost n = instance@.jobs.len() as int;
    let ghost model = chains_of(groups@);
    proof {
        lemma_grouped(pairs, n);
    }
    let mut chains: Vec<Vec<usize>> = Vec::new();
    let mut c: usize = 0;
    while c < groups.len()
        invariant
            c <= groups.len(),
            chains.len() == c,
            instance@.wf(),
            pairs == instance@.constraints,
            n == instance@.jobs.len(),
            model == chains_of(groups@),
            model == grouped(pairs, n),
            grouping(pairs, model, n),
            forall|d: int|
                0 <= d < c ==> same_jobs(#[trigger] chains_of(chains@)[d], model[d]) && ordered(
                    pairs,
                    chains_of(chains@)[d],
                ),
        decreases groups.len() - c,
    {
        assert(chain_of(groups[c as int]@) == model[c as int]);
        assert forall|x: int| 0 <= x < groups[c as int].len() implies #[trigger] groups[c as int][x]
            < instance.jobs.len() by {
            assert(model[c as int][x] == groups[c as int][x]);
        }
        assert(pairwise_comparable(pairs, model[c as int]));
        let sorted = sort_comparable(instance, &groups[c]);
        let ghost before = chains_of(chains@);
        chains.push(sorted);
        assert forall|d: int| 0 <= d < c + 1 implies same_jobs(
            #[trigger] chains_of(chains@)[d],
            model[d],
        ) && ordered(pairs, chains_of(chains@)[d]) by {
            if d < c {
                assert(chains_of(chains@)[d] == before[d]);
            }
        }
        c += 1;
    }
    proof {
        lemma_decomposition_partitions(instance@, chains_of(chains@));
        lemma_decomposition_unique(instance@, chains_of(chains@), decomposition(instance@));
        assert forall|c: int| 0 <= c < chains.len() implies (#[trigger] chains[c]).len() >= 1 by {
            assert(chains_of(chains@)[c].len() >= 1);
        }
    }
    chains
}


/// The chains that decompose the instance.
pub open spec fn decomposition(instance: InstanceView) -> Seq<Seq<int>> {
    choose|chains: Seq<Seq<int>>| decomposes(instance, chains)
}

proof fn lemma_ordered_prefix(
    rank: Seq<int>,
    count: int,
    pairs: Seq<(int, int)>,
    left: Seq<int>,
    right: Seq<int>,
    upto: int,
)
    requires
        ranks(rank, count, pairs),
        ordered(pairs, left),
        ordered(pairs, right),
        same_jobs(left, right),
        0 <= upto <= left.len(),
    ensures
        forall|i: int| 0 <= i < upto ==> left[i] == right[i],
    decreases upto,
{
    if upto > 0 {
        lemma_ordered_prefix(rank, count, pairs, left, right, upto - 1);
        let i = upto - 1;
        assert(left.contains(left[i]));
        assert(right.contains(right[i]));
        let j = choose|j: int| 0 <= j < right.len() && right[j] == left[i];
        let k = choose|k: int| 0 <= k < left.len() && left[k] == right[i];
        if j < i {
            assert(precedes(pairs, left[j], left[i]));
            lemma_comparable_ranked(rank, count, pairs, left[j], left[i]);
        } else if k < i {
            assert(precedes(pairs, right[k], right[i]));
            lemma_comparable_ranked(rank, count, pairs, right[k], right[i]);
        } else if j > i && k > i {
            assert(precedes(pairs, right[i], right[j]));
            lemma_comparable_ranked(rank, count, pairs, right[i], right[j]);
            assert(precedes(pairs, left[i], left[k]));
            lemma_comparable_ranked(rank, count, pairs, left[i], left[k]);
        }
    }
}

/// A well-formed instance has one decomposition only.
pub proof fn lemma_decomposition_unique(
    instance: InstanceView,
    left: Seq<Seq<int>>,
    right: Seq<Seq<int>>,
)
    requires
        instance.wf(),
        decomposes(instance, left),
        decomposes(instance, right),
    ensures
        left == right,
{
    let n = instance.jobs.len() as int;
    let pairs = instance.constraints;
    let rank = choose|rank: Seq<int>| #[trigger] ranks(rank, n, pairs);
    let groups = grouped(pairs, n);
    assert forall|c: int| 0 <= c < left.len() implies left[c] == right[c] by {
        assert(same_jobs(left[c], groups[c]));
        assert(same_jobs(right[c], groups[c]));
        lemma_ordered_prefix(rank, n, pairs, left[c], right[c], left[c].len() as int);
        assert(left[c] =~= right[c]);
    }
    assert(left =~= right);
}


/// Orders a chain so that each job directly precedes every later one. Fails
/// if two jobs of the chain are not directly constrained.
pub fn sort_chain(instance: &Instance, chain: &Vec<usize>) -> (result: Result<
    Vec<usize>,
    SchedulingError,
>)
    requires
        instance@.wf(),
        forall|x: int| 0 <= x < chain.len() ==> #[trigger] chain[x] < instance.jobs.len(),
    ensures
        match result {
            Ok(sorted) => {
                &&& pairwise_comparable(instance@.constraints, chain_of(chain@))
                &&& same_jobs(chain_of(sorted@), chain_of(chain@))
                &&& ordered(instance@.constraints, chain_of(sorted@))
            },
            Err(error) => {
                &&& error == SchedulingError::IncomparableInChain
                &&& !pairwise_comparable(instance@.constraints, chain_of(chain@))
            },
        },
{
    let ghost pairs = instance@.constraints;
    let ghost given = chain_of(chain@);
    let mut a: usize = 0;
    proof {
        lemma_comparable_symmetric(pairs);
    }
    while a < chain.len()
        invariant
            a <= chain.len(),
            instance@.wf(),
            pairs == instance@.constraints,
            given == chain_of(chain@),
            forall|x: int| 0 <= x < chain.len() ==> #[trigger] chain[x] < instance.jobs.len(),
            forall|x: int, y: int|
                0 <= x < a && x < y < given.len() ==> comparable(pairs, #[trigger] given[x], #[trigger] given[y]),
        decreases chain.len() - a,
    {
        let mut b: usize = a + 1;
        while b < chain.len()
            invariant
                a < b <= chain.len(),
                instance@.wf(),
                pairs == instance@.constraints,
                given == chain_of(chain@),
                forall|x: int| 0 <= x < chain.len() ==> #[trigger] chain[x] < instance.jobs.len(),
                forall|y: int| a < y < b ==> comparable(pairs, given[a as int], #[trigger] given[y]),
            decreases chain.len() - b,
        {
            let left = chain[a];
            let right = chain[b];
            assert(instance@.jobs[left as int].index == left);
            assert(instance@.jobs[right as int].index == right);
            if !instance.jobs[left].is_comparable(instance.constraints.as_slice(), &instance.jobs[right]) {
                assert(!comparable(pairs, given[a as int], given[b as int]));
                return Err(SchedulingError::IncomparableInChain);
            }
            b += 1;
        }
        a += 1;
    }
    proof {
        let n = instance@.jobs.len() as int;
        let rank = choose|rank: Seq<int>| #[trigger] ranks(rank, n, pairs);
        assert forall|x: int, y: int|
            0 <= x < given.len() && 0 <= y < given.len() && x != y implies comparable(
            pairs,
            #[trigger] given[x],
            #[trigger] given[y],
        ) by {
            if x < y {
                assert(comparable(pairs, given[x], given[y]));
            } else {
                assert(comparable(pairs, given[y], given[x]));
                lemma_comparable_ranked(rank, n, pairs, given[y], given[x]);
            }
        }
    }
    Ok(sort_comparable(instance, chain))
}

} // verus!
