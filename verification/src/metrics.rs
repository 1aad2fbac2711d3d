//! The metrics collector's core; the derived ratio reporting lives with
//! the command-line front end, which owns timing.
use vstd::prelude::*;
use crate::types::ExecutionResult;

verus! {

/// Collects block-level execution statistics.
#[derive(Debug)]
pub struct MetricsCollector {
    marker: bool,
}

/// How many unordered pairs of results, taken from the tail of the list,
/// have conflicting observed access sets.
pub open spec fn spec_conflicting_pairs(results: Seq<ExecutionResult>) -> nat
    decreases results.len(),
{
    if results.len() == 0 {
        0nat
    } else {
        spec_conflicting_pairs(results.drop_last()) + spec_row_conflicts(
            results.drop_last(),
            results.last(),
        )
    }
}

/// The number of unordered pairs among the first `n` items.
pub open spec fn tri(n: nat) -> nat
    decreases n,
{
    if n == 0 {
        0nat
    } else {
        (tri((n - 1) as nat) + n - 1) as nat
    }
}

/// The pair count is the usual closed form.
pub proof fn lemma_tri(n: nat)
    ensures
        2 * tri(n) == n * (n - 1),
    decreases n,
{
    if n > 0 {
        lemma_tri((n - 1) as nat);
        let m = n as int;
        assert(tri(n) == tri((n - 1) as nat) + n - 1);
        assert(2 * tri((n - 1) as nat) == (m - 1) * (m - 2)) by {
            assert((n - 1) as nat * ((n - 1) as nat - 1) == (m - 1) * (m - 2));
        }
        assert((m - 1) * (m - 2) + 2 * (m - 1) == m * (m - 1)) by (nonlinear_arith);
        assert(2 * tri(n) == n * (n - 1));
    } else {
        assert(n == 0);
        assert(tri(n) == 0);
        assert(2 * tri(n) == n * (n - 1));
    }
}

/// Pair counts grow with the list.
pub proof fn lemma_tri_mono(a: nat, b: nat)
    requires
        a <= b,
    ensures
        tri(a) <= tri(b),
    decreases b,
{
    if a < b {
        lemma_tri_mono(a, (b - 1) as nat);
    }
}

/// How many results of a list conflict with one given result.
pub open spec fn spec_row_conflicts(results: Seq<ExecutionResult>, r: ExecutionResult) -> nat
    decreases results.len(),
{
    if results.len() == 0 {
        0nat
    } else {
        spec_row_conflicts(results.drop_last(), r) + if crate::types::sets_conflict(
            results.last().access_sets.read_set(),
            results.last().access_sets.write_set(),
            r.access_sets.read_set(),
            r.access_sets.write_set(),
        ) {
            1nat
        } else {
            0nat
        }
    }
}

impl MetricsCollector {
    pub fn new() -> (r: MetricsCollector) {
        MetricsCollector { marker: true }
    }

    /// The number of unordered conflicting result pairs, and the number of
    /// unordered pairs altogether; their ratio is the observed conflict
    /// rate.
    pub fn conflict_pair_counts(&self, results: &Vec<ExecutionResult>) -> (r: (u128, u128))
        ensures
            r.0 == spec_conflicting_pairs(results@),
            2 * r.1 == results@.len() * (results@.len() - 1),
            r.0 <= r.1,
    {
        let n = results.len();
        let mut conflicts: u128 = 0;
        let mut pairs: u128 = 0;
        let mut i: usize = 0;
        proof {
            assert(spec_conflicting_pairs(results@.take(0)) == 0) by {
                assert(results@.take(0).len() == 0);
            }
        }
        while i < n
            invariant
                0 <= i <= n,
                n == results@.len(),
                conflicts == spec_conflicting_pairs(results@.take(i as int)),
                pairs == tri(i as nat),
                conflicts <= pairs,
            decreases n - i,
        {
            let mut row: u128 = 0;
            let mut j: usize = 0;
            proof {
                assert(results@.take(i as int).take(0) =~= results@.take(0));
                assert(spec_row_conflicts(results@.take(0), results@[i as int]) == 0) by {
                    assert(results@.take(0).len() == 0);
                }
            }
            while j < i
                invariant
                    0 <= j <= i < n,
                    n == results@.len(),
                    row == spec_row_conflicts(results@.take(j as int), results@[i as int]),
                    row <= j,
                decreases i - j,
            {
                if results[j].access_sets.has_conflict_with(&results[i].access_sets) {
                    row = row + 1;
                }
                proof {
                    assert(results@.take(j + 1).drop_last() =~= results@.take(j as int));
                    assert(results@.take(j + 1).last() == results@[j as int]);
                }
                j += 1;
            }
            proof {
                assert(results@.take(i + 1).drop_last() =~= results@.take(i as int));
                assert(results@.take(i + 1).last() == results@[i as int]);
                lemma_tri(n as nat);
                lemma_tri_mono((i + 1) as nat, n as nat);
                assert(n as int * (n as int - 1) < 2 * 0x1_0000_0000_0000_0000
                    * 0x1_0000_0000_0000_0000) by (nonlinear_arith)
                    requires 0 <= n < 0x1_0000_0000_0000_0000,
                ;
            }
            conflicts = conflicts + row;
            pairs = pairs + (i as u128);
            i += 1;
        }
        proof {
            assert(results@.take(n as int) =~= results@);
            lemma_tri(n as nat);
        }
        (conflicts, pairs)
    }
}

} // verus!
