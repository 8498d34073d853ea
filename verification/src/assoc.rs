//! Stack-only associativity test for plain binary operation tables.
//!
//! When enumerating binary operations `f: A x A -> A` there is no need for
//! the category machinery: the table is a flat vector of `n * n` entries,
//! addressed little-endian (`i + j * n`), and the check walks every triple
//! directly.

use vstd::prelude::*;
use crate::set::utils::lemma_table_index_bounds;

verus! {

/// The table entry `f(i, j)`, addressed little-endian: `i + j * n`.
pub open spec fn op_of(table: Seq<usize>, n: int, i: int, j: int) -> int {
    table[i + j * n] as int
}

/// The operation associates on the triple `(i, j, k)`:
/// `f(f(i, j), k) == f(i, f(j, k))`.
pub open spec fn table_assoc_at(table: Seq<usize>, n: int, i: int, j: int, k: int) -> bool {
    op_of(table, n, op_of(table, n, i, j), k) == op_of(table, n, i, op_of(table, n, j, k))
}

/// The table denotes an associative binary operation.
pub open spec fn table_associative(table: Seq<usize>, n: int) -> bool {
    forall|i: int, j: int, k: int|
        0 <= i < n && 0 <= j < n && 0 <= k < n ==> #[trigger] table_assoc_at(table, n, i, j, k)
}

/// Test a binary operation table on `n` elements for associativity,
/// returning at the first mismatch.
pub fn is_associative(table: &[usize], n: usize) -> (r: bool)
    requires
        table@.len() == n * n,
        forall|t: int| 0 <= t < table@.len() ==> #[trigger] table@[t] < n,
    ensures
        r == table_associative(table@, n as int),
{
    let total = table.len();
    for i in 0..n
        invariant
            total == table@.len() == n * n,
            forall|t: int| 0 <= t < table@.len() ==> #[trigger] table@[t] < n,
            forall|i2: int, j2: int, k2: int|
                0 <= i2 < i && 0 <= j2 < n && 0 <= k2 < n ==> #[trigger] table_assoc_at(
                    table@,
                    n as int,
                    i2,
                    j2,
                    k2,
                ),
    {
        for j in 0..n
            invariant
                total == table@.len() == n * n,
                forall|t: int| 0 <= t < table@.len() ==> #[trigger] table@[t] < n,
                i < n,
                forall|i2: int, j2: int, k2: int|
                    0 <= i2 < i && 0 <= j2 < n && 0 <= k2 < n ==> #[trigger] table_assoc_at(
                        table@,
                        n as int,
                        i2,
                        j2,
                        k2,
                    ),
                forall|j2: int, k2: int|
                    0 <= j2 < j && 0 <= k2 < n ==> #[trigger] table_assoc_at(
                        table@,
                        n as int,
                        i as int,
                        j2,
                        k2,
                    ),
        {
            for k in 0..n
                invariant
                    total == table@.len() == n * n,
                    forall|t: int| 0 <= t < table@.len() ==> #[trigger] table@[t] < n,
                    i < n,
                    j < n,
                    forall|i2: int, j2: int, k2: int|
                        0 <= i2 < i && 0 <= j2 < n && 0 <= k2 < n ==> #[trigger] table_assoc_at(
                            table@,
                            n as int,
                            i2,
                            j2,
                            k2,
                        ),
                    forall|j2: int, k2: int|
                        0 <= j2 < j && 0 <= k2 < n ==> #[trigger] table_assoc_at(
                            table@,
                            n as int,
                            i as int,
                            j2,
                            k2,
                        ),
                    forall|k2: int|
                        0 <= k2 < k ==> #[trigger] table_assoc_at(
                            table@,
                            n as int,
                            i as int,
                            j as int,
                            k2,
                        ),
            {
                proof {
                    lemma_table_index_bounds(i as int, n as int, j as int, n as int);
                    lemma_table_index_bounds(j as int, n as int, k as int, n as int);
                }
                let f_ij = table[i + j * n];
                let f_jk = table[j + k * n];
                proof {
                    lemma_table_index_bounds(f_ij as int, n as int, k as int, n as int);
                    lemma_table_index_bounds(i as int, n as int, f_jk as int, n as int);
                }
                let left = table[f_ij + k * n];
                let right = table[i + f_jk * n];
                if left != right {
                    proof {
                        assert(!table_assoc_at(table@, n as int, i as int, j as int, k as int));
                    }
                    return false;
                }
                proof {
                    assert(table_assoc_at(table@, n as int, i as int, j as int, k as int));
                }
            }
        }
    }
    true
}

} // verus!
