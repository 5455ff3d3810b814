//! Bookkeeping for step-by-step records of Gaussian elimination: the text
//! that names a row swap, and the offsets that index the rows each step
//! changed.

use vstd::prelude::*;

use crate::text::{decimal, lemma_decimal_reads_back, push_decimal, value_of};

verus! {

/// The textbook name of the swap of rows `i` and `j` (0-based), written with
/// 1-based row names: `R2 ↔ R3` for `i = 1`, `j = 2`.
pub open spec fn swap_description(i: nat, j: nat) -> Seq<char> {
    "R"@ + decimal(i + 1) + " ↔ R"@ + decimal(j + 1)
}

/// Describes the swap of rows `i` and `j` as a row operation.
pub fn describe_swap(i: usize, j: usize) -> (s: String)
    requires
        i < usize::MAX,
        j < usize::MAX,
    ensures
        s@ == swap_description(i as nat, j as nat),
        s@ == "R"@ + decimal((i + 1) as nat) + " ↔ R"@ + decimal((j + 1) as nat),
{
    let mut s = String::from_str("R");
    push_decimal(&mut s, i + 1);
    s.append(" ↔ R");
    push_decimal(&mut s, j + 1);
    s
}

/// The swap of rows `i` and `j` is named by the 1-based row numbers of both
/// rows, whatever their distance: `"R"`, the decimal of `i + 1`, `" ↔ R"`,
/// and the decimal of `j + 1`; and the second number reads back as `j + 1`.
pub proof fn lemma_swap_description_names_rows(i: nat, j: nat)
    ensures
        swap_description(i, j) == "R"@ + decimal(i + 1) + " ↔ R"@ + decimal(j + 1),
        swap_description(i, j).skip(swap_description(i, j).len() - decimal(j + 1).len())
            == decimal(j + 1),
        value_of(decimal(j + 1)) == j + 1,
        value_of(decimal(i + 1)) == i + 1,
{
    lemma_decimal_reads_back(i + 1);
    lemma_decimal_reads_back(j + 1);
    let head = "R"@ + decimal(i + 1) + " ↔ R"@;
    assert(swap_description(i, j) == head + decimal(j + 1));
    assert((head + decimal(j + 1)).skip(head.len() as int) =~= decimal(j + 1));
}

/// The sum of `lengths`.
pub open spec fn total(lengths: Seq<usize>) -> nat
    decreases lengths.len(),
{
    if lengths.len() == 0 {
        0
    } else {
        total(lengths.drop_last()) + lengths.last() as nat
    }
}

/// The offsets of a ragged list stored as one flat list: the items of part
/// `k` sit at `offsets[k] .. offsets[k + 1]`, where part `k` has
/// `lengths[k]` items. `offsets` starts at 0 and has one entry more than
/// `lengths`.
pub fn part_offsets(lengths: &Vec<usize>) -> (offsets: Vec<u32>)
    requires
        total(lengths@) <= u32::MAX,
    ensures
        offsets@.len() == lengths@.len() + 1,
        forall|k: int| 0 <= k <= lengths@.len() ==> #[trigger] offsets@[k] == total(lengths@.take(k)),
{
    let mut offsets: Vec<u32> = Vec::new();
    let mut acc: u32 = 0;
    offsets.push(0);
    assert(lengths@.take(0) =~= Seq::<usize>::empty());
    for k in 0..lengths.len()
        invariant
            total(lengths@) <= u32::MAX,
            acc == total(lengths@.take(k as int)),
            offsets@.len() == k + 1,
            forall|j: int| 0 <= j <= k ==> #[trigger] offsets@[j] == total(lengths@.take(j)),
    {
        assert(lengths@.take(k + 1).drop_last() =~= lengths@.take(k as int));
        proof {
            lemma_total_prefix(lengths@, k + 1);
        }
        acc = acc + lengths[k] as u32;
        offsets.push(acc);
    }
    offsets
}

/// A prefix of a list sums to no more than the whole list.
proof fn lemma_total_prefix(lengths: Seq<usize>, k: int)
    requires
        0 <= k <= lengths.len(),
    ensures
        total(lengths.take(k)) <= total(lengths),
    decreases lengths.len(),
{
    if k < lengths.len() {
        assert(lengths.drop_last().take(k) =~= lengths.take(k));
        lemma_total_prefix(lengths.drop_last(), k);
    } else {
        assert(lengths.take(k) =~= lengths);
    }
}

/// The kind of solution an elimination trace of an augmented matrix reports,
/// as the code the trace carries: `3` when some row of the reduced matrix has
/// its pivot in the constant column `n` (a row `0 = 1`), else `1` when the
/// `rank` equals the number `n` of unknowns, else `2`.
pub fn classify_solution(pivots: &Vec<Option<usize>>, n: usize, rank: usize) -> (code: u8)
    ensures
        (code == 3) <==> pivots@.contains(Some(n)),
        (code == 1) <==> !pivots@.contains(Some(n)) && rank == n,
        (code == 2) <==> !pivots@.contains(Some(n)) && rank != n,
{
    let mut i: usize = 0;
    while i < pivots.len()
        invariant
            i <= pivots@.len(),
            forall|k: int| 0 <= k < i ==> pivots@[k] != Some(n),
        decreases pivots@.len() - i,
    {
        if pivots[i] == Some(n) {
            return 3;
        }
        i = i + 1;
    }
    if rank == n {
        1
    } else {
        2
    }
}

/// The sum is additive: the sum of two lists joined is the sum of their
/// sums, and a list of one length sums to that length.
pub proof fn lemma_total_concat(a: Seq<usize>, b: Seq<usize>)
    ensures
        total(a + b) == total(a) + total(b),
        total(Seq::<usize>::empty()) == 0,
        forall|x: usize| #[trigger] total(seq![x]) == x,
    decreases b.len(),
{
    assert forall|x: usize| #[trigger] total(seq![x]) == x by {
        assert(seq![x].drop_last() =~= Seq::<usize>::empty());
        assert(seq![x].last() == x);
        assert(total(seq![x]) == total(seq![x].drop_last()) + seq![x].last() as nat);
    }
    if b.len() == 0 {
        assert(a + b =~= a);
    } else {
        lemma_total_concat(a, b.drop_last());
        assert((a + b).drop_last() =~= a + b.drop_last());
        assert((a + b).last() == b.last());
    }
}

} // verus!
