//! Watch mode's choice of files: the newest block ranges first.
use vstd::prelude::*;

verus! {

/// Files are read newest first until this many ticks are in hand.
pub const ENOUGH_TICKS: usize = 8192;

/// Whether the ticks read so far are enough to stop reading files.
pub fn has_enough_ticks(count: usize) -> (r: bool)
    ensures
        r == (count >= ENOUGH_TICKS),
{
    count >= ENOUGH_TICKS
}

/// Why there is nothing new to read.
#[derive(Debug, Clone, Copy, PartialEq, Eq, Structural)]
pub enum WatchError {
    /// The directory holds no block files.
    NoFiles,
    /// No file ends after the latest block already read.
    NoNewBlocks,
}

/// File `a` is read before file `b`: it ends later, or at the same block and
/// was listed first.
pub open spec fn reads_before(ends: Seq<u64>, a: int, b: int) -> bool {
    ends[a] > ends[b] || (ends[a] == ends[b] && a < b)
}

/// File `k` has a place in `order`.
pub open spec fn listed(order: Seq<usize>, k: int) -> bool {
    exists|x: int| 0 <= x < order.len() && #[trigger] order[x] == k
}

/// `order` lists each file of `ends` once, newest first.
pub open spec fn newest_first(ends: Seq<u64>, order: Seq<usize>) -> bool {
    &&& order.len() == ends.len()
    &&& forall|i: int| 0 <= i < order.len() ==> (#[trigger] order[i]) < ends.len()
    &&& forall|k: int| 0 <= k < ends.len() ==> #[trigger] listed(order, k)
    &&& forall|i: int, j: int| 0 <= i < j < order.len() ==> reads_before(ends, #[trigger] order[i] as int, #[trigger] order[j] as int)
}

/// The order in which to read files whose end blocks are `ends`.
pub fn order_newest_first(ends: &Vec<u64>) -> (r: Vec<usize>)
    ensures
        newest_first(ends@, r@),
{
    let mut order: Vec<usize> = Vec::new();
    let mut i: usize = 0;
    while i < ends.len()
        invariant
            0 <= i <= ends@.len(),
            order@.len() == i,
            forall|x: int| 0 <= x < order@.len() ==> (#[trigger] order@[x]) < i,
            forall|k: int| 0 <= k < i ==> #[trigger] listed(order@, k),
            forall|x: int, y: int| 0 <= x < y < order@.len() ==> reads_before(ends@, #[trigger] order@[x] as int, #[trigger] order@[y] as int),
        decreases ends@.len() - i,
    {
        let mut p: usize = 0;
        while p < order.len() && ends[order[p]] >= ends[i]
            invariant
                0 <= p <= order@.len(),
                i < ends@.len(),
                forall|x: int| 0 <= x < order@.len() ==> (#[trigger] order@[x]) < i,
                forall|x: int| 0 <= x < p ==> ends@[#[trigger] order@[x] as int] >= ends@[i as int],
            decreases order@.len() - p,
        {
            p = p + 1;
        }
        let ghost old_order = order@;
        proof {
            assert forall|y: int| p <= y < old_order.len() implies ends@[#[trigger] old_order[y] as int] < ends@[i as int] by {
                if y > p {
                    assert(reads_before(ends@, old_order[p as int] as int, old_order[y] as int));
                }
            }
        }
        order.insert(p, i);
        proof {
            assert(order@[p as int] == i);
            assert forall|k: int| 0 <= k < i + 1 implies #[trigger] listed(order@, k) by {
                if k == i {
                    assert(order@[p as int] == k);
                } else {
                    assert(listed(old_order, k));
                    let x0 = choose|x: int| 0 <= x < old_order.len() && #[trigger] old_order[x] == k;
                    if x0 < p {
                        assert(order@[x0] == k);
                    } else {
                        assert(order@[x0 + 1] == k);
                    }
                }
            }
            assert forall|x: int, y: int| 0 <= x < y < order@.len() implies reads_before(ends@, #[trigger] order@[x] as int, #[trigger] order@[y] as int) by {
                if y < p {
                    assert(reads_before(ends@, old_order[x] as int, old_order[y] as int));
                } else if y == p {
                    assert(ends@[old_order[x] as int] >= ends@[i as int]);
                } else if x < p {
                    assert(reads_before(ends@, old_order[x] as int, old_order[y - 1] as int));
                } else if x == p {
                    assert(ends@[old_order[y - 1] as int] < ends@[i as int]);
                } else {
                    assert(reads_before(ends@, old_order[x - 1] as int, old_order[y - 1] as int));
                }
            }
        }
        i = i + 1;
    }
    order
}

/// The newest-first order of the files and their newest end block; there
/// must be files, and one must end after `latest_block`.
pub fn plan_newest_first(ends: &Vec<u64>, latest_block: u64) -> (r: Result<(Vec<usize>, u64), WatchError>)
    ensures
        ends@.len() == 0 ==> r == Err::<(Vec<usize>, u64), WatchError>(WatchError::NoFiles),
        ends@.len() > 0 ==> match r {
            Ok((order, newest)) => newest_first(ends@, order@) && newest == ends@[order@[0] as int]
                && newest > latest_block,
            Err(e) => e == WatchError::NoNewBlocks && forall|i: int| 0 <= i < ends@.len() ==> #[trigger] ends@[i] <= latest_block,
        },
{
    if ends.len() == 0 {
        return Err(WatchError::NoFiles);
    }
    let order = order_newest_first(ends);
    let newest = ends[order[0]];
    if newest <= latest_block {
        proof {
            assert forall|i: int| 0 <= i < ends@.len() implies #[trigger] ends@[i] <= latest_block by {
                assert(ends@[i] <= newest) by {
                    lemma_newest_is_first(ends@, order@, i);
                }
            }
        }
        return Err(WatchError::NoNewBlocks);
    }
    Ok((order, newest))
}

/// In a newest-first order the first file ends at the latest block.
proof fn lemma_newest_is_first(ends: Seq<u64>, order: Seq<usize>, i: int)
    requires
        newest_first(ends, order),
        0 <= i < ends.len(),
    ensures
        ends[i] <= ends[order[0] as int],
{
    assert(listed(order, i));
    let x = choose|x: int| 0 <= x < order.len() && #[trigger] order[x] == i;
    if x > 0 {
        assert(reads_before(ends, order[0] as int, order[x] as int));
    }
}

} // verus!
