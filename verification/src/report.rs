//! What the benchmark and the inspection say of an encoded price column.

use crate::price::{BlockInfo, BlockKind, FallbackReason};
use vstd::prelude::*;

verus! {

/// Rows that the inspection shows at most.
pub const LIMIT: usize = 40;

/// What two blocks must share to be shown as one: the path, and on the grid the
/// scale and the tick.
pub open spec fn path_of(kind: BlockKind) -> Option<(u32, u64)> {
    match kind {
        BlockKind::Grid { scale, tick, .. } => Some((scale, tick)),
        BlockKind::Gorilla { .. } => None,
    }
}

/// The block `i` is the first one, or takes another path than the one before.
pub open spec fn changes_at(infos: Seq<BlockInfo>, i: int) -> bool {
    i == 0 || path_of(infos[i].kind) != path_of(infos[i - 1].kind)
}

/// The blocks before the index `n` at which the path changes.
pub open spec fn changes(infos: Seq<BlockInfo>, n: nat) -> Seq<usize>
    decreases n,
{
    if n == 0 {
        Seq::empty()
    } else {
        let before = changes(infos, (n - 1) as nat);
        if changes_at(infos, n - 1) {
            before.push((n - 1) as usize)
        } else {
            before
        }
    }
}

/// The first elements of `s`, at most `n`.
pub open spec fn at_most(s: Seq<usize>, n: nat) -> Seq<usize> {
    if s.len() <= n {
        s
    } else {
        s.take(n as int)
    }
}

/// Whether the two blocks take the same path, on the same grid.
fn same_path(a: &BlockKind, b: &BlockKind) -> (same: bool)
    ensures
        same == (path_of(*a) == path_of(*b)),
{
    match (a, b) {
        (
            BlockKind::Grid { scale, tick, .. },
            BlockKind::Grid { scale: other_scale, tick: other_tick, .. },
        ) => *scale == *other_scale && *tick == *other_tick,
        (BlockKind::Gorilla { .. }, BlockKind::Gorilla { .. }) => true,
        _ => false,
    }
}

/// The blocks that the inspection shows: one per change of path, scale or tick,
/// at most [`LIMIT`].
pub fn rows(infos: &[BlockInfo]) -> (out: Vec<usize>)
    ensures
        out@ == at_most(changes(infos@, infos@.len()), LIMIT as nat),
        forall|i: int| 0 <= i < out@.len() ==> #[trigger] out@[i] < infos@.len(),
        out@.len() <= 40,
        forall|a: int, b: int| 0 <= a < b < out@.len() ==> #[trigger] out@[a] < #[trigger] out@[b],
        forall|i: int|
            0 < i < infos@.len() && out@.contains(i as usize) ==> {
                let (this, last) = ((#[trigger] infos@[i]).kind, infos@[i - 1].kind);
                ||| this is Grid != last is Grid
                ||| this is Grid && this->scale != last->scale
                ||| this is Grid && this->tick != last->tick
            },
        forall|i: int|
            0 < i < infos@.len() && !out@.contains(i as usize) && out@.len() < 40 ==> {
                let (this, last) = ((#[trigger] infos@[i]).kind, infos@[i - 1].kind);
                ||| this is Gorilla && last is Gorilla
                ||| this is Grid && last is Grid && this->scale == last->scale && this->tick
                    == last->tick
            },
{
    let mut out: Vec<usize> = Vec::new();
    let mut i: usize = 0;
    while i < infos.len()
        invariant
            i <= infos@.len(),
            out@ == at_most(changes(infos@, i as nat), LIMIT as nat),
            forall|j: int| 0 <= j < out@.len() ==> #[trigger] out@[j] < i,
        decreases infos@.len() - i,
    {
        if (i == 0 || !same_path(&infos[i].kind, &infos[i - 1].kind)) && out.len() < LIMIT {
            out.push(i);
        }
        i = i + 1;
        proof {
            let before = changes(infos@, (i - 1) as nat);
            let after = changes(infos@, i as nat);
            if before.len() >= LIMIT {
                assert(after.take(LIMIT as int) =~= before.take(LIMIT as int));
            }
        }
    }
    proof {
        assert forall|i: int|
            #![trigger infos@[i]]
            0 <= i < infos@.len() implies (out@.contains(i as usize) ==> changes_at(infos@, i)) && (
        out@.len() < 40 && changes_at(infos@, i) ==> out@.contains(i as usize)) by {
            rows_are_where_the_kind_changes(infos@, i);
        }
        if infos@.len() > 0 {
            rows_are_where_the_kind_changes(infos@, 0);
        }
    }
    out
}

/// The blocks shown, told by the fields of their kinds. They come in order. The
/// block `i` is among them exactly if it is the first, or one of it and the one
/// before it is a grid block and the other is not, or both are grid blocks with
/// another scale or another tick; but 40 are shown at most, and the ones left
/// out come behind all that are shown.
pub proof fn rows_are_where_the_kind_changes(infos: Seq<BlockInfo>, i: int)
    requires
        0 <= i < infos.len() <= usize::MAX,
    ensures
        ({
            let shown = at_most(changes(infos, infos.len()), LIMIT as nat);
            let new = i == 0 || (infos[i].kind is Grid) != (infos[i - 1].kind is Grid) || (
            infos[i].kind is Grid && (infos[i].kind->scale != infos[i - 1].kind->scale
                || infos[i].kind->tick != infos[i - 1].kind->tick));
            &&& shown.len() <= 40
            &&& forall|a: int, b: int|
                0 <= a < b < shown.len() ==> #[trigger] shown[a] < #[trigger] shown[b]
            &&& shown.contains(i as usize) ==> new
            &&& new && shown.len() < 40 ==> shown.contains(i as usize)
            &&& new ==> shown.contains(i as usize) || shown.last() < i
        }),
{
    lemma_changes(infos, infos.len());
    let all = changes(infos, infos.len());
    let shown = at_most(all, LIMIT as nat);
    assert forall|a: int| 0 <= a < shown.len() implies #[trigger] shown[a] == all[a] by {}
    if shown.contains(i as usize) {
        let a = choose|a: int| 0 <= a < shown.len() && shown[a] == i as usize;
        assert(all[a] == i);
        assert(changes_at(infos, all[a] as int));
    }
    if changes_at(infos, i) {
        assert(all.contains(i as usize));
        let a = choose|a: int| 0 <= a < all.len() && all[a] == i as usize;
        if a < shown.len() {
            assert(shown[a] == i as usize);
        } else {
            assert(all[LIMIT - 1] < all[a]);
        }
    }
}

proof fn lemma_changes(infos: Seq<BlockInfo>, n: nat)
    requires
        n <= infos.len() <= usize::MAX,
    ensures
        ({
            let all = changes(infos, n);
            &&& forall|a: int, b: int|
                0 <= a < b < all.len() ==> #[trigger] all[a] < #[trigger] all[b]
            &&& forall|a: int|
                0 <= a < all.len() ==> (#[trigger] all[a]) < n && changes_at(infos, all[a] as int)
            &&& forall|i: int|
                0 <= i < n && #[trigger] changes_at(infos, i) ==> all.contains(i as usize)
        }),
    decreases n,
{
    if n > 0 {
        let before = changes(infos, (n - 1) as nat);
        let all = changes(infos, n);
        lemma_changes(infos, (n - 1) as nat);
        assert forall|i: int| 0 <= i < n && #[trigger] changes_at(infos, i) implies all.contains(
            i as usize,
        ) by {
            if i < n - 1 {
                assert(before.contains(i as usize));
                let a = choose|a: int| 0 <= a < before.len() && before[a] == i as usize;
                assert(all[a] == i as usize);
            } else {
                assert(all[before.len() as int] == i as usize);
            }
        }
    }
}

/// Number of grid blocks.
pub open spec fn grid_count(infos: Seq<BlockInfo>) -> nat
    decreases infos.len(),
{
    if infos.len() == 0 {
        0
    } else {
        grid_count(infos.drop_last()) + if infos.last().kind is Grid {
            1nat
        } else {
            0nat
        }
    }
}

/// Number of grid blocks.
pub fn grid_blocks(infos: &[BlockInfo]) -> (n: usize)
    ensures
        n == grid_count(infos@),
        n == infos@.filter(|b: BlockInfo| b.kind is Grid).len(),
        n <= infos@.len(),
{
    let mut n: usize = 0;
    let mut i: usize = 0;
    while i < infos.len()
        invariant
            n <= i <= infos@.len(),
            n == grid_count(infos@.take(i as int)),
        decreases infos@.len() - i,
    {
        assert(infos@.take(i + 1).drop_last() =~= infos@.take(i as int));
        if let BlockKind::Grid { .. } = infos[i].kind {
            n = n + 1;
        }
        i = i + 1;
    }
    assert(infos@.take(i as int) =~= infos@);
    proof {
        blocks_on_the_grid_are_counted(infos@);
    }
    n
}

/// As many blocks are counted as there are blocks whose kind is the grid.
pub proof fn blocks_on_the_grid_are_counted(infos: Seq<BlockInfo>)
    ensures
        grid_count(infos) == infos.filter(|b: BlockInfo| b.kind is Grid).len(),
    decreases infos.len(),
{
    reveal(Seq::filter);
    if infos.len() > 0 {
        blocks_on_the_grid_are_counted(infos.drop_last());
    }
}

/// Whether two columns hold the same bit patterns.
pub fn same_bits(a: &[u64], b: &[u64]) -> (same: bool)
    ensures
        same == (a@ == b@),
{
    if a.len() != b.len() {
        return false;
    }
    let mut i: usize = 0;
    while i < a.len()
        invariant
            i <= a@.len() == b@.len(),
            a@.take(i as int) == b@.take(i as int),
        decreases a@.len() - i,
    {
        if a[i] != b[i] {
            assert(a@[i as int] != b@[i as int]);
            return false;
        }
        proof {
            assert(a@.take(i + 1) =~= a@.take(i as int).push(a@[i as int]));
            assert(b@.take(i + 1) =~= b@.take(i as int).push(b@[i as int]));
        }
        i = i + 1;
    }
    proof {
        assert(a@.take(i as int) =~= a@);
        assert(b@.take(i as int) =~= b@);
    }
    true
}

/// Why a block fell back, in a word.
pub open spec fn reason_word(reason: FallbackReason) -> &'static str {
    match reason {
        FallbackReason::NoDecimalScale => "no-scale",
        FallbackReason::DeltaOverflow => "overflow",
        FallbackReason::Smaller => "smaller",
    }
}

/// Why a block fell back, in a word.
pub fn reason_label(reason: FallbackReason) -> (word: &'static str)
    ensures
        word == reason_word(reason),
        reason is NoDecimalScale ==> word@ == "no-scale"@,
        reason is DeltaOverflow ==> word@ == "overflow"@,
        reason is Smaller ==> word@ == "smaller"@,
{
    match reason {
        FallbackReason::NoDecimalScale => "no-scale",
        FallbackReason::DeltaOverflow => "overflow",
        FallbackReason::Smaller => "smaller",
    }
}

} // verus!
