use vstd::prelude::*;

verus! {

/// Whether a session ends after position `k`: the last entry, or the next one belongs to
/// another session.
pub open spec fn ends_session(ids: Seq<u64>, k: int) -> bool {
    k + 1 == ids.len() || ids[k] != ids[k + 1]
}

/// For each session among the first `k` entries, in order, the number of entries up to
/// and including its last one.
pub open spec fn session_ends_upto(ids: Seq<u64>, k: int) -> Seq<usize>
    decreases k,
{
    if k <= 0 {
        Seq::empty()
    } else if ends_session(ids, k - 1) {
        session_ends_upto(ids, k - 1).push(k as usize)
    } else {
        session_ends_upto(ids, k - 1)
    }
}

/// Groups consecutive equal session identifiers: for each group, in order, how many
/// entries there are up to its end. Each session's ratings take all values up to there.
pub fn session_ends(day_ids: &[u64]) -> (r: Vec<usize>)
    ensures
        r@ == session_ends_upto(day_ids@, day_ids@.len() as int),
{
    let mut ends: Vec<usize> = Vec::new();
    let n = day_ids.len();
    let mut k: usize = 0;
    while k < n
        invariant
            n == day_ids@.len(),
            k <= n,
            ends@ == session_ends_upto(day_ids@, k as int),
        decreases n - k,
    {
        if k + 1 == n || day_ids[k] != day_ids[k + 1] {
            ends.push(k + 1);
        }
        k += 1;
    }
    ends
}

proof fn lemma_session_ends(ids: Seq<u64>, k: int)
    requires
        0 <= k <= ids.len(),
        ids.len() <= usize::MAX,
    ensures
        forall|j: int|
            0 <= j < session_ends_upto(ids, k).len() ==> 0 < #[trigger] session_ends_upto(
                ids,
                k,
            )[j] <= k,
        forall|j: int, l: int|
            0 <= j < l < session_ends_upto(ids, k).len() ==> #[trigger] session_ends_upto(
                ids,
                k,
            )[j] < #[trigger] session_ends_upto(ids, k)[l],
    decreases k,
{
    if k > 0 {
        lemma_session_ends(ids, k - 1);
        let prev = session_ends_upto(ids, k - 1);
        let cur = session_ends_upto(ids, k);
        if ends_session(ids, k - 1) {
            assert(cur == prev.push(k as usize));
            assert forall|j: int| 0 <= j < cur.len() implies 0 < #[trigger] cur[j] <= k by {
                if j < prev.len() {
                    assert(cur[j] == prev[j]);
                }
            }
            assert forall|j: int, l: int| 0 <= j < l < cur.len() implies #[trigger] cur[j]
                < #[trigger] cur[l] by {
                assert(cur[j] == prev[j]);
                if l < prev.len() {
                    assert(cur[l] == prev[l]);
                }
            }
        }
    }
}

/// The session ends are strictly growing windows within the entries, and the last one
/// takes every entry: each session's values include those of all before it.
pub proof fn law_sessions_grow(ids: Seq<u64>)
    requires
        ids.len() <= usize::MAX,
    ensures
        ({
            let e = session_ends_upto(ids, ids.len() as int);
            &&& forall|j: int| 0 <= j < e.len() ==> 0 < #[trigger] e[j] <= ids.len()
            &&& forall|j: int, l: int| 0 <= j < l < e.len() ==> #[trigger] e[j] < #[trigger] e[l]
            &&& ids.len() > 0 ==> e.len() > 0 && e.last() == ids.len()
        }),
{
    lemma_session_ends(ids, ids.len() as int);
}

} // verus!
