//! Draft recovery: the snapshot of unsaved work and the order in which
//! recovery slots are claimed.

use vstd::prelude::*;

verus! {

/// Unsaved work: the document's file URL, if it has one, and its text.
#[derive(Debug, Clone)]
pub struct RecoverySnapshot {
    pub file_url: Option<String>,
    pub text: String,
}

pub open spec fn opt_view(o: Option<String>) -> Option<Seq<char>> {
    match o {
        Some(s) => Some(s@),
        None => None,
    }
}

impl View for RecoverySnapshot {
    type V = (Option<Seq<char>>, Seq<char>);

    open spec fn view(&self) -> (Option<Seq<char>>, Seq<char>) {
        (opt_view(self.file_url), self.text@)
    }
}

/// A snapshot read back from a slot is worth recovering unless it holds
/// neither text nor a file.
pub fn recovered_snapshot(snapshot: RecoverySnapshot) -> (r: Option<RecoverySnapshot>)
    ensures
        match r {
            Some(s) => s@ == snapshot@ && !(snapshot.text@.len() == 0
                && snapshot.file_url is None),
            None => snapshot.text@.len() == 0 && snapshot.file_url is None,
        },
{
    if snapshot.text.as_str().is_empty() && snapshot.file_url.is_none() {
        None
    } else {
        Some(snapshot)
    }
}

/// The slots `i < k` whose snapshot file exists (`want`) or does not.
pub open spec fn slots_where(exists: Seq<bool>, want: bool, k: int) -> Seq<usize>
    decreases k,
{
    if k <= 0 || k > exists.len() {
        seq![]
    } else {
        slots_where(exists, want, k - 1) + (if exists[k - 1] == want {
            seq![(k - 1) as usize]
        } else {
            seq![]
        })
    }
}

/// The order in which to try to lock recovery slots: first those that hold
/// an orphaned snapshot, then the empty ones, each in slot order.
pub open spec fn claim_order_spec(exists: Seq<bool>) -> Seq<usize> {
    slots_where(exists, true, exists.len() as int) + slots_where(
        exists,
        false,
        exists.len() as int,
    )
}

fn slots_where_exec(exists: &Vec<bool>, want: bool, out: &mut Vec<usize>)
    ensures
        final(out)@ == old(out)@ + slots_where(exists@, want, exists@.len() as int),
{
    let mut k: usize = 0;
    assert(old(out)@ + slots_where(exists@, want, 0) =~= old(out)@);
    while k < exists.len()
        invariant
            k <= exists.len(),
            out@ == old(out)@ + slots_where(exists@, want, k as int),
        decreases exists.len() - k,
    {
        if exists[k] == want {
            out.push(k);
        }
        assert(out@ =~= old(out)@ + slots_where(exists@, want, k + 1));
        k = k + 1;
    }
}

/// Slot numbers to try, given which slots already hold a snapshot file.
pub fn claim_order(snapshot_exists: &Vec<bool>) -> (r: Vec<usize>)
    ensures
        r@ == claim_order_spec(snapshot_exists@),
{
    let mut out: Vec<usize> = Vec::new();
    slots_where_exec(snapshot_exists, true, &mut out);
    slots_where_exec(snapshot_exists, false, &mut out);
    assert(out@ =~= claim_order_spec(snapshot_exists@));
    out
}

proof fn lemma_slots_where(exists: Seq<bool>, want: bool, k: int)
    requires
        0 <= k <= exists.len(),
        exists.len() <= usize::MAX,
    ensures
        ({
            let r = slots_where(exists, want, k);
            &&& forall|a: int| 0 <= a < r.len() ==> (#[trigger] r[a]) < k && exists[r[a] as int] == want
            &&& forall|a: int, b: int| 0 <= a < b < r.len() ==> #[trigger] r[a] < #[trigger] r[b]
            &&& forall|i: int| 0 <= i < k && exists[i] == want ==> r.contains(i as usize)
        }),
        slots_where(exists, true, k).len() + slots_where(exists, false, k).len() == k,
    decreases k,
{
    if k > 0 {
        lemma_slots_where(exists, want, k - 1);
        let prev = slots_where(exists, want, k - 1);
        let r = slots_where(exists, want, k);
        assert forall|i: int| 0 <= i < k && exists[i] == want implies r.contains(i as usize) by {
            if i < k - 1 {
                let a = choose|a: int| 0 <= a < prev.len() && prev[a] == i as usize;
                assert(r[a] == prev[a]);
            } else {
                assert(r[r.len() - 1] == (k - 1) as usize);
            }
        }
        assert forall|a: int| 0 <= a < r.len() implies (#[trigger] r[a]) < k && exists[r[a] as int]
            == want by {
            if a < prev.len() {
                assert(r[a] == prev[a]);
            }
        }
        assert forall|a: int, b: int| 0 <= a < b < r.len() implies #[trigger] r[a] < #[trigger] r[b] by {
            if b < prev.len() {
                assert(r[a] == prev[a]);
                assert(r[b] == prev[b]);
            } else {
                assert(r[a] == prev[a]);
            }
        }
    }
}

/// Slots are claimed in a fixed order: every slot exactly once, those
/// holding an orphaned snapshot first, each group in slot order.
pub proof fn law_claim_order(exists: Seq<bool>)
    requires
        exists.len() <= usize::MAX,
    ensures
        ({
            let r = claim_order_spec(exists);
            &&& r.len() == exists.len()
            &&& forall|i: usize| i < exists.len() ==> #[trigger] r.contains(i)
            &&& forall|a: int| 0 <= a < r.len() ==> (#[trigger] r[a]) < exists.len()
            &&& forall|a: int, b: int|
                0 <= a < b < r.len() ==> r[a] != r[b] && (exists[r[b] as int]
                    ==> exists[r[a] as int]) && (exists[r[a] as int] == exists[r[b] as int]
                    ==> r[a] < r[b])
        }),
{
    let n = exists.len() as int;
    lemma_slots_where(exists, true, n);
    lemma_slots_where(exists, false, n);
    let t = slots_where(exists, true, n);
    let f = slots_where(exists, false, n);
    let r = claim_order_spec(exists);
    assert forall|i: usize| i < n implies #[trigger] r.contains(i) by {
        if exists[i as int] {
            assert(t.contains(i as int as usize));
            let a = choose|a: int| 0 <= a < t.len() && t[a] == i;
            assert(r[a] == t[a]);
        } else {
            assert(f.contains(i as int as usize));
            let a = choose|a: int| 0 <= a < f.len() && f[a] == i;
            assert(r[t.len() + a] == f[a]);
        }
    }
    assert forall|a: int| 0 <= a < r.len() implies (#[trigger] r[a]) < exists.len() by {
        if a < t.len() {
            assert(r[a] == t[a]);
        } else {
            assert(r[a] == f[a - t.len()]);
        }
    }
    assert forall|a: int, b: int| 0 <= a < b < r.len() implies r[a] != r[b] && (exists[r[b] as int]
        ==> exists[r[a] as int]) && (exists[r[a] as int] == exists[r[b] as int] ==> r[a] < r[b]) by {
        if b < t.len() {
            assert(r[a] == t[a] && r[b] == t[b]);
        } else if a >= t.len() {
            assert(r[a] == f[a - t.len()] && r[b] == f[b - t.len()]);
        } else {
            assert(r[a] == t[a] && r[b] == f[b - t.len()]);
        }
    }
}

} // verus!
