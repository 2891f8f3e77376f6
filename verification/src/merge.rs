//! The merge operation on tracked-subnet lists.

use vstd::prelude::*;

use crate::order::lemma_lex_connected;
use crate::order::lemma_lex_transitive;
use crate::order::lemma_sorted_unique;
use crate::order::lex_lt;
use crate::order::str_lt;
use crate::order::strictly_sorted;
use crate::segments::ids_of;
use crate::segments::join_ids;
use crate::segments::lemma_insert_to_set;
use crate::segments::lemma_join_split;
use crate::segments::lemma_split_comma_free;
use crate::segments::lemma_split_join;
use crate::segments::lemma_split_nonempty;
use crate::segments::lemma_take_push_to_set;
use crate::segments::split_commas;
use crate::segments::split_ids;

verus! {

/// The identifiers of an optional tracked-subnet list; an absent list holds
/// none.
pub open spec fn opt_ids(existing: Option<Seq<char>>) -> Set<Seq<char>> {
    match existing {
        None => Set::<Seq<char>>::empty(),
        Some(s) => ids_of(s),
    }
}

/// The identifiers the merged list must hold: those of the existing list,
/// plus the new one unless it is empty.
pub open spec fn merged_ids(existing: Option<Seq<char>>, new_id: Seq<char>) -> Set<Seq<char>> {
    if new_id.len() == 0 {
        opt_ids(existing)
    } else {
        opt_ids(existing).insert(new_id)
    }
}

/// What merging `new_id` into `existing` must produce: no list when there is
/// nothing to hold, and otherwise the one string whose segments are exactly
/// the merged identifiers in ascending lexicographic order.
pub open spec fn is_merge(
    existing: Option<Seq<char>>,
    new_id: Seq<char>,
    r: Option<Seq<char>>,
) -> bool {
    match r {
        None => merged_ids(existing, new_id).is_empty(),
        Some(out) => {
            &&& strictly_sorted(split_commas(out))
            &&& split_commas(out).to_set() == merged_ids(existing, new_id)
        },
    }
}

/// Every merged identifier is nonempty and comma-free.
pub proof fn lemma_merged_wf(existing: Option<Seq<char>>, new_id: Seq<char>)
    requires
        !new_id.contains(','),
    ensures
        forall|t: Seq<char>|
            #[trigger] merged_ids(existing, new_id).contains(t) ==> t.len() > 0 && !t.contains(
                ',',
            ),
{
    if existing is Some {
        let s = existing->0;
        lemma_split_comma_free(s);
        assert forall|t: Seq<char>| #[trigger] ids_of(s).contains(t) implies t.len() > 0
            && !t.contains(',') by {
            let m = choose|m: int|
                0 <= m < split_commas(s).len() && split_commas(s)[m] == t;
            assert(!split_commas(s)[m].contains(','));
        }
    }
}

/// Inserts one identifier into a sorted, duplicate-free vector, keeping it
/// sorted and dropping the identifier when it is already present.
pub fn insert_id(ids: &mut Vec<String>, id: String)
    requires
        strictly_sorted(old(ids).deep_view()),
    ensures
        strictly_sorted(final(ids).deep_view()),
        final(ids).deep_view().to_set() == old(ids).deep_view().to_set().insert(id@),
{
    let ghost pre = old(ids).deep_view();
    let ghost x = id@;
    let mut k: usize = 0;
    while k < ids.len() && str_lt(ids[k].as_str(), id.as_str())
        invariant
            k <= ids@.len(),
            *ids == *old(ids),
            pre == ids.deep_view(),
            x == id@,
            forall|m: int| 0 <= m < k ==> lex_lt(#[trigger] pre[m], x),
        decreases ids@.len() - k,
    {
        assert(pre[k as int] == ids@[k as int]@);
        k = k + 1;
    }
    assert(k == pre.len() || ids@[k as int]@ == pre[k as int]);
    assert(k == pre.len() || !lex_lt(pre[k as int], x));
    if k < ids.len() && ids[k] == id {
        proof {
            assert(pre[k as int] == x);
            assert(pre.contains(x));
            assert(pre.to_set().contains(x));
            assert(pre.to_set().insert(x) =~= pre.to_set());
        }
        return ;
    }
    assert(k < pre.len() ==> pre[k as int] != x);
    ids.insert(k, id);
    proof {
        let after = ids.deep_view();
        assert(after =~= pre.insert(k as int, x));
        lemma_insert_to_set(pre, x, k as int);
        if (k as int) < pre.len() {
            lemma_lex_connected(x, pre[k as int]);
            assert(lex_lt(x, pre[k as int]));
        }
        assert forall|i: int, j: int| 0 <= i < j < after.len() implies lex_lt(
            after[i],
            after[j],
        ) by {
            if j < k {
                assert(after[i] == pre[i] && after[j] == pre[j]);
            } else if i < k && j == k {
                assert(after[i] == pre[i] && after[j] == x);
            } else if i < k && j > k {
                assert(after[i] == pre[i] && after[j] == pre[j - 1]);
            } else if i == k && j > k {
                assert(after[j] == pre[j - 1]);
                if j - 1 > k {
                    lemma_lex_transitive(x, pre[k as int], pre[j - 1]);
                }
            } else {
                assert(after[i] == pre[i - 1] && after[j] == pre[j - 1]);
            }
        }
    }
}

/// Merges one identifier into an optional comma-separated tracked-subnet
/// list. Empty segments of the existing list are dropped, the new identifier
/// is added unless it is empty or already present, and the result is the
/// canonical listing of the merged identifiers: ascending lexicographic
/// order, one comma between entries. Only when nothing remains — no existing
/// identifiers and an empty new one — is there no list to return.
pub fn merge(existing: Option<&str>, new_id: &str) -> (r: Option<String>)
    requires
        !new_id@.contains(','),
    ensures
        is_merge(existing.deep_view(), new_id@, r.deep_view()),
{
    let ghost base = opt_ids(existing.deep_view());
    let mut ids: Vec<String> = Vec::new();
    proof {
        assert(ids.deep_view() =~= Seq::<Seq<char>>::empty());
        assert(ids.deep_view().to_set() =~= Set::<Seq<char>>::empty());
    }
    match existing {
        Some(s) => {
            let parts = split_ids(s);
            let ghost pviews = parts.deep_view();
            let mut k: usize = 0;
            proof {
                assert(pviews.take(0) =~= Seq::<Seq<char>>::empty());
                assert(pviews.take(0).to_set() =~= Set::<Seq<char>>::empty());
            }
            while k < parts.len()
                invariant
                    k <= parts@.len(),
                    pviews == parts.deep_view(),
                    pviews.len() == parts@.len(),
                    strictly_sorted(ids.deep_view()),
                    ids.deep_view().to_set() == pviews.take(k as int).to_set(),
                decreases parts@.len() - k,
            {
                insert_id(&mut ids, parts[k].clone());
                proof {
                    assert(parts@[k as int]@ == pviews[k as int]);
                    lemma_take_push_to_set(pviews, k as int);
                }
                k = k + 1;
            }
            proof {
                assert(pviews.take(parts@.len() as int) =~= pviews);
                assert(ids.deep_view().to_set() == base);
            }
        },
        None => {},
    }
    assert(ids.deep_view().to_set() == base);
    let ghost merged = merged_ids(existing.deep_view(), new_id@);
    if !new_id.is_empty() {
        insert_id(&mut ids, new_id.to_owned());
    }
    assert(ids.deep_view().to_set() == merged);
    proof {
        lemma_merged_wf(existing.deep_view(), new_id@);
    }
    if ids.len() == 0 {
        proof {
            assert(ids.deep_view() =~= Seq::<Seq<char>>::empty());
            assert forall|t: Seq<char>| !merged.contains(t) by {
                assert(!ids.deep_view().contains(t));
            }
            assert(merged =~= Set::<Seq<char>>::empty());
        }
        None
    } else {
        let out = join_ids(&ids);
        proof {
            let views = ids.deep_view();
            assert forall|m: int| 0 <= m < views.len() implies !(#[trigger] views[m]).contains(
                ',',
            ) by {
                assert(views.contains(views[m]));
                assert(views.to_set().contains(views[m]));
            }
            lemma_split_join(views);
        }
        Some(out)
    }
}

/// A merge result holds exactly the merged identifiers, no more and no less.
pub proof fn lemma_merge_elems(
    existing: Option<Seq<char>>,
    new_id: Seq<char>,
    r: Option<Seq<char>>,
)
    requires
        !new_id.contains(','),
        is_merge(existing, new_id, r),
    ensures
        opt_ids(r) == merged_ids(existing, new_id),
{
    let merged = merged_ids(existing, new_id);
    lemma_merged_wf(existing, new_id);
    match r {
        None => {
            assert(opt_ids(r) =~= merged);
        },
        Some(out) => {
            let segs = split_commas(out);
            assert forall|t: Seq<char>|
                ids_of(out).contains(t) == merged.contains(t) by {
                if segs.contains(t) {
                    assert(segs.to_set().contains(t));
                }
                if merged.contains(t) {
                    assert(segs.to_set().contains(t));
                    assert(segs.contains(t));
                }
            }
            assert(opt_ids(r) =~= merged);
        },
    }
}

/// Merges that ask for the same set of identifiers return the same value: the
/// canonical output depends on the merged set alone.
pub proof fn lemma_merge_functional(
    e1: Option<Seq<char>>,
    n1: Seq<char>,
    e2: Option<Seq<char>>,
    n2: Seq<char>,
    r1: Option<Seq<char>>,
    r2: Option<Seq<char>>,
)
    requires
        is_merge(e1, n1, r1),
        is_merge(e2, n2, r2),
        merged_ids(e1, n1) == merged_ids(e2, n2),
    ensures
        r1 == r2,
{
    match (r1, r2) {
        (None, None) => {},
        (None, Some(o2)) => {
            lemma_split_nonempty(o2);
            assert(split_commas(o2).contains(split_commas(o2)[0]));
            assert(split_commas(o2).to_set().contains(split_commas(o2)[0]));
        },
        (Some(o1), None) => {
            lemma_split_nonempty(o1);
            assert(split_commas(o1).contains(split_commas(o1)[0]));
            assert(split_commas(o1).to_set().contains(split_commas(o1)[0]));
        },
        (Some(o1), Some(o2)) => {
            lemma_sorted_unique(split_commas(o1), split_commas(o2));
            lemma_join_split(o1);
            lemma_join_split(o2);
        },
    }
}

/// Merging the same identifier a second time changes nothing: the merge is
/// idempotent.
pub proof fn lemma_merge_idempotent(
    existing: Option<Seq<char>>,
    id: Seq<char>,
    r1: Option<Seq<char>>,
    r2: Option<Seq<char>>,
)
    requires
        !id.contains(','),
        is_merge(existing, id, r1),
        is_merge(r1, id, r2),
    ensures
        r2 == r1,
{
    lemma_merge_elems(existing, id, r1);
    assert(merged_ids(r1, id) =~= merged_ids(existing, id));
    lemma_merge_functional(r1, id, existing, id, r2, r1);
}

/// Merging two identifiers in either order gives the same final list: the
/// result is the canonical listing of one and the same set.
pub proof fn lemma_merge_order_independent(
    existing: Option<Seq<char>>,
    a: Seq<char>,
    b: Seq<char>,
    ra: Option<Seq<char>>,
    rab: Option<Seq<char>>,
    rb: Option<Seq<char>>,
    rba: Option<Seq<char>>,
)
    requires
        !a.contains(','),
        !b.contains(','),
        is_merge(existing, a, ra),
        is_merge(ra, b, rab),
        is_merge(existing, b, rb),
        is_merge(rb, a, rba),
    ensures
        rab == rba,
{
    lemma_merge_elems(existing, a, ra);
    lemma_merge_elems(existing, b, rb);
    assert(merged_ids(ra, b) =~= merged_ids(rb, a));
    lemma_merge_functional(ra, b, rb, a, rab, rba);
}

/// A merge loses no identifier: whatever the existing list holds, the merged
/// list holds too.
pub proof fn lemma_merge_no_loss(
    existing: Option<Seq<char>>,
    new_id: Seq<char>,
    r: Option<Seq<char>>,
    t: Seq<char>,
)
    requires
        !new_id.contains(','),
        is_merge(existing, new_id, r),
        opt_ids(existing).contains(t),
    ensures
        r matches Some(out) && ids_of(out).contains(t),
{
    lemma_merge_elems(existing, new_id, r);
    assert(merged_ids(existing, new_id).contains(t));
}

} // verus!
