//! Splitting a tracked-subnet list into identifier segments and joining the
//! segments back into one string.

use vstd::prelude::*;

verus! {

/// The segments of `s` between commas, in order. Splitting keeps empty
/// segments, so the result always holds at least one segment and joining it
/// back with commas restores `s` exactly.
pub open spec fn split_commas(s: Seq<char>) -> Seq<Seq<char>>
    decreases s.len(),
{
    if s.len() == 0 {
        seq![Seq::<char>::empty()]
    } else if s[0] == ',' {
        seq![Seq::<char>::empty()] + split_commas(s.drop_first())
    } else {
        let rest = split_commas(s.drop_first());
        seq![seq![s[0]] + rest[0]] + rest.drop_first()
    }
}

/// The segments joined into one string with a comma between each pair.
pub open spec fn join_segs(segs: Seq<Seq<char>>) -> Seq<char>
    decreases segs.len(),
{
    if segs.len() == 0 {
        Seq::<char>::empty()
    } else if segs.len() == 1 {
        segs[0]
    } else {
        segs[0] + seq![','] + join_segs(segs.drop_first())
    }
}

/// The set of nonempty segments.
pub open spec fn nonempty_set(segs: Seq<Seq<char>>) -> Set<Seq<char>> {
    Set::new(|t: Seq<char>| segs.contains(t) && t.len() > 0)
}

/// The identifiers a tracked-subnet list holds: its nonempty comma-separated
/// segments. Leading, trailing and doubled commas contribute nothing.
pub open spec fn ids_of(s: Seq<char>) -> Set<Seq<char>> {
    nonempty_set(split_commas(s))
}

/// A split always yields at least one segment.
pub proof fn lemma_split_nonempty(s: Seq<char>)
    ensures
        split_commas(s).len() >= 1,
    decreases s.len(),
{
    if s.len() > 0 {
        lemma_split_nonempty(s.drop_first());
    }
}

/// No segment of a split holds a comma.
pub proof fn lemma_split_comma_free(s: Seq<char>)
    ensures
        forall|k: int|
            0 <= k < split_commas(s).len() ==> !(#[trigger] split_commas(s)[k]).contains(','),
    decreases s.len(),
{
    if s.len() == 0 {
        assert forall|k: int| 0 <= k < split_commas(s).len() implies !(#[trigger] split_commas(
            s,
        )[k]).contains(',') by {
            assert(split_commas(s)[k].len() == 0);
        }
    } else {
        lemma_split_comma_free(s.drop_first());
        let rest = split_commas(s.drop_first());
        lemma_split_nonempty(s.drop_first());
        if s[0] == ',' {
            assert forall|k: int| 0 <= k < split_commas(s).len() implies !(#[trigger] split_commas(
                s,
            )[k]).contains(',') by {
                if k > 0 {
                    assert(split_commas(s)[k] == rest[k - 1]);
                }
            }
        } else {
            assert forall|k: int| 0 <= k < split_commas(s).len() implies !(#[trigger] split_commas(
                s,
            )[k]).contains(',') by {
                if k == 0 {
                    let head = seq![s[0]] + rest[0];
                    assert(split_commas(s)[0] == head);
                    if head.contains(',') {
                        let m = choose|m: int| 0 <= m < head.len() && head[m] == ',';
                        if m > 0 {
                            assert(rest[0][m - 1] == ',');
                            assert(rest[0].contains(','));
                        }
                    }
                } else {
                    assert(split_commas(s)[k] == rest[k]);
                }
            }
        }
    }
}

/// Splitting reads off the leading comma-free segment: when the first `k`
/// characters are comma-free and a comma (or the end) follows, the first
/// segment is exactly those `k` characters.
pub proof fn lemma_split_head(s: Seq<char>, k: int)
    requires
        0 <= k <= s.len(),
        forall|m: int| 0 <= m < k ==> s[m] != ',',
        k == s.len() || s[k] == ',',
    ensures
        k == s.len() ==> split_commas(s) == seq![s],
        k < s.len() ==> split_commas(s) == seq![s.take(k)] + split_commas(s.skip(k + 1)),
    decreases k,
{
    if k == 0 {
        if k == s.len() {
            assert(s =~= Seq::<char>::empty());
            assert(split_commas(s) =~= seq![s]);
        } else {
            assert(s.take(0) =~= Seq::<char>::empty());
            assert(s.skip(1) =~= s.drop_first());
            assert(split_commas(s) =~= seq![s.take(0)] + split_commas(s.skip(1)));
        }
    } else {
        let st = s.drop_first();
        assert(forall|m: int| 0 <= m < k - 1 ==> st[m] == s[m + 1] && #[trigger] st[m] != ',');
        lemma_split_head(st, k - 1);
        let rest = split_commas(st);
        if k == s.len() {
            assert(rest == seq![st]);
            assert(seq![s[0]] + rest[0] =~= s);
            assert(split_commas(s) =~= seq![s]);
        } else {
            assert(st[k - 1] == s[k]);
            assert(rest == seq![st.take(k - 1)] + split_commas(st.skip(k)));
            assert(seq![s[0]] + rest[0] =~= s.take(k));
            assert(st.skip(k) =~= s.skip(k + 1));
            assert(rest.drop_first() =~= split_commas(s.skip(k + 1)));
            assert(split_commas(s) =~= seq![s.take(k)] + split_commas(s.skip(k + 1)));
        }
    }
}

/// Joining and then splitting gives the segments back, as long as none of
/// them holds a comma.
pub proof fn lemma_split_join(ids: Seq<Seq<char>>)
    requires
        ids.len() >= 1,
        forall|k: int| 0 <= k < ids.len() ==> !(#[trigger] ids[k]).contains(','),
    ensures
        split_commas(join_segs(ids)) == ids,
    decreases ids.len(),
{
    let first = ids[0];
    assert forall|m: int| 0 <= m < first.len() implies first[m] != ',' by {
        if first[m] == ',' {
            assert(first.contains(','));
        }
    }
    if ids.len() == 1 {
        lemma_split_head(first, first.len() as int);
        assert(split_commas(join_segs(ids)) =~= ids);
    } else {
        let rest = ids.drop_first();
        let j = join_segs(ids);
        assert(j == first + seq![','] + join_segs(rest));
        assert(forall|m: int| 0 <= m < first.len() ==> #[trigger] j[m] == first[m]);
        assert(j[first.len() as int] == ',');
        lemma_split_head(j, first.len() as int);
        assert(j.take(first.len() as int) =~= first);
        assert(j.skip(first.len() as int + 1) =~= join_segs(rest));
        assert(forall|k: int|
            0 <= k < rest.len() ==> rest[k] == ids[k + 1] && !(#[trigger] rest[k]).contains(','));
        lemma_split_join(rest);
        assert(split_commas(j) =~= ids);
    }
}

/// Splitting and then joining restores the original string.
pub proof fn lemma_join_split(s: Seq<char>)
    ensures
        join_segs(split_commas(s)) == s,
    decreases s.len(),
{
    if s.len() == 0 {
        assert(join_segs(split_commas(s)) =~= s);
    } else {
        let st = s.drop_first();
        lemma_join_split(st);
        let q = split_commas(st);
        lemma_split_nonempty(st);
        if s[0] == ',' {
            assert(split_commas(s) == seq![Seq::<char>::empty()] + q);
            assert(split_commas(s).len() >= 2);
            assert(split_commas(s).drop_first() =~= q);
            assert(split_commas(s)[0] == Seq::<char>::empty());
            assert(join_segs(split_commas(s)) == Seq::<char>::empty() + seq![','] + join_segs(q));
            assert(join_segs(split_commas(s)) =~= s);
        } else {
            let head = seq![s[0]] + q[0];
            assert(split_commas(s) == seq![head] + q.drop_first());
            if q.len() == 1 {
                assert(split_commas(s) =~= seq![head]);
                assert(join_segs(q) == q[0]);
                assert(q[0] == st);
                assert(split_commas(s).len() == 1);
                assert(join_segs(split_commas(s)) == split_commas(s)[0]);
                assert(split_commas(s)[0] == head);
                assert(head =~= s);
            } else {
                assert(split_commas(s).len() == q.len());
                assert(split_commas(s)[0] == head);
                assert(split_commas(s).drop_first() =~= q.drop_first());
                assert(join_segs(split_commas(s)) == head + seq![','] + join_segs(q.drop_first()));
                assert(join_segs(q) == q[0] + seq![','] + join_segs(q.drop_first()));
                let tail = join_segs(q.drop_first());
                assert((seq![s[0]] + q[0]) + seq![','] + tail =~= seq![s[0]] + (q[0] + seq![',']
                    + tail));
                assert(seq![s[0]] + st =~= s);
            }
        }
    }
}

proof fn lemma_push_to_set(v: Seq<Seq<char>>, x: Seq<char>)
    ensures
        v.push(x).to_set() == v.to_set().insert(x),
{
    let after = v.push(x);
    assert forall|t: Seq<char>| after.to_set().contains(t) implies v.to_set().insert(x).contains(
        t,
    ) by {
        let m = choose|m: int| 0 <= m < after.len() && after[m] == t;
        if m < v.len() {
            assert(v[m] == t);
            assert(v.contains(t));
        }
    }
    assert forall|t: Seq<char>| v.to_set().insert(x).contains(t) implies after.to_set().contains(
        t,
    ) by {
        if v.to_set().contains(t) {
            let m = choose|m: int| 0 <= m < v.len() && v[m] == t;
            assert(after[m] == t);
        } else {
            assert(after[v.len() as int] == x);
        }
        assert(after.contains(t));
    }
    assert(after.to_set() =~= v.to_set().insert(x));
}

/// Inserting an entry anywhere adds exactly that entry to the set of
/// entries.
pub proof fn lemma_insert_to_set(v: Seq<Seq<char>>, x: Seq<char>, k: int)
    requires
        0 <= k <= v.len(),
    ensures
        v.insert(k, x).to_set() == v.to_set().insert(x),
{
    let after = v.insert(k, x);
    assert forall|t: Seq<char>| after.to_set().contains(t) implies v.to_set().insert(x).contains(
        t,
    ) by {
        let m = choose|m: int| 0 <= m < after.len() && after[m] == t;
        if m < k {
            assert(v[m] == t);
            assert(v.contains(t));
        } else if m > k {
            assert(v[m - 1] == t);
            assert(v.contains(t));
        }
    }
    assert forall|t: Seq<char>| v.to_set().insert(x).contains(t) implies after.to_set().contains(
        t,
    ) by {
        if v.to_set().contains(t) {
            let m = choose|m: int| 0 <= m < v.len() && v[m] == t;
            if m < k {
                assert(after[m] == t);
            } else {
                assert(after[m + 1] == t);
            }
        } else {
            assert(after[k] == x);
        }
        assert(after.contains(t));
    }
    assert(after.to_set() =~= v.to_set().insert(x));
}

/// Taking one more entry adds exactly that entry to the set taken so far.
pub proof fn lemma_take_push_to_set(v: Seq<Seq<char>>, k: int)
    requires
        0 <= k < v.len(),
    ensures
        v.take(k + 1).to_set() == v.take(k).to_set().insert(v[k]),
{
    assert(v.take(k + 1) =~= v.take(k).push(v[k]));
    lemma_push_to_set(v.take(k), v[k]);
}

/// The identifiers a list holds, as a vector: the nonempty segments between
/// commas, with duplicates kept.
pub fn split_ids(s: &str) -> (v: Vec<String>)
    ensures
        v.deep_view().to_set() == ids_of(s@),
{
    let v = split_ids_from(s, 0);
    proof {
        assert(s@.skip(0) =~= s@);
    }
    v
}

/// Collects the nonempty segments of `s` from position `i` on.
fn split_ids_from(s: &str, i: usize) -> (v: Vec<String>)
    requires
        i <= s@.len(),
    ensures
        v.deep_view().to_set() == nonempty_set(split_commas(s@.skip(i as int))),
    decreases s@.len() - i,
{
    let n = s.unicode_len();
    let ghost tail = s@.skip(i as int);
    if i == n {
        let v: Vec<String> = Vec::new();
        proof {
            assert(tail =~= Seq::<char>::empty());
            assert(v.deep_view() =~= Seq::<Seq<char>>::empty());
            assert forall|t: Seq<char>| !nonempty_set(split_commas(tail)).contains(t) by {
                if split_commas(tail).contains(t) {
                    let m = choose|m: int|
                        0 <= m < split_commas(tail).len() && split_commas(tail)[m] == t;
                    assert(t.len() == 0);
                }
            }
            assert(v.deep_view().to_set() =~= nonempty_set(split_commas(tail)));
        }
        return v;
    }
    if s.get_char(i) == ',' {
        let v = split_ids_from(s, i + 1);
        proof {
            let rest = split_commas(s@.skip(i + 1));
            assert(tail.len() > 0 && tail[0] == ',');
            assert(tail.drop_first() =~= s@.skip(i + 1));
            assert(split_commas(tail) == seq![Seq::<char>::empty()] + rest);
            assert forall|t: Seq<char>|
                nonempty_set(split_commas(tail)).contains(t) == nonempty_set(rest).contains(t) by {
                if t.len() > 0 {
                    if split_commas(tail).contains(t) {
                        let m = choose|m: int|
                            0 <= m < split_commas(tail).len() && split_commas(tail)[m] == t;
                        assert(m > 0);
                        assert(rest[m - 1] == t);
                        assert(rest.contains(t));
                    }
                    if rest.contains(t) {
                        let m = choose|m: int| 0 <= m < rest.len() && rest[m] == t;
                        assert(split_commas(tail)[m + 1] == t);
                        assert(split_commas(tail).contains(t));
                    }
                }
            }
            assert(nonempty_set(split_commas(tail)) =~= nonempty_set(rest));
        }
        return v;
    }
    let mut j: usize = i + 1;
    while j < n && s.get_char(j) != ','
        invariant
            i < j <= n,
            n == s@.len(),
            forall|m: int| i <= m < j ==> s@[m] != ',',
        decreases n - j,
    {
        j = j + 1;
    }
    let seg = s.substring_char(i, j).to_owned();
    let mut v = if j < n {
        split_ids_from(s, j + 1)
    } else {
        Vec::new()
    };
    proof {
        let k = j - i;
        assert forall|m: int| 0 <= m < k implies tail[m] != ',' by {
            assert(tail[m] == s@[i + m]);
        }
        assert(seg@ =~= tail.take(k as int));
        assert(seg@.len() > 0);
        if j < n {
            assert(tail[k as int] == s@[j as int]);
            lemma_split_head(tail, k as int);
            let rest = split_commas(tail.skip(k as int + 1));
            assert(tail.skip(k as int + 1) =~= s@.skip(j + 1));
            assert(split_commas(tail) == seq![seg@] + rest);
            assert forall|t: Seq<char>|
                nonempty_set(split_commas(tail)).contains(t) == nonempty_set(rest).insert(
                    seg@,
                ).contains(t) by {
                if split_commas(tail).contains(t) && t.len() > 0 {
                    let m = choose|m: int|
                        0 <= m < split_commas(tail).len() && split_commas(tail)[m] == t;
                    if m > 0 {
                        assert(rest[m - 1] == t);
                        assert(rest.contains(t));
                    }
                }
                if t.len() > 0 && rest.contains(t) {
                    let m = choose|m: int| 0 <= m < rest.len() && rest[m] == t;
                    assert(split_commas(tail)[m + 1] == t);
                    assert(split_commas(tail).contains(t));
                }
                if t == seg@ {
                    assert(split_commas(tail)[0] == t);
                    assert(split_commas(tail).contains(t));
                }
            }
            assert(nonempty_set(split_commas(tail)) =~= nonempty_set(rest).insert(seg@));
            assert(v.deep_view().to_set() == nonempty_set(rest));
        } else {
            assert(k == tail.len());
            lemma_split_head(tail, k as int);
            assert(tail =~= seg@);
            assert(split_commas(tail) == seq![seg@]);
            assert(v.deep_view() =~= Seq::<Seq<char>>::empty());
            assert forall|t: Seq<char>|
                nonempty_set(split_commas(tail)).contains(t) == Set::<Seq<char>>::empty().insert(
                    seg@,
                ).contains(t) by {
                if split_commas(tail).contains(t) {
                    let m = choose|m: int|
                        0 <= m < split_commas(tail).len() && split_commas(tail)[m] == t;
                    assert(m == 0);
                }
                if t == seg@ {
                    assert(split_commas(tail)[0] == t);
                    assert(split_commas(tail).contains(t));
                }
            }
            assert(nonempty_set(split_commas(tail)) =~= Set::<Seq<char>>::empty().insert(seg@));
            assert(v.deep_view().to_set() =~= Set::<Seq<char>>::empty());
        }
    }
    let ghost pre = v.deep_view();
    v.insert(0, seg);
    proof {
        assert(v.deep_view() =~= pre.insert(0, seg@));
        lemma_insert_to_set(pre, seg@, 0);
    }
    v
}

/// Joins the identifiers back into one comma-separated string.
pub fn join_ids(ids: &Vec<String>) -> (s: String)
    ensures
        s@ == join_segs(ids.deep_view()),
{
    let s = join_ids_from(ids, 0);
    proof {
        assert(ids.deep_view().skip(0) =~= ids.deep_view());
    }
    s
}

/// Joins the identifiers from position `i` on.
fn join_ids_from(ids: &Vec<String>, i: usize) -> (s: String)
    requires
        i <= ids.len(),
    ensures
        s@ == join_segs(ids.deep_view().skip(i as int)),
    decreases ids.len() - i,
{
    let ghost tail = ids.deep_view().skip(i as int);
    if i == ids.len() {
        let s = String::new();
        proof {
            assert(tail =~= Seq::<Seq<char>>::empty());
        }
        s
    } else if i + 1 == ids.len() {
        let s = ids[i].clone();
        proof {
            assert(tail.len() == 1);
            assert(tail[0] == ids.deep_view()[i as int]);
            assert(s@ == tail[0]);
        }
        s
    } else {
        let rest = join_ids_from(ids, i + 1);
        let mut s = ids[i].clone();
        s.append(",");
        s.append(rest.as_str());
        proof {
            reveal_strlit(",");
            assert(","@ =~= seq![',']);
            assert(tail.drop_first() =~= ids.deep_view().skip(i + 1));
            assert(tail[0] == ids.deep_view()[i as int]);
            assert(s@ =~= tail[0] + seq![','] + join_segs(tail.drop_first()));
        }
        s
    }
}

} // verus!
