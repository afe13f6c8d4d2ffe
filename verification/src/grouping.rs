//! Grouping rows by a key.

use vstd::prelude::*;

verus! {

/// The rows of one key.
#[derive(Debug)]
pub struct Group {
    /// The key.
    pub key: i64,
    /// The positions of the rows of that key, in order.
    pub rows: Vec<usize>,
}

/// The positions at which `key` stands in `keys`, in order.
pub open spec fn positions(keys: Seq<i64>, key: i64) -> Seq<usize>
    decreases keys.len(),
{
    if keys.len() == 0 {
        Seq::<usize>::empty()
    } else {
        let before = positions(keys.drop_last(), key);
        if keys.last() == key {
            before.push((keys.len() - 1) as usize)
        } else {
            before
        }
    }
}

/// Whether `v` rises strictly.
pub open spec fn rising(v: Seq<i64>) -> bool {
    forall|i: int, j: int| 0 <= i < j < v.len() ==> v[i] < v[j]
}

/// The distinct keys, in rising order.
pub fn distinct_keys(keys: &Vec<i64>) -> (r: Vec<i64>)
    ensures
        rising(r@),
        forall|k: i64| r@.contains(k) <==> keys@.contains(k),
{
    let mut r: Vec<i64> = Vec::new();
    let mut i: usize = 0;
    while i < keys.len()
        invariant
            i <= keys@.len(),
            rising(r@),
            forall|k: i64| r@.contains(k) <==> keys@.take(i as int).contains(k),
        decreases keys@.len() - i,
    {
        let key: i64 = keys[i];
        let ghost done = r@;
        let mut at: usize = 0;
        while at < r.len() && r[at] < key
            invariant
                at <= r@.len(),
                forall|m: int| 0 <= m < at ==> r@[m] < key,
            decreases r@.len() - at,
        {
            at = at + 1;
        }
        if at == r.len() || r[at] != key {
            r.insert(at, key);
            proof {
                assert(r@ == done.insert(at as int, key));
                assert forall|a: int, b: int| 0 <= a < b < r@.len() implies r@[a] < r@[b] by {
                    if at < done.len() {
                        assert(key < done[at as int]);
                    }
                    if b > at as int {
                        assert(r@[b] == done[b - 1]);
                    }
                }
                assert forall|k: i64| r@.contains(k) <==> done.contains(k) || k == key by {
                    if done.contains(k) {
                        let m = choose|m: int| 0 <= m < done.len() && done[m] == k;
                        if m < at {
                            assert(r@[m] == k);
                        } else {
                            assert(r@[m + 1] == k);
                        }
                    }
                    if k == key {
                        assert(r@[at as int] == k);
                    }
                    if r@.contains(k) && k != key {
                        let m = choose|m: int| 0 <= m < r@.len() && r@[m] == k;
                        if m < at {
                            assert(done[m] == k);
                        } else {
                            assert(done[m - 1] == k);
                        }
                    }
                }
            }
        } else {
            assert(r@[at as int] == key);
            assert(r@.contains(key));
        }
        assert(forall|k: i64| r@.contains(k) <==> done.contains(k) || k == key);
        proof {
            let t = keys@.take(i as int);
            let u = keys@.take(i + 1);
            assert forall|k: i64| u.contains(k) <==> t.contains(k) || k == key by {
                if t.contains(k) {
                    let m = choose|m: int| 0 <= m < t.len() && t[m] == k;
                    assert(u[m] == k);
                }
                if k == key {
                    assert(u[i as int] == k);
                }
                if u.contains(k) && k != key {
                    let m = choose|m: int| 0 <= m < u.len() && u[m] == k;
                    assert(t[m] == k);
                }
            }
            assert forall|k: i64| r@.contains(k) <==> u.contains(k) by {
                assert(done.contains(k) <==> t.contains(k));
            }
        }
        i = i + 1;
    }
    assert(keys@.take(keys@.len() as int) =~= keys@);
    r
}

/// The positions at which `key` stands in `keys`, in order.
pub fn positions_of(keys: &Vec<i64>, key: i64) -> (r: Vec<usize>)
    ensures
        r@ == positions(keys@, key),
{
    let mut r: Vec<usize> = Vec::new();
    let mut i: usize = 0;
    while i < keys.len()
        invariant
            i <= keys@.len(),
            r@ == positions(keys@.take(i as int), key),
        decreases keys@.len() - i,
    {
        assert(keys@.take(i + 1).drop_last() =~= keys@.take(i as int));
        if keys[i] == key {
            r.push(i);
        }
        i = i + 1;
    }
    assert(keys@.take(keys@.len() as int) =~= keys@);
    r
}

/// The keys of groups.
pub open spec fn group_keys(groups: Seq<Group>) -> Seq<i64> {
    Seq::new(groups.len(), |i: int| groups[i].key)
}

/// Whether `groups` are the groups of the rows with these keys: one group for each key, in
/// rising order of the keys, each with all the rows of its key.
pub open spec fn are_groups(groups: Seq<Group>, keys: Seq<i64>) -> bool {
    &&& rising(group_keys(groups))
    &&& forall|k: i64| group_keys(groups).contains(k) <==> keys.contains(k)
    &&& forall|i: int|
        0 <= i < groups.len() ==> (#[trigger] groups[i]).rows@ == positions(keys, groups[i].key)
}

/// Groups rows by their keys.
pub fn group_rows(keys: &Vec<i64>) -> (groups: Vec<Group>)
    ensures
        are_groups(groups@, keys@),
{
    let distinct = distinct_keys(keys);
    let mut groups: Vec<Group> = Vec::new();
    let mut i: usize = 0;
    while i < distinct.len()
        invariant
            i <= distinct@.len(),
            rising(distinct@),
            forall|k: i64| distinct@.contains(k) <==> keys@.contains(k),
            groups@.len() == i,
            forall|m: int|
                0 <= m < i ==> (#[trigger] groups@[m]).key == distinct@[m] && groups@[m].rows@
                    == positions(keys@, distinct@[m]),
        decreases distinct@.len() - i,
    {
        let key: i64 = distinct[i];
        groups.push(Group { key, rows: positions_of(keys, key) });
        i = i + 1;
    }
    proof {
        assert(group_keys(groups@) =~= distinct@);
    }
    groups
}

/// Every row is in the group of its key, and in it at one place only.
pub proof fn law_positions_are_the_rows_of_the_key(keys: Seq<i64>, key: i64)
    requires
        keys.len() <= usize::MAX,
    ensures
        forall|m: int|
            0 <= m < keys.len() ==> (#[trigger] keys[m] == key <==> positions(keys, key).contains(
                m as usize,
            )),
        forall|p: usize| #[trigger]
            positions(keys, key).contains(p) ==> p < keys.len() && keys[p as int] == key,
        forall|a: int, b: int|
            0 <= a < b < positions(keys, key).len() ==> positions(keys, key)[a] < positions(
                keys,
                key,
            )[b],
    decreases keys.len(),
{
    if keys.len() > 0 {
        let front = keys.drop_last();
        law_positions_are_the_rows_of_the_key(front, key);
        let before = positions(front, key);
        let all = positions(keys, key);
        let n = (keys.len() - 1) as usize;
        assert forall|p: usize| #[trigger] all.contains(p) <==> before.contains(p) || (p == n
            && keys.last() == key) by {
            if before.contains(p) {
                let m = choose|m: int| 0 <= m < before.len() && before[m] == p;
                assert(all[m] == p);
            }
            if p == n && keys.last() == key {
                assert(all[before.len() as int] == p);
            }
        }
        assert forall|m: int| 0 <= m < keys.len() implies (#[trigger] keys[m] == key
            <==> all.contains(m as usize)) by {
            if m < front.len() {
                assert(front[m] == keys[m]);
            } else {
                assert(!before.contains(n));
            }
        }
        assert forall|a: int, b: int| 0 <= a < b < all.len() implies all[a] < all[b] by {
            if b == before.len() {
                assert(before.contains(before[a]));
            }
        }
    }
}

} // verus!
