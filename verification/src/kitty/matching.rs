//! Which hashed cookies look alike: the match set of every hashed cookie (the
//! later cookies within the distance), and the groups that overlapping match
//! sets are merged into.
use vstd::prelude::*;

use crate::cookiejar::{HashCookie, HashCookieView};
use crate::imagehash::{hamming, hash_distance, hash_fits, lemma_hamming_symmetric};

verus! {

/// The number of cookies, from the first one on, that have a hash.
pub open spec fn hashed_len(cs: Seq<HashCookieView>) -> nat
    decreases cs.len(),
{
    if cs.len() == 0 {
        0
    } else if cs[0].hash is Some {
        1 + hashed_len(cs.drop_first())
    } else {
        0
    }
}

/// No cookie without a hash comes before a cookie with one.
pub open spec fn hashed_first(cs: Seq<HashCookieView>) -> bool {
    forall|i: int, j: int|
        0 <= i < j < cs.len() && (#[trigger] cs[j]).hash is Some ==> (#[trigger] cs[i]).hash is Some
}

/// Every hash can be compared with any other without overflowing a `u32`.
pub open spec fn hashes_fit(cs: Seq<HashCookieView>) -> bool {
    forall|i: int| 0 <= i < cs.len() && (#[trigger] cs[i]).hash is Some ==> hash_fits(cs[i].hash->0)
}

/// The hash of cookie `j` is within distance `d` of the hash of cookie `i`.
pub open spec fn close(cs: Seq<HashCookieView>, d: u32, i: int, j: int) -> bool {
    hamming(cs[j].hash->0, cs[i].hash->0) <= d
}

/// Some later hashed cookie (before `n`) is close to cookie `k`.
pub open spec fn has_match(cs: Seq<HashCookieView>, n: nat, d: u32, k: int) -> bool {
    exists|j: int| k < j < n && #[trigger] close(cs, d, k, j)
}

/// The match set of cookie `k`: itself and the later hashed cookies close to it.
pub open spec fn match_elems(cs: Seq<HashCookieView>, n: nat, d: u32, k: int) -> Set<usize> {
    Set::new(|x: usize| x == k || (k < x < n && close(cs, d, k, x as int)))
}

/// The match sets of the cookies before `m` that have a match, in order.
pub open spec fn match_sets(cs: Seq<HashCookieView>, n: nat, d: u32, m: int) -> Seq<Set<usize>>
    decreases m,
{
    if m <= 0 {
        seq![]
    } else {
        let before = match_sets(cs, n, d, m - 1);
        if has_match(cs, n, d, m - 1) {
            before.push(match_elems(cs, n, d, m - 1))
        } else {
            before
        }
    }
}

/// Scans `rest` from index `i` down to 0: each set that meets `p` is taken
/// out (its place filled by the last set) and joined to `p`.
pub open spec fn absorb(p: Set<usize>, rest: Seq<Set<usize>>, i: int) -> (Set<usize>, Seq<Set<usize>>)
    decreases i + 1,
{
    if i < 0 || i >= rest.len() {
        (p, rest)
    } else if !p.disjoint(rest[i]) {
        absorb(p + rest[i], rest.update(i, rest.last()).drop_last(), i - 1)
    } else {
        absorb(p, rest, i - 1)
    }
}

/// Absorbing never makes the rest longer.
pub proof fn lemma_absorb_len(p: Set<usize>, rest: Seq<Set<usize>>, i: int)
    ensures
        absorb(p, rest, i).1.len() <= rest.len(),
    decreases i + 1,
{
    if i < 0 || i >= rest.len() {
    } else if !p.disjoint(rest[i]) {
        lemma_absorb_len(p + rest[i], rest.update(i, rest.last()).drop_last(), i - 1);
    } else {
        lemma_absorb_len(p, rest, i - 1);
    }
}

/// The groups: the last set absorbs every set that meets it, scanning the
/// others from the back, and forms the first group; the rest follow.
pub open spec fn merge(sets: Seq<Set<usize>>) -> Seq<Set<usize>>
    decreases sets.len(),
{
    if sets.len() == 0 {
        seq![]
    } else {
        let r = absorb(sets.last(), sets.drop_last(), sets.len() - 2);
        proof {
            lemma_absorb_len(sets.last(), sets.drop_last(), sets.len() - 2);
        }
        seq![r.0] + merge(r.1)
    }
}

/// The groups of look-alike hashed cookies.
pub open spec fn kitty_groups(cs: Seq<HashCookieView>, d: u32) -> Seq<Set<usize>> {
    let n = hashed_len(cs);
    merge(match_sets(cs, n, d, n as int))
}

/// The elements of a vector, as a set.
pub open spec fn elems(v: Seq<usize>) -> Set<usize> {
    Set::new(|x: usize| v.contains(x))
}

/// The sets of a vector of vectors.
pub open spec fn set_views(v: Seq<Vec<usize>>) -> Seq<Set<usize>> {
    v.map_values(|x: Vec<usize>| elems(x@))
}

/// The cookies before `hashed_len` have a hash; with no unhashed cookie
/// before a hashed one, no cookie from there on has one.
pub proof fn lemma_hashed_len(cs: Seq<HashCookieView>)
    ensures
        hashed_len(cs) <= cs.len(),
        forall|k: int| 0 <= k < hashed_len(cs) ==> (#[trigger] cs[k]).hash is Some,
        hashed_len(cs) < cs.len() ==> cs[hashed_len(cs) as int].hash is None,
        hashed_first(cs) ==> forall|k: int|
            hashed_len(cs) <= k < cs.len() ==> (#[trigger] cs[k]).hash is None,
    decreases cs.len(),
{
    if cs.len() > 0 && cs[0].hash is Some {
        let t = cs.drop_first();
        lemma_hashed_len(t);
        assert forall|k: int| 0 <= k < hashed_len(cs) implies (#[trigger] cs[k]).hash is Some by {
            if k > 0 {
                assert(cs[k] == t[k - 1]);
            }
        }
        if hashed_len(cs) < cs.len() {
            assert(cs[hashed_len(cs) as int] == t[hashed_len(t) as int]);
        }
        if hashed_first(cs) {
            assert(hashed_first(t)) by {
                assert forall|i: int, j: int|
                    0 <= i < j < t.len() && (#[trigger] t[j]).hash is Some implies (#[trigger] t[i]).hash is Some by {
                    assert(t[j] == cs[j + 1]);
                    assert(t[i] == cs[i + 1]);
                }
            }
            assert forall|k: int| hashed_len(cs) <= k < cs.len() implies (#[trigger] cs[k]).hash is None by {
                assert(cs[k] == t[k - 1]);
            }
        }
    } else if cs.len() > 0 {
        if hashed_first(cs) {
            assert forall|k: int| 0 <= k < cs.len() implies (#[trigger] cs[k]).hash is None by {
                if k > 0 && cs[k].hash is Some {
                    assert(cs[0].hash is Some);
                }
            }
        }
    }
}

/// The elements of `s.push(x)` are those of `s` and `x`.
pub proof fn lemma_elems_push(s: Seq<usize>, x: usize)
    ensures
        elems(s.push(x)) == elems(s).insert(x),
{
    assert forall|y: usize| elems(s.push(x)).contains(y) == elems(s).insert(x).contains(y) by {
        if s.contains(y) {
            let t = choose|t: int| 0 <= t < s.len() && s[t] == y;
            assert(s.push(x)[t] == y);
        }
        if s.push(x).contains(y) && y != x {
            let t = choose|t: int| 0 <= t < s.push(x).len() && s.push(x)[t] == y;
            assert(s[t] == y);
        }
        assert(s.push(x)[s.len() as int] == x);
    }
    assert(elems(s.push(x)) =~= elems(s).insert(x));
}

/// Whether two sets of indices share no element (`HashSet::is_disjoint`).
fn disjoint(a: &Vec<usize>, b: &Vec<usize>) -> (r: bool)
    ensures
        r == elems(a@).disjoint(elems(b@)),
{
    let mut i: usize = 0;
    while i < a.len()
        invariant
            i <= a@.len(),
            forall|k: int| 0 <= k < i ==> !b@.contains(#[trigger] a@[k]),
        decreases a@.len() - i,
    {
        let mut j: usize = 0;
        while j < b.len()
            invariant
                i < a@.len(),
                j <= b@.len(),
                forall|t: int| 0 <= t < j ==> b@[t] != a@[i as int],
            decreases b@.len() - j,
        {
            if a[i] == b[j] {
                proof {
                    assert(elems(a@).contains(a@[i as int]));
                    assert(elems(b@).contains(a@[i as int]));
                }
                return false;
            }
            j = j + 1;
        }
        i = i + 1;
    }
    proof {
        assert forall|x: usize| elems(a@).contains(x) implies !elems(b@).contains(x) by {
            let k = choose|k: int| 0 <= k < a@.len() && a@[k] == x;
            assert(!b@.contains(a@[k]));
        }
    }
    true
}

/// Adds to `set` the elements of `other` that it lacks (`HashSet::extend`).
fn extend(set: &mut Vec<usize>, other: Vec<usize>)
    ensures
        elems(final(set)@) == elems(old(set)@) + elems(other@),
        old(set)@.no_duplicates() ==> final(set)@.no_duplicates(),
{
    let ghost start = set@;
    let mut i: usize = 0;
    while i < other.len()
        invariant
            i <= other@.len(),
            elems(set@) == elems(start) + elems(other@.take(i as int)),
            start.no_duplicates() ==> set@.no_duplicates(),
        decreases other@.len() - i,
    {
        let x = other[i];
        let mut present = false;
        let mut j: usize = 0;
        while j < set.len()
            invariant
                j <= set@.len(),
                present == exists|t: int| 0 <= t < j && set@[t] == x,
            decreases set@.len() - j,
        {
            if set[j] == x {
                present = true;
            }
            j = j + 1;
        }
        let ghost before = set@;
        if !present {
            set.push(x);
            proof {
                assert forall|a: int, b: int| 0 <= a < b < set@.len() && before.no_duplicates() implies set@[a] != set@[b] by {
                    if b == set@.len() - 1 {
                        assert(set@[a] == before[a]);
                    }
                }
            }
        }
        proof {
            assert(other@.take(i + 1) =~= other@.take(i as int).push(x));
            lemma_elems_push(other@.take(i as int), x);
            if present {
                let t = choose|t: int| 0 <= t < j && before[t] == x;
                assert(elems(before).contains(x));
                assert(elems(set@) =~= elems(set@).insert(x));
            } else {
                lemma_elems_push(before, x);
            }
            assert(elems(set@) =~= elems(start) + elems(other@.take(i + 1)));
        }
        i = i + 1;
    }
    assert(other@.take(other@.len() as int) =~= other@);
}

/// The views of a sequence of hash cookies.
pub open spec fn cookie_views(cs: Seq<HashCookie>) -> Seq<HashCookieView> {
    cs.map_values(|c: HashCookie| c@)
}

/// Every set holds only indices below `n`.
pub open spec fn bounded(sets: Seq<Set<usize>>, n: nat) -> bool {
    forall|k: int, x: usize| 0 <= k < sets.len() && #[trigger] sets[k].contains(x) ==> x < n
}

/// Match sets hold only hashed indices.
pub proof fn lemma_match_sets_bounded(cs: Seq<HashCookieView>, n: nat, d: u32, m: int)
    requires
        m <= n,
    ensures
        bounded(match_sets(cs, n, d, m), n),
    decreases m,
{
    if m > 0 {
        lemma_match_sets_bounded(cs, n, d, m - 1);
        let before = match_sets(cs, n, d, m - 1);
        if has_match(cs, n, d, m - 1) {
            let after = before.push(match_elems(cs, n, d, m - 1));
            assert forall|k: int, x: usize| 0 <= k < after.len() && #[trigger] after[k].contains(x) implies x < n by {
                if k < before.len() {
                    assert(after[k] == before[k]);
                }
            }
        }
    }
}

/// Absorbing keeps every set within the hashed indices.
pub proof fn lemma_absorb_bounded(p: Set<usize>, rest: Seq<Set<usize>>, i: int, n: nat)
    requires
        forall|x: usize| p.contains(x) ==> x < n,
        bounded(rest, n),
    ensures
        forall|x: usize| absorb(p, rest, i).0.contains(x) ==> x < n,
        bounded(absorb(p, rest, i).1, n),
    decreases i + 1,
{
    if i < 0 || i >= rest.len() {
    } else if !p.disjoint(rest[i]) {
        let r2 = rest.update(i, rest.last()).drop_last();
        assert(bounded(r2, n)) by {
            assert forall|k: int, x: usize| 0 <= k < r2.len() && #[trigger] r2[k].contains(x) implies x < n by {
                if k == i {
                    assert(r2[k] == rest[rest.len() - 1]);
                } else {
                    assert(r2[k] == rest[k]);
                }
            }
        }
        assert forall|x: usize| (p + rest[i]).contains(x) implies x < n by {
            if rest[i].contains(x) {
            }
        }
        lemma_absorb_bounded(p + rest[i], r2, i - 1, n);
    } else {
        lemma_absorb_bounded(p, rest, i - 1, n);
    }
}

/// Merging keeps every group within the hashed indices.
pub proof fn lemma_merge_bounded(sets: Seq<Set<usize>>, n: nat)
    requires
        bounded(sets, n),
    ensures
        bounded(merge(sets), n),
    decreases sets.len(),
{
    if sets.len() > 0 {
        let last = sets.last();
        let init = sets.drop_last();
        assert(bounded(init, n)) by {
            assert forall|k: int, x: usize| 0 <= k < init.len() && #[trigger] init[k].contains(x) implies x < n by {
                assert(init[k] == sets[k]);
            }
        }
        assert forall|x: usize| last.contains(x) implies x < n by {
            assert(sets[sets.len() - 1] == last);
        }
        lemma_absorb_bounded(last, init, sets.len() - 2, n);
        lemma_absorb_len(last, init, sets.len() - 2);
        let r = absorb(last, init, sets.len() - 2);
        lemma_merge_bounded(r.1, n);
        let m = merge(sets);
        assert(m == seq![r.0] + merge(r.1));
        assert forall|k: int, x: usize| 0 <= k < m.len() && #[trigger] m[k].contains(x) implies x < n by {
            if k > 0 {
                assert(m[k] == merge(r.1)[k - 1]);
            }
        }
    }
}

/// The groups of look-alike hashed cookies of `cs`, as vectors of indices.
pub(crate) fn match_groups(cs: &Vec<HashCookie>, dist: u32) -> (r: Vec<Vec<usize>>)
    requires
        dist < u32::MAX,
        hashed_first(cookie_views(cs@)),
        hashes_fit(cookie_views(cs@)),
    ensures
        set_views(r@) == kitty_groups(cookie_views(cs@), dist),
        forall|g: int| 0 <= g < r@.len() ==> (#[trigger] r@[g])@.no_duplicates(),
        forall|g: int, t: int|
            0 <= g < r@.len() && 0 <= t < r@[g]@.len() ==> #[trigger] r@[g]@[t] < hashed_len(
                cookie_views(cs@),
            ),
{
    let ghost cv = cookie_views(cs@);
    let ghost h = hashed_len(cv);
    proof {
        lemma_hashed_len(cv);
    }
    // the hashed cookies, with their index
    let mut hashes: Vec<(&Vec<u8>, usize)> = Vec::new();
    let mut id: usize = 0;
    while id < cs.len()
        invariant
            id <= cs@.len(),
            cv == cookie_views(cs@),
            h == hashed_len(cv),
            h <= cs@.len(),
            forall|k: int| 0 <= k < h ==> (#[trigger] cv[k]).hash is Some,
            forall|k: int| h <= k < cs@.len() ==> (#[trigger] cv[k]).hash is None,
            hashes@.len() == (if id <= h { id as int } else { h as int }),
            forall|k: int|
                0 <= k < hashes@.len() ==> (#[trigger] hashes@[k]).1 == k && Some(hashes@[k].0@)
                    == cv[k].hash,
        decreases cs@.len() - id,
    {
        assert(cv[id as int] == cs@[id as int]@);
        match &cs[id].hash {
            Some(hv) => {
                hashes.push((hv, id));
            },
            None => {},
        }
        id = id + 1;
    }
    let n = hashes.len();
    assert(n == h);
    // the match set of every hashed cookie that has one
    let mut sets: Vec<Vec<usize>> = Vec::new();
    let mut k: usize = 0;
    while k < n
        invariant
            k <= n,
            n == h,
            h <= cv.len(),
            n == hashes@.len(),
            cv == cookie_views(cs@),
            hashes_fit(cv),
            dist < u32::MAX,
            forall|t: int|
                0 <= t < hashes@.len() ==> (#[trigger] hashes@[t]).1 == t && Some(hashes@[t].0@)
                    == cv[t].hash,
            set_views(sets@) == match_sets(cv, h, dist, k as int),
            forall|t: int| 0 <= t < sets@.len() ==> (#[trigger] sets@[t])@.no_duplicates(),
        decreases n - k,
    {
        let hash = hashes[k].0;
        let id = hashes[k].1;
        let mut matches: Option<Vec<usize>> = None;
        let mut o = id + 1;
        while o < n
            invariant
                id == k,
                k < n,
                k < o <= n,
                n == hashes@.len(),
                n <= cv.len(),
                hashes_fit(cv),
                dist < u32::MAX,
                hash == hashes@[k as int].0,
                forall|t: int|
                    0 <= t < hashes@.len() ==> (#[trigger] hashes@[t]).1 == t && Some(
                        hashes@[t].0@,
                    ) == cv[t].hash,
                matches is None <==> !(exists|j: int| k < j < o && #[trigger] close(cv, dist, k as int, j)),
                matches matches Some(v) ==> {
                    &&& elems(v@) == Set::new(
                        |x: usize| x == k || (k < x < o && close(cv, dist, k as int, x as int)),
                    )
                    &&& v@.no_duplicates()
                    &&& forall|t: int| 0 <= t < v@.len() ==> #[trigger] v@[t] < o
                },
            decreases n - o,
        {
            let o_hash = hashes[o].0;
            let o_id = hashes[o].1;
            let ghost oi = o as int;
            assert(cv[oi].hash == Some(o_hash@));
            assert(cv[k as int].hash == Some(hash@));
            assert(hash_fits(o_hash@));
            let dd = hash_distance(o_hash.as_slice(), hash.as_slice());
            if dd < dist + 1 {
                assert(close(cv, dist, k as int, oi));
                matches = match matches {
                    Some(mut set) => {
                        let ghost before = set@;
                        set.push(o_id);
                        proof {
                            lemma_elems_push(before, o_id);
                            assert(elems(set@) =~= Set::new(
                                |x: usize| x == k || (k < x < o + 1 && close(cv, dist, k as int, x as int)),
                            ));
                            assert forall|a: int, b: int| 0 <= a < b < set@.len() implies set@[a] != set@[b] by {
                                if b == set@.len() - 1 {
                                    assert(set@[a] == before[a]);
                                }
                            }
                        }
                        Some(set)
                    },
                    None => {
                        let mut set: Vec<usize> = Vec::new();
                        set.push(id);
                        set.push(o_id);
                        proof {
                            lemma_elems_push(seq![id], o_id);
                            lemma_elems_push(Seq::<usize>::empty(), id);
                            assert(seq![id] =~= Seq::<usize>::empty().push(id));
                            assert(set@ =~= seq![id].push(o_id));
                            assert(elems(Seq::<usize>::empty()) =~= Set::<usize>::empty());
                            assert(elems(set@) =~= Set::new(
                                |x: usize| x == k || (k < x < o + 1 && close(cv, dist, k as int, x as int)),
                            ));
                        }
                        Some(set)
                    },
                };
            } else {
                assert(!close(cv, dist, k as int, oi));
                proof {
                    if let Some(v) = &matches {
                        assert(elems(v@) =~= Set::new(
                            |x: usize| x == k || (k < x < o + 1 && close(cv, dist, k as int, x as int)),
                        ));
                    }
                }
            }
            o = o + 1;
        }
        let ghost before = set_views(sets@);
        assert(match_sets(cv, h, dist, k + 1) == (if has_match(cv, h, dist, k as int) {
            match_sets(cv, h, dist, k as int).push(match_elems(cv, h, dist, k as int))
        } else {
            match_sets(cv, h, dist, k as int)
        }));
        match matches {
            Some(set) => {
                assert(elems(set@) =~= match_elems(cv, h, dist, k as int));
                sets.push(set);
                assert(set_views(sets@) =~= before.push(match_elems(cv, h, dist, k as int)));
            },
            None => {},
        }
        k = k + 1;
    }
    // merge the match sets that overlap
    let ghost all = set_views(sets@);
    proof {
        lemma_match_sets_bounded(cv, h, dist, h as int);
        lemma_merge_bounded(all, h);
    }
    let mut groups: Vec<Vec<usize>> = Vec::new();
    while sets.len() > 0
        invariant
            set_views(groups@) + merge(set_views(sets@)) == merge(all),
            forall|t: int| 0 <= t < sets@.len() ==> (#[trigger] sets@[t])@.no_duplicates(),
            forall|t: int| 0 <= t < groups@.len() ==> (#[trigger] groups@[t])@.no_duplicates(),
        decreases sets@.len(),
    {
        let ghost whole = set_views(sets@);
        let mut set = sets.pop().unwrap();
        let ghost p0 = elems(set@);
        let ghost r0 = set_views(sets@);
        assert(p0 == whole.last());
        assert(r0 =~= whole.drop_last());
        let mut i = sets.len();
        let ghost len0 = sets@.len();
        while i > 0
            invariant
                i <= sets@.len(),
                sets@.len() <= len0,
                absorb(elems(set@), set_views(sets@), i - 1) == absorb(p0, r0, r0.len() - 1),
                set@.no_duplicates(),
                forall|t: int| 0 <= t < sets@.len() ==> (#[trigger] sets@[t])@.no_duplicates(),
            decreases i,
        {
            i = i - 1;
            let ghost sv = set_views(sets@);
            assert(sv[i as int] == elems(sets@[i as int]@));
            if !disjoint(&set, &sets[i]) {
                let ghost last = sets@.last();
                let other = sets.swap_remove(i);
                assert(set_views(sets@) =~= sv.update(i as int, sv.last()).drop_last());
                let ghost p = elems(set@);
                extend(&mut set, other);
                assert(elems(set@) == p + sv[i as int]);
                proof {
                    assert forall|t: int| 0 <= t < sets@.len() implies (#[trigger] sets@[t])@.no_duplicates() by {
                        if t == i {
                            assert(sets@[t] == last);
                        }
                    }
                }
            }
        }
        let ghost g = elems(set@);
        let ghost rest = set_views(sets@);
        assert(absorb(p0, r0, r0.len() - 1) == (g, rest));
        assert(merge(whole) == seq![g] + merge(rest));
        let ghost gs = set_views(groups@);
        groups.push(set);
        assert(set_views(groups@) =~= gs.push(g));
        assert(set_views(groups@) + merge(set_views(sets@)) =~= gs + merge(whole));
    }
    assert(merge(set_views(sets@)) =~= Seq::<Set<usize>>::empty());
    assert(set_views(groups@) =~= merge(all));
    proof {
        assert forall|g: int, t: int|
            0 <= g < groups@.len() && 0 <= t < groups@[g]@.len() implies #[trigger] groups@[g]@[t] < h by {
            assert(set_views(groups@)[g] == elems(groups@[g]@));
            assert(elems(groups@[g]@).contains(groups@[g]@[t]));
        }
    }
    groups
}

/// The set holds two different indices.
pub open spec fn has_pair(s: Set<usize>) -> bool {
    exists|x: usize, y: usize| x != y && s.contains(x) && s.contains(y)
}

/// Absorbing grows the absorbing set, and every set of the rest ends up in
/// it or in the new rest; sets that hold a pair keep doing so.
pub proof fn lemma_absorb_covers(p: Set<usize>, rest: Seq<Set<usize>>, i: int)
    requires
        i < rest.len(),
    ensures
        p.subset_of(absorb(p, rest, i).0),
        forall|k: int|
            0 <= k < rest.len() ==> (#[trigger] rest[k]).subset_of(absorb(p, rest, i).0)
                || absorb(p, rest, i).1.contains(rest[k]),
        (forall|k: int| 0 <= k < rest.len() ==> has_pair(#[trigger] rest[k])) ==> forall|k: int|
            0 <= k < absorb(p, rest, i).1.len() ==> has_pair(#[trigger] absorb(p, rest, i).1[k]),
    decreases i + 1,
{
    if i < 0 {
        assert forall|k: int| 0 <= k < rest.len() implies (#[trigger] rest[k]).subset_of(absorb(p, rest, i).0)
            || absorb(p, rest, i).1.contains(rest[k]) by {
            assert(rest[k] == absorb(p, rest, i).1[k]);
        }
    } else if !p.disjoint(rest[i]) {
        let p2 = p + rest[i];
        let r2 = rest.update(i, rest.last()).drop_last();
        lemma_absorb_covers(p2, r2, i - 1);
        let res = absorb(p2, r2, i - 1);
        assert(res == absorb(p, rest, i));
        assert forall|k: int| 0 <= k < rest.len() implies (#[trigger] rest[k]).subset_of(res.0)
            || res.1.contains(rest[k]) by {
            if k == i {
                assert(rest[k].subset_of(p2));
            } else if k == rest.len() - 1 {
                assert(r2[i] == rest[k]);
            } else {
                assert(r2[k] == rest[k]);
            }
        }
        if forall|k: int| 0 <= k < rest.len() ==> has_pair(#[trigger] rest[k]) {
            assert forall|k: int| 0 <= k < r2.len() implies has_pair(#[trigger] r2[k]) by {
                if k == i {
                    assert(r2[k] == rest[rest.len() - 1]);
                } else {
                    assert(r2[k] == rest[k]);
                }
            }
        }
    } else {
        lemma_absorb_covers(p, rest, i - 1);
    }
}

/// Every set lies within some group of the merge; where every set holds a
/// pair, so does every group.
pub proof fn lemma_merge_covers(sets: Seq<Set<usize>>)
    ensures
        forall|k: int|
            0 <= k < sets.len() ==> exists|g: int|
                0 <= g < merge(sets).len() && (#[trigger] sets[k]).subset_of(
                    #[trigger] merge(sets)[g],
                ),
        (forall|k: int| 0 <= k < sets.len() ==> has_pair(#[trigger] sets[k])) ==> forall|g: int|
            0 <= g < merge(sets).len() ==> has_pair(#[trigger] merge(sets)[g]),
    decreases sets.len(),
{
    if sets.len() > 0 {
        let last = sets.last();
        let init = sets.drop_last();
        lemma_absorb_len(last, init, sets.len() - 2);
        lemma_absorb_covers(last, init, sets.len() - 2);
        let r = absorb(last, init, sets.len() - 2);
        lemma_merge_covers(r.1);
        let m = merge(sets);
        assert(m == seq![r.0] + merge(r.1));
        assert forall|k: int| 0 <= k < sets.len() implies exists|g: int|
            0 <= g < m.len() && (#[trigger] sets[k]).subset_of(#[trigger] m[g]) by {
            if k == sets.len() - 1 {
                assert(sets[k].subset_of(m[0]));
            } else {
                assert(sets[k] == init[k]);
                if init[k].subset_of(r.0) {
                    assert(sets[k].subset_of(m[0]));
                } else {
                    let j = choose|j: int| 0 <= j < r.1.len() && r.1[j] == init[k];
                    let g = choose|g: int| 0 <= g < merge(r.1).len() && (#[trigger] r.1[j]).subset_of(#[trigger] merge(r.1)[g]);
                    assert(m[g + 1] == merge(r.1)[g]);
                    assert(sets[k].subset_of(m[g + 1]));
                }
            }
        }
        if forall|k: int| 0 <= k < sets.len() ==> has_pair(#[trigger] sets[k]) {
            assert forall|k: int| 0 <= k < init.len() implies has_pair(#[trigger] init[k]) by {
                assert(init[k] == sets[k]);
            }
            assert(has_pair(sets[sets.len() - 1]));
            assert(has_pair(r.0)) by {
                let (x, y) = choose|x: usize, y: usize| x != y && last.contains(x) && last.contains(y);
                assert(r.0.contains(x) && r.0.contains(y));
            }
            assert forall|g: int| 0 <= g < m.len() implies has_pair(#[trigger] m[g]) by {
                if g > 0 {
                    assert(m[g] == merge(r.1)[g - 1]);
                }
            }
        }
    }
}

/// Every cookie with a match has its match set among the match sets, and
/// every match set holds a pair.
pub proof fn lemma_match_sets_hold(cs: Seq<HashCookieView>, n: nat, d: u32, m: int)
    requires
        n <= usize::MAX,
        m <= n,
    ensures
        forall|k: int|
            0 <= k < m && has_match(cs, n, d, k) ==> match_sets(cs, n, d, m).contains(
                #[trigger] match_elems(cs, n, d, k),
            ),
        forall|t: int|
            0 <= t < match_sets(cs, n, d, m).len() ==> has_pair(
                #[trigger] match_sets(cs, n, d, m)[t],
            ),
    decreases m,
{
    if m > 0 {
        lemma_match_sets_hold(cs, n, d, m - 1);
        let before = match_sets(cs, n, d, m - 1);
        let after = match_sets(cs, n, d, m);
        assert forall|k: int|
            0 <= k < m && has_match(cs, n, d, k) implies after.contains(
                #[trigger] match_elems(cs, n, d, k),
            ) by {
            if k < m - 1 {
                let t = choose|t: int| 0 <= t < before.len() && before[t] == match_elems(cs, n, d, k);
                if has_match(cs, n, d, m - 1) {
                    assert(after[t] == before[t]);
                }
            } else {
                assert(after[before.len() as int] == match_elems(cs, n, d, k));
            }
        }
        assert forall|t: int| 0 <= t < after.len() implies has_pair(#[trigger] after[t]) by {
            if t < before.len() {
                assert(after[t] == before[t]);
            } else {
                let k = m - 1;
                let j = choose|j: int| k < j < n && #[trigger] close(cs, d, k, j);
                let e = match_elems(cs, n, d, k);
                assert(e.contains(k as usize));
                assert(e.contains(j as usize));
                assert(k as usize != j as usize);
            }
        }
    }
}

/// Law: two hashed cookies within the distance of each other always end up
/// in the same group.
pub proof fn lemma_close_cookies_grouped(cs: Seq<HashCookieView>, d: u32, i: int, j: int)
    requires
        cs.len() <= usize::MAX,
        0 <= i < j < hashed_len(cs),
        close(cs, d, i, j),
    ensures
        exists|g: int|
            0 <= g < kitty_groups(cs, d).len() && (#[trigger] kitty_groups(cs, d)[g]).contains(
                i as usize,
            ) && kitty_groups(cs, d)[g].contains(j as usize),
{
    lemma_hashed_len(cs);
    let n = hashed_len(cs);
    let sets = match_sets(cs, n, d, n as int);
    assert(has_match(cs, n, d, i));
    lemma_match_sets_hold(cs, n, d, n as int);
    let e = match_elems(cs, n, d, i);
    assert(sets.contains(e));
    let t = choose|t: int| 0 <= t < sets.len() && sets[t] == e;
    lemma_merge_covers(sets);
    let g = choose|g: int| 0 <= g < merge(sets).len() && (#[trigger] sets[t]).subset_of(#[trigger] merge(sets)[g]);
    assert(e.contains(i as usize));
    assert(e.contains(j as usize));
    assert(merge(sets)[g].contains(i as usize));
    assert(merge(sets)[g].contains(j as usize));
    assert(kitty_groups(cs, d) == merge(sets));
    assert(kitty_groups(cs, d)[g].contains(i as usize) && kitty_groups(cs, d)[g].contains(j as usize));
}

/// Law: every group holds at least two different hashed cookies.
pub proof fn lemma_groups_hold_pairs(cs: Seq<HashCookieView>, d: u32)
    requires
        cs.len() <= usize::MAX,
    ensures
        forall|g: int| 0 <= g < kitty_groups(cs, d).len() ==> has_pair(#[trigger] kitty_groups(cs, d)[g]),
        bounded(kitty_groups(cs, d), hashed_len(cs)),
{
    lemma_hashed_len(cs);
    let n = hashed_len(cs);
    let sets = match_sets(cs, n, d, n as int);
    lemma_match_sets_hold(cs, n, d, n as int);
    lemma_merge_covers(sets);
    lemma_match_sets_bounded(cs, n, d, n as int);
    lemma_merge_bounded(sets, n);
}

/// What absorbing gathers comes from the absorbing set or from the rest, and
/// every set left over is one of the rest.
proof fn lemma_absorb_from(p: Set<usize>, rest: Seq<Set<usize>>, i: int)
    requires
        i < rest.len(),
    ensures
        forall|x: usize|
            #[trigger] absorb(p, rest, i).0.contains(x) ==> p.contains(x) || exists|k: int|
                0 <= k < rest.len() && #[trigger] rest[k].contains(x),
        forall|j: int| 0 <= j < absorb(p, rest, i).1.len() ==> rest.contains(#[trigger] absorb(p, rest, i).1[j]),
    decreases i + 1,
{
    if i < 0 {
        assert(absorb(p, rest, i) == (p, rest));
        assert forall|j: int| 0 <= j < absorb(p, rest, i).1.len() implies rest.contains(
            #[trigger] absorb(p, rest, i).1[j],
        ) by {
            assert(rest[j] == absorb(p, rest, i).1[j]);
        }
    } else if !p.disjoint(rest[i]) {
        let p2 = p + rest[i];
        let r2 = rest.update(i, rest.last()).drop_last();
        lemma_absorb_from(p2, r2, i - 1);
        let res = absorb(p2, r2, i - 1);
        assert(res == absorb(p, rest, i));
        assert forall|x: usize| #[trigger] res.0.contains(x) implies p.contains(x) || exists|k: int|
            0 <= k < rest.len() && #[trigger] rest[k].contains(x) by {
            if !p.contains(x) {
                if p2.contains(x) {
                    assert(rest[i].contains(x));
                } else {
                    let k = choose|k: int| 0 <= k < r2.len() && #[trigger] r2[k].contains(x);
                    if k == i {
                        assert(rest[rest.len() - 1].contains(x));
                    } else {
                        assert(rest[k].contains(x));
                    }
                }
            }
        }
        assert forall|j: int| 0 <= j < res.1.len() implies rest.contains(#[trigger] res.1[j]) by {
            let k = choose|k: int| 0 <= k < r2.len() && r2[k] == res.1[j];
            if k == i {
                assert(rest[rest.len() - 1] == res.1[j]);
            } else {
                assert(rest[k] == res.1[j]);
            }
        }
    } else {
        lemma_absorb_from(p, rest, i - 1);
        assert(absorb(p, rest, i) == absorb(p, rest, i - 1));
    }
}

/// Every index in a group of the merge comes from one of the sets.
proof fn lemma_merge_from(sets: Seq<Set<usize>>)
    ensures
        forall|g: int, x: usize|
            0 <= g < merge(sets).len() && #[trigger] merge(sets)[g].contains(x) ==> exists|t: int|
                0 <= t < sets.len() && #[trigger] sets[t].contains(x),
    decreases sets.len(),
{
    if sets.len() > 0 {
        let last = sets.last();
        let init = sets.drop_last();
        lemma_absorb_len(last, init, sets.len() - 2);
        lemma_absorb_from(last, init, sets.len() - 2);
        let r = absorb(last, init, sets.len() - 2);
        lemma_merge_from(r.1);
        let m = merge(sets);
        assert(m == seq![r.0] + merge(r.1));
        assert forall|g: int, x: usize| 0 <= g < m.len() && #[trigger] m[g].contains(x) implies exists|t: int|
            0 <= t < sets.len() && #[trigger] sets[t].contains(x) by {
            if g == 0 {
                if last.contains(x) {
                    assert(sets[sets.len() - 1].contains(x));
                } else {
                    let k = choose|k: int| 0 <= k < init.len() && #[trigger] init[k].contains(x);
                    assert(sets[k].contains(x));
                }
            } else {
                assert(m[g] == merge(r.1)[g - 1]);
                let t = choose|t: int| 0 <= t < r.1.len() && #[trigger] r.1[t].contains(x);
                let k = choose|k: int| 0 <= k < init.len() && init[k] == r.1[t];
                assert(sets[k].contains(x));
            }
        }
    }
}

/// `s` is the match set of one of the first `m` cookies, which has a match.
pub open spec fn match_set_of_some(cs: Seq<HashCookieView>, n: nat, d: u32, m: int, s: Set<usize>) -> bool {
    exists|k: int| 0 <= k < m && has_match(cs, n, d, k) && s == #[trigger] match_elems(cs, n, d, k)
}

/// Every match set is the match set of a cookie that has a match.
proof fn lemma_match_sets_are(cs: Seq<HashCookieView>, n: nat, d: u32, m: int)
    ensures
        forall|t: int|
            0 <= t < match_sets(cs, n, d, m).len() ==> match_set_of_some(
                cs,
                n,
                d,
                m,
                #[trigger] match_sets(cs, n, d, m)[t],
            ),
    decreases m,
{
    if m > 0 {
        lemma_match_sets_are(cs, n, d, m - 1);
        let before = match_sets(cs, n, d, m - 1);
        let after = match_sets(cs, n, d, m);
        assert forall|t: int| 0 <= t < after.len() implies match_set_of_some(
            cs,
            n,
            d,
            m,
            #[trigger] match_sets(cs, n, d, m)[t],
        ) by {
            if t < before.len() {
                assert(after[t] == before[t]);
                assert(match_set_of_some(cs, n, d, m - 1, before[t]));
                let k = choose|k: int|
                    0 <= k < m - 1 && has_match(cs, n, d, k) && before[t] == #[trigger] match_elems(cs, n, d, k);
                assert(0 <= k < m && has_match(cs, n, d, k) && after[t] == match_elems(cs, n, d, k));
            } else {
                assert(has_match(cs, n, d, m - 1));
                assert(after[t] == match_elems(cs, n, d, m - 1));
            }
        }
    }
}

/// Law: a larger distance keeps every grouping made at a smaller one: a
/// grouped cookie stays grouped, and two cookies within the smaller distance
/// share a group at the larger one.
pub proof fn lemma_groups_grow_with_distance(cs: Seq<HashCookieView>, d1: u32, d2: u32)
    requires
        cs.len() <= usize::MAX,
        d1 <= d2,
    ensures
        forall|g: int, x: usize|
            0 <= g < kitty_groups(cs, d1).len() && #[trigger] kitty_groups(cs, d1)[g].contains(x)
                ==> exists|h: int|
                0 <= h < kitty_groups(cs, d2).len() && #[trigger] kitty_groups(cs, d2)[h].contains(x),
        forall|i: int, j: int|
            0 <= i < j < hashed_len(cs) && #[trigger] close(cs, d1, i, j) ==> exists|h: int|
                0 <= h < kitty_groups(cs, d2).len() && (#[trigger] kitty_groups(cs, d2)[h]).contains(
                    i as usize,
                ) && kitty_groups(cs, d2)[h].contains(j as usize),
{
    lemma_hashed_len(cs);
    let n = hashed_len(cs);
    let sets = match_sets(cs, n, d1, n as int);
    assert forall|i: int, j: int|
        0 <= i < j < hashed_len(cs) && #[trigger] close(cs, d1, i, j) implies exists|h: int|
            0 <= h < kitty_groups(cs, d2).len() && (#[trigger] kitty_groups(cs, d2)[h]).contains(
                i as usize,
            ) && kitty_groups(cs, d2)[h].contains(j as usize) by {
        lemma_close_cookies_grouped(cs, d2, i, j);
    }
    assert forall|g: int, x: usize|
        0 <= g < kitty_groups(cs, d1).len() && #[trigger] kitty_groups(cs, d1)[g].contains(x)
            implies exists|h: int|
            0 <= h < kitty_groups(cs, d2).len() && #[trigger] kitty_groups(cs, d2)[h].contains(x) by {
        lemma_merge_from(sets);
        lemma_match_sets_are(cs, n, d1, n as int);
        let t = choose|t: int| 0 <= t < sets.len() && #[trigger] sets[t].contains(x);
        assert(match_set_of_some(cs, n, d1, n as int, sets[t]));
        let k = choose|k: int| 0 <= k < n && has_match(cs, n, d1, k) && sets[t] == #[trigger] match_elems(cs, n, d1, k);
        let j = choose|j: int| k < j < n && #[trigger] close(cs, d1, k, j);
        if x == k {
            lemma_close_cookies_grouped(cs, d2, k, j);
        } else {
            assert(k < x < n && close(cs, d1, k, x as int));
            lemma_close_cookies_grouped(cs, d2, k, x as int);
        }
    }
}

/// The hashes of cookies `x` and `y` are within `d` of each other, counting
/// every differing bit of the two hashes.
pub open spec fn within(cs: Seq<HashCookieView>, d: u32, x: int, y: int) -> bool {
    hamming(cs[x].hash->0, cs[y].hash->0) <= d
}

/// `p` steps from cookie to cookie, each within `d` of the next.
pub open spec fn is_chain(cs: Seq<HashCookieView>, d: u32, p: Seq<int>) -> bool {
    forall|k: int| 0 <= k < p.len() - 1 ==> #[trigger] within(cs, d, p[k], p[k + 1])
}

/// Some chain leads from cookie `x` to cookie `y`.
pub open spec fn joined(cs: Seq<HashCookieView>, d: u32, x: int, y: int) -> bool {
    exists|p: Seq<int>| #[trigger] is_chain(cs, d, p) && p.len() > 0 && p[0] == x && p.last() == y
}

/// Every two members of the set are joined by a chain.
pub open spec fn connected(cs: Seq<HashCookieView>, d: u32, s: Set<usize>) -> bool {
    forall|x: usize, y: usize| s.contains(x) && s.contains(y) ==> #[trigger] joined(cs, d, x as int, y as int)
}

/// A cookie is joined to itself, and to a cookie within `d` of it.
proof fn lemma_joined_step(cs: Seq<HashCookieView>, d: u32, x: int, y: int)
    ensures
        joined(cs, d, x, x),
        within(cs, d, x, y) ==> joined(cs, d, x, y),
{
    let p1 = seq![x];
    assert(is_chain(cs, d, p1));
    assert(p1.last() == x);
    if within(cs, d, x, y) {
        let p2 = seq![x, y];
        assert(is_chain(cs, d, p2)) by {
            assert forall|k: int| 0 <= k < p2.len() - 1 implies #[trigger] within(cs, d, p2[k], p2[k + 1]) by {
                assert(k == 0);
            }
        }
        assert(p2.last() == y);
    }
}

/// Chains join up: a chain from `x` to `y` and one from `y` to `z` make one
/// from `x` to `z`.
proof fn lemma_joined_trans(cs: Seq<HashCookieView>, d: u32, x: int, y: int, z: int)
    requires
        joined(cs, d, x, y),
        joined(cs, d, y, z),
    ensures
        joined(cs, d, x, z),
{
    let p1 = choose|p: Seq<int>| #[trigger] is_chain(cs, d, p) && p.len() > 0 && p[0] == x && p.last() == y;
    let p2 = choose|p: Seq<int>| #[trigger] is_chain(cs, d, p) && p.len() > 0 && p[0] == y && p.last() == z;
    let p = p1 + p2.drop_first();
    assert forall|k: int| 0 <= k < p.len() - 1 implies #[trigger] within(cs, d, p[k], p[k + 1]) by {
        if k < p1.len() - 1 {
            assert(p[k] == p1[k] && p[k + 1] == p1[k + 1]);
            assert(within(cs, d, p1[k], p1[k + 1]));
        } else if k == p1.len() - 1 {
            assert(p[k] == p2[0]);
            assert(p[k + 1] == p2[1]);
            assert(within(cs, d, p2[0], p2[0int + 1]));
        } else {
            let j = k - p1.len() + 1;
            assert(p[k] == p2[j] && p[k + 1] == p2[j + 1]);
            assert(within(cs, d, p2[j], p2[j + 1]));
        }
    }
    assert(is_chain(cs, d, p));
    if p2.len() == 1 {
        assert(p.last() == p1.last());
    } else {
        assert(p.last() == p2.last());
    }
    assert(p[0] == x);
}

/// The match set of a cookie is connected.
proof fn lemma_match_set_connected(cs: Seq<HashCookieView>, n: nat, d: u32, k: int)
    ensures
        connected(cs, d, match_elems(cs, n, d, k)),
{
    let e = match_elems(cs, n, d, k);
    assert forall|x: usize, y: usize| e.contains(x) && e.contains(y) implies #[trigger] joined(
        cs,
        d,
        x as int,
        y as int,
    ) by {
        // x reaches k, and k reaches y
        if x as int == k {
            lemma_joined_step(cs, d, k, k);
        } else {
            assert(close(cs, d, k, x as int));
            lemma_joined_step(cs, d, x as int, k);
        }
        if y as int == k {
            lemma_joined_step(cs, d, k, k);
        } else {
            assert(close(cs, d, k, y as int));
            lemma_hamming_symmetric(cs[y as int].hash->0, cs[k].hash->0);
            lemma_joined_step(cs, d, k, y as int);
        }
        lemma_joined_trans(cs, d, x as int, k, y as int);
    }
}

/// Two connected sets that meet make a connected union.
proof fn lemma_union_connected(cs: Seq<HashCookieView>, d: u32, a: Set<usize>, b: Set<usize>)
    requires
        connected(cs, d, a),
        connected(cs, d, b),
        !a.disjoint(b),
    ensures
        connected(cs, d, a + b),
{
    let z = choose|z: usize| a.contains(z) && b.contains(z);
    assert forall|x: usize, y: usize| (a + b).contains(x) && (a + b).contains(y) implies #[trigger] joined(
        cs,
        d,
        x as int,
        y as int,
    ) by {
        if a.contains(x) && a.contains(y) {
        } else if b.contains(x) && b.contains(y) {
        } else if a.contains(x) {
            assert(joined(cs, d, x as int, z as int));
            assert(joined(cs, d, z as int, y as int));
            lemma_joined_trans(cs, d, x as int, z as int, y as int);
        } else {
            assert(joined(cs, d, x as int, z as int));
            assert(joined(cs, d, z as int, y as int));
            lemma_joined_trans(cs, d, x as int, z as int, y as int);
        }
    }
}

/// Absorbing keeps every set connected.
proof fn lemma_absorb_connected(cs: Seq<HashCookieView>, d: u32, p: Set<usize>, rest: Seq<Set<usize>>, i: int)
    requires
        i < rest.len(),
        connected(cs, d, p),
        forall|k: int| 0 <= k < rest.len() ==> connected(cs, d, #[trigger] rest[k]),
    ensures
        connected(cs, d, absorb(p, rest, i).0),
        forall|k: int| 0 <= k < absorb(p, rest, i).1.len() ==> connected(cs, d, #[trigger] absorb(p, rest, i).1[k]),
    decreases i + 1,
{
    if i < 0 {
    } else if !p.disjoint(rest[i]) {
        let p2 = p + rest[i];
        let r2 = rest.update(i, rest.last()).drop_last();
        lemma_union_connected(cs, d, p, rest[i]);
        assert forall|k: int| 0 <= k < r2.len() implies connected(cs, d, #[trigger] r2[k]) by {
            if k == i {
                assert(r2[k] == rest[rest.len() - 1]);
            } else {
                assert(r2[k] == rest[k]);
            }
        }
        lemma_absorb_connected(cs, d, p2, r2, i - 1);
    } else {
        lemma_absorb_connected(cs, d, p, rest, i - 1);
    }
}

/// The merge of connected sets gives connected groups.
proof fn lemma_merge_connected(cs: Seq<HashCookieView>, d: u32, sets: Seq<Set<usize>>)
    requires
        forall|k: int| 0 <= k < sets.len() ==> connected(cs, d, #[trigger] sets[k]),
    ensures
        forall|g: int| 0 <= g < merge(sets).len() ==> connected(cs, d, #[trigger] merge(sets)[g]),
    decreases sets.len(),
{
    if sets.len() > 0 {
        let last = sets.last();
        let init = sets.drop_last();
        lemma_absorb_len(last, init, sets.len() - 2);
        assert forall|k: int| 0 <= k < init.len() implies connected(cs, d, #[trigger] init[k]) by {
            assert(init[k] == sets[k]);
        }
        assert(connected(cs, d, sets[sets.len() - 1]));
        lemma_absorb_connected(cs, d, last, init, sets.len() - 2);
        let r = absorb(last, init, sets.len() - 2);
        lemma_merge_connected(cs, d, r.1);
        let m = merge(sets);
        assert(m == seq![r.0] + merge(r.1));
        assert forall|g: int| 0 <= g < m.len() implies connected(cs, d, #[trigger] m[g]) by {
            if g > 0 {
                assert(m[g] == merge(r.1)[g - 1]);
            }
        }
    }
}

/// Law: two cookies share a group only if a chain of cookies leads from one
/// to the other, each within `dist` of the next by the Hamming distance
/// over all the bytes of their hashes.
pub proof fn lemma_groups_chained(cs: Seq<HashCookieView>, d: u32)
    ensures
        forall|g: int, x: usize, y: usize|
            0 <= g < kitty_groups(cs, d).len() && #[trigger] kitty_groups(cs, d)[g].contains(x)
                && #[trigger] kitty_groups(cs, d)[g].contains(y) ==> joined(cs, d, x as int, y as int),
{
    let n = hashed_len(cs);
    let sets = match_sets(cs, n, d, n as int);
    lemma_match_sets_are(cs, n, d, n as int);
    assert forall|t: int| 0 <= t < sets.len() implies connected(cs, d, #[trigger] sets[t]) by {
        assert(match_set_of_some(cs, n, d, n as int, sets[t]));
        let k = choose|k: int| 0 <= k < n && has_match(cs, n, d, k) && sets[t] == #[trigger] match_elems(cs, n, d, k);
        lemma_match_set_connected(cs, n, d, k);
    }
    lemma_merge_connected(cs, d, sets);
    assert forall|g: int, x: usize, y: usize|
        0 <= g < kitty_groups(cs, d).len() && #[trigger] kitty_groups(cs, d)[g].contains(x)
            && #[trigger] kitty_groups(cs, d)[g].contains(y) implies joined(cs, d, x as int, y as int) by {
        assert(connected(cs, d, merge(sets)[g]));
    }
}

/// Law: a grouped cookie is a hashed cookie whose hash is within `dist` of
/// the hash of some other hashed cookie (over all the bytes of both); a
/// cookie farther than `dist` from every other is in no group.
pub proof fn lemma_group_members_have_neighbours(cs: Seq<HashCookieView>, d: u32)
    ensures
        forall|g: int, x: usize|
            0 <= g < kitty_groups(cs, d).len() && #[trigger] kitty_groups(cs, d)[g].contains(x)
                ==> x < hashed_len(cs) && exists|y: int|
                0 <= y < hashed_len(cs) && y != x && #[trigger] within(cs, d, x as int, y),
{
    let n = hashed_len(cs);
    let sets = match_sets(cs, n, d, n as int);
    lemma_merge_from(sets);
    lemma_match_sets_are(cs, n, d, n as int);
    assert forall|g: int, x: usize|
        0 <= g < kitty_groups(cs, d).len() && #[trigger] kitty_groups(cs, d)[g].contains(x)
            implies x < hashed_len(cs) && exists|y: int|
            0 <= y < hashed_len(cs) && y != x && #[trigger] within(cs, d, x as int, y) by {
        let t = choose|t: int| 0 <= t < sets.len() && #[trigger] sets[t].contains(x);
        assert(match_set_of_some(cs, n, d, n as int, sets[t]));
        let k = choose|k: int| 0 <= k < n && has_match(cs, n, d, k) && sets[t] == #[trigger] match_elems(cs, n, d, k);
        if x as int == k {
            let j = choose|j: int| k < j < n && #[trigger] close(cs, d, k, j);
            lemma_hamming_symmetric(cs[j].hash->0, cs[k].hash->0);
            assert(within(cs, d, x as int, j));
        } else {
            assert(close(cs, d, k, x as int));
            assert(within(cs, d, x as int, k));
        }
    }
}

} // verus!
