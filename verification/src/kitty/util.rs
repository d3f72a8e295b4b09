//! A set of groups built from pairs: each pair joins the group of whichever
//! of its items is already grouped, or forms a new group.
use vstd::prelude::*;

use std::hash::Hash;

verus! {

/// Some group holds `x`.
pub open spec fn grouped<T>(s: Seq<Seq<T>>, x: T) -> bool {
    exists|i: int| 0 <= i < s.len() && #[trigger] s[i].contains(x)
}

/// The group that holds `x` (meaningful where one does).
pub open spec fn group_of<T>(s: Seq<Seq<T>>, x: T) -> int {
    choose|i: int| 0 <= i < s.len() && #[trigger] s[i].contains(x)
}

/// No item is in two groups.
pub open spec fn disjoint_groups<T>(s: Seq<Seq<T>>) -> bool {
    forall|i: int, j: int, x: T|
        0 <= i < s.len() && 0 <= j < s.len() && i != j && #[trigger] s[i].contains(x) ==> !#[trigger] s[j].contains(
            x,
        )
}

/// The groups after inserting the pair `(one, two)`: a new group `[one,
/// two]` where neither is grouped; the ungrouped one added at the end of the
/// other's group where one of them is; no change where both are.
pub open spec fn insert_pair<T>(s: Seq<Seq<T>>, one: T, two: T) -> Seq<Seq<T>> {
    if !grouped(s, one) && !grouped(s, two) {
        s.push(seq![one, two])
    } else if !grouped(s, one) {
        s.update(group_of(s, two), s[group_of(s, two)].push(one))
    } else if !grouped(s, two) {
        s.update(group_of(s, one), s[group_of(s, one)].push(two))
    } else {
        s
    }
}

/// In disjoint groups, a group that holds `x` is the group of `x`.
proof fn lemma_group_of<T>(s: Seq<Seq<T>>, x: T, k: int)
    requires
        disjoint_groups(s),
        0 <= k < s.len(),
        s[k].contains(x),
    ensures
        grouped(s, x),
        group_of(s, x) == k,
{
    assert(grouped(s, x));
    let c = group_of(s, x);
    if c != k {
        assert(s[c].contains(x));
    }
}

/// Adding `item` to group `to` keeps the groups disjoint when no other group
/// holds it.
proof fn lemma_push_disjoint<T>(s: Seq<Seq<T>>, to: int, item: T)
    requires
        disjoint_groups(s),
        0 <= to < s.len(),
        forall|j: int| 0 <= j < s.len() && j != to ==> !(#[trigger] s[j]).contains(item),
    ensures
        disjoint_groups(s.update(to, s[to].push(item))),
{
    let t = s.update(to, s[to].push(item));
    assert forall|i: int, j: int, x: T|
        0 <= i < t.len() && 0 <= j < t.len() && i != j && #[trigger] t[i].contains(x) implies !#[trigger] t[j].contains(
        x,
    ) by {
        if t[j].contains(x) {
            if i == to {
                let k = choose|k: int| 0 <= k < t[i].len() && t[i][k] == x;
                if k < s[to].len() {
                    assert(s[to][k] == x);
                    assert(s[to].contains(x));
                }
                assert(s[j] == t[j]);
            } else if j == to {
                let k = choose|k: int| 0 <= k < t[j].len() && t[j][k] == x;
                if k < s[to].len() {
                    assert(s[to][k] == x);
                    assert(s[to].contains(x));
                }
                assert(s[i] == t[i]);
            } else {
                assert(s[i] == t[i] && s[j] == t[j]);
            }
        }
    }
}

/// The values held by the groups.
pub open spec fn values<T>(s: Seq<Seq<T>>) -> Set<T> {
    Set::new(|x: T| grouped(s, x))
}

/// No value occurs twice anywhere in the groups.
pub open spec fn no_repeats<T>(s: Seq<Seq<T>>) -> bool {
    forall|i: int, k: int, j: int, l: int|
        #![trigger s[i][k], s[j][l]]
        0 <= i < s.len() && 0 <= j < s.len() && 0 <= k < s[i].len() && 0 <= l < s[j].len() && (i
            != j || k != l) ==> s[i][k] != s[j][l]
}

/// Every group holds at least two values.
pub open spec fn pairs_only<T>(s: Seq<Seq<T>>) -> bool {
    forall|i: int| 0 <= i < s.len() ==> (#[trigger] s[i]).len() >= 2
}

/// What inserting a pair keeps: the values gain the pair's members; groups
/// keep at least two values; and no value repeats, where the pair's members
/// differ.
pub proof fn lemma_insert_pair<T>(s: Seq<Seq<T>>, one: T, two: T)
    requires
        disjoint_groups(s),
    ensures
        values(insert_pair(s, one, two)) == values(s).insert(one).insert(two),
        pairs_only(s) ==> pairs_only(insert_pair(s, one, two)),
        no_repeats(s) && one != two ==> no_repeats(insert_pair(s, one, two)),
{
    let t = insert_pair(s, one, two);
    if !grouped(s, one) && !grouped(s, two) {
        let g = seq![one, two];
        assert(g[0] == one && g[1] == two);
        assert forall|x: T| grouped(t, x) <==> grouped(s, x) || x == one || x == two by {
            if grouped(t, x) {
                let i = choose|i: int| 0 <= i < t.len() && #[trigger] t[i].contains(x);
                if i < s.len() {
                    assert(t[i] == s[i]);
                } else {
                    let k = choose|k: int| 0 <= k < g.len() && g[k] == x;
                }
            }
            if grouped(s, x) {
                let i = choose|i: int| 0 <= i < s.len() && #[trigger] s[i].contains(x);
                assert(t[i] == s[i]);
            }
            if x == one || x == two {
                assert(t[s.len() as int] == g);
                assert(t[s.len() as int].contains(x));
            }
        }
        assert(values(t) =~= values(s).insert(one).insert(two));
        if no_repeats(s) && one != two {
            assert forall|i: int, k: int, j: int, l: int|
                0 <= i < t.len() && 0 <= j < t.len() && 0 <= k < t[i].len() && 0 <= l < t[j].len() && (
                i != j || k != l) implies #[trigger] t[i][k] != #[trigger] t[j][l] by {
                if i < s.len() && j < s.len() {
                    assert(t[i] == s[i] && t[j] == s[j]);
                } else if i < s.len() {
                    assert(t[i] == s[i]);
                    assert(s[i].contains(t[i][k]));
                } else if j < s.len() {
                    assert(t[j] == s[j]);
                    assert(s[j].contains(t[j][l]));
                }
            }
        }
    } else if !grouped(s, one) || !grouped(s, two) {
        let item = if !grouped(s, one) { one } else { two };
        let other = if !grouped(s, one) { two } else { one };
        let to = group_of(s, other);
        assert(0 <= to < s.len() && s[to].contains(other));
        assert(t == s.update(to, s[to].push(item)));
        let u = s[to].push(item);
        assert(u[s[to].len() as int] == item);
        assert forall|x: T| grouped(t, x) <==> grouped(s, x) || x == item by {
            if grouped(t, x) {
                let i = choose|i: int| 0 <= i < t.len() && #[trigger] t[i].contains(x);
                if i != to {
                    assert(t[i] == s[i]);
                } else if x != item {
                    let k = choose|k: int| 0 <= k < u.len() && u[k] == x;
                    assert(s[to][k] == x);
                    assert(s[to].contains(x));
                }
            }
            if grouped(s, x) {
                let i = choose|i: int| 0 <= i < s.len() && #[trigger] s[i].contains(x);
                if i != to {
                    assert(t[i] == s[i]);
                } else {
                    let k = choose|k: int| 0 <= k < s[i].len() && s[i][k] == x;
                    assert(t[i][k] == x);
                    assert(t[i].contains(x));
                }
            }
            if x == item {
                assert(t[to].contains(x));
            }
        }
        assert(values(t) =~= values(s).insert(one).insert(two));
        if pairs_only(s) {
            assert forall|i: int| 0 <= i < t.len() implies (#[trigger] t[i]).len() >= 2 by {
                if i != to {
                    assert(t[i] == s[i]);
                } else {
                    assert(s[i].len() >= 2);
                }
            }
        }
        if no_repeats(s) {
            assert forall|i: int, k: int, j: int, l: int|
                0 <= i < t.len() && 0 <= j < t.len() && 0 <= k < t[i].len() && 0 <= l < t[j].len() && (
                i != j || k != l) implies #[trigger] t[i][k] != #[trigger] t[j][l] by {
                let ni = if i == to { k == s[to].len() } else { false };
                let nj = if j == to { l == s[to].len() } else { false };
                if !ni && !nj {
                    if i == to {
                        assert(t[i][k] == s[i][k]);
                    } else {
                        assert(t[i] == s[i]);
                    }
                    if j == to {
                        assert(t[j][l] == s[j][l]);
                    } else {
                        assert(t[j] == s[j]);
                    }
                } else if ni && !nj {
                    if j == to {
                        assert(t[j][l] == s[j][l]);
                        assert(s[j].contains(t[j][l]));
                    } else {
                        assert(t[j] == s[j]);
                        assert(s[j].contains(t[j][l]));
                    }
                } else if !ni && nj {
                    if i == to {
                        assert(t[i][k] == s[i][k]);
                        assert(s[i].contains(t[i][k]));
                    } else {
                        assert(t[i] == s[i]);
                        assert(s[i].contains(t[i][k]));
                    }
                }
            }
        }
    } else {
        assert(values(t) =~= values(s).insert(one).insert(two));
    }
}

/// Groups of items, built pair by pair.
pub struct RichardSet<T: Eq + Hash> {
    vec: Vec<Vec<T>>,
}

impl<T: Eq + Hash> View for RichardSet<T> {
    type V = Seq<Seq<T>>;

    closed spec fn view(&self) -> Seq<Seq<T>> {
        self.vec@.map_values(|g: Vec<T>| g@)
    }
}

impl<T: Eq + Hash> RichardSet<T> {
    /// No item is in two groups.
    pub open spec fn wf(&self) -> bool {
        disjoint_groups(self@)
    }

    /// No groups.
    pub fn new() -> (r: Self)
        ensures
            r@ == Seq::<Seq<T>>::empty(),
            r.wf(),
            values(r@) == Set::<T>::empty(),
            pairs_only(r@),
            no_repeats(r@),
    {
        let r = Self { vec: Vec::new() };
        assert(r@ =~= Seq::<Seq<T>>::empty());
        assert(values(r@) =~= Set::<T>::empty());
        r
    }

    /// The index of the group that holds `x`, if one does.
    fn find(&self, x: &T) -> (r: Option<usize>)
        requires
            self.wf(),
            vstd::laws_eq::obeys_concrete_eq::<T>(),
        ensures
            match r {
                Some(k) => grouped(self@, *x) && group_of(self@, *x) == k,
                None => !grouped(self@, *x),
            },
    {
        let mut i: usize = 0;
        while i < self.vec.len()
            invariant
                i <= self.vec@.len(),
                self.wf(),
                vstd::laws_eq::obeys_concrete_eq::<T>(),
                forall|g: int| 0 <= g < i ==> !(#[trigger] self@[g]).contains(*x),
            decreases self.vec@.len() - i,
        {
            assert(self@[i as int] == self.vec@[i as int]@);
            let mut j: usize = 0;
            while j < self.vec[i].len()
                invariant
                    i < self.vec@.len(),
                    j <= self.vec@[i as int]@.len(),
                    self.wf(),
                    self@[i as int] == self.vec@[i as int]@,
                    vstd::laws_eq::obeys_concrete_eq::<T>(),
                    forall|k: int| 0 <= k < j ==> self.vec@[i as int]@[k] != *x,
                decreases self.vec@[i as int]@.len() - j,
            {
                proof {
                    reveal(vstd::laws_eq::obeys_concrete_eq);
                }
                if self.vec[i][j] == *x {
                    proof {
                        assert(self@[i as int][j as int] == *x);
                        lemma_group_of(self@, *x, i as int);
                    }
                    return Some(i);
                }
                j = j + 1;
            }
            assert(!self@[i as int].contains(*x));
            i = i + 1;
        }
        None
    }

    /// Adds the pair `(one, two)`: a new group of both where neither is in a
    /// group; the other one joins the group of the one that is in a group;
    /// nothing where both are in groups.
    pub fn insert(&mut self, one: T, two: T)
        requires
            old(self).wf(),
            vstd::laws_eq::obeys_concrete_eq::<T>(),
        ensures
            final(self).wf(),
            final(self)@ == insert_pair(old(self)@, one, two),
            grouped(final(self)@, one),
            grouped(final(self)@, two),
            values(final(self)@) == values(old(self)@).insert(one).insert(two),
            pairs_only(old(self)@) ==> pairs_only(final(self)@),
            no_repeats(old(self)@) && one != two ==> no_repeats(final(self)@),
    {
        proof {
            lemma_insert_pair(self@, one, two);
        }
        let oneidx = self.find(&one);
        let twoidx = self.find(&two);
        match (oneidx, twoidx) {
            (None, None) => self.new_set(one, two),
            (None, Some(idx)) => self.push_set(idx, one),
            (Some(idx), None) => self.push_set(idx, two),
            _ => (),
        }
    }

    /// Adds the group `[one, two]`, where neither is in a group.
    fn new_set(&mut self, one: T, two: T)
        requires
            old(self).wf(),
            !grouped(old(self)@, one),
            !grouped(old(self)@, two),
        ensures
            final(self).wf(),
            final(self)@ == old(self)@.push(seq![one, two]),
            grouped(final(self)@, one),
            grouped(final(self)@, two),
    {
        let ghost s = self@;
        let mut g: Vec<T> = Vec::new();
        g.push(one);
        g.push(two);
        assert(g@ =~= seq![one, two]);
        self.vec.push(g);
        let ghost t = s.push(seq![one, two]);
        assert(self@ =~= t);
        assert(t[s.len() as int][0] == one && t[s.len() as int][1] == two);
        assert(t[s.len() as int].contains(one) && t[s.len() as int].contains(two));
        assert forall|i: int, j: int, x: T|
            0 <= i < t.len() && 0 <= j < t.len() && i != j && #[trigger] t[i].contains(x) implies !#[trigger] t[j].contains(
            x,
        ) by {
            if t[j].contains(x) {
                if i == s.len() {
                    assert(x == one || x == two);
                    assert(s[j].contains(x));
                } else if j == s.len() {
                    assert(x == one || x == two);
                    assert(s[i].contains(x));
                } else {
                    assert(s[i] == t[i] && s[j] == t[j]);
                }
            }
        }
    }

    /// Adds `item` at the end of group `to`; it then counts as a member of
    /// that group.  Where it was in no group or already in group `to`, the
    /// groups stay disjoint and `to` is its group; where another group holds
    /// it too, the groups no longer are disjoint.  (`insert` only adds an
    /// item that no group holds.)
    fn push_set(&mut self, to: usize, item: T)
        requires
            old(self).wf(),
            to < old(self)@.len(),
        ensures
            final(self)@ == old(self)@.update(to as int, old(self)@[to as int].push(item)),
            final(self)@[to as int].contains(item),
            grouped(final(self)@, item),
            forall|x: T| grouped(old(self)@, x) ==> grouped(final(self)@, x),
            !grouped(old(self)@, item) || old(self)@[to as int].contains(item) ==> final(self).wf()
                && group_of(final(self)@, item) == to,
    {
        let ghost s = self@;
        let mut g: Vec<T> = Vec::new();
        std::mem::swap(&mut g, &mut self.vec[to]);
        assert(g@ == s[to as int]);
        g.push(item);
        self.vec.set(to, g);
        let ghost t = s.update(to as int, s[to as int].push(item));
        assert(self@ =~= t);
        proof {
            assert(t[to as int][s[to as int].len() as int] == item);
            assert(t[to as int].contains(item));
            if !grouped(s, item) || s[to as int].contains(item) {
                assert forall|j: int| 0 <= j < s.len() && j != to implies !(#[trigger] s[j]).contains(item) by {
                    if s[j].contains(item) {
                        assert(grouped(s, item));
                    }
                }
                lemma_push_disjoint(s, to as int, item);
                lemma_group_of(t, item, to as int);
            }
            assert forall|x: T| grouped(s, x) implies grouped(t, x) by {
                let i = choose|i: int| 0 <= i < s.len() && #[trigger] s[i].contains(x);
                if i == to {
                    let k = choose|k: int| 0 <= k < s[i].len() && s[i][k] == x;
                    assert(t[i][k] == x);
                    assert(t[i].contains(x));
                } else {
                    assert(t[i] == s[i]);
                }
            }
        }
    }

    /// The groups, in the order they were formed, each in the order its items
    /// joined.
    pub fn collect(self) -> (r: Vec<Vec<T>>)
        ensures
            r@.map_values(|g: Vec<T>| g@) == self@,
    {
        self.vec
    }
}

} // verus!
