//! Walking the entries of a directory listing, skipping the entries that
//! could not be read and the excluded paths.
use vstd::prelude::*;

use crate::path::{keys_eq, path_key, path_key_of, same_path};
use crate::text::{string_views, views};

verus! {

/// Some path of `excluded` is the same path as `p` (compared by components).
pub open spec fn excludes(excluded: Set<Seq<char>>, p: Seq<char>) -> bool {
    exists|q: Seq<char>| excluded.contains(q) && #[trigger] same_path(q, p)
}

/// The paths of the readable entries that are not excluded, in order.
pub open spec fn included(entries: Seq<Option<Seq<char>>>, excluded: Set<Seq<char>>) -> Seq<Seq<char>>
    decreases entries.len(),
{
    if entries.len() == 0 {
        seq![]
    } else {
        match entries[0] {
            Some(p) => if excludes(excluded, p) {
                included(entries.drop_first(), excluded)
            } else {
                seq![p] + included(entries.drop_first(), excluded)
            },
            None => included(entries.drop_first(), excluded),
        }
    }
}

/// The paths of a walk are paths of readable entries, none of them left out.
pub proof fn lemma_included(entries: Seq<Option<Seq<char>>>, excluded: Set<Seq<char>>)
    ensures
        forall|p: Seq<char>|
            #[trigger] included(entries, excluded).contains(p) ==> entries.contains(Some(p))
                && !excludes(excluded, p),
    decreases entries.len(),
{
    if entries.len() > 0 {
        let t = entries.drop_first();
        lemma_included(t, excluded);
        assert forall|p: Seq<char>| #[trigger] included(entries, excluded).contains(p) implies entries.contains(
            Some(p),
        ) && !excludes(excluded, p) by {
            let r = included(t, excluded);
            if r.contains(p) {
                let k = choose|k: int| 0 <= k < t.len() && t[k] == Some(p);
                assert(entries[k + 1] == Some(p));
            }
            match entries[0] {
                Some(q) => if !excludes(excluded, q) {
                    let all = seq![q] + r;
                    let k = choose|k: int| 0 <= k < all.len() && all[k] == p;
                    if k > 0 {
                        assert(r[k - 1] == p);
                    } else {
                        assert(entries[0] == Some(p));
                    }
                },
                None => {},
            }
        }
    }
}

/// The views of directory entries: a path, or none for an entry that could
/// not be read.
pub open spec fn entry_views(v: Seq<Option<String>>) -> Seq<Option<Seq<char>>> {
    v.map_values(|e: Option<String>| match e {
        Some(s) => Some(s@),
        None => None,
    })
}

/// The entries of a directory listing, walked from the front, and the paths
/// to leave out.
pub struct LynxIter {
    entries: Vec<Option<String>>,
    pos: usize,
    exclude: Vec<String>,
}

impl LynxIter {
    /// The entries not walked yet.
    pub closed spec fn rest(&self) -> Seq<Option<Seq<char>>> {
        entry_views(self.entries@).skip(self.pos as int)
    }

    /// The paths left out.
    pub closed spec fn excluded(&self) -> Set<Seq<char>> {
        string_views(self.exclude@).to_set()
    }

    /// The paths that the walk still gives, in order.
    pub open spec fn pending(&self) -> Seq<Seq<char>> {
        included(self.rest(), self.excluded())
    }

    /// The position is inside the entries.
    pub closed spec fn wf(&self) -> bool {
        self.pos <= self.entries@.len()
    }

    /// A walk over the entries of a listing, leaving nothing out.
    pub fn new(dir: Vec<Option<String>>) -> (r: Self)
        ensures
            r.wf(),
            r.rest() == entry_views(dir@),
            r.excluded() == Set::<Seq<char>>::empty(),
    {
        let r = Self { entries: dir, pos: 0, exclude: Vec::new() };
        assert(r.rest() =~= entry_views(dir@));
        assert(r.excluded() =~= Set::<Seq<char>>::empty());
        r
    }

    /// Leaves `path` out of the rest of the walk.
    pub fn exclude(&mut self, path: String)
        requires
            old(self).wf(),
        ensures
            final(self).wf(),
            final(self).rest() == old(self).rest(),
            final(self).excluded() == old(self).excluded().insert(path@),
    {
        let ghost before = string_views(self.exclude@);
        self.exclude.push(path);
        assert(string_views(self.exclude@) =~= before.push(path@));
        proof {
            before.lemma_push_to_set_commute(path@);
        }
    }

    /// Whether `path` is left out: some excluded path is the same path.
    fn is_excluded(&self, path: &String) -> (r: bool)
        ensures
            r == excludes(self.excluded(), path@),
    {
        let key = path_key_of(path.as_str());
        let mut k: usize = 0;
        while k < self.exclude.len()
            invariant
                k <= self.exclude@.len(),
                views(key@) == path_key(path@),
                forall|j: int| 0 <= j < k ==> !same_path(#[trigger] self.exclude@[j]@, path@),
            decreases self.exclude@.len() - k,
        {
            let other = path_key_of(self.exclude[k].as_str());
            if keys_eq(&other, &key) {
                proof {
                    let q = self.exclude@[k as int]@;
                    assert(string_views(self.exclude@)[k as int] == q);
                    assert(self.excluded().contains(q));
                    assert(same_path(q, path@));
                }
                return true;
            }
            k = k + 1;
        }
        proof {
            if excludes(self.excluded(), path@) {
                let q = choose|q: Seq<char>| self.excluded().contains(q) && #[trigger] same_path(q, path@);
                let j = choose|j: int| 0 <= j < self.exclude@.len() && string_views(self.exclude@)[j] == q;
                assert(self.exclude@[j]@ == q);
            }
        }
        false
    }

    /// The next readable entry, skipping those that could not be read; none
    /// at the end.
    fn seek_till_ok(&mut self) -> (r: Option<String>)
        requires
            old(self).wf(),
        ensures
            final(self).wf(),
            final(self).excluded() == old(self).excluded(),
            match r {
                Some(p) => {
                    &&& final(self).rest().len() < old(self).rest().len()
                    &&& included(old(self).rest(), old(self).excluded()) == if excludes(old(self).excluded(), p@) {
                        included(final(self).rest(), old(self).excluded())
                    } else {
                        seq![p@] + included(final(self).rest(), old(self).excluded())
                    }
                },
                None => included(old(self).rest(), old(self).excluded()) == Seq::<Seq<char>>::empty()
                    && final(self).rest().len() == 0,
            },
    {
        let ghost ex = self.excluded();
        let ghost start = self.rest();
        loop
            invariant
                self.wf(),
                ex == old(self).excluded(),
                start == old(self).rest(),
                self.excluded() == ex,
                self.exclude == old(self).exclude,
                self.entries == old(self).entries,
                self.rest().len() <= start.len(),
                included(start, ex) == included(self.rest(), ex),
            decreases self.entries@.len() - self.pos,
        {
            if self.pos >= self.entries.len() {
                assert(self.rest().len() == 0);
                assert(included(self.rest(), ex) =~= Seq::<Seq<char>>::empty());
                return None;
            }
            let ghost here = self.rest();
            assert(here[0] == entry_views(self.entries@)[self.pos as int]);
            assert(here.drop_first() =~= entry_views(self.entries@).skip(self.pos + 1));
            let k = self.pos;
            self.pos = self.pos + 1;
            assert(self.rest() == here.drop_first());
            match &self.entries[k] {
                Some(p) => {
                    let q = p.clone();
                    assert(here[0] == Some(q@));
                    return Some(q);
                },
                None => {
                    assert(here[0] is None);
                },
            }
        }
    }

    /// The next readable entry that is not left out; none at the end.
    fn seek_till_include(&mut self) -> (r: Option<String>)
        requires
            old(self).wf(),
        ensures
            final(self).wf(),
            final(self).excluded() == old(self).excluded(),
            match r {
                Some(p) => old(self).pending() == seq![p@] + final(self).pending(),
                None => old(self).pending() == Seq::<Seq<char>>::empty() && final(self).pending()
                    == Seq::<Seq<char>>::empty(),
            },
    {
        let ghost start = self.pending();
        loop
            invariant
                self.wf(),
                self.excluded() == old(self).excluded(),
                start == old(self).pending(),
                self.pending() == start,
            decreases self.rest().len(),
        {
            match self.seek_till_ok() {
                Some(p) => {
                    if !self.is_excluded(&p) {
                        return Some(p);
                    }
                },
                None => {
                    return None;
                },
            }
        }
    }

    /// The next path of the walk: the next readable entry that is not left
    /// out; none at the end.
    pub fn next(&mut self) -> (r: Option<String>)
        requires
            old(self).wf(),
        ensures
            final(self).wf(),
            final(self).excluded() == old(self).excluded(),
            match r {
                Some(p) => old(self).pending() == seq![p@] + final(self).pending(),
                None => old(self).pending() == Seq::<Seq<char>>::empty() && final(self).pending()
                    == Seq::<Seq<char>>::empty(),
            },
    {
        self.seek_till_include()
    }
}

} // verus!
