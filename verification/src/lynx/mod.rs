//! A future gathering of the entries of a directory: first the walk over the
//! listing, then the results computed from its paths, then nothing.
use vstd::prelude::*;

use crate::text::string_views;

pub use iter::{entry_views, included, LynxIter};

pub mod iter;

verus! {

/// `r` is a result that `func` may give for a path with the characters `p`.
pub open spec fn result_of<T, F: Fn(String) -> T>(func: F, p: Seq<char>, r: T) -> bool {
    exists|s: String| s@ == p && #[trigger] call_ensures(func, (s,), r)
}

/// Represents a future directory gathering effort.
///
/// Several methods are only meant for one of the states: `exclude` and
/// `exclude_many` for `Todo`, `size` and `consume` for `Res`.
pub enum Lynx<T> {
    Todo(LynxIter),
    Res(Vec<T>),
    Done,
}

impl<T> Lynx<T> {
    /// The walk of a `Todo` is well formed.
    pub open spec fn wf(&self) -> bool {
        match self {
            Lynx::Todo(it) => it.wf(),
            _ => true,
        }
    }

    /// A gathering of the entries of a directory listing, an entry being a
    /// path or none where it could not be read.
    pub fn new(dir: Vec<Option<String>>) -> (r: Self)
        ensures
            r.wf(),
            r matches Lynx::Todo(it) && it.rest() == entry_views(dir@) && it.excluded()
                == Set::<Seq<char>>::empty(),
    {
        Lynx::Todo(LynxIter::new(dir))
    }

    /// Adds `path` to the paths that the walk leaves out.
    pub fn exclude(&mut self, path: &str)
        requires
            old(self).wf(),
            *old(self) is Todo,
        ensures
            final(self).wf(),
            *final(self) matches Lynx::Todo(it) && *old(self) matches Lynx::Todo(it0) && it.rest()
                == it0.rest() && it.excluded() == it0.excluded().insert(path@),
    {
        match self {
            Lynx::Todo(iter) => {
                iter.exclude(path.to_owned());
            },
            _ => {},
        }
    }

    /// Adds each of `paths` to the paths that the walk leaves out.
    pub fn exclude_many(&mut self, paths: &Vec<String>)
        requires
            old(self).wf(),
            *old(self) is Todo,
        ensures
            final(self).wf(),
            *final(self) matches Lynx::Todo(it) && *old(self) matches Lynx::Todo(it0) && it.rest()
                == it0.rest() && it.excluded() == it0.excluded() + string_views(paths@).to_set(),
    {
        match self {
            Lynx::Todo(iter) => {
                let ghost ex0 = iter.excluded();
                let ghost rest0 = iter.rest();
                assert(string_views(paths@.take(0)).to_set() =~= Set::<Seq<char>>::empty());
                assert(ex0 + Set::<Seq<char>>::empty() =~= ex0);
                for i in 0..paths.len()
                    invariant
                        iter.wf(),
                        iter.rest() == rest0,
                        iter.excluded() == ex0 + string_views(paths@.take(i as int)).to_set(),
                {
                    let ghost before = string_views(paths@.take(i as int));
                    iter.exclude(paths[i].clone());
                    proof {
                        assert(string_views(paths@.take(i + 1)) =~= before.push(paths@[i as int]@));
                        before.lemma_push_to_set_commute(paths@[i as int]@);
                        assert(iter.excluded() =~= ex0 + string_views(paths@.take(i + 1)).to_set());
                    }
                }
                assert(paths@.take(paths@.len() as int) =~= paths@);
            },
            _ => {},
        }
    }

    /// Turns a `Todo` into the results of `func` on the paths of its walk,
    /// in order; leaves any other state as it is, without calling `func`.
    pub fn compute<F: Fn(String) -> T>(&mut self, func: F)
        requires
            old(self).wf(),
            *old(self) is Todo ==> forall|p: String| #[trigger] call_requires(func, (p,)),
        ensures
            final(self).wf(),
            match *old(self) {
                Lynx::Todo(it) => *final(self) matches Lynx::Res(res) && res@.len() == it.pending().len()
                    && forall|i: int|
                    0 <= i < res@.len() ==> #[trigger] result_of(func, it.pending()[i], res@[i]),
                _ => *final(self) == *old(self),
            },
    {
        let mut cur: Lynx<T> = Lynx::Done;
        std::mem::swap(&mut cur, self);
        match cur {
            Lynx::Todo(mut iter) => {
                let ghost all = iter.pending();
                let mut res: Vec<T> = Vec::new();
                loop
                    invariant
                        iter.wf(),
                        forall|p: String| #[trigger] call_requires(func, (p,)),
                        all == all.take(res@.len() as int) + iter.pending(),
                        res@.len() <= all.len(),
                        forall|i: int|
                            0 <= i < res@.len() ==> #[trigger] result_of(func, all[i], res@[i]),
                    ensures
                        res@.len() == all.len(),
                        forall|i: int|
                            0 <= i < res@.len() ==> #[trigger] result_of(func, all[i], res@[i]),
                    decreases iter.pending().len(),
                {
                    match iter.next() {
                        Some(path) => {
                            let ghost pg = path;
                            let v = func(path);
                            let ghost n = res@.len();
                            let ghost old_res = res@;
                            res.push(v);
                            proof {
                                assert(all[n as int] == pg@);
                                assert(all.take(n + 1int) =~= all.take(n as int).push(pg@));
                                assert(all == all.take(res@.len() as int) + iter.pending());
                                assert(call_ensures(func, (pg,), v));
                                assert(result_of(func, all[n as int], v));
                                assert forall|i: int| 0 <= i < res@.len() implies #[trigger] result_of(
                                    func,
                                    all[i],
                                    res@[i],
                                ) by {
                                    if i < n {
                                        assert(res@[i] == old_res[i]);
                                    }
                                }
                            }
                        },
                        None => {
                            assert(all.take(res@.len() as int) =~= all);
                            break;
                        },
                    }
                }
                *self = Lynx::Res(res);
            },
            other => {
                *self = other;
            },
        }
    }

    /// The number of results.
    pub fn size(&self) -> (r: usize)
        requires
            *self is Res,
        ensures
            *self matches Lynx::Res(res) && r == res@.len(),
    {
        match self {
            Lynx::Res(res) => res.len(),
            _ => 0,
        }
    }

    /// Hands out the results and leaves nothing.
    pub fn consume(&mut self) -> (r: Vec<T>)
        requires
            *old(self) is Res,
        ensures
            *old(self) matches Lynx::Res(res) && r == res,
            *final(self) is Done,
    {
        let mut cur: Lynx<T> = Lynx::Done;
        std::mem::swap(&mut cur, self);
        match cur {
            Lynx::Res(res) => res,
            _ => Vec::new(),
        }
    }
}

} // verus!
