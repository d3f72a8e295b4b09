//! Finding look-alike images among the hashed cookies of a jar, and the
//! options of a run.
use vstd::prelude::*;

use crate::cookiejar::{CookieJar, HashCookie, HashGramma};
use matching::{cookie_views, elems, hashed_first, hashes_fit, kitty_groups, match_groups, set_views};

pub mod cheetah;
pub mod matching;
pub mod util;

verus! {

/// How a run treats the cache and how alike two images must be.
pub struct Options {
    use_stow: bool,
    distance: u32,
}

impl Options {
    /// Whether the cache of earlier hashes is read.
    pub closed spec fn spec_use_stow(&self) -> bool {
        self.use_stow
    }

    /// The largest Hamming distance at which two images count as alike.
    pub closed spec fn spec_distance(&self) -> u32 {
        self.distance
    }

    /// Whether the cache of earlier hashes is read.
    pub fn reads_stow(&self) -> (r: bool)
        ensures
            r == self.spec_use_stow(),
    {
        self.use_stow
    }

    /// The largest Hamming distance at which two images count as alike.
    pub fn max_distance(&self) -> (r: u32)
        ensures
            r == self.spec_distance(),
    {
        self.distance
    }

    /// Options that read the cache and match only equal hashes.
    pub fn new() -> (r: Self)
        ensures
            r.spec_use_stow(),
            r.spec_distance() == 0,
    {
        Self { use_stow: true, distance: 0 }
    }

    /// These options, reading the cache or not.
    pub fn uses_stow(self, uses: bool) -> (r: Self)
        ensures
            r.spec_use_stow() == uses,
            r.spec_distance() == self.spec_distance(),
    {
        let mut s = self;
        s.use_stow = uses;
        s
    }

    /// These options, with another distance.
    pub fn distance(self, dist: u32) -> (r: Self)
        ensures
            r.spec_use_stow() == self.spec_use_stow(),
            r.spec_distance() == dist,
    {
        let mut s = self;
        s.distance = dist;
        s
    }
}

/// The groups of look-alike images of a jar.
pub struct Kitty<'a> {
    pub matches: Vec<Vec<&'a HashCookie>>,
    /// The jar indices of the cookies of each group, in the order of `matches`.
    pub groups: Ghost<Seq<Seq<usize>>>,
}

impl<'a> Kitty<'a> {
    /// The jar indices of the cookies of each group.
    pub open spec fn groups(&self) -> Seq<Seq<usize>> {
        self.groups@
    }

    /// Groups the hashed cookies of the jar: every hashed cookie with later
    /// hashed cookies within `dist` of it forms a match set with them, and
    /// overlapping match sets are merged (see `kitty_groups`).  Each group
    /// lists its cookies once each, in an order left open.
    ///
    /// The match set of a hashed cookie is searched for in the list of the
    /// hashed cookies from its jar index on, so the cookies with a hash must
    /// come before those without one (elsewhere that index lies past the end
    /// of the list); and no distance may overflow a `u32` (`dist + 1`
    /// included).
    pub fn new(cookies: &'a CookieJar<HashGramma>, dist: u32) -> (r: Self)
        requires
            dist < u32::MAX,
            hashed_first(cookies@),
            hashes_fit(cookies@),
        ensures
            r.groups().len() == kitty_groups(cookies@, dist).len(),
            r.matches@.len() == r.groups().len(),
            forall|g: int|
                0 <= g < r.groups().len() ==> elems(#[trigger] r.groups()[g]) == kitty_groups(
                    cookies@,
                    dist,
                )[g] && r.groups()[g].no_duplicates() && r.matches@[g]@.len()
                    == r.groups()[g].len(),
            forall|g: int, t: int|
                0 <= g < r.groups().len() && 0 <= t < r.groups()[g].len() ==> (
                #[trigger] r.matches@[g]@[t])@ == cookies@[r.groups()[g][t] as int],
    {
        let jar = cookies.jar();
        assert(cookie_views(jar@) == cookies@);
        let ids = match_groups(jar, dist);
        proof {
            matching::lemma_hashed_len(cookies@);
        }
        let mut matches: Vec<Vec<&'a HashCookie>> = Vec::new();
        let mut g: usize = 0;
        while g < ids.len()
            invariant
                g <= ids@.len(),
                cookie_views(jar@) == cookies@,
                forall|a: int, b: int|
                    0 <= a < ids@.len() && 0 <= b < ids@[a]@.len() ==> #[trigger] ids@[a]@[b]
                        < jar@.len(),
                matches@.len() == g,
                forall|a: int| 0 <= a < g ==> (#[trigger] matches@[a])@.len() == ids@[a]@.len(),
                forall|a: int, b: int|
                    0 <= a < g && 0 <= b < ids@[a]@.len() ==> (#[trigger] matches@[a]@[b])@
                        == cookies@[ids@[a]@[b] as int],
            decreases ids@.len() - g,
        {
            let mut refs: Vec<&'a HashCookie> = Vec::new();
            let mut t: usize = 0;
            while t < ids[g].len()
                invariant
                    g < ids@.len(),
                    t <= ids@[g as int]@.len(),
                    cookie_views(jar@) == cookies@,
                    forall|a: int, b: int|
                        0 <= a < ids@.len() && 0 <= b < ids@[a]@.len() ==> #[trigger] ids@[a]@[b]
                            < jar@.len(),
                    refs@.len() == t,
                    forall|b: int|
                        0 <= b < t ==> (#[trigger] refs@[b])@ == cookies@[ids@[g as int]@[b] as int],
                decreases ids@[g as int]@.len() - t,
            {
                let idx = ids[g][t];
                refs.push(&jar[idx]);
                t = t + 1;
            }
            matches.push(refs);
            g = g + 1;
        }
        let ghost groups = ids@.map_values(|v: Vec<usize>| v@);
        assert(set_views(ids@) == kitty_groups(cookies@, dist));
        proof {
            assert forall|a: int| 0 <= a < groups.len() implies elems(#[trigger] groups[a])
                == kitty_groups(cookies@, dist)[a] by {
                assert(set_views(ids@)[a] == elems(ids@[a]@));
            }
        }
        Kitty { matches, groups: Ghost(groups) }
    }
}

} // verus!
