//! Finding the files of a directory that the cookie jar does not hold yet,
//! and adding them to the jar with their hashes.
use vstd::prelude::*;

use crate::cookiejar::hashcookie::{hash_of_file, hash_view};
use crate::imagehash::image_hash_of;
use crate::cookiejar::{CookieJar, HashCookie, HashCookieView, HashGramma};
use crate::kitty::cheetah::cache_path;
use crate::lynx::iter::excludes;
use crate::lynx::{entry_views, included, Lynx};
use crate::path::same_path;
use crate::text::string_views;

verus! {

/// The paths of the cookies of a jar.
pub open spec fn jar_paths(cookies: Seq<HashCookieView>) -> Seq<Seq<char>> {
    cookies.map_values(|c: HashCookieView| c.path)
}

/// The paths of some cookies.
pub open spec fn cookie_paths(cookies: Seq<HashCookie>) -> Seq<Seq<char>> {
    cookies.map_values(|c: HashCookie| c.path@)
}

/// The paths that a walk over the entries gives when it leaves out the
/// cache file and every path of the jar.
pub open spec fn fresh_paths(entries: Seq<Option<Seq<char>>>, cookies: Seq<HashCookieView>) -> Seq<Seq<char>> {
    included(entries, set![cache_path()] + jar_paths(cookies).to_set())
}

/// The files that a gathering hashes are readable entries of the listing,
/// never the cache file and never a path that the jar already holds (paths
/// compared by their components).
pub proof fn lemma_fresh_paths(entries: Seq<Option<Seq<char>>>, cookies: Seq<HashCookieView>)
    ensures
        forall|p: Seq<char>|
            #[trigger] fresh_paths(entries, cookies).contains(p) ==> entries.contains(Some(p))
                && !same_path(cache_path(), p) && forall|q: Seq<char>|
                jar_paths(cookies).contains(q) ==> !#[trigger] same_path(q, p),
{
    let ex = set![cache_path()] + jar_paths(cookies).to_set();
    crate::lynx::iter::lemma_included(entries, ex);
    assert forall|p: Seq<char>| #[trigger] fresh_paths(entries, cookies).contains(p) implies entries.contains(
        Some(p),
    ) && !same_path(cache_path(), p) && forall|q: Seq<char>|
        jar_paths(cookies).contains(q) ==> !#[trigger] same_path(q, p) by {
        assert(!excludes(ex, p));
        assert(ex.contains(cache_path()));
        assert forall|q: Seq<char>| jar_paths(cookies).contains(q) implies !#[trigger] same_path(q, p) by {
            assert(ex.contains(q));
        }
    }
}

/// The cookies of the files at the paths, each with the hash of its
/// contents (none where the file could not be read or holds no image).
pub open spec fn hashed_cookies(paths: Seq<Seq<char>>, images: Seq<Option<Vec<u8>>>) -> Seq<HashCookieView> {
    Seq::new(
        paths.len(),
        |i: int| HashCookieView { hash: hash_of_file(paths[i], hash_view(images[i])), path: paths[i] },
    )
}

/// Law: there is one cookie per path, in order, with that path; a file
/// whose contents were read gets the hash of the image they hold (none where
/// they hold no image), whatever their size, and an unread file gets none.
pub proof fn lemma_hashed_cookies(paths: Seq<Seq<char>>, images: Seq<Option<Vec<u8>>>)
    ensures
        hashed_cookies(paths, images).len() == paths.len(),
        forall|i: int|
            0 <= i < paths.len() ==> (#[trigger] hashed_cookies(paths, images)[i]).path == paths[i]
                && hashed_cookies(paths, images)[i].hash == match images[i] {
                Some(d) => image_hash_of(paths[i], d@),
                None => None,
            },
{
}

/// Hashes the files of a directory that are new to a cookie jar.
pub struct Cheetah {
    links: Lynx<HashCookie>,
}

impl Cheetah {
    /// The gathering of the new files.
    pub closed spec fn links(&self) -> Lynx<HashCookie> {
        self.links
    }

    /// The gathering is well formed.
    pub open spec fn wf(&self) -> bool {
        self.links().wf()
    }

    /// The paths of the new files, in order: those that the walk still
    /// gives, or those of the cookies already made; none once handed out.
    pub open spec fn pending(&self) -> Seq<Seq<char>> {
        match self.links() {
            Lynx::Todo(it) => it.pending(),
            Lynx::Res(res) => cookie_paths(res@),
            Lynx::Done => seq![],
        }
    }

    /// The new files have been handed out: nothing is left to count or add.
    pub open spec fn spent(&self) -> bool {
        self.links() is Done
    }

    /// A gathering over the entries of a directory listing (a path, or none
    /// for an entry that could not be read) that leaves out the cache file
    /// `./.x3c` and every path that the jar holds a cookie for.
    pub fn new(cookiejar: &CookieJar<HashGramma>, dir: Vec<Option<String>>) -> (r: Self)
        ensures
            r.wf(),
            !r.spent(),
            r.pending() == fresh_paths(entry_views(dir@), cookiejar@),
    {
        let mut links: Lynx<HashCookie> = Lynx::new(dir);
        links.exclude("./.x3c");
        proof {
            reveal_strlit("./.x3c");
            assert("./.x3c"@ =~= cache_path());
        }
        let jar = cookiejar.jar();
        let mut paths: Vec<String> = Vec::new();
        for i in 0..jar.len()
            invariant
                jar@.map_values(|c: HashCookie| c@) == cookiejar@,
                paths@.len() == i,
                string_views(paths@) == jar_paths(cookiejar@).take(i as int),
        {
            assert(jar@.map_values(|c: HashCookie| c@)[i as int] == jar@[i as int]@);
            assert(jar_paths(cookiejar@)[i as int] == jar@[i as int].path@);
            paths.push(jar[i].path.clone());
            assert(string_views(paths@)[i as int] == jar@[i as int].path@);
            assert(string_views(paths@) =~= jar_paths(cookiejar@).take(i + 1));
        }
        assert(jar_paths(cookiejar@).take(jar@.len() as int) =~= jar_paths(cookiejar@));
        links.exclude_many(&paths);
        proof {
            assert(set![cache_path()] =~= Set::<Seq<char>>::empty().insert(cache_path()));
        }
        Self { links }
    }

    /// Makes a cookie without a hash for each new file, and counts them.
    pub fn len(&mut self) -> (r: usize)
        requires
            old(self).wf(),
            !old(self).spent(),
        ensures
            final(self).wf(),
            !final(self).spent(),
            final(self).pending() == old(self).pending(),
            r == old(self).pending().len(),
    {
        self.compute();
        self.links.size()
    }

    /// Turns the walk into cookies without a hash, one per new file.
    fn compute(&mut self)
        requires
            old(self).wf(),
        ensures
            final(self).wf(),
            final(self).pending() == old(self).pending(),
            !(final(self).links() is Todo),
            old(self).links() is Todo || old(self).links() is Res ==> final(self).links() is Res,
    {
        let ghost before = self.links;
        self.links.compute(HashCookie::new);
        let ghost after = self.links;
        proof {
            match before {
                Lynx::Todo(it) => {
                    if let Lynx::Res(res) = after {
                        assert forall|i: int| 0 <= i < res@.len() implies #[trigger] cookie_paths(res@)[i]
                            == it.pending()[i] by {
                            assert(crate::lynx::result_of(HashCookie::new, it.pending()[i], res@[i]));
                        }
                        assert(cookie_paths(res@) =~= it.pending());
                    }
                },
                _ => {},
            }
        }
    }

    /// The paths of the new files, in order, with a cookie made for each.
    pub fn pending_paths(&mut self) -> (r: Vec<String>)
        requires
            old(self).wf(),
            !old(self).spent(),
        ensures
            final(self).wf(),
            !final(self).spent(),
            final(self).pending() == old(self).pending(),
            string_views(r@) == old(self).pending(),
    {
        self.compute();
        let mut r: Vec<String> = Vec::new();
        match &self.links {
            Lynx::Res(res) => {
                for i in 0..res.len()
                    invariant
                        r@.len() == i,
                        string_views(r@) == cookie_paths(res@).take(i as int),
                {
                    r.push(res[i].path.clone());
                    assert(string_views(r@)[i as int] == cookie_paths(res@)[i as int]);
                    assert(string_views(r@) =~= cookie_paths(res@).take(i + 1));
                }
                assert(cookie_paths(res@).take(res@.len() as int) =~= cookie_paths(res@));
            },
            _ => {},
        }
        r
    }

    /// Hashes each new file, in order, from its contents (none where the
    /// file could not be read), and adds its cookie to the jar: with the hash
    /// where the contents hold an image, else without one.
    pub fn hash(&mut self, cookiejar: &mut CookieJar<HashGramma>, images: Vec<Option<Vec<u8>>>)
        requires
            old(self).wf(),
            !old(self).spent(),
            images@.len() == old(self).pending().len(),
        ensures
            final(self).spent(),
            final(cookiejar)@ == old(cookiejar)@ + hashed_cookies(old(self).pending(), images@),
            final(cookiejar)@.len() == old(cookiejar)@.len() + images@.len(),
            forall|i: int| 0 <= i < old(cookiejar)@.len() ==> #[trigger] final(cookiejar)@[i] == old(cookiejar)@[i],
            forall|i: int|
                0 <= i < images@.len() ==> (#[trigger] final(cookiejar)@[old(cookiejar)@.len() + i]).path
                    == old(self).pending()[i] && final(cookiejar)@[old(cookiejar)@.len() + i].hash
                    == match images@[i] {
                    Some(d) => image_hash_of(old(self).pending()[i], d@),
                    None => None,
                },
            final(cookiejar).spec_gramma() == old(cookiejar).spec_gramma(),
    {
        proof {
            lemma_hashed_cookies(self.pending(), images@);
        }
        let ghost paths = self.pending();
        self.compute();
        let cookies = self.links.consume();
        assert(cookie_paths(cookies@) == paths);
        let ghost j0 = cookiejar@;
        let ghost hc = hashed_cookies(paths, images@);
        let n = cookies.len();
        let mut k: usize = 0;
        assert(hc.take(0) =~= Seq::<HashCookieView>::empty());
        assert(j0 + hc.take(0) =~= j0);
        for data in it: images
            invariant
                k == it.index(),
                n == cookies@.len(),
                k <= cookies@.len(),
                it.seq() == images@,
                images@.len() == cookies@.len(),
                cookie_paths(cookies@) == paths,
                hc == hashed_cookies(paths, images@),
                cookiejar@ == j0 + hc.take(k as int),
                cookiejar.spec_gramma() == old(cookiejar).spec_gramma(),
        {
            assert(k < cookies@.len());
            let mut c = HashCookie::new(cookies[k].path.clone());
            match &data {
                Some(d) => {
                    c.hash(d.as_slice());
                },
                None => {},
            }
            cookiejar.add(c);
            proof {
                assert(c@ == hc[k as int]);
                assert(hc.take(k + 1) =~= hc.take(k as int).push(hc[k as int]));
            }
            k = k + 1;
        }
        assert(hc.take(images@.len() as int) =~= hc);
    }
}

} // verus!
