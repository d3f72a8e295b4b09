//! The options of a run over an image directory.
use vstd::prelude::*;

verus! {

/// Whether a run reads the cache of earlier hashes, and how alike two images
/// must be to be reported.
pub struct Options {
    use_cache: bool,
    distance: u32,
}

impl Options {
    /// Whether the cache is read.
    pub closed spec fn spec_use_cache(&self) -> bool {
        self.use_cache
    }

    /// The largest Hamming distance at which two images count as alike.
    pub closed spec fn spec_distance(&self) -> u32 {
        self.distance
    }

    /// The default options: the cache is not read, and only equal hashes
    /// match.
    pub fn new() -> (r: Self)
        ensures
            !r.spec_use_cache(),
            r.spec_distance() == 0,
    {
        Self::default()
    }

    /// These options, reading the cache or not.
    pub fn use_cache(self, uses: bool) -> (r: Self)
        ensures
            r.spec_use_cache() == uses,
            r.spec_distance() == self.spec_distance(),
    {
        let mut s = self;
        s.use_cache = uses;
        s
    }

    /// These options, with another distance.
    pub fn distance(self, dist: u32) -> (r: Self)
        ensures
            r.spec_use_cache() == self.spec_use_cache(),
            r.spec_distance() == dist,
    {
        let mut s = self;
        s.distance = dist;
        s
    }

    /// Whether the cache is read.
    pub fn reads_cache(&self) -> (r: bool)
        ensures
            r == self.spec_use_cache(),
    {
        self.use_cache
    }

    /// The largest Hamming distance at which two images count as alike.
    pub fn max_distance(&self) -> (r: u32)
        ensures
            r == self.spec_distance(),
    {
        self.distance
    }
}

impl Default for Options {
    fn default() -> (r: Self)
        ensures
            !r.spec_use_cache(),
            r.spec_distance() == 0,
    {
        Self { use_cache: false, distance: 0 }
    }
}

} // verus!
