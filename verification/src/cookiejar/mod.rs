//! A jar of cookies: values that a gramma reads from and writes to the lines
//! of a cache text.
use vstd::prelude::*;

use crate::text::{join, split, split_chars, string_of, string_views, to_chars, join_strings, views};

pub use hashcookie::{HashCookie, HashCookieView, HashGramma};

pub mod hashcookie;

verus! {

/// A gramma creates cookies by providing methods which
/// convert a pair of strings to and from cookies.
pub trait Gramma {
    type Cookie: View;

    /// The cookie read from a line, if the line holds one.
    spec fn spec_cookie(&self, line: Seq<char>) -> Option<<Self::Cookie as View>::V>;

    /// The line written for a cookie, if the cookie can be written.
    spec fn spec_devour(&self, cookie: <Self::Cookie as View>::V) -> Option<Seq<char>>;

    /// The cookies whose line holds no newline and reads back as the cookie.
    spec fn round_trips(&self, cookie: <Self::Cookie as View>::V) -> bool;

    /// creates a cookie from a string
    fn cookie(&self, string: &str) -> (r: Option<Self::Cookie>)
        ensures
            match r {
                Some(c) => self.spec_cookie(string@) == Some(c@),
                None => self.spec_cookie(string@) is None,
            },
    ;

    /// turns a cookie into a string
    fn devour(&self, cookie: Self::Cookie) -> (r: Option<String>)
        ensures
            match r {
                Some(s) => self.spec_devour(cookie@) == Some(s@),
                None => self.spec_devour(cookie@) is None,
            },
            self.round_trips(cookie@) ==> (r matches Some(s) && !s@.contains('\n')
                && self.spec_cookie(s@) == Some(cookie@)),
    ;
}

/// The cookies that the lines hold, in order; lines that hold none are skipped.
pub open spec fn parse_lines<G: Gramma>(g: G, lines: Seq<Seq<char>>) -> Seq<<G::Cookie as View>::V>
    decreases lines.len(),
{
    if lines.len() == 0 {
        seq![]
    } else {
        let before = parse_lines(g, lines.drop_last());
        match g.spec_cookie(lines.last()) {
            Some(c) => before.push(c),
            None => before,
        }
    }
}

/// The lines written for the cookies, in order; cookies that cannot be
/// written are left out.
pub open spec fn render_cookies<G: Gramma>(g: G, cookies: Seq<<G::Cookie as View>::V>) -> Seq<Seq<char>>
    decreases cookies.len(),
{
    if cookies.len() == 0 {
        seq![]
    } else {
        let before = render_cookies(g, cookies.drop_last());
        match g.spec_devour(cookies.last()) {
            Some(l) => before.push(l),
            None => before,
        }
    }
}

/// The line separator of a cache text.
pub open spec fn newline() -> Seq<char> {
    seq!['\n']
}

/// The cookies that a cache text holds, one per line.
pub open spec fn parse_text<G: Gramma>(g: G, text: Seq<char>) -> Seq<<G::Cookie as View>::V> {
    parse_lines(g, split(text, newline()))
}

/// The cache text written for the cookies: their lines joined by newlines.
pub open spec fn render_text<G: Gramma>(g: G, cookies: Seq<<G::Cookie as View>::V>) -> Seq<char> {
    join(render_cookies(g, cookies), newline())
}

/// The line of the cookie holds no newline and reads back as the cookie.
pub open spec fn reads_back<G: Gramma>(g: G, c: <G::Cookie as View>::V) -> bool {
    &&& g.spec_devour(c) is Some
    &&& !g.spec_devour(c)->0.contains('\n')
    &&& g.spec_cookie(g.spec_devour(c)->0) == Some(c)
}

/// Reading the lines written for cookies that read back gives the cookies.
pub proof fn lemma_parse_render<G: Gramma>(g: G, cs: Seq<<G::Cookie as View>::V>)
    requires
        forall|k: int| 0 <= k < cs.len() ==> reads_back(g, #[trigger] cs[k]),
    ensures
        render_cookies(g, cs).len() == cs.len(),
        parse_lines(g, render_cookies(g, cs)) == cs,
        forall|k: int|
            0 <= k < cs.len() ==> !(#[trigger] render_cookies(g, cs)[k]).contains('\n'),
    decreases cs.len(),
{
    if cs.len() > 0 {
        let init = cs.drop_last();
        assert forall|k: int| 0 <= k < init.len() implies reads_back(g, #[trigger] init[k]) by {
            assert(init[k] == cs[k]);
        }
        lemma_parse_render(g, init);
        assert(reads_back(g, cs[cs.len() - 1]));
        let lines = render_cookies(g, cs);
        let l = g.spec_devour(cs.last())->0;
        assert(lines == render_cookies(g, init).push(l));
        assert(lines.drop_last() =~= render_cookies(g, init));
        assert(lines.last() == l);
        assert(parse_lines(g, lines) == parse_lines(g, render_cookies(g, init)).push(cs.last()));
        assert(cs =~= init.push(cs.last()));
        assert forall|k: int| 0 <= k < cs.len() implies !(#[trigger] lines[k]).contains('\n') by {
            if k < cs.len() - 1 {
                assert(lines[k] == render_cookies(g, init)[k]);
            }
        }
    }
}

/// What `save` writes, `add_old` reads back: the cache text of cookies that
/// read back holds exactly those cookies.  The text of no cookies is empty,
/// and reads back as no cookies where the empty line holds none.
pub proof fn lemma_text_round_trip<G: Gramma>(g: G, cs: Seq<<G::Cookie as View>::V>)
    requires
        forall|k: int| 0 <= k < cs.len() ==> reads_back(g, #[trigger] cs[k]),
        cs.len() > 0 || g.spec_cookie(seq![]) is None,
    ensures
        parse_text(g, render_text(g, cs)) == cs,
{
    lemma_parse_render(g, cs);
    let lines = render_cookies(g, cs);
    if cs.len() == 0 {
        assert(render_text(g, cs) == Seq::<char>::empty());
        crate::text::lemma_split_free(Seq::<char>::empty(), newline());
        assert(split(render_text(g, cs), newline()) == seq![Seq::<char>::empty()]);
        assert(seq![Seq::<char>::empty()].drop_last() =~= Seq::<Seq<char>>::empty());
    } else {
        crate::text::lemma_split_join(lines, '\n');
    }
}

/// A gramma and the cookies it has read or been given.
pub struct CookieJar<G: Gramma> {
    gramma: G,
    jar: Vec<G::Cookie>,
}

impl<G: Gramma> View for CookieJar<G> {
    type V = Seq<<G::Cookie as View>::V>;

    closed spec fn view(&self) -> Self::V {
        self.jar@.map_values(|c: G::Cookie| c@)
    }
}

impl<G: Gramma> CookieJar<G> {
    /// The gramma of this jar.
    pub closed spec fn spec_gramma(&self) -> G {
        self.gramma
    }

    /// An empty jar that reads and writes with `gramma`.
    pub fn new(gramma: G) -> (r: Self)
        ensures
            r@ == Seq::<<G::Cookie as View>::V>::empty(),
            r.spec_gramma() == gramma,
    {
        let r = CookieJar { gramma, jar: Vec::new() };
        assert(r@ =~= Seq::<<G::Cookie as View>::V>::empty());
        r
    }

    /// Adds the cookies that the lines of a cache text hold, in order.
    pub fn add_old(&mut self, text: &str)
        ensures
            final(self)@ == old(self)@ + parse_text(old(self).spec_gramma(), text@),
            final(self).spec_gramma() == old(self).spec_gramma(),
    {
        let chars = to_chars(text);
        let mut nl: Vec<char> = Vec::new();
        nl.push('\n');
        assert(nl@ =~= newline());
        let lines = split_chars(&chars, &nl);
        let ghost start = self@;
        let ghost ls = views(lines@);
        let mut i: usize = 0;
        assert(ls.take(0) =~= Seq::<Seq<char>>::empty());
        assert(start + parse_lines(self.gramma, ls.take(0)) =~= start);
        while i < lines.len()
            invariant
                i <= lines@.len(),
                ls == views(lines@),
                ls == split(text@, newline()),
                self.gramma == old(self).gramma,
                start == old(self)@,
                self@ == start + parse_lines(self.gramma, ls.take(i as int)),
            decreases lines@.len() - i,
        {
            let line = string_of(&lines[i], 0, lines[i].len());
            assert(lines@[i as int]@.subrange(0, lines@[i as int]@.len() as int) =~= lines@[i as int]@);
            let ghost before = self@;
            assert(ls.take(i + 1).drop_last() =~= ls.take(i as int));
            assert(ls.take(i + 1).last() == ls[i as int]);
            match self.gramma.cookie(line.as_str()) {
                Some(c) => {
                    self.jar.push(c);
                    assert(self@ =~= before.push(c@));
                },
                None => {},
            }
            i = i + 1;
        }
        assert(ls.take(lines@.len() as int) =~= ls);
    }

    /// Adds one cookie at the end.
    pub fn add(&mut self, cookie: G::Cookie)
        ensures
            final(self)@ == old(self)@.push(cookie@),
            final(self).spec_gramma() == old(self).spec_gramma(),
    {
        let ghost before = self@;
        self.jar.push(cookie);
        assert(self@ =~= before.push(cookie@));
    }

    /// The cookies of the jar, in order.
    pub fn jar(&self) -> (r: &Vec<G::Cookie>)
        ensures
            r@.map_values(|c: G::Cookie| c@) == self@,
    {
        &self.jar
    }

    /// Empties the jar and gives back the cache text of its cookies: the
    /// line of each cookie that can be written, joined by newlines.
    pub fn save(&mut self) -> (r: String)
        ensures
            r@ == render_text(old(self).spec_gramma(), old(self)@),
            (forall|i: int|
                0 <= i < old(self)@.len() ==> old(self).spec_gramma().round_trips(
                    #[trigger] old(self)@[i],
                )) && (old(self)@.len() > 0 || old(self).spec_gramma().spec_cookie(seq![]) is None)
                ==> parse_text(old(self).spec_gramma(), r@) == old(self)@,
            final(self)@ == Seq::<<G::Cookie as View>::V>::empty(),
            final(self).spec_gramma() == old(self).spec_gramma(),
    {
        let ghost cookies = self@;
        let mut taken: Vec<G::Cookie> = Vec::new();
        std::mem::swap(&mut taken, &mut self.jar);
        assert(taken@.map_values(|c: G::Cookie| c@) == cookies);
        let mut leftovers: Vec<String> = Vec::new();
        let ghost n = cookies.len();
        assert(cookies.take(0) =~= Seq::<<G::Cookie as View>::V>::empty());
        for cookie in it: taken
            invariant
                n == cookies.len(),
                it.seq().map_values(|c: G::Cookie| c@) == cookies,
                string_views(leftovers@) == render_cookies(self.gramma, cookies.take(it.index() as int)),
                forall|k: int|
                    0 <= k < it.index() ==> (self.gramma.round_trips(#[trigger] cookies[k])
                        ==> reads_back(self.gramma, cookies[k])),
        {
            let ghost m = it.index() as int;
            assert(cookie@ == cookies[m]);
            assert(cookies.take(m + 1).drop_last() =~= cookies.take(m));
            let ghost before = string_views(leftovers@);
            match self.gramma.devour(cookie) {
                Some(crumbs) => {
                    leftovers.push(crumbs);
                    assert(string_views(leftovers@) =~= before.push(crumbs@));
                },
                None => {},
            }
        }
        assert(cookies.take(n as int) =~= cookies);
        proof {
            if (forall|i: int| 0 <= i < cookies.len() ==> self.gramma.round_trips(#[trigger] cookies[i]))
                && (cookies.len() > 0 || self.gramma.spec_cookie(seq![]) is None) {
                assert forall|k: int| 0 <= k < cookies.len() implies reads_back(self.gramma, #[trigger] cookies[k]) by {
                    assert(self.gramma.round_trips(cookies[k]));
                }
                lemma_text_round_trip(self.gramma, cookies);
            }
        }
        let r = join_strings(&leftovers, "\n");
        proof {
            reveal_strlit("\n");
            assert("\n"@ =~= newline());
        }
        let ghost empty = self@;
        assert(self@ =~= Seq::<<G::Cookie as View>::V>::empty());
        r
    }
}

} // verus!
