//! Paths compared as `std::path::Path` compares them: by their components,
//! so that `./a.png`, `.//a.png` and `./a.png/` are the same path.
use vstd::prelude::*;

use crate::text::{chars_eq, find_from, lemma_find_from, occurs_at, split, split_chars, to_chars, views};

verus! {

/// The pieces between separators that name something: neither empty nor `.`.
pub open spec fn normal_pieces(ps: Seq<Seq<char>>) -> Seq<Seq<char>>
    decreases ps.len(),
{
    if ps.len() == 0 {
        seq![]
    } else {
        let before = normal_pieces(ps.drop_last());
        let x = ps.last();
        if x.len() == 0 || x == seq!['.'] {
            before
        } else {
            before.push(x)
        }
    }
}

/// The components of a path: `/` for a path that starts at the root, else
/// `.` for a path that is `.` or starts with `./`; then the pieces between
/// the separators, leaving out empty pieces and `.`.
pub open spec fn path_key(p: Seq<char>) -> Seq<Seq<char>> {
    let pieces = split(p, seq!['/']);
    let lead: Seq<Seq<char>> = if p.len() > 0 && p[0] == '/' {
        seq![seq!['/']]
    } else if pieces.len() > 0 && pieces[0] == seq!['.'] {
        seq![seq!['.']]
    } else {
        seq![]
    };
    lead + normal_pieces(pieces)
}

/// The same path: the same components.
pub open spec fn same_path(p: Seq<char>, q: Seq<char>) -> bool {
    path_key(p) == path_key(q)
}

/// The mark that a path's components start with: `/` for a path that
/// starts at the root, `.` for the path `.` and for a path that starts with
/// `./`, none otherwise.
pub open spec fn lead_mark(p: Seq<char>) -> Seq<Seq<char>> {
    if p.len() > 0 && p[0] == '/' {
        seq![seq!['/']]
    } else if p == seq!['.'] || (p.len() >= 2 && p[0] == '.' && p[1] == '/') {
        seq![seq!['.']]
    } else {
        seq![]
    }
}

/// The pieces that name something are the pieces neither empty nor `.`, in
/// order.
proof fn lemma_normal_pieces(ps: Seq<Seq<char>>)
    ensures
        normal_pieces(ps) == ps.filter(|x: Seq<char>| x.len() > 0 && x != seq!['.']),
    decreases ps.len(),
{
    reveal(Seq::filter);
    if ps.len() > 0 {
        lemma_normal_pieces(ps.drop_last());
    }
}

/// Law: the components of a path are its mark (`/` at the root, `.` where
/// it is `.` or starts with `./`) and then every piece between separators,
/// in order, that is neither empty nor `.`; two paths are the same path
/// exactly when these agree.
pub proof fn lemma_path_key_is(p: Seq<char>, q: Seq<char>)
    ensures
        path_key(p) == lead_mark(p) + split(p, seq!['/']).filter(
            |x: Seq<char>| x.len() > 0 && x != seq!['.'],
        ),
        same_path(p, q) <==> lead_mark(p) + split(p, seq!['/']).filter(
            |x: Seq<char>| x.len() > 0 && x != seq!['.'],
        ) == lead_mark(q) + split(q, seq!['/']).filter(|x: Seq<char>| x.len() > 0 && x != seq!['.']),
{
    lemma_path_key_lead(p);
    lemma_path_key_lead(q);
}

/// `path_key` starts with the mark of the path.
proof fn lemma_path_key_lead(p: Seq<char>)
    ensures
        path_key(p) == lead_mark(p) + split(p, seq!['/']).filter(
            |x: Seq<char>| x.len() > 0 && x != seq!['.'],
        ),
{
    let slash = seq!['/'];
    let pieces = split(p, slash);
    lemma_normal_pieces(pieces);
    lemma_find_from(p, slash, 0);
    if !(p.len() > 0 && p[0] == '/') {
        match find_from(p, slash, 0) {
            None => {
                assert(p.subrange(0, p.len() as int) =~= p);
                assert(pieces[0] == p);
                if p.len() >= 2 && p[0] == '.' && p[1] == '/' {
                    assert(occurs_at(p, slash, 1)) by {
                        assert(p.subrange(1, 2) =~= slash);
                    }
                }
            },
            Some(k) => {
                assert(pieces[0] == p.subrange(0, k));
                assert(p[k] == '/') by {
                    assert(p.subrange(k, k + 1)[0] == p[k]);
                }
                assert(k != 0);
                if p.len() >= 2 && p[0] == '.' && p[1] == '/' {
                    assert(occurs_at(p, slash, 1)) by {
                        assert(p.subrange(1, 2) =~= slash);
                    }
                    assert(k == 1);
                    assert(p.subrange(0, 1) =~= seq!['.']);
                }
                if pieces[0] == seq!['.'] {
                    assert(k == 1);
                    assert(p[0] == p.subrange(0, k)[0]);
                }
                if p == seq!['.'] {
                    assert(p.len() == 1);
                }
            },
        }
    }
}

/// The components of the path `p`.
pub fn path_key_of(p: &str) -> (r: Vec<Vec<char>>)
    ensures
        views(r@) == path_key(p@),
{
    let chars = to_chars(p);
    let mut slash: Vec<char> = Vec::new();
    slash.push('/');
    assert(slash@ =~= seq!['/']);
    let pieces = split_chars(&chars, &slash);
    let ghost ps = views(pieces@);
    let mut r: Vec<Vec<char>> = Vec::new();
    let mut dot: Vec<char> = Vec::new();
    dot.push('.');
    assert(dot@ =~= seq!['.']);
    if chars.len() > 0 && chars[0] == '/' {
        r.push(slash.clone());
    } else if pieces.len() > 0 && chars_eq(&pieces[0], &dot) {
        assert(ps[0] == pieces@[0]@);
        r.push(dot.clone());
    } else if pieces.len() > 0 {
        assert(ps[0] == pieces@[0]@);
    }
    let ghost lead = views(r@);
    assert(ps.take(0) =~= Seq::<Seq<char>>::empty());
    assert(views(r@) =~= lead + normal_pieces(ps.take(0)));
    for i in 0..pieces.len()
        invariant
            ps == views(pieces@),
            dot@ == seq!['.'],
            views(r@) == lead + normal_pieces(ps.take(i as int)),
    {
        let ghost before = views(r@);
        assert(ps.take(i + 1).drop_last() =~= ps.take(i as int));
        assert(ps.take(i + 1).last() == pieces@[i as int]@);
        if pieces[i].len() > 0 && !chars_eq(&pieces[i], &dot) {
            r.push(pieces[i].clone());
            assert(views(r@) =~= before.push(pieces@[i as int]@));
        }
    }
    assert(ps.take(pieces@.len() as int) =~= ps);
    r
}

/// Whether two lists of components are the same.
pub fn keys_eq(a: &Vec<Vec<char>>, b: &Vec<Vec<char>>) -> (r: bool)
    ensures
        r == (views(a@) == views(b@)),
{
    if a.len() != b.len() {
        assert(views(a@).len() != views(b@).len());
        return false;
    }
    let mut k: usize = 0;
    while k < a.len()
        invariant
            a@.len() == b@.len(),
            k <= a@.len(),
            forall|t: int| 0 <= t < k ==> a@[t]@ == b@[t]@,
        decreases a@.len() - k,
    {
        if !chars_eq(&a[k], &b[k]) {
            assert(views(a@)[k as int] != views(b@)[k as int]);
            return false;
        }
        k = k + 1;
    }
    assert(views(a@) =~= views(b@));
    true
}

} // verus!
