//! Text handling for the line-based cache formats: splitting a text at every
//! occurrence of a separator, joining pieces with a separator, and moving
//! between `str`/`String` and vectors of characters.
use vstd::prelude::*;

verus! {

/// `pat` occurs in `s` starting at index `i`.
pub open spec fn occurs_at(s: Seq<char>, pat: Seq<char>, i: int) -> bool {
    &&& 0 <= i
    &&& i + pat.len() <= s.len()
    &&& s.subrange(i, i + pat.len()) == pat
}

/// `pat` occurs nowhere in `s`.
pub open spec fn free_of(s: Seq<char>, pat: Seq<char>) -> bool {
    forall|i: int| !#[trigger] occurs_at(s, pat, i)
}

/// The first index `j >= i` at which `pat` occurs in `s`.
pub open spec fn find_from(s: Seq<char>, pat: Seq<char>, i: int) -> Option<int>
    decreases s.len() + 1 - i,
{
    if i < 0 || i + pat.len() > s.len() {
        None
    } else if occurs_at(s, pat, i) {
        Some(i)
    } else {
        find_from(s, pat, i + 1)
    }
}

/// The pieces of `s` from index `start` on, cut at every occurrence of the
/// nonempty pattern `pat` (as `str::split` cuts them).
pub open spec fn split_from(s: Seq<char>, pat: Seq<char>, start: int) -> Seq<Seq<char>>
    decreases s.len() - start,
{
    if pat.len() == 0 || start < 0 || start > s.len() {
        seq![]
    } else {
        match find_from(s, pat, start) {
            None => seq![s.subrange(start, s.len() as int)],
            Some(p) => {
                proof {
                    lemma_find_from(s, pat, start);
                }
                seq![s.subrange(start, p)] + split_from(s, pat, p + pat.len())
            },
        }
    }
}

/// The pieces of `s` cut at every occurrence of `pat`.
pub open spec fn split(s: Seq<char>, pat: Seq<char>) -> Seq<Seq<char>> {
    split_from(s, pat, 0)
}

/// The pieces joined, with `sep` between two neighbours (as `[String]::join`).
pub open spec fn join(parts: Seq<Seq<char>>, sep: Seq<char>) -> Seq<char>
    decreases parts.len(),
{
    if parts.len() == 0 {
        seq![]
    } else if parts.len() == 1 {
        parts[0]
    } else {
        parts[0] + sep + join(parts.drop_first(), sep)
    }
}

/// The views of a sequence of character vectors.
pub open spec fn views(v: Seq<Vec<char>>) -> Seq<Seq<char>> {
    v.map_values(|x: Vec<char>| x@)
}

/// What `find_from` returns is an occurrence, and the first one from `i` on.
pub proof fn lemma_find_from(s: Seq<char>, pat: Seq<char>, i: int)
    requires
        0 <= i,
    ensures
        match find_from(s, pat, i) {
            Some(p) => {
                &&& i <= p
                &&& p + pat.len() <= s.len()
                &&& occurs_at(s, pat, p)
                &&& forall|j: int| i <= j < p ==> !#[trigger] occurs_at(s, pat, j)
            },
            None => forall|j: int| i <= j ==> !#[trigger] occurs_at(s, pat, j),
        },
    decreases s.len() + 1 - i,
{
    if i + pat.len() > s.len() {
    } else if occurs_at(s, pat, i) {
    } else {
        lemma_find_from(s, pat, i + 1);
    }
}

/// Appends one character to a string (`String::push`).
#[verifier::external_body]
fn push_char(s: &mut String, c: char)
    ensures
        final(s)@ == old(s)@.push(c),
{
    s.push(c)
}

/// The characters of `s`, in order.
pub fn to_chars(s: &str) -> (v: Vec<char>)
    ensures
        v@ == s@,
{
    let mut v: Vec<char> = Vec::new();
    for c in it: s.chars()
        invariant
            v@ == it.seq().take(it.index() as int),
    {
        v.push(c);
    }
    v
}

/// The string made of the characters `v[lo..hi]`.
pub fn string_of(v: &Vec<char>, lo: usize, hi: usize) -> (s: String)
    requires
        lo <= hi <= v@.len(),
    ensures
        s@ == v@.subrange(lo as int, hi as int),
{
    let mut s = String::new();
    let mut k = lo;
    while k < hi
        invariant
            lo <= k <= hi <= v@.len(),
            s@ == v@.subrange(lo as int, k as int),
        decreases hi - k,
    {
        push_char(&mut s, v[k]);
        k = k + 1;
        assert(s@ =~= v@.subrange(lo as int, k as int));
    }
    s
}

/// The vector of the characters `v[lo..hi]`.
pub fn chars_of(v: &Vec<char>, lo: usize, hi: usize) -> (r: Vec<char>)
    requires
        lo <= hi <= v@.len(),
    ensures
        r@ == v@.subrange(lo as int, hi as int),
{
    let mut r: Vec<char> = Vec::new();
    let mut k = lo;
    while k < hi
        invariant
            lo <= k <= hi <= v@.len(),
            r@ == v@.subrange(lo as int, k as int),
        decreases hi - k,
    {
        r.push(v[k]);
        k = k + 1;
        assert(r@ =~= v@.subrange(lo as int, k as int));
    }
    r
}

/// Whether the characters `a` equal the characters of `b`.
pub fn chars_eq(a: &Vec<char>, b: &Vec<char>) -> (r: bool)
    ensures
        r == (a@ == b@),
{
    if a.len() != b.len() {
        return false;
    }
    let mut k: usize = 0;
    while k < a.len()
        invariant
            a@.len() == b@.len(),
            k <= a@.len(),
            forall|t: int| 0 <= t < k ==> a@[t] == b@[t],
        decreases a@.len() - k,
    {
        if a[k] != b[k] {
            return false;
        }
        k = k + 1;
    }
    assert(a@ =~= b@);
    true
}

/// Whether `pat` occurs in `s` at index `i`.
pub fn occurs_at_exec(s: &Vec<char>, pat: &Vec<char>, i: usize) -> (r: bool)
    ensures
        r == occurs_at(s@, pat@, i as int),
{
    if i > s.len() || pat.len() > s.len() - i {
        return false;
    }
    let mut k: usize = 0;
    while k < pat.len()
        invariant
            i + pat@.len() <= s@.len(),
            s@.len() == s.len(),
            k <= pat@.len(),
            forall|t: int| 0 <= t < k ==> s@[i + t] == pat@[t],
        decreases pat@.len() - k,
    {
        if s[i + k] != pat[k] {
            assert(s@.subrange(i as int, i + pat@.len())[k as int] != pat@[k as int]);
            return false;
        }
        k = k + 1;
    }
    assert(s@.subrange(i as int, i + pat@.len()) =~= pat@);
    true
}

/// The first index `j >= i` at which `pat` occurs in `s`.
pub fn find_exec(s: &Vec<char>, pat: &Vec<char>, i: usize) -> (r: Option<usize>)
    requires
        pat@.len() > 0,
    ensures
        match r {
            Some(p) => find_from(s@, pat@, i as int) == Some(p as int),
            None => find_from(s@, pat@, i as int) is None,
        },
{
    let mut j = i;
    while j <= s.len() && pat.len() <= s.len() - j
        invariant
            i <= j,
            pat@.len() > 0,
            find_from(s@, pat@, i as int) == find_from(s@, pat@, j as int),
        decreases s@.len() + 1 - j,
    {
        if occurs_at_exec(s, pat, j) {
            return Some(j);
        }
        j = j + 1;
    }
    None
}

/// The pieces of `s` cut at every occurrence of the nonempty `pat`.
pub fn split_chars(s: &Vec<char>, pat: &Vec<char>) -> (r: Vec<Vec<char>>)
    requires
        pat@.len() > 0,
    ensures
        views(r@) == split(s@, pat@),
{
    let mut pieces: Vec<Vec<char>> = Vec::new();
    let mut start: usize = 0;
    loop
        invariant
            pat@.len() > 0,
            start <= s@.len(),
            views(pieces@) + split_from(s@, pat@, start as int) == split(s@, pat@),
        decreases s@.len() - start,
    {
        proof {
            lemma_find_from(s@, pat@, start as int);
        }
        match find_exec(s, pat, start) {
            None => {
                let last = chars_of(s, start, s.len());
                let ghost before = views(pieces@);
                pieces.push(last);
                assert(views(pieces@) =~= before.push(last@));
                assert(before + split_from(s@, pat@, start as int) =~= views(pieces@));
                return pieces;
            },
            Some(p) => {
                let slen = s.len();
                assert(p + pat@.len() <= slen);
                let piece = chars_of(s, start, p);
                let ghost before = views(pieces@);
                pieces.push(piece);
                assert(views(pieces@) =~= before.push(piece@));
                assert(split_from(s@, pat@, start as int) =~= seq![piece@] + split_from(
                    s@,
                    pat@,
                    p + pat@.len(),
                ));
                assert(before + split_from(s@, pat@, start as int) =~= views(pieces@)
                    + split_from(s@, pat@, p + pat@.len()));
                start = p + pat.len();
            },
        }
    }
}

/// The views of a sequence of strings.
pub open spec fn string_views(v: Seq<String>) -> Seq<Seq<char>> {
    v.map_values(|x: String| x@)
}

/// Joining one more piece adds the separator and that piece at the end.
pub proof fn lemma_join_push(parts: Seq<Seq<char>>, sep: Seq<char>, x: Seq<char>)
    requires
        parts.len() >= 1,
    ensures
        join(parts.push(x), sep) == join(parts, sep) + sep + x,
    decreases parts.len(),
{
    if parts.len() == 1 {
        assert(parts.push(x).drop_first() =~= seq![x]);
        assert(join(seq![x], sep) == x);
        assert(join(parts, sep) == parts[0]);
        assert(join(parts.push(x), sep) =~= parts[0] + sep + x);
    } else {
        assert(parts.push(x).drop_first() =~= parts.drop_first().push(x));
        lemma_join_push(parts.drop_first(), sep, x);
        assert(join(parts.push(x), sep) =~= parts[0] + sep + (join(parts.drop_first(), sep) + sep
            + x));
    }
}

/// The strings joined, with `sep` between two neighbours.
pub fn join_strings(parts: &Vec<String>, sep: &str) -> (r: String)
    ensures
        r@ == join(string_views(parts@), sep@),
{
    if parts.len() == 0 {
        return String::new();
    }
    let ghost sv = string_views(parts@);
    let mut r = parts[0].clone();
    assert(sv.take(1) =~= seq![sv[0]]);
    let mut i: usize = 1;
    while i < parts.len()
        invariant
            1 <= i <= parts@.len(),
            sv == string_views(parts@),
            r@ == join(sv.take(i as int), sep@),
        decreases parts@.len() - i,
    {
        r.append(sep);
        r.append(parts[i].as_str());
        proof {
            lemma_join_push(sv.take(i as int), sep@, sv[i as int]);
            assert(sv.take(i as int).push(sv[i as int]) =~= sv.take(i + 1));
        }
        i = i + 1;
    }
    assert(sv.take(parts@.len() as int) =~= sv);
    r
}

/// Where `pat` is not found, splitting gives the whole rest.
pub proof fn lemma_split_free(s: Seq<char>, pat: Seq<char>)
    requires
        pat.len() > 0,
        free_of(s, pat),
    ensures
        split(s, pat) == seq![s],
{
    lemma_find_from(s, pat, 0);
    assert(s.subrange(0, s.len() as int) =~= s);
}

/// Finding in `a + b` from inside `b` is finding in `b`, shifted by `|a|`.
pub proof fn lemma_find_shift(a: Seq<char>, b: Seq<char>, pat: Seq<char>, k: int)
    requires
        0 <= k,
    ensures
        find_from(a + b, pat, a.len() + k) == (match find_from(b, pat, k) {
            Some(p) => Some(p + a.len()),
            None => None,
        }),
    decreases b.len() + 1 - k,
{
    let ab = a + b;
    if k + pat.len() > b.len() {
    } else {
        assert(ab.subrange(a.len() + k, a.len() + k + pat.len()) =~= b.subrange(k, k + pat.len()));
        if occurs_at(b, pat, k) {
        } else {
            lemma_find_shift(a, b, pat, k + 1);
            assert(a.len() + k + 1 == a.len() + (k + 1));
        }
    }
}

/// Splitting `a + b` from inside `b` is splitting `b`.
pub proof fn lemma_split_shift(a: Seq<char>, b: Seq<char>, pat: Seq<char>, k: int)
    requires
        0 <= k <= b.len(),
        pat.len() > 0,
    ensures
        split_from(a + b, pat, a.len() + k) == split_from(b, pat, k),
    decreases b.len() - k,
{
    let ab = a + b;
    lemma_find_shift(a, b, pat, k);
    lemma_find_from(b, pat, k);
    match find_from(b, pat, k) {
        None => {
            assert(ab.subrange(a.len() + k, ab.len() as int) =~= b.subrange(k, b.len() as int));
        },
        Some(p) => {
            assert(ab.subrange(a.len() + k, p + a.len()) =~= b.subrange(k, p));
            lemma_split_shift(a, b, pat, p + pat.len());
            assert(p + a.len() + pat.len() == a.len() + (p + pat.len()));
        },
    }
}

/// Cutting a text made by joining pieces with a character that none of them
/// holds gives back the pieces.
pub proof fn lemma_split_join(parts: Seq<Seq<char>>, c: char)
    requires
        parts.len() >= 1,
        forall|i: int| 0 <= i < parts.len() ==> !(#[trigger] parts[i]).contains(c),
    ensures
        split(join(parts, seq![c]), seq![c]) == parts,
    decreases parts.len(),
{
    let pat = seq![c];
    let p0 = parts[0];
    assert(free_of(p0, pat)) by {
        assert forall|i: int| !#[trigger] occurs_at(p0, pat, i) by {
            if occurs_at(p0, pat, i) {
                assert(p0.subrange(i, i + 1)[0] == c);
                assert(p0[i] == c);
            }
        }
    }
    if parts.len() == 1 {
        lemma_split_free(p0, pat);
        assert(parts =~= seq![p0]);
    } else {
        let rest = parts.drop_first();
        let r = join(rest, pat);
        let s = join(parts, pat);
        assert(s == p0 + pat + r);
        assert(s =~= (p0 + pat) + r);
        lemma_split_join(rest, c);
        // the first occurrence of c is right after p0
        assert(occurs_at(s, pat, p0.len() as int)) by {
            assert(s.subrange(p0.len() as int, p0.len() + 1int) =~= pat);
        }
        assert(forall|j: int| 0 <= j < p0.len() ==> !#[trigger] occurs_at(s, pat, j)) by {
            assert forall|j: int| 0 <= j < p0.len() implies !#[trigger] occurs_at(s, pat, j) by {
                if occurs_at(s, pat, j) {
                    assert(s.subrange(j, j + 1)[0] == s[j]);
                    assert(s[j] == p0[j]);
                    assert(occurs_at(p0, pat, j)) by {
                        assert(p0.subrange(j, j + 1) =~= s.subrange(j, j + 1));
                    }
                }
            }
        }
        lemma_find_from(s, pat, 0);
        assert(find_from(s, pat, 0) == Some(p0.len() as int));
        lemma_split_shift(p0 + pat, r, pat, 0);
        assert(s.subrange(0, p0.len() as int) =~= p0);
        assert((p0 + pat).len() + 0 == p0.len() + pat.len());
        assert(split(s, pat) =~= seq![p0] + rest);
        assert(parts =~= seq![p0] + rest);
    }
}

/// Cutting `h + pat + p` at `pat` gives `h` and `p`, when `h` does not hold
/// the first character of `pat` and `pat` occurs nowhere in `p`.
pub proof fn lemma_split_two(h: Seq<char>, pat: Seq<char>, p: Seq<char>)
    requires
        pat.len() > 0,
        forall|i: int| 0 <= i < h.len() ==> h[i] != pat[0],
        free_of(p, pat),
    ensures
        split(h + pat + p, pat) == seq![h, p],
{
    let s = h + pat + p;
    let hp = h + pat;
    assert(s =~= hp + p);
    assert(occurs_at(s, pat, h.len() as int)) by {
        assert(s.subrange(h.len() as int, (h.len() + pat.len()) as int) =~= pat);
    }
    assert forall|j: int| 0 <= j < h.len() implies !#[trigger] occurs_at(s, pat, j) by {
        if occurs_at(s, pat, j) {
            assert(s.subrange(j, j + pat.len())[0] == s[j]);
            assert(s[j] == h[j]);
        }
    }
    lemma_find_from(s, pat, 0);
    assert(find_from(s, pat, 0) == Some(h.len() as int));
    lemma_split_shift(hp, p, pat, 0);
    lemma_split_free(p, pat);
    assert(hp.len() + 0 == h.len() + pat.len());
    assert(s.subrange(0, h.len() as int) =~= h);
    assert(split(s, pat) =~= seq![h] + seq![p]);
}

} // verus!
