//! The cookie of this program: the perceptual hash of an image file and the
//! file's path, kept in the cache as one line `<hash> // <path>`.
use vstd::prelude::*;

use super::Gramma;
use crate::imagehash::{
    hash_image_data, image_hash_of,
    base64_of_hash_bytes, decode_hash, encode_hash, hash_bytes_of_base64, valid_hash_bytes,
};
use crate::imagehash::is_base64_text;
use crate::text::{chars_eq, find_from, free_of, lemma_split_two, split, split_chars, string_of, to_chars, views};

verus! {

/// The gramma of hash cookies.
pub struct HashGramma;

/// An image file and its hash; no hash where the file could not be hashed.
pub struct HashCookie {
    pub hash: Option<Vec<u8>>,
    pub path: String,
}

/// The value of a hash cookie: the hash bytes and the path's characters.
pub struct HashCookieView {
    pub hash: Option<Seq<u8>>,
    pub path: Seq<char>,
}

/// The view of an optional hash.
pub open spec fn hash_view(h: Option<Vec<u8>>) -> Option<Seq<u8>> {
    match h {
        Some(b) => Some(b@),
        None => None,
    }
}

impl View for HashCookie {
    type V = HashCookieView;

    open spec fn view(&self) -> HashCookieView {
        HashCookieView { hash: hash_view(self.hash), path: self.path@ }
    }
}

/// The separator between the hash and the path of a cache line.
pub open spec fn field_sep() -> Seq<char> {
    seq![' ', '/', '/', ' ']
}

/// What a cache line holds in place of the hash of a file that could not be hashed.
pub open spec fn unhashable_text() -> Seq<char> {
    seq!['[', 'u', 'n', 'h', 'a', 's', 'h', 'a', 'b', 'l', 'e', ']']
}

/// The cookie of a cache line: the line cut at `" // "` must give at least
/// two pieces; the first is the hash (or `[unhashable]`), the second the path.
/// A hash text of more than `usize::MAX / 6` characters gives none: the
/// decoder refuses it unless it is Base64, and a Base64 text that long
/// overflows the hasher's count of the hash's bits.
pub open spec fn hash_cookie_of_line(line: Seq<char>) -> Option<HashCookieView> {
    let parts = split(line, field_sep());
    if parts.len() < 2 {
        None
    } else if parts[0] == unhashable_text() {
        Some(HashCookieView { hash: None, path: parts[1] })
    } else if parts[0].len() > usize::MAX / 6 {
        None
    } else {
        match hash_bytes_of_base64(parts[0]) {
            Some(b) => Some(HashCookieView { hash: Some(b), path: parts[1] }),
            None => None,
        }
    }
}

/// The cache line of a cookie, unless its hash bytes cannot form a hash.
pub open spec fn line_of_hash_cookie(c: HashCookieView) -> Option<Seq<char>> {
    match c.hash {
        None => Some(unhashable_text() + field_sep() + c.path),
        Some(b) => if valid_hash_bytes(b) {
            Some(base64_of_hash_bytes(b) + field_sep() + c.path)
        } else {
            None
        },
    }
}

/// The cookies whose cache line, read on its own, gives the cookie back:
/// the path holds no `" // "`, and the hash, if any, has between one byte and
/// `usize::MAX / 16` bytes.
pub open spec fn line_round_trips(c: HashCookieView) -> bool {
    &&& free_of(c.path, field_sep())
    &&& match c.hash {
        Some(b) => 0 < b.len() <= usize::MAX / 16,
        None => true,
    }
}

/// The cookies whose cache line reads back as the cookie from a cache text:
/// the line reads back on its own, and the path holds no newline.
pub open spec fn round_trips(c: HashCookieView) -> bool {
    &&& line_round_trips(c)
    &&& !c.path.contains('\n')
}

/// An empty line holds no cookie, so a written cache of no cookies reads
/// back as no cookies.
pub proof fn lemma_empty_line_no_cookie()
    ensures
        hash_cookie_of_line(seq![]) is None,
{
    let e: Seq<char> = seq![];
    assert(find_from(e, field_sep(), 0) is None);
    assert(split(e, field_sep()).len() == 1);
}

/// The characters of the field separator.
pub(crate) fn field_sep_chars() -> (v: Vec<char>)
    ensures
        v@ == field_sep(),
{
    let v = to_chars(" // ");
    proof {
        reveal_strlit(" // ");
    }
    assert(v@ =~= field_sep());
    v
}

impl Gramma for HashGramma {
    type Cookie = HashCookie;

    open spec fn spec_cookie(&self, line: Seq<char>) -> Option<HashCookieView> {
        hash_cookie_of_line(line)
    }

    open spec fn spec_devour(&self, cookie: HashCookieView) -> Option<Seq<char>> {
        line_of_hash_cookie(cookie)
    }

    open spec fn round_trips(&self, cookie: HashCookieView) -> bool {
        round_trips(cookie)
    }

    fn cookie(&self, kvstring: &str) -> (r: Option<HashCookie>) {
        let chars = to_chars(kvstring);
        let sep = field_sep_chars();
        let parts = split_chars(&chars, &sep);
        assert(views(parts@) == split(kvstring@, field_sep()));
        if parts.len() < 2 {
            return None;
        }
        assert(views(parts@)[0] == parts@[0]@);
        assert(views(parts@)[1] == parts@[1]@);
        let path = string_of(&parts[1], 0, parts[1].len());
        assert(parts@[1]@.subrange(0, parts@[1]@.len() as int) =~= parts@[1]@);
        let unhashable = to_chars("[unhashable]");
        proof {
            reveal_strlit("[unhashable]");
        }
        assert(unhashable@ =~= unhashable_text());
        if chars_eq(&parts[0], &unhashable) {
            Some(HashCookie { hash: None, path })
        } else if parts[0].len() > usize::MAX / 6 {
            None
        } else {
            let text = string_of(&parts[0], 0, parts[0].len());
            assert(parts@[0]@.subrange(0, parts@[0]@.len() as int) =~= parts@[0]@);
            match decode_hash(text.as_str()) {
                Some(b) => Some(HashCookie { hash: Some(b), path }),
                None => None,
            }
        }
    }

    fn devour(&self, cookie: HashCookie) -> (r: Option<String>)
        ensures
            line_round_trips(cookie@) ==> (r matches Some(s) && hash_cookie_of_line(s@) == Some(
                cookie@,
            )),
    {
        let mut line = match &cookie.hash {
            None => {
                let s = "[unhashable]".to_owned();
                proof {
                    reveal_strlit("[unhashable]");
                }
                assert(s@ =~= unhashable_text());
                s
            },
            Some(b) => {
                if b.len() == 0 || b.len() > usize::MAX / 8 {
                    return None;
                }
                encode_hash(b.as_slice())
            },
        };
        let ghost head = line@;
        proof {
            assert(forall|i: int| 0 <= i < head.len() ==> head[i] != ' ' && head[i] != '\n');
            if cookie.hash is Some {
                assert(head.len() > 0);
                assert(head != unhashable_text()) by {
                    assert(head[0] != '[');
                }
            }
        }
        line.append(" // ");
        proof {
            reveal_strlit(" // ");
        }
        assert(" // "@ =~= field_sep());
        line.append(cookie.path.as_str());
        proof {
            assert(line@ == head + field_sep() + cookie.path@);
            if line_round_trips(cookie@) {
                lemma_split_two(head, field_sep(), cookie.path@);
                if let Some(b) = cookie.hash {
                    assert(head.len() <= usize::MAX / 6);
                }
            }
            if round_trips(cookie@) {
                assert(!line@.contains('\n')) by {
                    if line@.contains('\n') {
                        let k = choose|k: int| 0 <= k < line@.len() && line@[k] == '\n';
                        if k >= head.len() + 4 {
                            assert(cookie.path@[k - head.len() - 4] == '\n');
                        }
                    }
                }
            }
        }
        Some(line)
    }
}

/// What hashing the file at `path` gives, from its contents; none where the
/// file could not be read.
pub open spec fn hash_of_file(path: Seq<char>, contents: Option<Seq<u8>>) -> Option<Seq<u8>> {
    match contents {
        Some(d) => image_hash_of(path, d),
        None => None,
    }
}

/// Law: a file whose contents were read is hashed as the image they hold
/// (none where they hold none), whatever their size; an unread file has no
/// hash.
pub proof fn lemma_hash_of_file(path: Seq<char>, contents: Option<Seq<u8>>)
    ensures
        contents matches Some(d) ==> hash_of_file(path, contents) == image_hash_of(path, d),
        contents is None ==> hash_of_file(path, contents) is None,
{
}

impl HashCookie {
    /// The cookie of a file that has not been hashed yet.
    pub fn new(path: String) -> (r: Self)
        ensures
            r.hash is None,
            r.path == path,
    {
        Self { hash: None, path }
    }

    /// Hashes the image that `data`, the contents of the cookie's file,
    /// holds.  Where it is an image, the cookie takes its hash and the result
    /// is `true`; else the cookie is left as it was and the result is
    /// `false`.
    pub fn hash(&mut self, data: &[u8]) -> (r: bool)
        ensures
            final(self).path == old(self).path,
            r == image_hash_of(old(self).path@, data@) is Some,
            r ==> hash_view(final(self).hash) == image_hash_of(old(self).path@, data@),
            !r ==> final(self).hash == old(self).hash,
            r ==> (final(self).hash matches Some(b) && 0 < b@.len() <= 8),
    {
        match hash_image_data(self.path.as_str(), data) {
            Some(b) => {
                self.hash = Some(b);
                true
            },
            None => false,
        }
    }
}

} // verus!
