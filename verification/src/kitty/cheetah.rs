//! Gathering the images of a directory, keeping their hashes in a cache text,
//! and reporting which images look alike.
//!
//! The cache text holds one line `\n<hash> // <file>` per hashed file, with
//! `[unhashable]` in place of the hash of a file that could not be hashed.
use vstd::prelude::*;

use super::Options;
use crate::cookiejar::hashcookie::{field_sep, field_sep_chars, unhashable_text};
use crate::cookiejar::hashcookie::{hash_of_file, hash_view};
use crate::cookiejar::newline;
use crate::path::{keys_eq, path_key, path_key_of, same_path};
use crate::imagehash::{
    base64_of_hash_bytes, decode_hash, encode_hash, hash_image_data, image_hash_of, hamming, hash_bytes_of_base64, hash_distance, hash_fits, is_base64_char, is_base64_text,
    valid_hash_bytes,
};
use crate::text::{
    free_of, join, lemma_join_push, lemma_split_join, lemma_split_two, split,
    split_chars, split_from, string_of, string_views, to_chars, views,
};

verus! {

/// A file and its hash, if it could be hashed.
struct FileHash {
    file: String,
    hash: Option<Vec<u8>>,
}

/// The value of a file and its hash: the file's characters and the hash bytes.
pub struct FileHashView {
    pub file: Seq<char>,
    pub hash: Option<Seq<u8>>,
}

impl View for FileHash {
    type V = FileHashView;

    closed spec fn view(&self) -> FileHashView {
        FileHashView {
            file: self.file@,
            hash: match self.hash {
                Some(b) => Some(b@),
                None => None,
            },
        }
    }
}

/// The values of a sequence of files.
spec fn file_views(v: Seq<FileHash>) -> Seq<FileHashView> {
    v.map_values(|f: FileHash| f@)
}

/// The names of the files, in order.
pub open spec fn file_names(d: Seq<FileHashView>) -> Seq<Seq<char>> {
    d.map_values(|f: FileHashView| f.file)
}

/// Every hash of the files can be written as text.
pub open spec fn hashes_valid(d: Seq<FileHashView>) -> bool {
    forall|i: int| 0 <= i < d.len() && (#[trigger] d[i]).hash is Some ==> valid_hash_bytes(d[i].hash->0)
}

/// What the cache line of a file holds in place of its hash.
pub open spec fn hash_text(h: Option<Seq<u8>>) -> Seq<char> {
    match h {
        Some(b) => base64_of_hash_bytes(b),
        None => unhashable_text(),
    }
}

/// The cache line of a file: its hash text, `" // "` and its name.
pub open spec fn stow_line(f: FileHashView) -> Seq<char> {
    hash_text(f.hash) + field_sep() + f.file
}

/// The cache text of the files: a newline before the line of each file.
pub open spec fn stow_text(d: Seq<FileHashView>) -> Seq<char> {
    join(seq![seq![]] + d.map_values(|f: FileHashView| stow_line(f)), newline())
}

/// The hash that a cache line gives for its hash text: none for
/// `[unhashable]`, else what `ImageHash::from_base64` reads (none where it
/// refuses the text).
pub open spec fn stow_hash(t: Seq<char>) -> Option<Seq<u8>> {
    if t == unhashable_text() {
        None
    } else {
        hash_bytes_of_base64(t)
    }
}

/// The hash text and the file of a cache line: the last two pieces of the
/// line cut at `" // "`; none where the line has fewer than two pieces.
pub open spec fn stow_entry(line: Seq<char>) -> Option<(Seq<char>, Seq<char>)> {
    let parts = split(line, field_sep());
    if parts.len() < 2 {
        None
    } else {
        Some((parts[parts.len() - 2], parts[parts.len() - 1]))
    }
}

/// The hash text of a cache line, if it has one, is at most
/// `usize::MAX / 6` characters: reading a longer Base64 text overflows the
/// hasher's count of the hash's bits.
pub open spec fn hash_text_fits(line: Seq<char>) -> bool {
    match stow_entry(line) {
        Some((h, p)) => h.len() <= usize::MAX / 6,
        None => true,
    }
}

/// Every hash text of the cache text fits (see `hash_text_fits`).
pub open spec fn stow_fits(t: Seq<char>) -> bool {
    forall|i: int| 0 <= i < split(t, newline()).len() ==> hash_text_fits(#[trigger] split(t, newline())[i])
}

/// The files that the cache lines give back, in order: a line counts when
/// its file is one of `files` and no earlier line gave that file.
pub open spec fn read_stow(lines: Seq<Seq<char>>, files: Seq<Seq<char>>) -> Seq<FileHashView>
    decreases lines.len(),
{
    if lines.len() == 0 {
        seq![]
    } else {
        let before = read_stow(lines.drop_last(), files);
        match stow_entry(lines.last()) {
            Some((h, p)) => if files.contains(p) && !file_names(before).contains(p) {
                before.push(FileHashView { file: p, hash: stow_hash(h) })
            } else {
                before
            },
            None => before,
        }
    }
}

/// The file names are distinct and hold neither a newline nor `" // "`.
pub open spec fn clean_names(d: Seq<FileHashView>) -> bool {
    &&& file_names(d).no_duplicates()
    &&& forall|i: int|
        0 <= i < d.len() ==> free_of((#[trigger] d[i]).file, field_sep()) && !d[i].file.contains(
            '\n',
        )
}

/// The hash text of the file holds no space or newline, and reads back as
/// its hash.
pub open spec fn hash_reads_back(h: Option<Seq<u8>>) -> bool {
    match h {
        Some(b) => is_base64_text(base64_of_hash_bytes(b)) && base64_of_hash_bytes(b).len() > 0
            && base64_of_hash_bytes(b).len() == (4 * b.len() + 2) / 3
            && hash_bytes_of_base64(base64_of_hash_bytes(b)) == Some(b),
        None => true,
    }
}

/// `[unhashable]` is no Base64 text.
proof fn lemma_unhashable_not_base64()
    ensures
        !is_base64_text(unhashable_text()),
{
    assert(!is_base64_char(unhashable_text()[0]));
}

/// The hash text of a file whose hash reads back holds no space or newline,
/// and gives the hash back.
proof fn lemma_hash_text(h: Option<Seq<u8>>)
    requires
        hash_reads_back(h),
    ensures
        forall|i: int| 0 <= i < hash_text(h).len() ==> #[trigger] hash_text(h)[i] != ' '
            && hash_text(h)[i] != '\n',
        stow_hash(hash_text(h)) == h,
{
    let t = hash_text(h);
    match h {
        Some(b) => {
            assert forall|i: int| 0 <= i < t.len() implies #[trigger] t[i] != ' ' && t[i] != '\n' by {
                assert(is_base64_char(t[i]));
            }
            if t == unhashable_text() {
                lemma_unhashable_not_base64();
            }
        },
        None => {},
    }
}

/// The cache line of a clean file cuts into its hash text and its name.
proof fn lemma_stow_entry(f: FileHashView)
    requires
        hash_reads_back(f.hash),
        free_of(f.file, field_sep()),
    ensures
        stow_entry(stow_line(f)) == Some((hash_text(f.hash), f.file)),
        !stow_line(f).contains('\n') <== !f.file.contains('\n'),
{
    lemma_hash_text(f.hash);
    lemma_split_two(hash_text(f.hash), field_sep(), f.file);
    let l = stow_line(f);
    let h = hash_text(f.hash);
    if !f.file.contains('\n') && l.contains('\n') {
        let k = choose|k: int| 0 <= k < l.len() && l[k] == '\n';
        if k < h.len() {
        } else if k < h.len() + 4 {
        } else {
            assert(f.file[k - h.len() - 4] == '\n');
        }
    }
}

/// Reading back the cache text of clean files gives the files, as long as
/// each of them is among the files looked for.
pub proof fn lemma_read_stow_text(d: Seq<FileHashView>, files: Seq<Seq<char>>)
    requires
        clean_names(d),
        forall|i: int| 0 <= i < d.len() ==> hash_reads_back(#[trigger] d[i].hash),
        forall|i: int| 0 <= i < d.len() ==> files.contains(#[trigger] d[i].file),
    ensures
        read_stow(split(stow_text(d), newline()), files) == d,
{
    let lines = seq![seq![]] + d.map_values(|f: FileHashView| stow_line(f));
    assert forall|i: int| 0 <= i < lines.len() implies !(#[trigger] lines[i]).contains('\n') by {
        if i > 0 {
            lemma_stow_entry(d[i - 1]);
        }
    }
    lemma_split_join(lines, '\n');
    assert(newline() =~= seq!['\n']);
    lemma_read_lines(d, files);
}

/// The cache text of clean files with hashes that can be written fits: no
/// hash text of it is too long to read back.
pub proof fn lemma_stow_fits(d: Seq<FileHashView>)
    requires
        clean_names(d),
        hashes_valid(d),
        forall|i: int| 0 <= i < d.len() ==> hash_reads_back(#[trigger] d[i].hash),
    ensures
        stow_fits(stow_text(d)),
{
    let lines = seq![seq![]] + d.map_values(|f: FileHashView| stow_line(f));
    assert forall|i: int| 0 <= i < lines.len() implies !(#[trigger] lines[i]).contains('\n') by {
        if i > 0 {
            lemma_stow_entry(d[i - 1]);
        }
    }
    lemma_split_join(lines, '\n');
    assert(newline() =~= seq!['\n']);
    assert forall|i: int| 0 <= i < lines.len() implies hash_text_fits(#[trigger] lines[i]) by {
        if i == 0 {
            let e: Seq<char> = seq![];
            assert(lines[0] == e);
            assert(crate::text::find_from(e, field_sep(), 0) is None);
            assert(split(e, field_sep()).len() == 1);
        } else {
            let f = d[i - 1];
            assert(lines[i] == stow_line(f));
            lemma_stow_entry(f);
            match f.hash {
                Some(b) => {
                    assert(valid_hash_bytes(b));
                    let n = b.len();
                    assert((4 * n + 2) / 3 <= usize::MAX / 6) by (nonlinear_arith)
                        requires
                            n <= usize::MAX / 8,
                            usize::MAX == 0xffff_ffff || usize::MAX == 0xffff_ffff_ffff_ffff,
                    ;
                },
                None => {},
            }
        }
    }
}

/// Reading back the lines of clean files, after an empty first line, gives
/// the files.
proof fn lemma_read_lines(d: Seq<FileHashView>, files: Seq<Seq<char>>)
    requires
        clean_names(d),
        forall|i: int| 0 <= i < d.len() ==> hash_reads_back(#[trigger] d[i].hash),
        forall|i: int| 0 <= i < d.len() ==> files.contains(#[trigger] d[i].file),
    ensures
        read_stow(seq![seq![]] + d.map_values(|f: FileHashView| stow_line(f)), files) == d,
    decreases d.len(),
{
    let lines = seq![seq![]] + d.map_values(|f: FileHashView| stow_line(f));
    if d.len() == 0 {
        let e: Seq<char> = seq![];
        assert(lines =~= seq![e]);
        assert(split(e, field_sep()).len() == 1) by {
            assert(crate::text::find_from(e, field_sep(), 0) is None);
        }
        assert(lines.drop_last() =~= Seq::<Seq<char>>::empty());
        assert(lines.last() == e);
        assert(stow_entry(e) is None);
        assert(read_stow(lines.drop_last(), files) =~= Seq::<FileHashView>::empty());
        assert(d =~= Seq::<FileHashView>::empty());
    } else {
        let p = d.drop_last();
        let f = d.last();
        assert(file_names(p) =~= file_names(d).drop_last());
        assert forall|i: int| 0 <= i < p.len() implies free_of((#[trigger] p[i]).file, field_sep())
            && !p[i].file.contains('\n') by {
            assert(p[i] == d[i]);
        }
        assert forall|i: int| 0 <= i < p.len() implies hash_reads_back(#[trigger] p[i].hash)
            && files.contains(p[i].file) by {
            assert(p[i] == d[i]);
        }
        lemma_read_lines(p, files);
        assert(lines.drop_last() =~= seq![seq![]] + p.map_values(|f: FileHashView| stow_line(f)));
        assert(lines.last() == stow_line(f));
        assert(d[d.len() - 1] == f);
        lemma_stow_entry(f);
        lemma_hash_text(f.hash);
        assert(!file_names(p).contains(f.file)) by {
            if file_names(p).contains(f.file) {
                let k = choose|k: int| 0 <= k < file_names(p).len() && file_names(p)[k] == f.file;
                assert(file_names(d)[k] == file_names(d)[d.len() - 1]);
            }
        }
        assert(files.contains(d[d.len() - 1].file));
        assert(p.push(f) =~= d);
        let before = read_stow(lines.drop_last(), files);
        assert(before == p);
        assert(stow_entry(lines.last()) == Some((hash_text(f.hash), f.file)));
        assert(stow_hash(hash_text(f.hash)) == f.hash);
        assert(FileHashView { file: f.file, hash: stow_hash(hash_text(f.hash)) } == f);
        assert(read_stow(lines, files) == before.push(f));
    }
}

/// The names without repeats, each at its first place.
pub open spec fn dedup(s: Seq<Seq<char>>) -> Seq<Seq<char>>
    decreases s.len(),
{
    if s.len() == 0 {
        seq![]
    } else {
        let d = dedup(s.drop_last());
        if d.contains(s.last()) {
            d
        } else {
            d.push(s.last())
        }
    }
}

/// The path of the cache file, as a directory listing names it.
pub open spec fn cache_path() -> Seq<char> {
    seq!['.', '/', '.', 'x', '3', 'c']
}

/// The files of `files` that are still to be hashed, in order: those that
/// the cache did not give back, except any that is the cache file's path
/// (compared by components).
pub open spec fn fresh_files(files: Seq<Seq<char>>, taken: Seq<FileHashView>) -> Seq<FileHashView>
    decreases files.len(),
{
    if files.len() == 0 {
        seq![]
    } else {
        let before = fresh_files(files.drop_last(), taken);
        let p = files.last();
        if file_names(taken).contains(p) || same_path(p, cache_path()) {
            before
        } else {
            before.push(FileHashView { file: p, hash: None })
        }
    }
}

/// The files that a gathering takes from the cache text: none unless the
/// options read the cache and there is a cache text.
pub open spec fn stowed(use_stow: bool, stow: Option<&str>, files: Seq<Seq<char>>) -> Seq<FileHashView> {
    match stow {
        Some(t) => if use_stow {
            read_stow(split(t@, newline()), files)
        } else {
            seq![]
        },
        None => seq![],
    }
}

/// The names without repeats hold each name once.
pub proof fn lemma_dedup(s: Seq<Seq<char>>)
    ensures
        dedup(s).no_duplicates(),
        forall|x: Seq<char>| dedup(s).contains(x) <==> s.contains(x),
    decreases s.len(),
{
    if s.len() > 0 {
        let t = s.drop_last();
        let l = s.last();
        let d = dedup(t);
        lemma_dedup(t);
        assert(s =~= t.push(l));
        assert forall|x: Seq<char>| s.contains(x) <==> t.contains(x) || x == l by {
            if s.contains(x) && x != l {
                let k = choose|k: int| 0 <= k < s.len() && s[k] == x;
                assert(t[k] == x);
            }
            if t.contains(x) {
                let k = choose|k: int| 0 <= k < t.len() && t[k] == x;
                assert(s[k] == x);
            }
            if x == l {
                assert(s[s.len() - 1] == x);
            }
        }
        assert forall|x: Seq<char>| d.push(l).contains(x) <==> d.contains(x) || x == l by {
            if d.push(l).contains(x) && x != l {
                let k = choose|k: int| 0 <= k < d.push(l).len() && d.push(l)[k] == x;
                assert(d[k] == x);
            }
            if d.contains(x) {
                let k = choose|k: int| 0 <= k < d.len() && d[k] == x;
                assert(d.push(l)[k] == x);
            }
            if x == l {
                assert(d.push(l)[d.len() as int] == x);
            }
        }
        if !d.contains(l) {
            assert(d.push(l).no_duplicates()) by {
                assert forall|i: int, j: int|
                    0 <= i < d.push(l).len() && 0 <= j < d.push(l).len() && i != j implies d.push(
                    l,
                )[i] != d.push(l)[j] by {
                    if i < d.len() && j < d.len() {
                    } else if i < d.len() {
                        assert(d.contains(d[i]));
                    } else if j < d.len() {
                        assert(d.contains(d[j]));
                    }
                }
            }
        }
    }
}

/// The hashed files, in order.
pub open spec fn hashed_files(d: Seq<FileHashView>) -> Seq<FileHashView>
    decreases d.len(),
{
    if d.len() == 0 {
        seq![]
    } else {
        let h = hashed_files(d.drop_last());
        if d.last().hash is Some {
            h.push(d.last())
        } else {
            h
        }
    }
}

/// The names of the hashed files after the `i`-th and before the `n`-th
/// whose hash is within `dist` of the hash of the `i`-th, in order.
pub open spec fn alike_after(h: Seq<FileHashView>, dist: u32, i: int, n: int) -> Seq<Seq<char>>
    decreases n - i,
{
    if n <= i + 1 {
        seq![]
    } else {
        let before = alike_after(h, dist, i, n - 1);
        if hamming(h[i].hash->0, h[n - 1].hash->0) <= dist {
            before.push(h[n - 1].file)
        } else {
            before
        }
    }
}

/// For each of the first `m` hashed files that has alike later files, the
/// names of those files, in order.
pub open spec fn alike_lists(h: Seq<FileHashView>, dist: u32, m: int) -> Seq<Seq<Seq<char>>>
    decreases m,
{
    if m <= 0 {
        seq![]
    } else {
        let before = alike_lists(h, dist, m - 1);
        let l = alike_after(h, dist, m - 1, h.len() as int);
        if l.len() > 0 {
            before.push(l)
        } else {
            before
        }
    }
}

/// What an analysis of the files reports: for each hashed file, in order,
/// the names of the later hashed files within `dist` of it, where there are
/// any.
pub open spec fn analysis(d: Seq<FileHashView>, dist: u32) -> Seq<Seq<Seq<char>>> {
    alike_lists(hashed_files(d), dist, hashed_files(d).len() as int)
}

/// The names of each list of names.
pub open spec fn name_lists(v: Seq<Vec<String>>) -> Seq<Seq<Seq<char>>> {
    v.map_values(|l: Vec<String>| string_views(l@))
}

/// The hashed files are some of the files.
proof fn lemma_hashed_files(d: Seq<FileHashView>)
    ensures
        forall|j: int| 0 <= j < hashed_files(d).len() ==> (#[trigger] hashed_files(d)[j]).hash is Some
            && d.contains(hashed_files(d)[j]),
        hashed_files(d).len() <= d.len(),
    decreases d.len(),
{
    if d.len() > 0 {
        let t = d.drop_last();
        lemma_hashed_files(t);
        let h = hashed_files(t);
        assert forall|j: int| 0 <= j < hashed_files(d).len() implies (#[trigger] hashed_files(
            d,
        )[j]).hash is Some && d.contains(hashed_files(d)[j]) by {
            if j < h.len() {
                assert(hashed_files(d)[j] == h[j]);
                let k = choose|k: int| 0 <= k < t.len() && t[k] == h[j];
                assert(d[k] == h[j]);
            } else {
                assert(d[d.len() - 1] == d.last());
            }
        }
    }
}

/// The names of the files with one more file are the names before and the
/// new name.
proof fn lemma_names_push(d: Seq<FileHashView>, f: FileHashView)
    ensures
        forall|q: Seq<char>| #[trigger] file_names(d.push(f)).contains(q) <==> file_names(d).contains(q) || q == f.file,
{
    let n = file_names(d);
    assert(file_names(d.push(f)) =~= n.push(f.file));
    assert forall|q: Seq<char>| #[trigger] file_names(d.push(f)).contains(q) <==> n.contains(q) || q == f.file by {
        if n.push(f.file).contains(q) && q != f.file {
            let k = choose|k: int| 0 <= k < n.push(f.file).len() && n.push(f.file)[k] == q;
            assert(n[k] == q);
        }
        if n.contains(q) {
            let k = choose|k: int| 0 <= k < n.len() && n[k] == q;
            assert(n.push(f.file)[k] == q);
        }
        if q == f.file {
            assert(n.push(f.file)[n.len() as int] == q);
        }
    }
}

/// The files that cache lines give back are distinct files of `files`.
proof fn lemma_read_stow_names(lines: Seq<Seq<char>>, files: Seq<Seq<char>>)
    ensures
        file_names(read_stow(lines, files)).no_duplicates(),
        forall|p: Seq<char>| #[trigger] file_names(read_stow(lines, files)).contains(p) ==> files.contains(p),
    decreases lines.len(),
{
    if lines.len() > 0 {
        let before = read_stow(lines.drop_last(), files);
        lemma_read_stow_names(lines.drop_last(), files);
        match stow_entry(lines.last()) {
            Some((h, p)) => {
                if files.contains(p) && !file_names(before).contains(p) {
                    let f = FileHashView { file: p, hash: stow_hash(h) };
                    lemma_names_push(before, f);
                    let n = file_names(before);
                    assert(file_names(before.push(f)) =~= n.push(p));
                    assert forall|i: int, j: int|
                        0 <= i < n.push(p).len() && 0 <= j < n.push(p).len() && i != j implies n.push(p)[i]
                        != n.push(p)[j] by {
                        if i < n.len() && j == n.len() {
                            assert(n.contains(n[i]));
                        }
                        if j < n.len() && i == n.len() {
                            assert(n.contains(n[j]));
                        }
                    }
                }
            },
            None => {},
        }
    }
}

/// The files still to be hashed are the files of `files` that were not
/// taken from the cache, except the cache file, each once where `files`
/// holds each once.
proof fn lemma_fresh_files(files: Seq<Seq<char>>, taken: Seq<FileHashView>)
    ensures
        forall|p: Seq<char>| #[trigger] file_names(fresh_files(files, taken)).contains(p) <==> (files.contains(
            p,
        ) && !file_names(taken).contains(p) && !same_path(p, cache_path())),
        files.no_duplicates() ==> file_names(fresh_files(files, taken)).no_duplicates(),
        forall|i: int| 0 <= i < fresh_files(files, taken).len() ==> (#[trigger] fresh_files(files, taken)[i]).hash is None,
    decreases files.len(),
{
    if files.len() > 0 {
        let t = files.drop_last();
        let l = files.last();
        let before = fresh_files(t, taken);
        lemma_fresh_files(t, taken);
        assert(files =~= t.push(l));
        assert forall|x: Seq<char>| files.contains(x) <==> t.contains(x) || x == l by {
            if files.contains(x) && x != l {
                let k = choose|k: int| 0 <= k < files.len() && files[k] == x;
                assert(t[k] == x);
            }
            if t.contains(x) {
                let k = choose|k: int| 0 <= k < t.len() && t[k] == x;
                assert(files[k] == x);
            }
            if x == l {
                assert(files[files.len() - 1] == x);
            }
        }
        if !(file_names(taken).contains(l) || same_path(l, cache_path())) {
            let f = FileHashView { file: l, hash: None };
            lemma_names_push(before, f);
            if files.no_duplicates() {
                assert(t.no_duplicates());
                assert(!t.contains(l)) by {
                    if t.contains(l) {
                        let k = choose|k: int| 0 <= k < t.len() && t[k] == l;
                        assert(files[k] == files[files.len() - 1]);
                    }
                }
                let n = file_names(before);
                assert(file_names(before.push(f)) =~= n.push(l));
                assert forall|i: int, j: int|
                    0 <= i < n.push(l).len() && 0 <= j < n.push(l).len() && i != j implies n.push(l)[i]
                    != n.push(l)[j] by {
                    if i < n.len() && j == n.len() {
                        assert(n.contains(n[i]));
                    }
                    if j < n.len() && i == n.len() {
                        assert(n.contains(n[j]));
                    }
                }
            }
        } else {
            if files.no_duplicates() {
                assert(t.no_duplicates());
            }
        }
    }
}

/// Gathering sorts every listed file but the cache file into exactly one
/// place: the files taken from the cache or the files to hash; neither
/// holds a file twice.
pub proof fn lemma_grab_partition(entries: Seq<Seq<char>>, use_stow: bool, stow: Option<&str>)
    ensures
        ({
            let files = dedup(entries);
            let taken = stowed(use_stow, stow, files);
            let fresh = fresh_files(files, taken);
            &&& file_names(taken).no_duplicates()
            &&& file_names(fresh).no_duplicates()
            &&& forall|p: Seq<char>|
                entries.contains(p) && !same_path(p, cache_path()) ==> (#[trigger] file_names(taken).contains(p)
                    || file_names(fresh).contains(p))
            &&& forall|p: Seq<char>|
                #[trigger] file_names(taken).contains(p) ==> entries.contains(p) && !file_names(
                    fresh,
                ).contains(p)
            &&& forall|p: Seq<char>|
                #[trigger] file_names(fresh).contains(p) ==> entries.contains(p) && !same_path(p, cache_path())
        }),
{
    let files = dedup(entries);
    lemma_dedup(entries);
    let taken = stowed(use_stow, stow, files);
    match stow {
        Some(t) => if use_stow {
            lemma_read_stow_names(split(t@, newline()), files);
        } else {
            assert(file_names(taken) =~= Seq::<Seq<char>>::empty());
        },
        None => {
            assert(file_names(taken) =~= Seq::<Seq<char>>::empty());
        },
    }
    lemma_fresh_files(files, taken);
}

/// Gathering a listing of exactly some hashed files (and perhaps the cache
/// file), with the cache text written for them, takes every one of them back
/// with its hash and leaves nothing to hash; where the hashes can be
/// written, the text is one that a gathering may read.
pub proof fn lemma_stow_regrab(d: Seq<FileHashView>, entries: Seq<Seq<char>>, t: &str)
    requires
        clean_names(d),
        forall|i: int| 0 <= i < d.len() ==> hash_reads_back(#[trigger] d[i].hash),
        t@ == stow_text(d),
        forall|i: int| 0 <= i < d.len() ==> entries.contains(#[trigger] d[i].file),
        forall|p: Seq<char>| #[trigger] entries.contains(p) ==> file_names(d).contains(p) || same_path(p, cache_path()),
    ensures
        hashes_valid(d) ==> stow_fits(t@),
        stowed(true, Some(t), dedup(entries)) == d,
        fresh_files(dedup(entries), stowed(true, Some(t), dedup(entries))) == Seq::<FileHashView>::empty(),
{
    let files = dedup(entries);
    lemma_dedup(entries);
    if hashes_valid(d) {
        lemma_stow_fits(d);
    }
    lemma_read_stow_text(d, files);
    lemma_fresh_files(files, d);
    let fresh = fresh_files(files, d);
    if fresh.len() > 0 {
        let p = fresh[0].file;
        assert(file_names(fresh).contains(p)) by {
            assert(file_names(fresh)[0] == p);
        }
        assert(files.contains(p));
        assert(entries.contains(p));
    }
    assert(fresh =~= Seq::<FileHashView>::empty());
}

/// The index of `name` among `names`, if it is there.
fn find_name(names: &Vec<String>, name: &String) -> (r: Option<usize>)
    ensures
        match r {
            Some(k) => k < names@.len() && names@[k as int]@ == name@,
            None => !string_views(names@).contains(name@),
        },
{
    let mut k: usize = 0;
    while k < names.len()
        invariant
            k <= names@.len(),
            forall|j: int| 0 <= j < k ==> names@[j]@ != name@,
        decreases names@.len() - k,
    {
        if names[k] == *name {
            return Some(k);
        }
        k = k + 1;
    }
    proof {
        if string_views(names@).contains(name@) {
            let j = choose|j: int| 0 <= j < names@.len() && string_views(names@)[j] == name@;
            assert(names@[j]@ == name@);
        }
    }
    None
}

/// The names without repeats, each at its first place.
fn dedup_names(names: &Vec<String>) -> (r: Vec<String>)
    ensures
        string_views(r@) == dedup(string_views(names@)),
{
    let ghost sv = string_views(names@);
    let mut r: Vec<String> = Vec::new();
    assert(sv.take(0) =~= Seq::<Seq<char>>::empty());
    assert(string_views(r@) =~= dedup(sv.take(0)));
    for i in 0..names.len()
        invariant
            sv == string_views(names@),
            string_views(r@) == dedup(sv.take(i as int)),
    {
        let ghost before = string_views(r@);
        assert(sv.take(i + 1).drop_last() =~= sv.take(i as int));
        assert(sv.take(i + 1).last() == names@[i as int]@);
        match find_name(&r, &names[i]) {
            Some(k) => {
                assert(before[k as int] == names@[i as int]@);
            },
            None => {
                r.push(names[i].clone());
                assert(string_views(r@) =~= before.push(names@[i as int]@));
            },
        }
    }
    assert(sv.take(names@.len() as int) =~= sv);
    r
}

/// The hashes of the files, gathered before and after hashing; the library
/// keeps the bytes of each `image_hasher::ImageHash`.
pub struct Cheetah {
    done: Vec<FileHash>,
    todo: Vec<FileHash>,
}

impl Cheetah {
    /// The files that have been hashed (or read from the cache), in order.
    pub closed spec fn done_files(&self) -> Seq<FileHashView> {
        file_views(self.done@)
    }

    /// The files still to be hashed, in order.
    pub closed spec fn todo_files(&self) -> Seq<FileHashView> {
        file_views(self.todo@)
    }

    /// Every hash that the gatherer holds can be written as text.
    pub open spec fn wf(&self) -> bool {
        hashes_valid(self.done_files()) && hashes_valid(self.todo_files())
    }

    /// A gatherer with no files.
    pub fn new() -> (r: Self)
        ensures
            r.done_files() == Seq::<FileHashView>::empty(),
            r.todo_files() == Seq::<FileHashView>::empty(),
            r.wf(),
    {
        let r = Self { done: Vec::new(), todo: Vec::new() };
        assert(r.done_files() =~= Seq::<FileHashView>::empty());
        assert(r.todo_files() =~= Seq::<FileHashView>::empty());
        r
    }

    /// Takes from the cache text the files of `files` that it lists, in the
    /// order of its lines, each with the hash that its line gives, and marks
    /// them taken.
    fn get_stow(&mut self, files: &Vec<String>, taken: &mut Vec<bool>, whole: &str)
        requires
            old(self).wf(),
            string_views(files@).no_duplicates(),
            old(taken)@.len() == files@.len(),
            forall|k: int| 0 <= k < old(taken)@.len() ==> !old(taken)@[k],
            stow_fits(whole@),
        ensures
            final(self).wf(),
            final(self).todo_files() == old(self).todo_files(),
            final(self).done_files() == old(self).done_files() + read_stow(
                split(whole@, newline()),
                string_views(files@),
            ),
            final(taken)@.len() == files@.len(),
            forall|k: int|
                0 <= k < files@.len() ==> final(taken)@[k] == file_names(
                    read_stow(split(whole@, newline()), string_views(files@)),
                ).contains(#[trigger] files@[k]@),
    {
        let chars = to_chars(whole);
        let mut nl: Vec<char> = Vec::new();
        nl.push('\n');
        assert(nl@ =~= newline());
        let lines = split_chars(&chars, &nl);
        let sep = field_sep_chars();
        let ghost ls = views(lines@);
        let ghost fv = string_views(files@);
        let ghost d0 = self.done_files();
        let mut i: usize = 0;
        assert(ls.take(0) =~= Seq::<Seq<char>>::empty());
        while i < lines.len()
            invariant
                i <= lines@.len(),
                ls == views(lines@),
                ls == split(whole@, newline()),
                forall|j: int| 0 <= j < ls.len() ==> hash_text_fits(#[trigger] ls[j]),
                fv == string_views(files@),
                fv.no_duplicates(),
                sep@ == field_sep(),
                self.todo_files() == old(self).todo_files(),
                hashes_valid(self.todo_files()),
                hashes_valid(self.done_files()),
                self.done_files() == d0 + read_stow(ls.take(i as int), fv),
                taken@.len() == fv.len(),
                forall|k: int|
                    0 <= k < fv.len() ==> taken@[k] == file_names(read_stow(ls.take(i as int), fv)).contains(
                        #[trigger] fv[k],
                    ),
            decreases lines@.len() - i,
        {
            let ghost before = read_stow(ls.take(i as int), fv);
            let ghost dbefore = self.done_files();
            assert(ls.take(i + 1).drop_last() =~= ls.take(i as int));
            assert(ls.take(i + 1).last() == ls[i as int]);
            assert(ls[i as int] == lines@[i as int]@);
            let parts = split_chars(&lines[i], &sep);
            let n = parts.len();
            if n >= 2 {
                assert(hash_text_fits(ls[i as int]));
                assert(views(parts@)[n - 1] == parts@[n - 1]@);
                assert(views(parts@)[n - 2] == parts@[n - 2]@);
                let file = string_of(&parts[n - 1], 0, parts[n - 1].len());
                assert(parts@[n - 1]@.subrange(0, parts@[n - 1]@.len() as int) =~= parts@[n - 1]@);
                assert(stow_entry(ls[i as int]) == Some((parts@[n - 2]@, file@)));
                match find_name(files, &file) {
                    Some(k) => {
                        assert(fv[k as int] == file@);
                        if !taken[k] {
                            let text = string_of(&parts[n - 2], 0, parts[n - 2].len());
                            assert(parts@[n - 2]@.subrange(0, parts@[n - 2]@.len() as int)
                                =~= parts@[n - 2]@);
                            let hash = decode_hash(text.as_str());
                            proof {
                                if text@ == unhashable_text() {
                                    lemma_unhashable_not_base64();
                                }
                            }
                            let ghost fhv = FileHashView { file: file@, hash: stow_hash(text@) };
                            let fh = FileHash { file, hash };
                            assert(fh@ == fhv);
                            self.done.push(fh);
                            assert(self.done_files() =~= dbefore.push(fhv));
                            taken.set(k, true);
                            proof {
                                lemma_names_push(before, fhv);
                                assert(read_stow(ls.take(i + 1), fv) == before.push(fhv));
                                assert forall|k2: int| 0 <= k2 < fv.len() implies taken@[k2]
                                    == file_names(read_stow(ls.take(i + 1), fv)).contains(
                                    #[trigger] fv[k2],
                                ) by {
                                    if k2 != k {
                                        assert(fv[k2] != fv[k as int]);
                                    }
                                }
                            }
                        } else {
                            assert(read_stow(ls.take(i + 1), fv) == before);
                        }
                    },
                    None => {
                        assert(read_stow(ls.take(i + 1), fv) == before);
                    },
                }
            } else {
                assert(read_stow(ls.take(i + 1), fv) == before);
            }
            i = i + 1;
        }
        assert(ls.take(lines@.len() as int) =~= ls);
        assert forall|k: int| 0 <= k < files@.len() implies taken@[k] == file_names(
            read_stow(ls, fv),
        ).contains(#[trigger] files@[k]@) by {
            assert(fv[k] == files@[k]@);
        }
    }

    /// Gathers the files of a directory listing: each name once, at its first
    /// place.  Where the options read the cache and there is a cache text,
    /// the files that it lists (see `read_stow`) join the hashed files with
    /// their cached hashes; the others, except the cache file `./.x3c`
    /// (compared as paths, by components), join the files to be hashed, in
    /// order.  Names are told apart as text.
    pub fn grab(&mut self, prey: &Options, entries: &Vec<String>, stow: Option<&str>)
        requires
            old(self).wf(),
            prey.spec_use_stow() ==> (stow matches Some(t) ==> stow_fits(t@)),
        ensures
            final(self).wf(),
            final(self).done_files() == old(self).done_files() + stowed(
                prey.spec_use_stow(),
                stow,
                dedup(string_views(entries@)),
            ),
            final(self).todo_files() == old(self).todo_files() + fresh_files(
                dedup(string_views(entries@)),
                stowed(prey.spec_use_stow(), stow, dedup(string_views(entries@))),
            ),
    {
        let files = dedup_names(entries);
        let ghost fv = string_views(files@);
        proof {
            lemma_dedup(string_views(entries@));
        }
        let mut taken: Vec<bool> = Vec::new();
        for k in 0..files.len()
            invariant
                taken@.len() == k,
                forall|j: int| 0 <= j < k ==> !taken@[j],
        {
            taken.push(false);
        }
        let ghost tk = stowed(prey.spec_use_stow(), stow, fv);
        let ghost d0 = self.done_files();
        if prey.reads_stow() {
            match stow {
                Some(t) => self.get_stow(&files, &mut taken, t),
                None => {},
            }
        }
        proof {
            if tk.len() == 0 {
                assert(tk =~= Seq::<FileHashView>::empty());
                assert(self.done_files() =~= d0 + tk);
                assert forall|k: int| 0 <= k < fv.len() implies taken@[k] == file_names(tk).contains(
                    #[trigger] fv[k],
                ) by {
                    assert(file_names(tk).len() == 0);
                }
            }
        }
        let cache = path_key_of("./.x3c");
        proof {
            reveal_strlit("./.x3c");
            assert("./.x3c"@ =~= cache_path());
        }
        let ghost t0 = self.todo_files();
        assert(fv.take(0) =~= Seq::<Seq<char>>::empty());
        assert(t0 + fresh_files(fv.take(0), tk) =~= t0);
        for k in 0..files.len()
            invariant
                fv == string_views(files@),
                taken@.len() == fv.len(),
                forall|j: int| 0 <= j < fv.len() ==> taken@[j] == file_names(tk).contains(#[trigger] fv[j]),
                views(cache@) == path_key(cache_path()),
                self.done_files() == d0 + tk,
                hashes_valid(self.done_files()),
                hashes_valid(self.todo_files()),
                self.todo_files() == t0 + fresh_files(fv.take(k as int), tk),
        {
            let ghost tbefore = self.todo_files();
            assert(fv.take(k + 1).drop_last() =~= fv.take(k as int));
            assert(fv.take(k + 1).last() == fv[k as int]);
            assert(fv[k as int] == files@[k as int]@);
            if !taken[k] && !keys_eq(&path_key_of(files[k].as_str()), &cache) {
                let fh = FileHash { file: files[k].clone(), hash: None };
                self.todo.push(fh);
                assert(self.todo_files() =~= tbefore.push(FileHashView { file: fv[k as int], hash: None }));
            }
        }
        assert(fv.take(files@.len() as int) =~= fv);
    }

    /// Every hash of the hashed files can be compared with another without
    /// overflowing a `u32`, as `analyze` needs.
    pub fn hashes_fit(&self) -> (r: bool)
        ensures
            r == forall|i: int|
                0 <= i < self.done_files().len() && (#[trigger] self.done_files()[i]).hash is Some
                    ==> hash_fits(self.done_files()[i].hash->0),
    {
        for i in 0..self.done.len()
            invariant
                forall|k: int|
                    0 <= k < i && (#[trigger] self.done_files()[k]).hash is Some ==> hash_fits(
                        self.done_files()[k].hash->0,
                    ),
        {
            assert(self.done@[i as int]@ == self.done_files()[i as int]);
            if let Some(b) = &self.done[i].hash {
                if b.len() > 536870911 {
                    return false;
                }
            }
        }
        true
    }

    /// For each hashed file, in order, the names of the later hashed files
    /// whose hash is within the distance of the options from its hash
    /// (`ImageHash::dist`), where there are any.
    pub fn analyze(&self, prey: &Options) -> (r: Vec<Vec<String>>)
        requires
            prey.spec_distance() < u32::MAX,
            forall|i: int|
                0 <= i < self.done_files().len() && (#[trigger] self.done_files()[i]).hash is Some
                    ==> hash_fits(self.done_files()[i].hash->0),
        ensures
            name_lists(r@) == analysis(self.done_files(), prey.spec_distance()),
    {
        let dist = prey.max_distance();
        let ghost d = self.done_files();
        let mut hs: Vec<&FileHash> = Vec::new();
        assert(d.take(0) =~= Seq::<FileHashView>::empty());
        for i in 0..self.done.len()
            invariant
                d == self.done_files(),
                hs@.map_values(|f: &FileHash| f@) == hashed_files(d.take(i as int)),
        {
            let ghost before = hs@.map_values(|f: &FileHash| f@);
            assert(d.take(i + 1).drop_last() =~= d.take(i as int));
            assert(d.take(i + 1).last() == d[i as int]);
            assert(self.done@[i as int]@ == d[i as int]);
            if self.done[i].hash.is_some() {
                hs.push(&self.done[i]);
                assert(hs@.map_values(|f: &FileHash| f@) =~= before.push(d[i as int]));
            }
        }
        assert(d.take(d.len() as int) =~= d);
        let ghost h = hashed_files(d);
        proof {
            lemma_hashed_files(d);
        }
        assert forall|j: int| 0 <= j < h.len() implies (#[trigger] h[j]).hash is Some && hash_fits(
            h[j].hash->0,
        ) by {
            let k = choose|k: int| 0 <= k < d.len() && d[k] == h[j];
        }
        let mut res: Vec<Vec<String>> = Vec::new();
        assert(name_lists(res@) =~= alike_lists(h, dist, 0));
        for i in 0..hs.len()
            invariant
                hs@.map_values(|f: &FileHash| f@) == h,
                forall|j: int| 0 <= j < h.len() ==> (#[trigger] h[j]).hash is Some && hash_fits(h[j].hash->0),
                name_lists(res@) == alike_lists(h, dist, i as int),
        {
            assert(hs@[i as int]@ == h[i as int]);
            let mut list: Vec<String> = Vec::new();
            if let Some(a) = &hs[i].hash {
                assert(string_views(list@) =~= alike_after(h, dist, i as int, i + 1));
                for j in i + 1..hs.len()
                    invariant
                        i < hs@.len(),
                        hs@.map_values(|f: &FileHash| f@) == h,
                        forall|j: int| 0 <= j < h.len() ==> (#[trigger] h[j]).hash is Some && hash_fits(
                            h[j].hash->0,
                        ),
                        h[i as int].hash == Some(a@),
                        string_views(list@) == alike_after(h, dist, i as int, j as int),
                {
                    assert(hs@[j as int]@ == h[j as int]);
                    let ghost before = string_views(list@);
                    if let Some(b) = &hs[j].hash {
                        let dd = hash_distance(a.as_slice(), b.as_slice());
                        if dd <= dist {
                            list.push(hs[j].file.clone());
                            assert(string_views(list@) =~= before.push(h[j as int].file));
                        }
                    }
                }
            }
            let ghost before = name_lists(res@);
            if list.len() > 0 {
                res.push(list);
                assert(name_lists(res@) =~= before.push(alike_after(h, dist, i as int, h.len() as int)));
            }
        }
        res
    }

    /// The names of the files still to be hashed, in order.
    pub fn todo_paths(&self) -> (r: Vec<String>)
        ensures
            r@.len() == self.todo_files().len(),
            forall|i: int| 0 <= i < r@.len() ==> (#[trigger] r@[i])@ == self.todo_files()[i].file,
    {
        let mut r: Vec<String> = Vec::new();
        for i in 0..self.todo.len()
            invariant
                r@.len() == i,
                forall|k: int| 0 <= k < i ==> (#[trigger] r@[k])@ == self.todo_files()[k].file,
        {
            r.push(self.todo[i].file.clone());
        }
        r
    }

    /// Hashes the files still to be hashed, given the contents of each (none
    /// where the file could not be read), and moves them, each with its hash
    /// (none where it holds no image), after the hashed ones.
    pub fn digest(&mut self, images: Vec<Option<Vec<u8>>>)
        requires
            images@.len() == old(self).todo_files().len(),
            old(self).wf(),
        ensures
            final(self).todo_files() == Seq::<FileHashView>::empty(),
            final(self).done_files().len() == old(self).done_files().len() + images@.len(),
            forall|i: int| 0 <= i < old(self).done_files().len() ==> #[trigger] final(self).done_files()[i]
                == old(self).done_files()[i],
            forall|i: int|
                0 <= i < images@.len() ==> (#[trigger] final(self).done_files()[old(self).done_files().len()
                    + i]).file == old(self).todo_files()[i].file && final(self).done_files()[old(self).done_files().len() + i].hash
                    == hash_of_file(old(self).todo_files()[i].file, hash_view(images@[i])),
            forall|i: int|
                0 <= i < images@.len() ==> (#[trigger] final(self).done_files()[old(self).done_files().len()
                    + i]).hash == match images@[i] {
                    Some(c) => image_hash_of(old(self).todo_files()[i].file, c@),
                    None => None,
                },
            final(self).wf(),
    {
        let ghost d0 = self.done_files();
        let ghost t0 = self.todo_files();
        let mut todo: Vec<FileHash> = Vec::new();
        std::mem::swap(&mut todo, &mut self.todo);
        assert(file_views(todo@) == t0);
        let n = todo.len();
        let mut k: usize = 0;
        for data in it: images
            invariant
                n == todo@.len(),
                k == it.index(),
                k <= t0.len(),
                it.seq() == images@,
                images@.len() == t0.len(),
                file_views(todo@) == t0,
                self.todo@.len() == 0,
                hashes_valid(d0),
                self.done_files().len() == d0.len() + k,
                forall|i: int| 0 <= i < d0.len() ==> #[trigger] self.done_files()[i] == d0[i],
                forall|i: int|
                    0 <= i < k ==> (#[trigger] self.done_files()[d0.len() + i]).file == t0[i].file
                        && self.done_files()[d0.len() + i].hash == hash_of_file(
                        t0[i].file,
                        hash_view(images@[i]),
                    ),
                hashes_valid(self.done_files()),
        {
            assert(k < t0.len());
            assert(t0[k as int] == todo@[k as int]@);
            let file = todo[k].file.clone();
            let hash = match &data {
                Some(d) => hash_image_data(file.as_str(), d.as_slice()),
                None => None,
            };
            let ghost before = self.done_files();
            let fh = FileHash { file, hash };
            assert(fh@.hash == hash_of_file(t0[k as int].file, hash_view(images@[k as int])));
            self.done.push(fh);
            assert(self.done_files() =~= before.push(fh@));
            k = k + 1;
        }
        assert(self.todo_files() =~= Seq::<FileHashView>::empty());
    }

    /// The cache text of the hashed files: for each, in order, a newline and
    /// the line `<hash> // <file>`, with `[unhashable]` for a file without a
    /// hash.  Read back, it gives the same files with the same hashes, as
    /// long as their names are distinct and hold neither a newline nor
    /// `" // "`.
    pub fn stow(&self) -> (r: String)
        requires
            self.wf(),
        ensures
            r@ == stow_text(self.done_files()),
            forall|i: int| 0 <= i < self.done_files().len() ==> hash_reads_back(#[trigger] self.done_files()[i].hash),
            clean_names(self.done_files()) ==> stow_fits(r@),
            forall|files: Seq<Seq<char>>|
                clean_names(self.done_files()) && (forall|i: int|
                    0 <= i < self.done_files().len() ==> files.contains(
                        #[trigger] self.done_files()[i].file,
                    )) ==> #[trigger] read_stow(split(r@, newline()), files) == self.done_files(),
    {
        let ghost d = self.done_files();
        let ghost lines = seq![seq![]] + d.map_values(|f: FileHashView| stow_line(f));
        let mut out = String::new();
        let ghost e: Seq<char> = seq![];
        assert(lines.take(1) =~= seq![e]);
        assert(out@ == join(lines.take(1), newline()));
        let mut i: usize = 0;
        while i < self.done.len()
            invariant
                i <= d.len(),
                d == self.done_files(),
                hashes_valid(d),
                lines == seq![seq![]] + d.map_values(|f: FileHashView| stow_line(f)),
                out@ == join(lines.take(i + 1), newline()),
                forall|k: int| 0 <= k < i ==> hash_reads_back(#[trigger] d[k].hash),
            decreases d.len() - i,
        {
            let ghost before = out@;
            assert(self.done@[i as int]@ == d[i as int]);
            out.append("\n");
            match &self.done[i].hash {
                None => {
                    out.append("[unhashable]");
                    proof {
                        reveal_strlit("[unhashable]");
                    }
                    assert("[unhashable]"@ =~= unhashable_text());
                },
                Some(b) => {
                    let t = encode_hash(b.as_slice());
                    out.append(t.as_str());
                },
            }
            out.append(" // ");
            out.append(self.done[i].file.as_str());
            proof {
                reveal_strlit("\n");
                reveal_strlit(" // ");
                assert("\n"@ =~= newline());
                assert(" // "@ =~= field_sep());
                assert(out@ =~= before + newline() + stow_line(d[i as int]));
                lemma_join_push(lines.take(i + 1), newline(), lines[i + 1]);
                assert(lines.take(i + 1).push(lines[i + 1]) =~= lines.take(i + 2));
            }
            i = i + 1;
        }
        assert(lines.take(d.len() + 1int) =~= lines);
        proof {
            assert forall|files: Seq<Seq<char>>|
                clean_names(d) && (forall|i: int| 0 <= i < d.len() ==> files.contains(#[trigger] d[i].file))
                    implies #[trigger] read_stow(split(out@, newline()), files) == d by {
                lemma_read_stow_text(d, files);
            }
            if clean_names(d) {
                lemma_stow_fits(d);
            }
        }
        out
    }
}

/// Law: the hashed files are the files with a hash, in order.
pub proof fn lemma_hashed_files_are(d: Seq<FileHashView>)
    ensures
        hashed_files(d) == d.filter(|f: FileHashView| f.hash is Some),
    decreases d.len(),
{
    reveal(Seq::filter);
    if d.len() > 0 {
        lemma_hashed_files_are(d.drop_last());
    }
}

/// Law: the list reported for the `i`-th hashed file names, in order and
/// once each, the later hashed files (before the `n`-th) whose hash differs
/// from its hash in at most `dist` bits.
pub proof fn lemma_alike_after_are(h: Seq<FileHashView>, dist: u32, i: int, n: int)
    requires
        0 <= i < n <= h.len(),
    ensures
        alike_after(h, dist, i, n) == h.subrange(i + 1, n).filter(
            |f: FileHashView| hamming(h[i].hash->0, f.hash->0) <= dist,
        ).map_values(|f: FileHashView| f.file),
    decreases n - i,
{
    reveal(Seq::filter);
    let pred = |f: FileHashView| hamming(h[i].hash->0, f.hash->0) <= dist;
    if n <= i + 1 {
        assert(h.subrange(i + 1, n).len() == 0);
        assert(h.subrange(i + 1, n).filter(pred) =~= Seq::<FileHashView>::empty());
        assert(h.subrange(i + 1, n).filter(pred).map_values(|f: FileHashView| f.file) =~= Seq::<
            Seq<char>,
        >::empty());
    } else {
        lemma_alike_after_are(h, dist, i, n - 1);
        let s = h.subrange(i + 1, n);
        assert(s.drop_last() =~= h.subrange(i + 1, n - 1));
        assert(s.last() == h[n - 1]);
        let before = h.subrange(i + 1, n - 1).filter(pred);
        if pred(h[n - 1]) {
            assert(s.filter(pred) == before.push(h[n - 1]));
            assert(before.push(h[n - 1]).map_values(|f: FileHashView| f.file) =~= before.map_values(
                |f: FileHashView| f.file,
            ).push(h[n - 1].file));
        } else {
            assert(s.filter(pred) == before);
        }
    }
}

/// The lists reported for the first `m` hashed files.
proof fn lemma_alike_lists_are(h: Seq<FileHashView>, dist: u32, m: int)
    requires
        0 <= m <= h.len(),
    ensures
        alike_lists(h, dist, m) == Seq::new(m as nat, |i: int| alike_after(h, dist, i, h.len() as int)).filter(
            |l: Seq<Seq<char>>| l.len() > 0,
        ),
    decreases m,
{
    reveal(Seq::filter);
    let f = |i: int| alike_after(h, dist, i, h.len() as int);
    if m == 0 {
        assert(Seq::new(0, f) =~= Seq::<Seq<Seq<char>>>::empty());
    } else {
        lemma_alike_lists_are(h, dist, m - 1);
        assert(Seq::new(m as nat, f).drop_last() =~= Seq::new((m - 1) as nat, f));
        assert(Seq::new(m as nat, f).last() == alike_after(h, dist, m - 1, h.len() as int));
    }
}

/// Law: the analysis reports, in order, the list of each hashed file that
/// has alike later files, and no empty list; each list names, in order,
/// every later hashed file whose hash differs from that file's hash in at
/// most `dist` bits.
pub proof fn lemma_analysis_is(d: Seq<FileHashView>, dist: u32)
    ensures
        analysis(d, dist) == Seq::new(
            hashed_files(d).len(),
            |i: int| hashed_files(d).subrange(i + 1, hashed_files(d).len() as int).filter(
                |f: FileHashView| hamming(hashed_files(d)[i].hash->0, f.hash->0) <= dist,
            ).map_values(|f: FileHashView| f.file),
        ).filter(|l: Seq<Seq<char>>| l.len() > 0),
{
    let h = hashed_files(d);
    lemma_alike_lists_are(h, dist, h.len() as int);
    let f1 = |i: int| alike_after(h, dist, i, h.len() as int);
    let f2 = |i: int| h.subrange(i + 1, h.len() as int).filter(
        |f: FileHashView| hamming(h[i].hash->0, f.hash->0) <= dist,
    ).map_values(|f: FileHashView| f.file);
    assert forall|i: int| 0 <= i < h.len() implies #[trigger] Seq::new(h.len(), f1)[i] == Seq::new(h.len(), f2)[i] by {
        lemma_alike_after_are(h, dist, i, h.len() as int);
    }
    assert(Seq::new(h.len(), f1) =~= Seq::new(h.len(), f2));
}

} // verus!
