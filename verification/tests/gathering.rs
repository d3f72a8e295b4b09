use copycat::cheetah::Cheetah as JarCheetah;
use copycat::cookiejar::{CookieJar, HashCookie, HashGramma};
use copycat::kitty::cheetah::Cheetah;
use copycat::kitty::util::RichardSet;
use copycat::kitty::{Kitty, Options as KittyOptions};
use copycat::imagehash::hash_to_base64;
use copycat::lynx::{Lynx, LynxIter};
use image_hasher::HasherConfig;
use std::io::Cursor;
use copycat::Options;

/// A PNG image of 16 x 16 gray pixels drawn from `shade`.
fn png(shade: u8) -> Vec<u8> {
    let img = image::GrayImage::from_fn(16, 16, |x, y| {
        image::Luma([((x * 16 + y) as u8).wrapping_mul(shade).wrapping_add((x * y) as u8)])
    });
    let mut buf = Cursor::new(Vec::new());
    img.write_to(&mut buf, image::ImageFormat::Png).unwrap();
    buf.into_inner()
}

/// The hash that `image_hasher` gives the PNG image `data`.
fn expected_hash(data: &[u8]) -> Vec<u8> {
    let img = image::load_from_memory_with_format(data, image::ImageFormat::Png).unwrap();
    HasherConfig::new().to_hasher().hash_image(&img).as_bytes().to_vec()
}

fn hashed(h: u8, path: &str) -> HashCookie {
    HashCookie { hash: Some(vec![h]), path: path.to_owned() }
}

fn names(v: &[&str]) -> Vec<String> {
    v.iter().map(|s| s.to_string()).collect()
}

#[test]
fn options_defaults_and_builders() {
    let o = Options::new();
    assert!(!o.reads_cache());
    assert_eq!(o.max_distance(), 0);
    let o = Options::new().use_cache(true).distance(3);
    assert!(o.reads_cache());
    assert_eq!(o.max_distance(), 3);
    let o = o.use_cache(false);
    assert!(!o.reads_cache());
    assert_eq!(o.max_distance(), 3);
}

#[test]
fn kitty_options_defaults_and_builders() {
    let o = KittyOptions::new();
    assert!(o.reads_stow());
    assert_eq!(o.max_distance(), 0);
    let o = KittyOptions::new().uses_stow(false).distance(5);
    assert!(!o.reads_stow());
    assert_eq!(o.max_distance(), 5);
}

#[test]
fn cheetah_grabs_from_listing_and_cache() {
    let mut c = Cheetah::new();
    let entries = names(&["./a.png", "./b.png", "./a.png", "./.x3c", "./c.png"]);
    let stow = "\nAQID // ./a.png\n[unhashable] // ./b.png\nAQID // ./gone.png";
    c.grab(&KittyOptions::new(), &entries, Some(stow));
    assert_eq!(c.todo_paths(), names(&["./c.png"]));
    assert_eq!(c.stow(), "\nAQID // ./a.png\n[unhashable] // ./b.png");
}

#[test]
fn cheetah_without_cache_hashes_everything_but_cache_file() {
    let mut c = Cheetah::new();
    let entries = names(&["./b.png", "./.x3c", "./a.png", "./b.png"]);
    c.grab(&KittyOptions::new().uses_stow(false), &entries, Some("\nAQID // ./a.png"));
    assert_eq!(c.todo_paths(), names(&["./b.png", "./a.png"]));
    assert_eq!(c.stow(), "");
}

#[test]
fn cheetah_digest_stow_analyze() {
    let mut c = Cheetah::new();
    let entries = names(&["./a.png", "./b.png", "./c.png"]);
    c.grab(&KittyOptions::new(), &entries, Some("\nAQID // ./a.png\n[unhashable] // ./b.png"));
    let image = png(3);
    let h = expected_hash(&image);
    c.digest(vec![Some(image)]);
    assert!(c.todo_paths().is_empty());
    let text = c.stow();
    assert_eq!(
        text,
        format!("\nAQID // ./a.png\n[unhashable] // ./b.png\n{} // ./c.png", hash_to_base64(&h))
    );
    assert!(c.analyze(&KittyOptions::new()).is_empty());
}

#[test]
fn cheetah_cache_text_reads_back() {
    let mut c = Cheetah::new();
    let entries = names(&["./x.png", "./y.png", "./z.png"]);
    c.grab(&KittyOptions::new(), &entries, None);
    c.digest(vec![Some(png(1)), None, Some(b"not an image".to_vec())]);
    let text = c.stow();
    assert_eq!(
        text,
        format!(
            "\n{} // ./x.png\n[unhashable] // ./y.png\n[unhashable] // ./z.png",
            hash_to_base64(&expected_hash(&png(1)))
        )
    );
    let mut again = Cheetah::new();
    again.grab(&KittyOptions::new(), &entries, Some(&text));
    assert!(again.todo_paths().is_empty());
    assert_eq!(again.stow(), text);
}

#[test]
fn cheetah_analyze_lists_later_alike_files() {
    let mut c = Cheetah::new();
    let entries = names(&["./p.png", "./q.png", "./r.png", "./s.png", "./t"]);
    c.grab(&KittyOptions::new(), &entries, None);
    assert_ne!(expected_hash(&png(1)), expected_hash(&png(7)));
    c.digest(vec![Some(png(1)), Some(png(7)), None, Some(png(1)), Some(png(1))]);
    assert_eq!(c.analyze(&KittyOptions::new()), vec![names(&["./s.png"])]);
    let text = c.stow();
    assert!(text.ends_with("\n[unhashable] // ./t"));
}

#[test]
fn kitty_merges_overlapping_match_sets() {
    let mut jar = CookieJar::new(HashGramma);
    jar.add(hashed(0b0000_0000, "./a"));
    jar.add(hashed(0b0000_0001, "./b"));
    jar.add(hashed(0b1111_1111, "./c"));
    jar.add(hashed(0b0000_0011, "./d"));
    jar.add(HashCookie { hash: None, path: "./e".to_owned() });
    let kitty = Kitty::new(&jar, 1);
    assert_eq!(kitty.matches.len(), 1);
    let mut group: Vec<String> = kitty.matches[0].iter().map(|c| c.path.clone()).collect();
    group.sort();
    assert_eq!(group, names(&["./a", "./b", "./d"]));
}

#[test]
fn kitty_equal_hashes_only_at_distance_zero() {
    let mut jar = CookieJar::new(HashGramma);
    jar.add(hashed(7, "./a"));
    jar.add(hashed(6, "./b"));
    jar.add(hashed(7, "./c"));
    jar.add(hashed(6, "./d"));
    let kitty = Kitty::new(&jar, 0);
    let mut groups: Vec<Vec<String>> = kitty
        .matches
        .iter()
        .map(|g| {
            let mut v: Vec<String> = g.iter().map(|c| c.path.clone()).collect();
            v.sort();
            v
        })
        .collect();
    groups.sort();
    assert_eq!(groups, vec![names(&["./a", "./c"]), names(&["./b", "./d"])]);
}

#[test]
fn kitty_no_match_no_group() {
    let mut jar = CookieJar::new(HashGramma);
    jar.add(hashed(0, "./a"));
    jar.add(hashed(0xff, "./b"));
    let kitty = Kitty::new(&jar, 3);
    assert!(kitty.matches.is_empty());
}

#[test]
fn richard_set_groups_pairs() {
    let mut s: RichardSet<u64> = RichardSet::new();
    s.insert(1, 2);
    s.insert(3, 4);
    s.insert(2, 5);
    s.insert(6, 3);
    s.insert(5, 1);
    s.insert(4, 1);
    s.insert(7, 7);
    assert_eq!(s.collect(), vec![vec![1, 2, 5], vec![3, 4, 6], vec![7, 7]]);
}

#[test]
fn richard_set_empty() {
    let s: RichardSet<u64> = RichardSet::new();
    assert!(s.collect().is_empty());
}

fn listing() -> Vec<Option<String>> {
    vec![Some("./a".to_owned()), None, Some("./b".to_owned()), Some("./c".to_owned())]
}

#[test]
fn lynx_walks_readable_entries_not_excluded() {
    let mut l: Lynx<String> = Lynx::new(listing());
    l.exclude("./b");
    l.compute(|p| p);
    assert_eq!(l.size(), 2);
    assert_eq!(l.consume(), names(&["./a", "./c"]));
}

#[test]
fn lynx_exclude_many_and_compute_once() {
    let mut l: Lynx<usize> = Lynx::new(listing());
    l.exclude_many(&names(&["./a", "./c", "./zzz"]));
    l.compute(|p| p.len());
    l.compute(|_p| 100);
    assert_eq!(l.size(), 1);
    assert_eq!(l.consume(), vec![3]);
}

#[test]
fn jar_cheetah_hashes_only_new_files() {
    let mut jar = CookieJar::new(HashGramma);
    jar.add(hashed(1, "./a.png"));
    let entries = vec![
        Some("./a.png".to_owned()),
        Some("./.x3c".to_owned()),
        Some("./b.png".to_owned()),
        None,
        Some("./c.png".to_owned()),
        Some("./d.png".to_owned()),
    ];
    let mut c = JarCheetah::new(&jar, entries);
    assert_eq!(c.len(), 3);
    assert_eq!(c.pending_paths(), names(&["./b.png", "./c.png", "./d.png"]));
    c.hash(&mut jar, vec![Some(png(5)), None, Some(vec![1, 2, 3])]);
    let cs = jar.jar();
    assert_eq!(cs.len(), 4);
    assert_eq!(cs[1].path, "./b.png");
    assert_eq!(cs[1].hash, Some(expected_hash(&png(5))));
    assert_eq!(cs[2].path, "./c.png");
    assert_eq!(cs[2].hash, None);
    assert_eq!(cs[3].path, "./d.png");
    assert_eq!(cs[3].hash, None);
}

#[test]
fn jar_cheetah_leaves_out_same_paths() {
    let mut jar = CookieJar::new(HashGramma);
    jar.add(hashed(1, ".//a.png"));
    jar.add(hashed(2, "./b.png/"));
    let entries = vec![
        Some("./a.png".to_owned()),
        Some("./b.png".to_owned()),
        Some("./.x3c".to_owned()),
        Some("./c.png".to_owned()),
    ];
    let mut c = JarCheetah::new(&jar, entries);
    assert_eq!(c.pending_paths(), names(&["./c.png"]));
}

#[test]
fn jar_cheetah_nothing_new() {
    let mut jar = CookieJar::new(HashGramma);
    jar.add(hashed(1, "./a.png"));
    let mut c = JarCheetah::new(&jar, vec![Some("./a.png".to_owned()), Some("./.x3c".to_owned())]);
    assert_eq!(c.len(), 0);
    c.hash(&mut jar, vec![]);
    assert_eq!(jar.jar().len(), 1);
}

#[test]
fn lynx_iter_skips_unreadable_and_excluded() {
    let mut it = LynxIter::new(vec![None, Some("./a".to_owned()), Some("./b".to_owned()), None, Some("./c".to_owned())]);
    it.exclude("./b".to_owned());
    assert_eq!(it.next(), Some("./a".to_owned()));
    it.exclude("./c".to_owned());
    assert_eq!(it.next(), None);
    assert_eq!(it.next(), None);
}

#[test]
fn kitty_merges_in_one_backward_pass() {
    let mut jar = CookieJar::new(HashGramma);
    for (h, p) in [(12u8, "./a"), (6, "./b"), (0, "./c"), (8, "./d"), (6, "./e"), (14, "./f")] {
        jar.add(hashed(h, p));
    }
    let kitty = Kitty::new(&jar, 1);
    let mut groups: Vec<Vec<String>> = kitty
        .matches
        .iter()
        .map(|g| {
            let mut v: Vec<String> = g.iter().map(|c| c.path.clone()).collect();
            v.sort();
            v
        })
        .collect();
    groups.sort();
    assert_eq!(groups, vec![names(&["./a", "./b", "./d", "./e", "./f"]), names(&["./c", "./d"])]);
}

#[test]
fn cheetah_grab_skips_cache_by_path() {
    let mut c = Cheetah::new();
    let entries = names(&["./a.png", ".//.x3c", "./.x3c/"]);
    c.grab(&KittyOptions::new().uses_stow(false), &entries, None);
    assert_eq!(c.todo_paths(), names(&["./a.png"]));
}

#[test]
fn lynx_excludes_same_path() {
    let mut l: Lynx<String> = Lynx::new(listing());
    l.exclude(".//b");
    l.exclude_many(&names(&["./c/"]));
    l.compute(|p| p);
    assert_eq!(l.consume(), names(&["./a"]));
}

#[test]
fn hash_cookie_hashes_image_contents() {
    let mut c = HashCookie::new("./pic.png".to_owned());
    assert!(c.hash(&png(2)));
    assert_eq!(c.hash, Some(expected_hash(&png(2))));
    assert!(!c.hash(b"garbage"));
    assert_eq!(c.hash, Some(expected_hash(&png(2))));
    let mut d = HashCookie::new("./pic".to_owned());
    assert!(!d.hash(&png(2)));
    assert_eq!(d.hash, None);
}

#[test]
fn richard_set_values_once_each() {
    let mut s: RichardSet<u64> = RichardSet::new();
    s.insert(10, 20);
    s.insert(30, 10);
    s.insert(40, 50);
    s.insert(20, 50);
    let groups = s.collect();
    assert!(groups.iter().all(|g| g.len() >= 2));
    let mut all: Vec<u64> = groups.concat();
    all.sort();
    assert_eq!(all, vec![10, 20, 30, 40, 50]);
}

#[test]
fn kitty_larger_distance_keeps_groupings() {
    let mut jar = CookieJar::new(HashGramma);
    jar.add(hashed(7, "./a"));
    jar.add(hashed(6, "./b"));
    jar.add(hashed(7, "./c"));
    jar.add(hashed(6, "./d"));
    let near: Vec<Vec<String>> =
        Kitty::new(&jar, 0).matches.iter().map(|g| g.iter().map(|c| c.path.clone()).collect()).collect();
    let far: Vec<Vec<String>> =
        Kitty::new(&jar, 1).matches.iter().map(|g| g.iter().map(|c| c.path.clone()).collect()).collect();
    assert_eq!(near.len(), 2);
    for group in &near {
        assert!(far.iter().any(|g| group.iter().all(|p| g.contains(p))));
    }
    let mut all: Vec<String> = far.concat();
    all.sort();
    assert_eq!(all, names(&["./a", "./b", "./c", "./d"]));
}
