use copycat::cookiejar::{CookieJar, Gramma, HashCookie, HashGramma};
use copycat::imagehash::{hash_distance, hash_to_base64};

fn cookie(hash: Option<Vec<u8>>, path: &str) -> HashCookie {
    HashCookie { hash, path: path.to_owned() }
}

#[test]
fn hash_distance_counts_differing_bits() {
    assert_eq!(hash_distance(&[0b1010], &[0b0101]), 4);
    assert_eq!(hash_distance(&[1, 2, 3], &[1, 2, 7]), 1);
    assert_eq!(hash_distance(&[0xff, 0xff], &[0x00]), 8);
    assert_eq!(hash_distance(&[], &[0xff]), 0);
    assert_eq!(hash_distance(&[9, 9], &[9, 9]), 0);
}

#[test]
fn hash_distance_is_symmetric() {
    let a = [0x12, 0x34, 0x56];
    let b = [0xff, 0x00];
    assert_eq!(hash_distance(&a, &b), hash_distance(&b, &a));
    assert_eq!(hash_distance(&a, &b), 9);
}

#[test]
fn gramma_reads_hashed_line() {
    let c = HashGramma.cookie("AQID // ./a.png").unwrap();
    assert_eq!(c.hash, Some(vec![1, 2, 3]));
    assert_eq!(c.path, "./a.png");
}

#[test]
fn gramma_reads_unhashable_line() {
    let c = HashGramma.cookie("[unhashable] // ./b.png").unwrap();
    assert_eq!(c.hash, None);
    assert_eq!(c.path, "./b.png");
}

#[test]
fn gramma_takes_first_two_pieces() {
    let c = HashGramma.cookie("AQID // ./a // b").unwrap();
    assert_eq!(c.hash, Some(vec![1, 2, 3]));
    assert_eq!(c.path, "./a");
}

#[test]
fn gramma_refuses_bad_lines() {
    assert!(HashGramma.cookie("no separator here").is_none());
    assert!(HashGramma.cookie("").is_none());
    assert!(HashGramma.cookie("!!! // ./c.png").is_none());
}

#[test]
fn gramma_writes_lines() {
    assert_eq!(HashGramma.devour(cookie(Some(vec![1, 2, 3]), "./a.png")), Some("AQID // ./a.png".to_owned()));
    assert_eq!(HashGramma.devour(cookie(Some(vec![1, 2, 7]), "./c.png")), Some("AQIH // ./c.png".to_owned()));
    assert_eq!(HashGramma.devour(cookie(None, "./b.png")), Some("[unhashable] // ./b.png".to_owned()));
    assert_eq!(HashGramma.devour(cookie(Some(vec![]), "./e.png")), None);
}

#[test]
fn gramma_line_reads_back() {
    let c = cookie(Some(vec![255, 0, 17, 42]), "./x y.jpg");
    let line = HashGramma.devour(cookie(c.hash.clone(), &c.path)).unwrap();
    let back = HashGramma.cookie(&line).unwrap();
    assert_eq!(back.hash, c.hash);
    assert_eq!(back.path, c.path);
}

#[test]
fn hash_cookie_new_has_no_hash() {
    let c = HashCookie::new("./a.png".to_owned());
    assert_eq!(c.hash, None);
    assert_eq!(c.path, "./a.png");
}

#[test]
fn jar_reads_cache_text() {
    let mut jar = CookieJar::new(HashGramma);
    jar.add_old("AQID // ./a\n[unhashable] // ./b\ngarbage\n!! // ./c\n");
    let cs = jar.jar();
    assert_eq!(cs.len(), 2);
    assert_eq!(cs[0].hash, Some(vec![1, 2, 3]));
    assert_eq!(cs[0].path, "./a");
    assert_eq!(cs[1].hash, None);
    assert_eq!(cs[1].path, "./b");
}

#[test]
fn jar_add_keeps_order() {
    let mut jar = CookieJar::new(HashGramma);
    jar.add(cookie(None, "./one"));
    jar.add(cookie(Some(vec![5]), "./two"));
    let cs = jar.jar();
    assert_eq!(cs.len(), 2);
    assert_eq!(cs[0].path, "./one");
    assert_eq!(cs[1].path, "./two");
}

#[test]
fn jar_save_writes_lines_and_empties() {
    let mut jar = CookieJar::new(HashGramma);
    jar.add(cookie(Some(vec![1, 2, 3]), "./a"));
    jar.add(cookie(None, "./b"));
    jar.add(cookie(Some(vec![]), "./dropped"));
    let text = jar.save();
    assert_eq!(text, "AQID // ./a\n[unhashable] // ./b");
    assert_eq!(jar.jar().len(), 0);
}

#[test]
fn jar_save_of_empty_jar_is_empty() {
    let mut jar = CookieJar::new(HashGramma);
    assert_eq!(jar.save(), "");
    let mut again = CookieJar::new(HashGramma);
    again.add_old("");
    assert_eq!(again.jar().len(), 0);
}

#[test]
fn jar_save_then_read_gives_same_cookies() {
    let mut jar = CookieJar::new(HashGramma);
    jar.add(cookie(Some(vec![7, 7, 7, 7, 7, 7, 7, 7]), "./p.png"));
    jar.add(cookie(None, "./q.png"));
    jar.add(cookie(Some(vec![0]), "./r.png"));
    let text = jar.save();
    let mut back = CookieJar::new(HashGramma);
    back.add_old(&text);
    let cs = back.jar();
    assert_eq!(cs.len(), 3);
    assert_eq!(cs[0].hash, Some(vec![7, 7, 7, 7, 7, 7, 7, 7]));
    assert_eq!(cs[0].path, "./p.png");
    assert_eq!(cs[1].hash, None);
    assert_eq!(cs[1].path, "./q.png");
    assert_eq!(cs[2].hash, Some(vec![0]));
    assert_eq!(cs[2].path, "./r.png");
}

#[test]
fn hash_text_is_unpadded_base64() {
    assert_eq!(hash_to_base64(&[1, 2, 3]), "AQID");
    assert_eq!(hash_to_base64(&[1, 2, 7]), "AQIH");
    assert_eq!(hash_to_base64(&[0]), "AA");
    assert_eq!(hash_to_base64(&[255, 255]), "//8");
}

#[test]
fn gramma_line_with_newline_path_reads_back_alone() {
    let line = HashGramma.devour(cookie(Some(vec![4, 5, 6]), "./odd\nname.png")).unwrap();
    assert_eq!(line, "BAUG // ./odd\nname.png");
    let back = HashGramma.cookie(&line).unwrap();
    assert_eq!(back.hash, Some(vec![4, 5, 6]));
    assert_eq!(back.path, "./odd\nname.png");
}
