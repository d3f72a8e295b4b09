use copycat::text::{join_strings, split_chars, to_chars};

fn strings(v: Vec<Vec<char>>) -> Vec<String> {
    v.into_iter().map(|c| c.into_iter().collect()).collect()
}

#[test]
fn split_cuts_at_every_separator() {
    let parts = split_chars(&to_chars("a // b // c"), &to_chars(" // "));
    assert_eq!(strings(parts), vec!["a", "b", "c"]);
}

#[test]
fn split_keeps_empty_pieces() {
    let parts = split_chars(&to_chars("\nx\n\n"), &to_chars("\n"));
    assert_eq!(strings(parts), vec!["", "x", "", ""]);
    let parts = split_chars(&to_chars(""), &to_chars("\n"));
    assert_eq!(strings(parts), vec![""]);
}

#[test]
fn join_puts_separator_between() {
    let parts = vec!["a".to_owned(), "".to_owned(), "c".to_owned()];
    assert_eq!(join_strings(&parts, "\n"), "a\n\nc");
    assert_eq!(join_strings(&Vec::new(), "\n"), "");
    assert_eq!(join_strings(&vec!["only".to_owned()], ", "), "only");
}
