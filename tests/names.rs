use injecttools::names::{
    accepts_name, candidates_from_words, extract_domain, split_bytes, subdomains_from_entries,
};

fn b(s: &str) -> Vec<u8> {
    s.as_bytes().to_vec()
}

fn texts(v: Vec<Vec<u8>>) -> Vec<String> {
    v.into_iter().map(|n| String::from_utf8(n).unwrap()).collect()
}

#[test]
fn certificate_names_are_cleaned_filtered_and_unique() {
    let entries = vec![
        b("*.example.com\nwww.example.com"),
        b(" api.example.com \n*.*.cdn.example.com\nexample.org\nbad name.example.com\n\nwww.example.com"),
    ];
    let names = texts(subdomains_from_entries(&entries, &b("example.com")));
    assert_eq!(
        names,
        vec!["api.example.com", "cdn.example.com", "example.com", "www.example.com"]
    );
}

#[test]
fn certificate_names_come_out_sorted() {
    let entries = vec![b("b.c"), b("a.c\nb.c\nab.c")];
    assert_eq!(texts(subdomains_from_entries(&entries, &b(".c"))), vec!["a.c", "ab.c", "b.c"]);
}

#[test]
fn no_entry_no_name() {
    assert!(subdomains_from_entries(&Vec::new(), &b("example.com")).is_empty());
    let only_other = vec![b("a.example.org\n*.")];
    assert!(subdomains_from_entries(&only_other, &b("example.com")).is_empty());
}

#[test]
fn accepted_names() {
    assert!(accepts_name(&b("cdn.example.com"), &b("example.com")));
    assert!(!accepts_name(&b("example"), &b("example.com")));
    assert!(!accepts_name(&b("a b.example.com"), &b("example.com")));
    assert!(!accepts_name(&b("localhost"), &b("host")));
}

#[test]
fn wordlist_lines_become_candidates() {
    let words = b("www\n  cdn \n\napi\r\n");
    let names = texts(candidates_from_words(&words, &b("x.com")));
    assert_eq!(names, vec!["www.x.com", "cdn.x.com", "api.x.com"]);
    assert!(candidates_from_words(&b(""), &b("x.com")).is_empty());
    assert_eq!(
        texts(candidates_from_words(&b("mail"), &b("x.com"))),
        vec!["mail.x.com"]
    );
}

#[test]
fn domain_of_host_names() {
    let d = |h: &str| String::from_utf8(extract_domain(&b(h))).unwrap();
    assert_eq!(d("cdn.example.com"), "example.com");
    assert_eq!(d("example.com"), "example.com");
    assert_eq!(d("https://api.shop.example.co"), "example.co");
    assert_eq!(d("http://https://a.b.c"), "b.c");
    assert_eq!(d("localhost"), "localhost");
    assert_eq!(d("https://localhost"), "https://localhost");
    assert_eq!(d(".com"), ".com");
    assert_eq!(d(""), "");
}

#[test]
fn split_on_separator() {
    let parts = texts(split_bytes(&b("a.b..c"), b'.'));
    assert_eq!(parts, vec!["a", "b", "", "c"]);
    assert_eq!(texts(split_bytes(&b(""), b'.')), vec![""]);
    assert_eq!(texts(split_bytes(&b("x\n"), b'\n')), vec!["x", ""]);
}

#[test]
fn unicode_whitespace_is_trimmed() {
    let words = b("\u{a0}www\u{3000}\n\u{2003}\u{2003}\n\tcdn\u{85}");
    assert_eq!(
        texts(candidates_from_words(&words, &b("x.com"))),
        vec!["www.x.com", "cdn.x.com"]
    );
    let entries = vec![b("\u{1680}*.api.example.com\u{205f}\n\u{202f}mail.example.com")];
    assert_eq!(
        texts(subdomains_from_entries(&entries, &b("example.com"))),
        vec!["api.example.com", "mail.example.com"]
    );
    let kept = b("caf\u{e9}.example.com");
    assert_eq!(
        texts(subdomains_from_entries(&vec![kept.clone()], &b("example.com"))),
        vec!["caf\u{e9}.example.com"]
    );
}
