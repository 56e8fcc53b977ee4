use abtest_enrich::cookie::{load_cookie, stringify_cookie, CookieJar};
use abtest_enrich::identity::{resolve_identity, ClientID, CID_COOKIE};
use abtest_enrich::text::{is_white_char, split_text, trim_text};

fn sorted_pairs(jar: &CookieJar) -> Vec<(String, String)> {
    let mut v = jar.entries.clone();
    v.sort();
    v
}

fn pair(k: &str, v: &str) -> (String, String) {
    (k.to_string(), v.to_string())
}

#[test]
fn load_cookie_reads_pairs() {
    let jar = load_cookie("a=1; b=2;c=3");
    assert_eq!(sorted_pairs(&jar), vec![pair("a", "1"), pair("b", "2"), pair("c", "3")]);
}

#[test]
fn load_cookie_trims_names_not_values() {
    let jar = load_cookie("  a  = 1 ;b=x=y");
    assert_eq!(sorted_pairs(&jar), vec![pair("a", " 1 "), pair("b", "x=y")]);
}

#[test]
fn load_cookie_drops_segments_without_equals() {
    let jar = load_cookie("junk; a=1; ;more junk");
    assert_eq!(sorted_pairs(&jar), vec![pair("a", "1")]);
}

#[test]
fn load_cookie_later_duplicate_wins() {
    let jar = load_cookie("a=1; b=2; a=3");
    assert_eq!(sorted_pairs(&jar), vec![pair("a", "3"), pair("b", "2")]);
}

#[test]
fn load_cookie_empty_header() {
    assert!(load_cookie("").entries.is_empty());
}

#[test]
fn stringify_joins_with_semicolon_space() {
    let jar = CookieJar { entries: vec![pair("a", "1"), pair("b", "2")] };
    assert_eq!(stringify_cookie(&jar), "a=1; b=2");
    assert_eq!(stringify_cookie(&CookieJar::new()), "");
}

#[test]
fn jar_remove_returns_value() {
    let mut jar = load_cookie("a=1; b=2");
    assert_eq!(jar.remove("a"), Some("1".to_string()));
    assert_eq!(jar.remove("a"), None);
    assert_eq!(sorted_pairs(&jar), vec![pair("b", "2")]);
}

#[test]
fn strip_identity_round_trip() {
    let header = "theme=dark; ab_cid=abc-123;  lang = en-US ; token=a=b";
    let (cid, forward) = resolve_identity(Some(header));
    assert!(!cid.is_new);
    assert_eq!(cid.id, "abc-123");
    let forward = forward.expect("identity cookie was there");
    let mut inbound = load_cookie(header);
    inbound.remove(CID_COOKIE);
    let reread = load_cookie(&forward);
    assert_eq!(sorted_pairs(&reread), sorted_pairs(&inbound));
    assert_eq!(
        sorted_pairs(&reread),
        vec![pair("lang", " en-US "), pair("theme", "dark"), pair("token", "a=b")]
    );
}

#[test]
fn resolve_without_cookie_header_allocates() {
    let (cid, forward) = resolve_identity(None);
    assert!(cid.is_new);
    assert_eq!(cid.id.len(), 36);
    assert!(forward.is_none());
}

#[test]
fn resolve_without_identity_cookie_allocates() {
    let (cid, forward) = resolve_identity(Some("a=1; b=2"));
    assert!(cid.is_new);
    assert_eq!(cid.id.len(), 36);
    assert!(forward.is_none());
}

fn is_uuid_v4(s: &str) -> bool {
    let c: Vec<char> = s.chars().collect();
    c.len() == 36
        && c.iter().enumerate().all(|(i, ch)| {
            if [8, 13, 18, 23].contains(&i) {
                *ch == '-'
            } else {
                ch.is_ascii_digit() || ('a'..='f').contains(ch)
            }
        })
        && c[14] == '4'
        && "89ab".contains(c[19])
}

#[test]
fn new_ids_are_uuid_v4() {
    for _ in 0..100 {
        let c = ClientID::new();
        assert!(c.is_new);
        assert!(is_uuid_v4(&c.id), "{}", c.id);
    }
}

#[test]
fn new_ids_differ() {
    let a = ClientID::new();
    let b = ClientID::new();
    assert!(a.is_new && b.is_new);
    assert_ne!(a.id, b.id);
}

#[test]
fn setcookie_text() {
    let cid = ClientID::from_id("1234".to_string());
    assert!(!cid.is_new);
    assert_eq!(cid.as_setcookie(), "ab_cid=1234; Max-Age=31536000; Path=/; Secure; HttpOnly");
}

#[test]
fn white_space_matches_std() {
    for c in (0u32..0x11000).filter_map(char::from_u32) {
        assert_eq!(is_white_char(c), c.is_whitespace(), "{:?}", c);
    }
}

#[test]
fn split_and_trim() {
    assert_eq!(split_text("a;;b;", ';'), vec!["a", "", "b", ""]);
    assert_eq!(split_text("", ';'), vec![""]);
    assert_eq!(trim_text("  x y \t"), "x y");
    assert_eq!(trim_text(" \u{3000} "), "");
}
