use abtest_enrich::assign::{
    check_config, create_seed, make_header_name, parse_test_list, pick_bucket, plan_assignments,
    ConfigError, Definition, Experiment, Plan,
};
use abtest_enrich::enrich::{enrich_selected, h1_text_step, wrap_words};
use abtest_enrich::identity::resolve_identity;
use abtest_enrich::weights::{parse_i32, parse_weights};

fn labels(ls: &[&str]) -> Vec<String> {
    ls.iter().map(|s| s.to_string()).collect()
}

fn given(ls: &[&str], w: &str) -> Definition {
    Definition::Given(labels(ls), w.to_string())
}

#[test]
fn parse_i32_agrees_with_std() {
    for s in [
        "0", "7", "+5", "-3", "", "-", "+", "2147483647", "2147483648", "-2147483648",
        "-2147483649", "1a", " 1", "007", "99999999999999999999", "--1",
    ] {
        assert_eq!(parse_i32(s), s.parse::<i32>().ok(), "{:?}", s);
    }
}

#[test]
fn parse_weight_ratio() {
    assert_eq!(parse_weights("7:3:2"), Ok(vec![7, 3, 2]));
    assert_eq!(parse_weights("1"), Ok(vec![1]));
    assert_eq!(parse_weights("1: 1"), Err(" 1".to_string()));
    assert_eq!(parse_weights("1::1"), Err("".to_string()));
    assert_eq!(parse_weights(""), Err("".to_string()));
    assert_eq!(parse_weights("7:x:y"), Err("x".to_string()));
}

#[test]
fn config_errors() {
    let kind = |n: usize, w: &str| check_config(n, w).map_err(|f| f.error);
    assert_eq!(kind(3, "7:3:2"), Ok(vec![7, 3, 2]));
    assert_eq!(kind(2, "1:x"), Err(ConfigError::MalformedWeight));
    assert_eq!(kind(3, "1:1"), Err(ConfigError::LengthMismatch));
    assert_eq!(kind(2, "1:-1"), Err(ConfigError::NegativeWeight));
    assert_eq!(kind(2, "0:0"), Err(ConfigError::AllWeightsZero));
    assert_eq!(kind(2, "2147483647:1"), Err(ConfigError::WeightOverflow));
    let f = check_config(3, "7:x:2").unwrap_err();
    assert_eq!(f.error, ConfigError::MalformedWeight);
    assert_eq!(f.token, "x");
    assert_eq!(check_config(3, "1:1").unwrap_err().token, "");
    assert!(Experiment::from_config(labels(&["a"]), "1:1").is_err());
}

#[test]
fn seed_is_two_md5_digests() {
    let seed = create_seed("a", "");
    let a: [u8; 16] = [
        0x0c, 0xc1, 0x75, 0xb9, 0xc0, 0xf1, 0xb6, 0xa8, 0x31, 0xc3, 0x99, 0xe2, 0x69, 0x77, 0x26, 0x61,
    ];
    let empty: [u8; 16] = [
        0xd4, 0x1d, 0x8c, 0xd9, 0x8f, 0x00, 0xb2, 0x04, 0xe9, 0x80, 0x09, 0x98, 0xec, 0xf8, 0x42, 0x7e,
    ];
    assert_eq!(&seed[..16], &a);
    assert_eq!(&seed[16..], &empty);
}

#[test]
fn same_client_same_bucket() {
    let e = Experiment::from_config(labels(&["small", "medium", "large"]), "7:3:2").unwrap();
    for i in 0..50 {
        let cid = format!("client-{}", i);
        let first = e.select(&cid, "buttonsize");
        for _ in 0..3 {
            assert_eq!(e.select(&cid, "buttonsize"), first);
        }
    }
}

#[test]
fn single_bucket_always_chosen() {
    let e = Experiment::from_config(labels(&["only"]), "1").unwrap();
    for i in 0..200 {
        assert_eq!(e.select(&format!("c{}", i), "solo"), "only");
    }
}

#[test]
fn zero_weight_never_chosen() {
    let b = labels(&["never", "always"]);
    for i in 0..200 {
        assert_eq!(pick_bucket(&format!("c{}", i), "t", &b, &vec![0, 5]), "always");
    }
}

#[test]
fn distribution_follows_weights() {
    let e = Experiment::from_config(labels(&["small", "medium", "large"]), "7:3:2").unwrap();
    let n = 24000;
    let mut counts = [0usize; 3];
    for i in 0..n {
        let b = e.select(&format!("synthetic-{}", i), "buttonsize");
        let k = ["small", "medium", "large"].iter().position(|l| *l == b).unwrap();
        counts[k] += 1;
    }
    let expected = [7.0 / 12.0, 3.0 / 12.0, 2.0 / 12.0];
    for k in 0..3 {
        let p = counts[k] as f64 / n as f64;
        assert!((p - expected[k]).abs() < 0.02, "bucket {} has share {}", k, p);
    }
}

#[test]
fn header_name_prefix() {
    assert_eq!(make_header_name("enrich"), "X-ABTest-enrich");
}

#[test]
fn plan_assigns_in_order() {
    let tests = vec![
        ("itemcount".to_string(), given(&["10", "15"], "1:1")),
        ("buttonsize".to_string(), given(&["small", "medium", "large"], "7:3:2")),
    ];
    match plan_assignments("cid-1", &tests) {
        Plan::Assigned(hs) => {
            assert_eq!(hs.len(), 2);
            assert_eq!(hs[0].0, "X-ABTest-itemcount");
            assert!(hs[0].1 == "10" || hs[0].1 == "15");
            assert_eq!(hs[1].0, "X-ABTest-buttonsize");
            let e = Experiment::from_config(labels(&["small", "medium", "large"]), "7:3:2").unwrap();
            assert_eq!(hs[1].1, e.select("cid-1", "buttonsize"));
        }
        _ => panic!("expected headers"),
    }
}

#[test]
fn missing_experiment_passes_through() {
    let tests = vec![("missing_experiment".to_string(), Definition::Missing)];
    assert!(matches!(plan_assignments("cid-1", &tests), Plan::Passthrough));
}

#[test]
fn missing_experiment_discards_earlier_headers() {
    let tests = vec![
        ("enrich".to_string(), given(&["A", "B"], "1:1")),
        ("missing_experiment".to_string(), Definition::Missing),
        ("broken".to_string(), given(&["A"], "x")),
    ];
    assert!(matches!(plan_assignments("cid-1", &tests), Plan::Passthrough));
}

#[test]
fn faulty_definition_fails_the_plan() {
    let tests = vec![
        ("ok".to_string(), given(&["A", "B"], "1:1")),
        ("broken".to_string(), given(&["A", "B"], "1:z")),
        ("missing".to_string(), Definition::Missing),
    ];
    match plan_assignments("cid-1", &tests) {
        Plan::Invalid(name, weight, f) => {
            assert_eq!(name, "broken");
            assert_eq!(weight, "1:z");
            assert_eq!(f.error, ConfigError::MalformedWeight);
            assert_eq!(f.token, "z");
        }
        _ => panic!("expected a configuration error"),
    }
    let tests = vec![("doc".to_string(), Definition::Unreadable)];
    assert!(matches!(
        plan_assignments("cid-1", &tests),
        Plan::Invalid(_, _, f) if f.error == ConfigError::Unreadable
    ));
}

#[test]
fn enrich_scenario_new_client() {
    let (cid, forward) = resolve_identity(None);
    assert!(cid.is_new);
    assert!(forward.is_none());
    assert!(cid.as_setcookie().starts_with(&format!("ab_cid={};", cid.id)));
    let extra = cid.response_headers();
    assert_eq!(extra.len(), 2);
    assert_eq!(extra[0], ("set-cookie".to_string(), cid.as_setcookie()));
    assert_eq!(extra[1], ("cache-control".to_string(), "no-store".to_string()));
    let tests = vec![("enrich".to_string(), given(&["A", "B"], "1:1"))];
    let first = match plan_assignments(&cid.id, &tests) {
        Plan::Assigned(hs) => hs,
        _ => panic!("expected headers"),
    };
    assert_eq!(first.len(), 1);
    assert_eq!(first[0].0, "X-ABTest-enrich");
    assert!(first[0].1 == "A" || first[0].1 == "B");
    assert_eq!(enrich_selected(&first), first[0].1 == "B");
    // The returning client sends the identity back and gets the same bucket.
    let (again, _) = resolve_identity(Some(&format!("ab_cid={}", cid.id)));
    assert!(!again.is_new);
    assert_eq!(again.id, cid.id);
    assert!(again.response_headers().is_empty());
    match plan_assignments(&again.id, &tests) {
        Plan::Assigned(hs) => assert_eq!(hs, first),
        _ => panic!("expected headers"),
    }
}

#[test]
fn enrich_selection_uses_last_header() {
    let h = |k: &str, v: &str| (k.to_string(), v.to_string());
    assert!(enrich_selected(&vec![h("X-ABTest-enrich", "B")]));
    assert!(!enrich_selected(&vec![h("X-ABTest-enrich", "A")]));
    assert!(!enrich_selected(&vec![h("X-ABTest-other", "B")]));
    assert!(!enrich_selected(&vec![]));
    assert!(enrich_selected(&vec![h("X-ABTest-enrich", "A"), h("X-ABTest-enrich", "B")]));
}

#[test]
fn wrap_heading_words() {
    assert_eq!(wrap_words("Example Domain"), "<span>Example</span><span>Domain</span>");
    assert_eq!(wrap_words("one"), "<span>one</span>");
    assert_eq!(wrap_words("a  b"), "<span>a</span><span></span><span>b</span>");
}

fn run_chunks(chunks: &[&str]) -> String {
    let mut held = String::new();
    let mut out = String::new();
    for (i, c) in chunks.iter().enumerate() {
        let (h, r) = h1_text_step(&held, c, i + 1 == chunks.len());
        held = h;
        out.push_str(&r);
    }
    assert!(held.is_empty());
    out
}

#[test]
fn chunked_heading_wraps_whole_words() {
    let whole = "<span>Example</span><span>Domain</span>";
    assert_eq!(run_chunks(&["Example Domain"]), whole);
    assert_eq!(run_chunks(&["Example Domain", ""]), whole);
    assert_eq!(run_chunks(&["Exam", "ple Domain", ""]), whole);
    assert_eq!(run_chunks(&["Exam", "ple ", "Dom", "ain"]), whole);
}

#[test]
fn held_chunk_replaced_by_nothing() {
    assert_eq!(h1_text_step("", "Exam", false), ("Exam".to_string(), String::new()));
    assert_eq!(
        h1_text_step("Exam", "ple Domain", true),
        (String::new(), "<span>Example</span><span>Domain</span>".to_string())
    );
}

#[test]
fn test_list_split_and_trimmed() {
    assert_eq!(parse_test_list("itemcount, buttonsize ,enrich"), vec!["itemcount", "buttonsize", "enrich"]);
    assert_eq!(parse_test_list("enrich"), vec!["enrich"]);
    assert_eq!(parse_test_list("a,,b"), vec!["a", "", "b"]);
}
