use inis::parser::{parse, KeyValue, Section};
use inis::{parse_ini, Error, Ini};

fn parse_error(text: &str) -> String {
    match parse_ini(text) {
        Err(Error::ParseError(msg)) => msg,
        Err(Error::Message(msg)) => panic!("unexpected message error {}", msg),
        Ok(_) => panic!("expected a parse error"),
    }
}

#[test]
fn invalid_line_is_reported_without_comment_and_spaces() {
    assert_eq!(parse_error("a=b\n  not a pair ; note\nc=d"), "Invalid line: not a pair");
}

#[test]
fn lone_bracket_is_invalid() {
    assert_eq!(parse_error("["), "Invalid line: [");
    assert_eq!(parse_error("x]"), "Invalid line: x]");
}

#[test]
fn first_invalid_line_wins() {
    assert_eq!(parse_error("one\ntwo"), "Invalid line: one");
}

#[test]
fn equals_sign_makes_a_pair_even_in_brackets() {
    let ini = parse_ini("[a=b]").unwrap();
    assert_eq!(ini.root().get("[a"), Some("b]"));
    assert!(ini.sections().is_empty());
}

#[test]
fn value_keeps_later_equals_signs() {
    let ini = parse_ini("k = a=b ").unwrap();
    assert_eq!(ini.root().get("k"), Some("a=b"));
}

#[test]
fn header_name_is_trimmed_and_may_be_empty() {
    let ini = parse_ini("[  spaced name  ]\nk=v\n[]\nz=1").unwrap();
    let names: Vec<&str> = ini.sections().iter().map(|(n, _)| *n).collect();
    assert_eq!(names, vec!["spaced name", ""]);
    assert_eq!(ini.get("spaced name", "k"), Some("v"));
    assert_eq!(ini.get("", "z"), Some("1"));
    assert_eq!(ini.section("spaced name").unwrap().name(), Some("spaced name"));
    assert_eq!(ini.root().name(), None);
}

#[test]
fn crlf_and_unicode_whitespace_are_trimmed() {
    let ini = parse_ini("a = 1\r\n\u{3000}b\u{a0}=\u{2003}2\u{3000}\r\n[s]\r\nc=3\r\n").unwrap();
    assert_eq!(ini.root().get("a"), Some("1"));
    assert_eq!(ini.root().get("b"), Some("2"));
    assert_eq!(ini.get("s", "c"), Some("3"));
}

#[test]
fn empty_key_and_value() {
    let ini = parse_ini(" = ").unwrap();
    assert_eq!(ini.root().get(""), Some(""));
}

#[test]
fn comment_only_text_is_empty() {
    let ini = parse_ini("; nothing here\n\n   ;; and nothing\n").unwrap();
    assert!(ini.is_empty());
}

#[test]
fn comment_does_not_change_a_line() {
    let with = parse_ini("k=v;comment=x").unwrap();
    let without = parse_ini("k=v").unwrap();
    assert_eq!(with.root().get("k"), without.root().get("k"));
    assert_eq!(with.root().get("comment"), None);
}

#[test]
fn text_is_read_line_by_line() {
    let first = parse_ini("a=1\n[s]\nb=2").unwrap();
    let whole = parse_ini("a=1\n[s]\nb=2\nc=3").unwrap();
    assert_eq!(first.get("s", "b"), whole.get("s", "b"));
    assert_eq!(whole.get("s", "c"), Some("3"));
    assert_eq!(whole.root().get("c"), None);
}

#[test]
fn get_falls_back_to_root() {
    let ini = parse_ini("k=root\n[s]\nother=1").unwrap();
    assert!(!ini.contains("s", "k"));
    assert_eq!(ini.get("s", "k"), Some("root"));
    assert_eq!(ini.get("missing", "k"), Some("root"));
}

#[test]
fn repeated_sections_are_searched_in_order() {
    let ini = parse_ini("[s]\na=1\n[t]\na=9\n[s]\na=2\nb=3").unwrap();
    assert_eq!(ini.iter_section("s").len(), 2);
    assert_eq!(ini.get("s", "a"), Some("1"));
    assert_eq!(ini.get("s", "b"), Some("3"));
    assert!(ini.contains("s", "b"));
    let merged = ini.extended_section("s").unwrap();
    assert_eq!(merged.name(), Some("s"));
    assert_eq!(merged.get_all("a"), vec!["1", "2"]);
    assert_eq!(merged.get("a"), ini.get("s", "a"));
    assert_eq!(merged.get("b"), ini.get("s", "b"));
    assert!(ini.extended_section("nope").is_none());
    assert!(ini.section("nope").is_none());
}

#[test]
fn contains_key_looks_everywhere() {
    let ini = parse_ini("r=1\n[s]\nx=2").unwrap();
    assert!(ini.contains_key("r"));
    assert!(ini.contains_key("x"));
    assert!(!ini.contains_key("y"));
    assert!(!ini.contains("s", "r"));
}

#[test]
fn sections_lists_all_named_sections_in_order() {
    let ini = parse_ini("[b]\n[a]\n[b]\nk=v").unwrap();
    let listed = ini.sections();
    assert_eq!(listed.len(), 3);
    assert_eq!(listed[0].0, "b");
    assert_eq!(listed[1].0, "a");
    assert!(listed[1].1.is_empty());
    assert_eq!(listed[2].1.get("k"), Some("v"));
    assert!(!ini.is_empty());
}

#[test]
fn section_building() {
    let mut s = Section::new("main");
    assert_eq!(s.name(), Some("main"));
    assert!(s.is_empty());
    s.push("a", "1");
    s.push("b", "2");
    s.push("a", "3");
    assert!(!s.is_empty());
    assert_eq!(s.get("a"), Some("1"));
    assert_eq!(s.get_all("a"), vec!["1", "3"]);
    assert_eq!(s.get_all("c"), Vec::<&str>::new());
    assert!(s.contains("b"));
    assert!(!s.contains("c"));
    let keys: Vec<&str> = s.entries().map(|kv: &KeyValue| kv.key).collect();
    assert_eq!(keys, vec!["a", "b", "a"]);
}

#[test]
fn push_then_get() {
    let mut s = Section::default();
    assert_eq!(s.name(), None);
    assert_eq!(s.get("k"), None);
    s.push("k", "first");
    assert_eq!(s.get("k"), Some("first"));
    s.push("k", "second");
    assert_eq!(s.get("k"), Some("first"));
    assert_eq!(s.get_all("k"), vec!["first", "second"]);
}

#[test]
fn extend_appends_entries() {
    let mut a = Section::new("a");
    a.push("k", "1");
    let mut b = Section::new("b");
    b.push("k", "2");
    b.push("m", "3");
    a.extend(&b);
    assert_eq!(a.name(), Some("a"));
    assert_eq!(a.get_all("k"), vec!["1", "2"]);
    assert_eq!(a.get("m"), Some("3"));
    assert_eq!(b.get_all("k"), vec!["2"]);
}

#[test]
fn entries_seq_groups_and_orders_keys() {
    let ini = parse_ini("zeta=1\nalpha=2\nzeta=3\nBeta=4\nälpha=5").unwrap();
    let groups = ini.root().entries_seq();
    let keys: Vec<&str> = groups.iter().map(|(k, _)| *k).collect();
    assert_eq!(keys, vec!["Beta", "alpha", "zeta", "älpha"]);
    assert_eq!(groups[2].1, vec!["1", "3"]);
    assert_eq!(groups[0].1, vec!["4"]);
}

#[test]
fn into_map_keeps_the_last_value() {
    let ini = parse_ini("b=1\na=2\nb=3").unwrap();
    let map = ini.root().clone().into_map();
    assert_eq!(map, vec![("a", "2"), ("b", "3")]);
}

#[test]
fn clone_and_default() {
    let ini = parse_ini("x=1\n[s]\ny=2").unwrap();
    let copy = ini.clone();
    assert_eq!(copy.get("s", "y"), Some("2"));
    assert_eq!(copy.root().get("x"), Some("1"));
    let empty = Ini::default();
    assert!(empty.is_empty());
    assert!(empty.root().is_empty());
}

#[test]
fn parse_and_parse_ini_agree() {
    let a = parse("k=v\n[s]\nq=w").unwrap();
    let b = parse_ini("k=v\n[s]\nq=w").unwrap();
    assert_eq!(a.get("s", "q"), b.get("s", "q"));
    assert_eq!(a.root().get("k"), b.root().get("k"));
}

#[test]
fn extended_section_carries_the_requested_name() {
    let ini = parse_ini("[a]\nx=1\n[b]\n[a]\ny=2").unwrap();
    let merged = ini.extended_section("a").unwrap();
    assert_eq!(merged.name(), Some("a"));
    let keys: Vec<&str> = merged.entries().map(|kv: &KeyValue| kv.key).collect();
    assert_eq!(keys, vec!["x", "y"]);
    for (name, section) in ini.sections() {
        assert_eq!(section.name(), Some(name));
    }
}

#[test]
fn merged_sections_lists_each_name_once() {
    let ini = parse_ini("[b]\nk=1\n[a]\nk=2\n[b]\nk=3\nm=4").unwrap();
    let merged = ini.merged_sections();
    assert_eq!(merged.len(), 2);
    assert_eq!(merged[0].0, "b");
    assert_eq!(merged[0].1.name(), Some("b"));
    assert_eq!(merged[0].1.get_all("k"), vec!["1", "3"]);
    assert_eq!(merged[0].1.get("m"), Some("4"));
    assert_eq!(merged[1].0, "a");
    assert_eq!(merged[1].1.get_all("k"), vec!["2"]);
    assert!(parse_ini("x=1").unwrap().merged_sections().is_empty());
}

#[test]
fn into_multimap_groups_by_value() {
    let ini = parse_ini("b=1\na=2\nb=3").unwrap();
    let groups = ini.root().clone().into_multimap();
    assert_eq!(groups, vec![("a", vec!["2"]), ("b", vec!["1", "3"])]);
}

#[test]
fn grouped_values_count_every_entry() {
    let ini = parse_ini("k=1\nj=2\nk=3\nk=4").unwrap();
    let total: usize = ini.root().entries_seq().iter().map(|(_, vs)| vs.len()).sum();
    assert_eq!(total, ini.root().entries().count());
    assert_eq!(total, 4);
}

#[test]
fn pushes_are_kept_in_order() {
    let mut s = Section::new("s");
    let pairs = [("a", "1"), ("b", "2"), ("a", "3")];
    for (k, v) in pairs.iter() {
        s.push(k, v);
    }
    let got: Vec<(&str, &str)> = s.entries().map(|kv: &KeyValue| (kv.key, kv.value)).collect();
    assert_eq!(got, pairs.to_vec());
}

#[test]
fn comments_anywhere_change_nothing() {
    let plain = parse_ini("a=1\n[s]\nb=2").unwrap();
    let commented = parse_ini("a=1;x\n[s] ; header note\nb=2;;").unwrap();
    assert_eq!(plain.root().get("a"), commented.root().get("a"));
    assert_eq!(plain.get("s", "b"), commented.get("s", "b"));
    assert_eq!(commented.sections().len(), 1);
    assert_eq!(parse_error("bad;x=1"), parse_error("bad"));
}

#[test]
fn blank_lines_anywhere_change_nothing() {
    let plain = parse_ini("a=1\n[s]\nb=2").unwrap();
    let spaced = parse_ini("\n   \na=1\n; note\n[s]\n\nb=2\n  ").unwrap();
    assert_eq!(plain.root().get_all("a"), spaced.root().get_all("a"));
    assert_eq!(plain.sections().len(), spaced.sections().len());
    assert_eq!(plain.get("s", "b"), spaced.get("s", "b"));
}

#[test]
fn a_header_alone_is_not_empty() {
    assert!(!parse_ini("[s]").unwrap().is_empty());
    assert!(parse_ini("  ; only a comment").unwrap().is_empty());
}
