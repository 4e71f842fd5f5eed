use std::collections::BTreeMap;
use std::collections::HashMap;

use tool_versions::text::{is_tool_name_char, is_whitespace};
use tool_versions::{Error, ToolEntry, ToolVersions};

fn strings(vs: &[&str]) -> Vec<String> {
    vs.iter().map(|s| s.to_string()).collect()
}

fn names(tv: &ToolVersions) -> Vec<String> {
    tv.tool_names().map(|s| s.to_string()).collect()
}

fn parse_error(content: &str) -> (usize, String) {
    match ToolVersions::parse(content) {
        Err(Error::ParseError { line, message }) => (line, message),
        Err(Error::Io(e)) => panic!("unexpected I/O error: {}", e),
        Ok(tv) => panic!("unexpected success: {:?}", tv),
    }
}

//
// Setting, looking up and removing
//

#[test]
fn law_set_then_get_gives_the_versions() {
    let mut tv = ToolVersions::new();
    tv.set_versions("python", strings(&["3.12.0", "3.11.0"]));
    let entry = tv.get("python").unwrap();
    assert_eq!(entry.name, "python");
    assert_eq!(entry.versions, strings(&["3.12.0", "3.11.0"]));
    assert_eq!(tv.get_version("python"), Some("3.12.0"));
    assert!(tv.contains("python"));
}

#[test]
fn law_set_twice_keeps_the_last() {
    let mut tv = ToolVersions::parse("erlang 26.2.1\nnodejs 20.10.0\n").unwrap();
    tv.set("erlang", "27.0");
    tv.set("erlang", "27.1");
    assert_eq!(tv.get_version("erlang"), Some("27.1"));
    assert_eq!(tv.len(), 2);
    assert_eq!(tv.to_string(), "erlang 27.1\nnodejs 20.10.0\n");
}

#[test]
fn law_set_keeps_other_tools() {
    let mut tv = ToolVersions::parse("erlang 26.2.1\nnodejs 20.10.0 18.0.0\n").unwrap();
    tv.set("erlang", "27.0");
    tv.set("rust", "1.80.0");
    assert_eq!(
        tv.get("nodejs").unwrap().versions,
        strings(&["20.10.0", "18.0.0"])
    );
}

#[test]
fn law_set_len_counts_new_tools_only() {
    let mut tv = ToolVersions::new();
    for name in ["a", "b", "c", "b", "a"] {
        tv.set(name, "1.0.0");
    }
    assert_eq!(tv.len(), 3);
    assert_eq!(names(&tv), strings(&["a", "b", "c"]));
}

#[test]
fn law_remove_then_get_gives_nothing() {
    let mut tv = ToolVersions::new();
    tv.set("ruby", "3.3.0");
    assert!(tv.remove("ruby"));
    assert!(tv.get("ruby").is_none());
    assert!(!tv.contains("ruby"));
    assert!(tv.is_empty());
    assert!(!tv.remove("ruby"));
}

#[test]
fn law_remove_keeps_other_tools() {
    let mut tv = ToolVersions::parse("# tools\nerlang 26.2.1\n\nruby 3.3.0\n").unwrap();
    assert!(tv.remove("erlang"));
    assert_eq!(tv.get_version("ruby"), Some("3.3.0"));
    assert_eq!(tv.to_string(), "# tools\n\nruby 3.3.0\n");
}

#[test]
fn law_remove_drops_every_line_of_the_tool() {
    let mut tv = ToolVersions::parse("erlang 1\nruby 2\nerlang 3\n").unwrap();
    assert!(tv.remove("erlang"));
    assert_eq!(tv.to_string(), "ruby 2\n");
    assert_eq!(tv.len(), 1);
}

#[test]
fn law_parsed_names_are_distinct() {
    let tv = ToolVersions::parse("erlang 1\nruby 2\nerlang 3\n").unwrap();
    assert_eq!(names(&tv), strings(&["erlang", "ruby"]));
    assert_eq!(tv.get_version("erlang"), Some("1"));
}

//
// Reading and writing text
//

#[test]
fn law_parse_write_parse_keeps_tools_and_lines() {
    let content = "# Development tools\nerlang 26.2.1 # pinned\n\n  \nnodejs 20.10.0 18.0.0\n  # indented\n";
    let tv = ToolVersions::parse(content).unwrap();
    let text = tv.to_string();
    assert_eq!(
        text,
        "# Development tools\nerlang 26.2.1 # pinned\n\n\nnodejs 20.10.0 18.0.0\n  # indented\n"
    );
    let again = ToolVersions::parse(&text).unwrap();
    assert_eq!(again.to_string(), text);
    assert_eq!(names(&again), names(&tv));
    for name in names(&tv) {
        assert_eq!(again.get(&name), tv.get(&name));
    }
}

#[test]
fn law_parse_write_crlf_text() {
    let tv = ToolVersions::parse("erlang 26.2.1\r\n# note\r\nruby 3.3.0").unwrap();
    assert_eq!(tv.get_version("erlang"), Some("26.2.1"));
    assert_eq!(tv.get_version("ruby"), Some("3.3.0"));
    assert_eq!(tv.to_string(), "erlang 26.2.1\n# note\nruby 3.3.0\n");
}

#[test]
fn law_comment_on_last_line_keeps_its_carriage_return() {
    let tv = ToolVersions::parse("# c\r").unwrap();
    let text = tv.to_string();
    assert_eq!(text, "# c\r\n");
    let again = ToolVersions::parse(&text).unwrap();
    assert_eq!(again.to_string(), "# c\n");
}

#[test]
fn law_document_without_lines_writes_its_entries() {
    let tv = ToolVersions::from_tools(vec![
        ToolEntry::new("erlang", "26.2.1"),
        ToolEntry::with_versions("python", strings(&["3.12.0", "3.11.0"])),
    ]);
    let text = tv.to_string();
    assert_eq!(text, "erlang 26.2.1\npython 3.12.0 3.11.0\n");
    let again = ToolVersions::parse(&text).unwrap();
    assert_eq!(names(&again), strings(&["erlang", "python"]));
}

#[test]
fn set_new_tool_on_document_without_lines_writes_only_that_tool() {
    let mut tv = ToolVersions::from_tools(vec![ToolEntry::new("erlang", "26.2.1")]);
    tv.set("ruby", "3.3.0");
    assert_eq!(tv.len(), 2);
    assert_eq!(tv.to_string(), "ruby 3.3.0\n");
}

#[test]
fn tool_without_versions_does_not_read_back() {
    let mut tv = ToolVersions::new();
    tv.set_versions("erlang", Vec::new());
    assert!(tv.contains("erlang"));
    assert_eq!(tv.get_version("erlang"), None);
    let text = tv.to_string();
    assert_eq!(text, "erlang \n");
    assert_eq!(
        parse_error(&text),
        (1, "no version specified for tool: erlang".to_string())
    );
}

#[test]
fn empty_text_writes_nothing() {
    let tv = ToolVersions::parse("").unwrap();
    assert_eq!(tv.to_string(), "");
    assert_eq!(ToolVersions::new().to_string(), "");
    assert_eq!(ToolVersions::default().to_string(), "");
    assert!(ToolVersions::default().is_empty());
}

#[test]
fn blank_lines_are_kept_empty() {
    let tv = ToolVersions::parse("  \n\t\n").unwrap();
    assert!(tv.is_empty());
    assert_eq!(tv.to_string(), "\n\n");
}

#[test]
fn unicode_whitespace_separates_and_trims() {
    let tv = ToolVersions::parse("\u{3000}erlang\u{3000}26.2.1\u{a0}\u{2003}\n").unwrap();
    assert_eq!(tv.get_version("erlang"), Some("26.2.1"));
    assert_eq!(tv.to_string(), "erlang 26.2.1\n");
}

#[test]
fn inline_comment_ends_the_versions() {
    let tv = ToolVersions::parse("nodejs 20.10.0 18.0.0 # lts and old lts\n").unwrap();
    assert_eq!(
        tv.get("nodejs").unwrap().versions,
        strings(&["20.10.0", "18.0.0"])
    );
}

#[test]
fn inline_comment_is_written_back() {
    let tv = ToolVersions::parse("erlang 26.2.1 # OTP version\n").unwrap();
    assert_eq!(tv.get_version("erlang"), Some("26.2.1"));
    assert_eq!(tv.to_string(), "erlang 26.2.1 # OTP version\n");
    let tv = ToolVersions::parse("  ruby\t3.3.0   #main  # twice \t\n").unwrap();
    assert_eq!(tv.to_string(), "ruby 3.3.0 #main  # twice\n");
    let tv = ToolVersions::parse("zig 0.13.0#x").unwrap();
    assert_eq!(tv.to_string(), "zig 0.13.0 #x\n");
}

#[test]
fn set_keeps_the_inline_comment() {
    let mut tv = ToolVersions::parse("erlang 26.2.1 # OTP version\n# notes\n").unwrap();
    tv.set("erlang", "27.0");
    assert_eq!(tv.to_string(), "erlang 27.0 # OTP version\n# notes\n");
    tv.set("ruby", "3.3.0");
    assert_eq!(tv.to_string(), "erlang 27.0 # OTP version\n# notes\nruby 3.3.0\n");
}

#[test]
fn tool_name_characters() {
    let tv = ToolVersions::parse("java.open-jdk_21 21.0.2\n").unwrap();
    assert_eq!(tv.get_version("java.open-jdk_21"), Some("21.0.2"));
}

//
// Errors
//

#[test]
fn error_no_version_after_comment() {
    assert_eq!(
        parse_error("erlang #x\n"),
        (1, "no version specified for tool: erlang".to_string())
    );
}

#[test]
fn error_invalid_name_non_ascii() {
    assert_eq!(
        parse_error("ruby 3.3.0\n工具 1.0\n"),
        (2, "invalid tool name: 工具".to_string())
    );
}

#[test]
fn error_invalid_name_punctuation() {
    assert_eq!(
        parse_error("node@js 20\n"),
        (1, "invalid tool name: node@js".to_string())
    );
}

#[test]
fn error_first_bad_line_wins() {
    assert_eq!(
        parse_error("erlang\nbad! 1\n"),
        (1, "no version specified for tool: erlang".to_string())
    );
}

#[test]
fn error_line_numbers_past_nine() {
    let mut content = String::new();
    for _ in 0..11 {
        content.push_str("# filler\n");
    }
    content.push_str("erlang\n");
    let (line, message) = parse_error(&content);
    assert_eq!(line, 12);
    let err = ToolVersions::parse(&content).unwrap_err();
    assert_eq!(
        err.to_string(),
        format!("parse error at line 12: {}", message)
    );
    assert_eq!(
        err.to_string(),
        "parse error at line 12: no version specified for tool: erlang"
    );
}

#[test]
fn error_text_of_parse_error() {
    let err = Error::ParseError {
        line: 105,
        message: "invalid tool name: x!".to_string(),
    };
    assert_eq!(err.to_string(), "parse error at line 105: invalid tool name: x!");
    let err = Error::ParseError {
        line: 0,
        message: String::new(),
    };
    assert_eq!(err.to_string(), "parse error at line 0: ");
}

#[test]
fn error_text_of_io_error() {
    let err: Error = std::io::Error::new(std::io::ErrorKind::Other, "disk full").into();
    assert!(matches!(err, Error::Io(_)));
    assert_eq!(err.to_string(), "I/O error: disk full");
}

//
// Entries
//

#[test]
fn entry_text_joins_versions() {
    assert_eq!(ToolEntry::new("erlang", "26.2.1").to_string(), "erlang 26.2.1");
    let e = ToolEntry::with_versions("python", strings(&["3.12.0", "3.11.0", "system"]));
    assert_eq!(e.to_string(), "python 3.12.0 3.11.0 system");
    assert_eq!(e.primary_version(), Some("3.12.0"));
    let none = ToolEntry::with_versions("x", Vec::new());
    assert_eq!(none.to_string(), "x ");
    assert_eq!(none.primary_version(), None);
}

#[test]
fn tools_come_in_order() {
    let tv = ToolVersions::parse("b 1\na 2\nc 3 4\n").unwrap();
    let entries: Vec<&ToolEntry> = tv.tools().collect();
    assert_eq!(entries.len(), 3);
    assert_eq!(entries[0], &ToolEntry::new("b", "1"));
    assert_eq!(entries[1], &ToolEntry::new("a", "2"));
    assert_eq!(entries[2], &ToolEntry::with_versions("c", strings(&["3", "4"])));
    assert_eq!(names(&tv), strings(&["b", "a", "c"]));
}

//
// Pairs and maps
//

#[test]
fn law_pairs_set_in_turn() {
    let tv = ToolVersions::from_pairs(vec![
        ("a".to_string(), strings(&["1"])),
        ("b".to_string(), strings(&["2"])),
        ("a".to_string(), strings(&["3", "4"])),
    ]);
    assert_eq!(names(&tv), strings(&["a", "b"]));
    assert_eq!(tv.get("a").unwrap().versions, strings(&["3", "4"]));
    assert_eq!(tv.to_string(), "a 3 4\nb 2\n");
}

#[test]
fn law_entries_roundtrip_through_pairs() {
    let tv = ToolVersions::parse("zig 0.13.0\nerlang 26.2.1 25.0\nruby 3.3.0\n").unwrap();
    let pairs = tv.to_pairs();
    assert_eq!(
        pairs,
        vec![
            ("zig".to_string(), strings(&["0.13.0"])),
            ("erlang".to_string(), strings(&["26.2.1", "25.0"])),
            ("ruby".to_string(), strings(&["3.3.0"])),
        ]
    );
    let back = ToolVersions::from_pairs(pairs.clone());
    let back_entries: Vec<ToolEntry> = back.tools().cloned().collect();
    let entries: Vec<ToolEntry> = tv.tools().cloned().collect();
    assert_eq!(back_entries, entries);
    assert_eq!(tv.into_pairs(), pairs);
}

#[test]
fn law_extend_sets_each_pair() {
    let mut tv = ToolVersions::parse("erlang 26.2.1\nruby 3.3.0\n").unwrap();
    tv.extend(vec![
        ("ruby".to_string(), "3.4.0".to_string()),
        ("zig".to_string(), "0.13.0".to_string()),
    ]);
    assert_eq!(tv.get_version("erlang"), Some("26.2.1"));
    assert_eq!(tv.get_version("ruby"), Some("3.4.0"));
    assert_eq!(tv.get_version("zig"), Some("0.13.0"));
    assert_eq!(tv.to_string(), "erlang 26.2.1\nruby 3.4.0\nzig 0.13.0\n");
}

#[test]
fn extend_pairs_with_versions() {
    let mut tv = ToolVersions::new();
    tv.extend_pairs(vec![("python".to_string(), strings(&["3.12.0", "3.11.0"]))]);
    assert_eq!(
        tv.get("python").unwrap().versions,
        strings(&["3.12.0", "3.11.0"])
    );
}

#[test]
fn primary_pairs_skip_tools_without_versions() {
    let mut tv = ToolVersions::parse("erlang 26.2.1 25.0\n").unwrap();
    tv.set_versions("empty", Vec::new());
    tv.set("ruby", "3.3.0");
    assert_eq!(
        tv.to_primary_pairs(),
        vec![
            ("erlang".to_string(), "26.2.1".to_string()),
            ("ruby".to_string(), "3.3.0".to_string()),
        ]
    );
    let map: HashMap<String, String> = (&tv).into();
    assert_eq!(map.len(), 2);
    assert!(!map.contains_key("empty"));
    let all: HashMap<String, Vec<String>> = tv.into();
    assert_eq!(all.len(), 3);
    assert_eq!(all.get("empty"), Some(&Vec::new()));
}

#[test]
fn btree_map_makes_sorted_document() {
    let mut map = BTreeMap::new();
    map.insert("zig".to_string(), "0.13.0".to_string());
    map.insert("erlang".to_string(), "26.2.1".to_string());
    map.insert("ruby".to_string(), "3.3.0".to_string());
    let tv: ToolVersions = map.into();
    assert_eq!(names(&tv), strings(&["erlang", "ruby", "zig"]));
    assert_eq!(tv.to_string(), "erlang 26.2.1\nruby 3.3.0\nzig 0.13.0\n");
}

#[test]
fn btree_map_of_versions_makes_document() {
    let mut map = BTreeMap::new();
    map.insert("python".to_string(), strings(&["3.12.0", "3.11.0"]));
    map.insert("erlang".to_string(), strings(&["26.2.1"]));
    let tv: ToolVersions = map.into();
    assert_eq!(names(&tv), strings(&["erlang", "python"]));
    assert_eq!(
        tv.get("python").unwrap().versions,
        strings(&["3.12.0", "3.11.0"])
    );
}

#[test]
fn hash_map_makes_document_with_every_entry() {
    let mut map = HashMap::new();
    map.insert("zig".to_string(), strings(&["0.13.0"]));
    map.insert("erlang".to_string(), strings(&["26.2.1", "25.0"]));
    let tv: ToolVersions = map.clone().into();
    assert_eq!(tv.len(), 2);
    for (name, versions) in &map {
        assert_eq!(&tv.get(name).unwrap().versions, versions);
    }
    let back: HashMap<String, Vec<String>> = tv.into();
    assert_eq!(back, map);
}

#[test]
fn document_to_btree_map_sorts_keys() {
    let tv = ToolVersions::parse("zig 0.13.0\nerlang 26.2.1 25.0\n").unwrap();
    let map: BTreeMap<String, String> = (&tv).into();
    let keys: Vec<&String> = map.keys().collect();
    assert_eq!(keys, vec!["erlang", "zig"]);
    assert_eq!(map.get("erlang"), Some(&"26.2.1".to_string()));
    let all: BTreeMap<String, Vec<String>> = (&tv).into();
    assert_eq!(all.get("erlang"), Some(&strings(&["26.2.1", "25.0"])));
    let owned: BTreeMap<String, Vec<String>> = tv.into();
    assert_eq!(owned, all);
}

#[test]
fn into_iter_gives_pairs_in_order() {
    let tv = ToolVersions::parse("b 1\na 2 3\n").unwrap();
    let pairs: Vec<(String, Vec<String>)> = tv.into_iter().collect();
    assert_eq!(
        pairs,
        vec![
            ("b".to_string(), strings(&["1"])),
            ("a".to_string(), strings(&["2", "3"])),
        ]
    );
}

//
// Characters
//

#[test]
fn whitespace_agrees_with_char_is_whitespace() {
    for code in 0u32..=0x10FFFF {
        if let Some(c) = char::from_u32(code) {
            assert_eq!(is_whitespace(c), c.is_whitespace(), "U+{:04X}", code);
        }
    }
}

#[test]
fn tool_name_chars_are_ascii_alphanumerics_and_three_marks() {
    for code in 0u32..0x3000 {
        if let Some(c) = char::from_u32(code) {
            let expected = c.is_ascii_alphanumeric() || c == '-' || c == '_' || c == '.';
            assert_eq!(is_tool_name_char(c), expected, "U+{:04X}", code);
        }
    }
}

#[test]
fn law_edits_keep_documents_writable() {
    let mut tv = ToolVersions::parse("# tools\r\nerlang 26.2.1\n\nruby 3.3.0 # main\n").unwrap();
    tv.set("ruby", "3.4.0");
    tv.set_versions("python", strings(&["3.12.0", "system"]));
    assert!(tv.remove("erlang"));
    let text = tv.to_string();
    assert_eq!(text, "# tools\n\nruby 3.4.0 # main\npython 3.12.0 system\n");
    let again = ToolVersions::parse(&text).unwrap();
    assert_eq!(again.to_string(), text);
    assert_eq!(again.to_pairs(), tv.to_pairs());
}

#[test]
fn law_pairs_roundtrip_through_document() {
    let pairs = vec![
        ("zig".to_string(), strings(&["0.13.0"])),
        ("erlang".to_string(), strings(&["26.2.1", "25.0"])),
    ];
    let tv = ToolVersions::from_pairs(pairs.clone());
    assert_eq!(tv.to_pairs(), pairs);
    let mut it = tv.into_iter();
    assert_eq!(it.next(), Some(pairs[0].clone()));
    assert_eq!(it.next(), Some(pairs[1].clone()));
    assert_eq!(it.next(), None);
}

#[test]
fn law_set_twice_is_set_once() {
    let content = "# tools\nerlang 26.2.1 # pinned\nruby 3.3.0\nerlang 25.0\n";
    let mut twice = ToolVersions::parse(content).unwrap();
    twice.set("erlang", "27.0");
    twice.set("erlang", "27.1");
    twice.set("zig", "0.12.0");
    twice.set("zig", "0.13.0");
    let mut once = ToolVersions::parse(content).unwrap();
    once.set("erlang", "27.1");
    once.set("zig", "0.13.0");
    assert_eq!(twice.to_string(), once.to_string());
    assert_eq!(twice.to_pairs(), once.to_pairs());
    assert_eq!(
        once.to_string(),
        "# tools\nerlang 27.1 # pinned\nruby 3.3.0\nerlang 25.0\nzig 0.13.0\n"
    );
}

#[test]
fn law_remove_undoes_setting_a_new_tool() {
    let content = "# tools\nerlang 26.2.1 # pinned\n\nruby 3.3.0\n";
    let mut tv = ToolVersions::parse(content).unwrap();
    let before_text = tv.to_string();
    let before_pairs = tv.to_pairs();
    tv.set_versions("zig", strings(&["0.13.0", "0.12.0"]));
    assert!(tv.remove("zig"));
    assert_eq!(tv.to_string(), before_text);
    assert_eq!(tv.to_pairs(), before_pairs);
}

#[test]
fn law_consistent_documents_write_every_tool() {
    let mut tv = ToolVersions::new();
    tv.set("erlang", "26.2.1");
    tv.set("nodejs", "20.10.0");
    tv.remove("erlang");
    tv.set("ruby", "3.3.0");
    assert_eq!(tv.len(), 2);
    assert_eq!(names(&tv), strings(&["nodejs", "ruby"]));
    assert_eq!(tv.to_string(), "nodejs 20.10.0\nruby 3.3.0\n");
}

#[test]
fn law_parse_of_two_texts() {
    let first = "erlang 26.2.1\n# notes\n";
    let second = "ruby 3.3.0\nerlang 25.0 # older\n";
    let both = ToolVersions::parse(&format!("{}{}", first, second)).unwrap();
    let t1 = ToolVersions::parse(first).unwrap();
    let t2 = ToolVersions::parse(second).unwrap();
    assert_eq!(names(&both), strings(&["erlang", "ruby"]));
    assert_eq!(both.get_version("erlang"), Some("26.2.1"));
    assert_eq!(both.to_string(), format!("{}{}", t1.to_string(), t2.to_string()));
    assert!(ToolVersions::parse(&format!("{}{}", first, "bad!\n")).is_err());
    assert!(ToolVersions::parse(&format!("{}{}", "bad!\n", second)).is_err());
}

#[test]
fn law_written_text_is_canonical() {
    let tv = ToolVersions::parse("  erlang\t26.2.1   25  #  pinned  \n\t\n  # keep  \n").unwrap();
    assert_eq!(tv.to_string(), "erlang 26.2.1 25 #  pinned\n\n  # keep  \n");
}

#[test]
fn law_write_read_write_is_stable() {
    let mut tv = ToolVersions::parse("erlang 26.2.1 # pinned\n\n# notes\n").unwrap();
    tv.set("ruby", "3.3.0");
    let text = tv.to_string();
    let again = ToolVersions::parse(&text).unwrap();
    assert_eq!(again.to_pairs(), tv.to_pairs());
    assert_eq!(again.to_string(), text);
}

#[test]
fn law_set_twice_on_document_without_lines() {
    let tools = || {
        vec![
            ToolEntry::new("erlang", "26.2.1"),
            ToolEntry::new("ruby", "3.3.0"),
        ]
    };
    let mut twice = ToolVersions::from_tools(tools());
    twice.set("erlang", "27.0");
    twice.set("erlang", "27.1");
    twice.set("zig", "0.12.0");
    twice.set("zig", "0.13.0");
    let mut once = ToolVersions::from_tools(tools());
    once.set("erlang", "27.1");
    once.set("zig", "0.13.0");
    assert_eq!(twice.to_pairs(), once.to_pairs());
    assert_eq!(twice.to_string(), once.to_string());
}

#[test]
fn law_remove_undoes_set_on_document_without_lines() {
    let mut tv = ToolVersions::from_tools(vec![ToolEntry::new("erlang", "26.2.1")]);
    let before = tv.to_string();
    tv.set("zig", "0.13.0");
    assert!(tv.remove("zig"));
    assert_eq!(tv.to_string(), before);
    assert_eq!(tv.to_pairs(), vec![("erlang".to_string(), strings(&["26.2.1"]))]);
}

#[test]
fn law_edited_roundtrip_after_a_bad_set_is_repaired() {
    let mut tv = ToolVersions::parse("# tools\nerlang 26.2.1 # pinned\nruby 3.3.0\n").unwrap();
    tv.set_versions("erlang", Vec::new());
    tv.set("bad name", "1");
    tv.set("erlang", "27.0");
    assert!(tv.remove("bad name"));
    let text = tv.to_string();
    assert_eq!(text, "# tools\nerlang 27.0 # pinned\nruby 3.3.0\n");
    let again = ToolVersions::parse(&text).unwrap();
    assert_eq!(again.to_pairs(), tv.to_pairs());
    assert_eq!(again.to_string(), text);
}

#[test]
fn io_error_message_joins_the_cause() {
    assert_eq!(
        tool_versions::errors::io_error_message("disk full"),
        "I/O error: disk full"
    );
    assert_eq!(tool_versions::errors::io_error_message(""), "I/O error: ");
}

#[test]
fn borrowed_iteration_gives_pairs_in_order() {
    let tv = ToolVersions::parse("b 1\na 2 3\n").unwrap();
    let pairs: Vec<(&str, &[String])> = (&tv).into_iter().collect();
    assert_eq!(pairs.len(), 2);
    assert_eq!(pairs[0].0, "b");
    assert_eq!(pairs[0].1, &strings(&["1"])[..]);
    assert_eq!(pairs[1].0, "a");
    assert_eq!(pairs[1].1, &strings(&["2", "3"])[..]);
    let mut count = 0;
    for (name, versions) in &tv {
        assert_eq!(tv.get(name).unwrap().versions, versions.to_vec());
        count += 1;
    }
    assert_eq!(count, tv.len());
}
