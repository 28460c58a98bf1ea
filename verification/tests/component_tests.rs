use rust_architecture::component::{
    choose_description, component_from, keep_declared, normalize_separators, relative_path,
    stripped_or_whole, Component,
};
use rust_architecture::front_matter::FrontMatter;
use rust_architecture::pattern::{
    contains_wildcard, get_base_dir_from_pattern, join_parts, wildcard_free_prefix,
};
use rust_architecture::text::{char_is_whitespace, str_eq, str_precedes, to_chars};
use std::path::PathBuf;

#[test]
fn component_takes_the_declared_description() {
    let content = "---\ndescription: \"From front matter\"\ncategory: \"Testing\"\n---\n\n# Test Component\n\nThis paragraph should be ignored.";
    let front_matter = FrontMatter {
        description: Some("From front matter".to_string()),
        category: "Testing".to_string(),
    };
    let built = component_from("test.md".to_string(), front_matter, content).unwrap();
    assert_eq!(built.description, "From front matter");
    assert_eq!(built.category, "Testing");
    assert_eq!(built.path, "test.md");
}

#[test]
fn component_falls_back_to_the_first_paragraph() {
    let content = "---\ncategory: \"Testing\"\n---\n\n# Test Component\n\nThis description comes from the first paragraph.\n\nMore content here.";
    let front_matter = FrontMatter { description: None, category: "Testing".to_string() };
    let built = component_from("test_paragraph_fallback.md".to_string(), front_matter, content).unwrap();
    assert_eq!(built.description, "This description comes from the first paragraph.");
    assert_eq!(built.category, "Testing");
}

#[test]
fn component_without_any_description() {
    let content = "---\ncategory: \"Testing\"\n---\n\n# Only a heading\n";
    let front_matter = FrontMatter { description: None, category: "Testing".to_string() };
    assert!(component_from("x.md".to_string(), front_matter, content).is_none());
}

#[test]
fn description_is_chosen_in_order() {
    assert_eq!(choose_description(Some("d".to_string()), "text"), Some("d".to_string()));
    assert_eq!(choose_description(None, "# h\ntext"), Some("text".to_string()));
    assert_eq!(choose_description(None, "# h\n"), None);
}

#[test]
fn path_is_made_relative_to_the_base() {
    assert_eq!(relative_path("/tmp/nested/path/test.md", "/tmp"), "nested/path/test.md");
    assert_eq!(relative_path("/tmp/test_component.md", "/tmp/"), "test_component.md");
    assert_eq!(relative_path("t/a/README.md", "t"), "a/README.md");
}

#[test]
fn path_outside_the_base_stays_whole() {
    assert_eq!(relative_path("/var/x/README.md", "/tmp"), "/var/x/README.md");
    assert_eq!(relative_path("/tmpfile/README.md", "/tmp"), "/tmpfile/README.md");
}

#[test]
fn stripped_path_is_preferred() {
    assert_eq!(stripped_or_whole(Some("rest".to_string()), "whole/rest"), "rest");
    assert_eq!(stripped_or_whole(None, "whole/rest"), "whole/rest");
}

#[test]
fn base_directory_of_a_pattern() {
    assert_eq!(
        get_base_dir_from_pattern("/path/to/fixtures/**/README.md"),
        PathBuf::from("/path/to/fixtures")
    );
    assert_eq!(get_base_dir_from_pattern("t/**/README.md"), PathBuf::from("t"));
    assert_eq!(get_base_dir_from_pattern("*.md"), PathBuf::new());
    assert_eq!(get_base_dir_from_pattern("a/b/c.md"), PathBuf::from("a/b/c.md"));
    assert_eq!(get_base_dir_from_pattern("a/b?/c"), PathBuf::from("a"));
    assert_eq!(get_base_dir_from_pattern("a/b/[cd]/e"), PathBuf::from("a/b"));
    assert_eq!(get_base_dir_from_pattern("/*"), PathBuf::from("/"));
    assert_eq!(get_base_dir_from_pattern("t/**/README.md").to_str(), Some("t"));
}

#[test]
fn wildcards_are_found() {
    assert!(contains_wildcard("**"));
    assert!(contains_wildcard("a?"));
    assert!(contains_wildcard("[ab]"));
    assert!(!contains_wildcard("plain]"));
    assert!(!contains_wildcard(""));
    let parts = vec!["a".to_string(), "b".to_string(), "*".to_string(), "c".to_string()];
    assert_eq!(wildcard_free_prefix(&parts), 2);
    assert_eq!(wildcard_free_prefix(&vec!["a".to_string()]), 1);
    assert_eq!(wildcard_free_prefix(&Vec::new()), 0);
}

#[test]
fn whitespace_is_what_the_standard_library_says() {
    let mut c = '\0';
    loop {
        assert_eq!(char_is_whitespace(c), c.is_whitespace(), "{:?}", c);
        if c == char::MAX {
            break;
        }
        c = char::from_u32(c as u32 + 1).unwrap_or('\u{E000}');
    }
}

#[test]
fn texts_are_compared_like_strings() {
    let samples = ["", "a", "A", "ab", "b", "a/b", "a.b", "é", "z", "日本", "\u{10000}", "\u{FFFF}"];
    for a in samples {
        for b in samples {
            assert_eq!(str_precedes(a, b), a < b, "{:?} {:?}", a, b);
            assert_eq!(str_eq(a, b), a == b, "{:?} {:?}", a, b);
        }
    }
    assert_eq!(to_chars("aé日"), vec!['a', 'é', '日']);
}

#[test]
fn files_without_a_component_are_passed_over() {
    let one = Component {
        path: "a".to_string(),
        description: "A".to_string(),
        category: "x".to_string(),
    };
    let two = Component {
        path: "b".to_string(),
        description: "B".to_string(),
        category: "y".to_string(),
    };
    let outcomes = vec![None, Some(one.clone()), None, None, Some(two.clone())];
    assert_eq!(keep_declared(&outcomes), vec![one, two]);
    assert!(keep_declared(&vec![None, None]).is_empty());
    assert!(keep_declared(&Vec::new()).is_empty());
}

#[test]
fn component_fields_are_not_empty() {
    let content = "---\ncategory: \"Testing\"\n---\n\n  \n# T\n \t indented text \t\n";
    let front_matter = FrontMatter { description: None, category: "Testing".to_string() };
    let built = component_from("x.md".to_string(), front_matter, content).unwrap();
    assert!(!built.category.is_empty());
    assert_eq!(built.description, "indented text");
}

#[test]
fn copy_of_a_component_is_equal() {
    let one = Component {
        path: "a/b".to_string(),
        description: "text".to_string(),
        category: "x".to_string(),
    };
    assert_eq!(one.duplicate(), one);
}

#[test]
fn separators_become_slashes() {
    assert_eq!(normalize_separators("a\\b\\c.md", '\\'), "a/b/c.md");
    assert_eq!(normalize_separators("a/b\\c", '/'), "a/b\\c");
    assert_eq!(normalize_separators("", '\\'), "");
    assert_eq!(normalize_separators("é:b:ü", ':'), "é/b/ü");
}

#[test]
fn parts_are_joined_into_one_path() {
    let parts = vec!["a".to_string(), "b".to_string(), "c*".to_string()];
    assert_eq!(join_parts(&parts, 0), "");
    assert_eq!(join_parts(&parts, 1), "a");
    assert_eq!(join_parts(&parts, 2), "a/b");
    assert_eq!(join_parts(&parts, 3), "a/b/c*");
    let rooted = vec!["/".to_string(), "x".to_string()];
    assert_eq!(join_parts(&rooted, 1), "/");
    assert_eq!(join_parts(&rooted, 2), "/x");
}

#[test]
fn base_directory_is_made_of_the_leading_parts() {
    assert_eq!(get_base_dir_from_pattern("a//b/./c*/d"), PathBuf::from("a/b"));
    assert_eq!(get_base_dir_from_pattern("./x/*.md"), PathBuf::from("./x"));
    assert_eq!(get_base_dir_from_pattern(""), PathBuf::new());
}

#[test]
fn path_equal_to_the_base_has_nothing_left() {
    assert_eq!(relative_path("/tmp/a", "/tmp/a"), "");
    assert_eq!(relative_path("a/b/c.md", ""), "a/b/c.md");
}
