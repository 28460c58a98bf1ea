use rust_architecture::component::Component;
use rust_architecture::config::{CategoryConfig, Config, DEFAULT_TITLE};
use rust_architecture::generator::generate_document;
use rust_architecture::grouping::{group_by_category, order_categories};

fn text_of(table: &toml::Table, key: &str) -> Result<Option<String>, String> {
    match table.get(key) {
        None => Ok(None),
        Some(toml::Value::String(s)) => Ok(Some(s.clone())),
        Some(_) => Err(format!("`{}` must be a string", key)),
    }
}

fn config_from_str(text: &str) -> Result<Config, String> {
    let table: toml::Table = toml::from_str(text).map_err(|e| e.to_string())?;
    let mut categories = Vec::new();
    match table.get("categories") {
        None => {}
        Some(toml::Value::Array(items)) => {
            for item in items {
                let entry = item.as_table().ok_or("a category must be a table".to_string())?;
                categories.push(CategoryConfig {
                    category: text_of(entry, "category")?.ok_or("missing `category`".to_string())?,
                    title: text_of(entry, "title")?,
                    description: text_of(entry, "description")?,
                });
            }
        }
        Some(_) => return Err("`categories` must be an array".to_string()),
    }
    Ok(Config {
        title: text_of(&table, "title")?,
        description: text_of(&table, "description")?,
        categories,
    })
}

fn component(path: &str, description: &str, category: &str) -> Component {
    Component {
        path: path.to_string(),
        description: description.to_string(),
        category: category.to_string(),
    }
}

#[test]
fn test_config_default() {
    let config = Config::default();
    assert_eq!(config.title(), DEFAULT_TITLE);
    assert!(config.description.is_none());
    assert!(config.categories.is_empty());
}

#[test]
fn test_config_from_toml_full() {
    let toml = r#"
title = "My Architecture"
description = "Overview of the system"

[[categories]]
category = "core"
title = "Core Systems"
description = "The foundation"

[[categories]]
category = "api"
"#;
    let config = config_from_str(toml).unwrap();
    assert_eq!(config.title(), "My Architecture");
    assert_eq!(config.description.as_deref(), Some("Overview of the system"));
    assert_eq!(config.categories.len(), 2);
    assert_eq!(config.categories[0].title.as_deref(), Some("Core Systems"));
    assert_eq!(config.categories[1].title, None);
}

#[test]
fn test_config_from_toml_minimal() {
    let toml = r#"title = "Simple Title""#;
    let config = config_from_str(toml).unwrap();
    assert_eq!(config.title(), "Simple Title");
    assert!(config.categories.is_empty());
}

#[test]
fn test_config_empty_toml() {
    let toml = "";
    let config = config_from_str(toml).unwrap();
    assert_eq!(config.title(), DEFAULT_TITLE);
}

#[test]
fn test_config_invalid_toml() {
    let toml = "invalid = [";
    let result = config_from_str(toml);
    assert!(result.is_err());
}

#[test]
fn test_display_title_for_known_category() {
    let toml = r#"
[[categories]]
category = "core"
title = "Core Module"
"#;
    let config = config_from_str(toml).unwrap();
    assert_eq!(config.display_title_for("core"), "Core Module");
}

#[test]
fn test_display_title_for_unknown_category() {
    let config = Config::default();
    assert_eq!(config.display_title_for("unknown"), "unknown");
}

#[test]
fn test_category_order() {
    let toml = r#"
[[categories]]
category = "z-last"

[[categories]]
category = "a-first"
"#;
    let config = config_from_str(toml).unwrap();
    let order = config.category_order();
    assert_eq!(order, vec!["z-last", "a-first"]);
}

#[test]
fn test_generate_document_empty() {
    let components = vec![];
    let doc = generate_document(&components, &Config::default());
    assert_eq!(doc.trim(), format!("# {}", DEFAULT_TITLE));
}

#[test]
fn test_generate_document_single_category() {
    let components = vec![component("crates/core/README.md", "Core utilities", "Utilities")];

    let doc = generate_document(&components, &Config::default());
    assert!(doc.contains(&format!("# {}", DEFAULT_TITLE)));
    assert!(doc.contains("## Utilities"));
    assert!(doc.contains("crates/core"));
    assert!(doc.contains("Core utilities"));
}

#[test]
fn test_generate_document_multiple_categories() {
    let components = vec![
        component("crates/core/README.md", "Core utilities", "Utilities"),
        component("crates/cli/README.md", "CLI interface", "Interfaces"),
        component("crates/helpers/README.md", "Helper functions", "Utilities"),
    ];

    let doc = generate_document(&components, &Config::default());
    assert!(doc.contains("## Utilities"));
    assert!(doc.contains("## Interfaces"));
    assert!(doc.contains("crates/core"));
    assert!(doc.contains("crates/cli"));
    assert!(doc.contains("crates/helpers"));
}

#[test]
fn test_generate_document_sorted_categories() {
    let components = vec![
        component("crates/cli/README.md", "CLI interface", "Interfaces"),
        component("crates/core/README.md", "Core utilities", "Utilities"),
    ];

    let doc = generate_document(&components, &Config::default());
    let interfaces_pos = doc.find("## Interfaces").unwrap();
    let utilities_pos = doc.find("## Utilities").unwrap();
    assert!(interfaces_pos < utilities_pos);
}

#[test]
fn test_generate_document_multiple_components_same_category() {
    let components = vec![
        component("a/README.md", "First", "Test"),
        component("b/README.md", "Second", "Test"),
    ];

    let doc = generate_document(&components, &Config::default());
    assert!(doc.contains("First"));
    assert!(doc.contains("Second"));
    let category_count = doc.matches("## Test").count();
    assert_eq!(category_count, 1, "Should only have one Test category header");
}

#[test]
fn test_generate_document_with_custom_title() {
    let config = config_from_str(r#"title = "Custom Title""#).unwrap();
    let components = vec![];
    let doc = generate_document(&components, &config);
    assert!(doc.starts_with("# Custom Title"));
}

#[test]
fn test_generate_document_with_description() {
    let config = config_from_str(
        r#"
title = "Arch Doc"
description = "This is the description."
"#,
    )
    .unwrap();
    let components = vec![];
    let doc = generate_document(&components, &config);
    assert!(doc.contains("This is the description."));
}

#[test]
fn test_generate_document_category_ordering() {
    let config = config_from_str(
        r#"
[[categories]]
category = "Utilities"

[[categories]]
category = "Interfaces"
"#,
    )
    .unwrap();

    let components = vec![
        component("cli/README.md", "CLI", "Interfaces"),
        component("core/README.md", "Core", "Utilities"),
    ];

    let doc = generate_document(&components, &config);
    let utilities_pos = doc.find("## Utilities").unwrap();
    let interfaces_pos = doc.find("## Interfaces").unwrap();
    assert!(utilities_pos < interfaces_pos);
}

#[test]
fn test_generate_document_unlisted_categories_appended() {
    let config = config_from_str(
        r#"
[[categories]]
category = "First"
"#,
    )
    .unwrap();

    let components = vec![
        component("a/README.md", "A", "First"),
        component("b/README.md", "B", "ZUnlisted"),
        component("c/README.md", "C", "AUnlisted"),
    ];

    let doc = generate_document(&components, &config);
    let first_pos = doc.find("## First").unwrap();
    let a_unlisted_pos = doc.find("## AUnlisted").unwrap();
    let z_unlisted_pos = doc.find("## ZUnlisted").unwrap();

    assert!(first_pos < a_unlisted_pos);
    assert!(a_unlisted_pos < z_unlisted_pos);
}

#[test]
fn test_generate_document_category_display_title() {
    let config = config_from_str(
        r#"
[[categories]]
category = "utils"
title = "Utility Functions"
"#,
    )
    .unwrap();

    let components = vec![component("utils/README.md", "Utils", "utils")];

    let doc = generate_document(&components, &config);
    assert!(doc.contains("## Utility Functions"));
    assert!(!doc.contains("## utils"));
}

#[test]
fn test_generate_document_category_description() {
    let config = config_from_str(
        r#"
[[categories]]
category = "core"
description = "These are the core components."
"#,
    )
    .unwrap();

    let components = vec![component("core/README.md", "Core lib", "core")];

    let doc = generate_document(&components, &config);
    assert!(doc.contains("These are the core components."));
}

#[test]
fn document_of_nothing_is_the_title_line() {
    assert_eq!(generate_document(&[], &Config::default()), "# Architecture Documentation\n");
}

#[test]
fn document_of_one_component() {
    let components = vec![component("a/README.md", "Core utilities", "Utilities")];
    assert_eq!(
        generate_document(&components, &Config::default()),
        "# Architecture Documentation\n\n## Utilities\n\n- `a/README.md`: Core utilities\n"
    );
}

#[test]
fn document_in_full() {
    let config = Config {
        title: Some("System".to_string()),
        description: Some("All of it.  \n\n".to_string()),
        categories: vec![
            CategoryConfig {
                category: "utils".to_string(),
                title: Some("Utility Functions".to_string()),
                description: Some("These are the core components. \t".to_string()),
            },
            CategoryConfig { category: "empty".to_string(), title: None, description: None },
            CategoryConfig { category: "api".to_string(), title: None, description: None },
        ],
    };
    let components = vec![
        component("z/README.md", "Last", "misc"),
        component("b/README.md", "Second", "utils"),
        component("api/README.md", "Interface", "api"),
        component("a/README.md", "First", "utils"),
        component("k/README.md", "Other", "Misc"),
    ];
    let expected = "# System\n\nAll of it.\n\
        \n## Utility Functions\n\nThese are the core components.\n\n\
        - `a/README.md`: First\n- `b/README.md`: Second\n\
        \n## api\n\n- `api/README.md`: Interface\n\
        \n## Misc\n\n- `k/README.md`: Other\n\
        \n## misc\n\n- `z/README.md`: Last\n";
    assert_eq!(generate_document(&components, &config), expected);
}

#[test]
fn document_is_the_same_on_every_run() {
    let config = config_from_str("[[categories]]\ncategory = \"b\"\n").unwrap();
    let components = vec![
        component("2", "two", "a"),
        component("1", "one", "b"),
        component("3", "three", "c"),
    ];
    let first = generate_document(&components, &config);
    for _ in 0..20 {
        assert_eq!(generate_document(&components, &config), first);
    }
}

#[test]
fn document_does_not_depend_on_the_order_of_distinct_paths() {
    let config = Config::default();
    let one = vec![
        component("a", "A", "x"),
        component("b", "B", "y"),
        component("c", "C", "x"),
    ];
    let other = vec![
        component("c", "C", "x"),
        component("b", "B", "y"),
        component("a", "A", "x"),
    ];
    assert_eq!(generate_document(&one, &config), generate_document(&other, &config));
}

#[test]
fn first_entry_of_a_category_wins() {
    let config = Config {
        title: None,
        description: None,
        categories: vec![
            CategoryConfig {
                category: "core".to_string(),
                title: Some("One".to_string()),
                description: None,
            },
            CategoryConfig {
                category: "core".to_string(),
                title: Some("Two".to_string()),
                description: Some("second".to_string()),
            },
        ],
    };
    assert_eq!(config.display_title_for("core"), "One");
    assert_eq!(config.get_category("core").unwrap().description, None);
    assert!(config.get_category("Core").is_none());
    assert_eq!(config.display_title_for("Core"), "Core");
}

#[test]
fn groups_come_in_order_of_first_occurrence() {
    let components = vec![
        component("m", "1", "x"),
        component("b", "2", "y"),
        component("a", "3", "x"),
        component("m", "4", "x"),
    ];
    let groups = group_by_category(&components);
    assert_eq!(groups.len(), 2);
    assert_eq!(groups[0].category, "x");
    assert_eq!(groups[1].category, "y");
    let descriptions: Vec<&str> = groups[0].members.iter().map(|c| c.description.as_str()).collect();
    assert_eq!(descriptions, vec!["3", "1", "4"]);
    assert_eq!(groups[1].members, vec![component("b", "2", "y")]);
    assert!(group_by_category(&[]).is_empty());
}

#[test]
fn paths_are_ordered_as_text() {
    let components = vec![
        component("a/b", "slash", "x"),
        component("a.b", "dot", "x"),
        component("a", "short", "x"),
        component("B", "upper", "x"),
        component("é", "accent", "x"),
    ];
    let groups = group_by_category(&components);
    let paths: Vec<&str> = groups[0].members.iter().map(|c| c.path.as_str()).collect();
    assert_eq!(paths, vec!["B", "a", "a.b", "a/b", "é"]);
}

#[test]
fn categories_are_ordered_by_configuration_then_by_name() {
    let config = config_from_str(
        "[[categories]]\ncategory = \"z\"\n[[categories]]\ncategory = \"none\"\n[[categories]]\ncategory = \"m\"\n",
    )
    .unwrap();
    let components = vec![
        component("1", "", "b"),
        component("2", "", "m"),
        component("3", "", "a"),
        component("4", "", "z"),
        component("5", "", "B"),
    ];
    let groups = group_by_category(&components);
    assert_eq!(order_categories(&groups, &config), vec!["z", "m", "B", "a", "b"]);
    assert_eq!(order_categories(&groups, &Config::default()), vec!["B", "a", "b", "m", "z"]);
    assert!(order_categories(&Vec::new(), &config).is_empty());
}
