use cleard::config::{default_true, Config};
use cleard::rules::RuleSpec;
use cleard::scanner::{ChildVerdict, ScanOptions};

fn spec(eco: &str, dirs: &[&str], markers: &[&str]) -> RuleSpec {
    RuleSpec {
        ecosystem: eco.to_string(),
        dir_names: dirs.iter().map(|s| s.to_string()).collect(),
        markers: markers.iter().map(|s| s.to_string()).collect(),
    }
}

#[test]
fn config_defaults() {
    assert!(default_true());
    let c = Config::default();
    assert!(!c.use_default_rules);
    assert!(c.rules.is_empty());
    let rs = c.into_ruleset();
    assert_eq!(rs.match_dir("node_modules", &[] as &[&str]), None);
}

#[test]
fn user_rules_come_first() {
    let c = Config {
        use_default_rules: true,
        rules: vec![spec("Zig", &["zig-cache", "zig-out"], &["build.zig"]), spec("Web", &["node_modules"], &[])],
    };
    let rs = c.into_ruleset();
    assert_eq!(rs.match_dir("zig-out", &["build.zig"]), Some("Zig"));
    assert_eq!(rs.match_dir("zig-out", &["src"]), None);
    // The user's rule wins over the built-in one on the same name.
    assert_eq!(rs.match_dir("node_modules", &[] as &[&str]), Some("Web"));
    // Built-ins still apply where the user's rules do not.
    assert_eq!(rs.match_dir("target", &["Cargo.toml"]), Some("Rust"));
}

#[test]
fn user_rules_alone_without_catalog() {
    let c = Config { use_default_rules: false, rules: vec![spec("Zig", &["zig-out"], &["build.zig"])] };
    let rs = c.into_ruleset();
    assert_eq!(rs.match_dir("zig-out", &["build.zig"]), Some("Zig"));
    assert_eq!(rs.match_dir("target", &["Cargo.toml"]), None);
}

#[test]
fn marker_aware_classification() {
    let opts = ScanOptions {
        root: "/r".to_string(),
        rules: Config { use_default_rules: true, rules: Vec::new() }.into_ruleset(),
        excludes: vec![".git".to_string(), "dist".to_string()],
        follow_links: false,
    };
    assert!(matches!(opts.classify("target", &["Cargo.toml", "src"]), ChildVerdict::Artifact(e) if e == "Rust"));
    assert!(matches!(opts.classify("node_modules", &["package.json"]), ChildVerdict::Artifact(e) if e == "Node"));
    assert!(matches!(opts.classify("build", &["index.html"]), ChildVerdict::Descend));
    assert!(matches!(opts.classify("dist", &["package.json"]), ChildVerdict::Excluded));
    assert!(matches!(opts.classify(".git", &[] as &[&str]), ChildVerdict::Excluded));
    assert!(matches!(opts.classify("src", &["Cargo.toml"]), ChildVerdict::Descend));
}
