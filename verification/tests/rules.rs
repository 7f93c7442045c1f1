use cleard::rules::{default_rules, name_matches};

#[test]
fn marker_required_dir_needs_sibling() {
    let rs = default_rules();
    // `target` with Cargo.toml present -> Rust.
    assert_eq!(rs.match_dir("target", &["Cargo.toml", "src"]), Some("Rust"));
    // `target` with no marker -> not matched.
    assert_eq!(rs.match_dir("target", &["src", "README.md"]), None);
}

#[test]
fn safe_by_name_needs_no_marker() {
    let rs = default_rules();
    assert_eq!(rs.match_dir("node_modules", &[] as &[&str]), Some("Node"));
    assert_eq!(rs.match_dir("__pycache__", &["app.py"]), Some("Python"));
}

#[test]
fn decoy_build_without_marker_is_ignored() {
    let rs = default_rules();
    // A hand-written `build/` folder with no build system marker.
    assert_eq!(rs.match_dir("build", &["index.html", "style.css"]), None);
    // With a Gradle marker it becomes a real artifact.
    assert_eq!(rs.match_dir("build", &["build.gradle"]), Some("Gradle"));
}

#[test]
fn glob_markers_and_names() {
    let rs = default_rules();
    assert_eq!(rs.match_dir("obj", &["App.csproj"]), Some(".NET"));
    assert_eq!(rs.match_dir("mypkg.egg-info", &["setup.py"]), Some("Python"));
}

#[test]
fn name_matches_globs() {
    assert!(name_matches("*.csproj", "App.csproj"));
    assert!(!name_matches("*.csproj", "App.fsproj"));
    assert!(name_matches("*.egg-info", "mypkg.egg-info"));
    assert!(name_matches("node_modules", "node_modules"));
    assert!(!name_matches("node_modules", "node_modules_old"));
}
