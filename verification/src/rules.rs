//! Marker-aware rules describing which directories are safe to reclaim.
//!
//! A rule matches a directory by *name* (e.g. `target`). For ambiguous names
//! (`target`, `build`, `vendor`, `bin`, `obj`, ...) the rule also requires a
//! sibling *marker* file (e.g. `Cargo.toml`) to exist in the same parent
//! directory before the match is accepted, so that a hand-written source folder
//! that merely happens to be named `build` is never flagged.
//!
//! Names and markers support a single leading or trailing `*` glob, which is
//! all the real-world cases need (`*.csproj`, `*.egg-info`).

use vstd::prelude::*;

use crate::text::{chars_eq, chars_of, ends_with, starts_with};

verus! {

broadcast use vstd::string::group_string_axioms;

/// One detection rule.
pub struct Rule {
    /// Human label shown in the UI, e.g. "Rust" or "Node".
    pub ecosystem: String,
    /// Directory names this rule matches (glob with a single `*` allowed).
    pub dir_names: Vec<String>,
    /// Sibling files that confirm the match (glob with a single `*` allowed).
    pub markers: Vec<String>,
    /// When true, at least one `markers` entry must exist as a sibling.
    /// When false the directory name alone is unambiguous and safe.
    pub requires_marker: bool,
}

/// What a [`Rule`] says, as plain sequences of characters.
pub struct RuleView {
    pub ecosystem: Seq<char>,
    pub dir_names: Seq<Seq<char>>,
    pub markers: Seq<Seq<char>>,
    pub requires_marker: bool,
}

/// The characters of each string, in order.
pub open spec fn strings_view(v: Seq<String>) -> Seq<Seq<char>> {
    v.map_values(|s: String| s@)
}

impl View for Rule {
    type V = RuleView;

    open spec fn view(&self) -> RuleView {
        RuleView {
            ecosystem: self.ecosystem@,
            dir_names: strings_view(self.dir_names@),
            markers: strings_view(self.markers@),
            requires_marker: self.requires_marker,
        }
    }
}

/// A glob with a single leading `*` matches by suffix, one with a single
/// trailing `*` matches by prefix; any other pattern must equal the name.
pub open spec fn glob_matches(pattern: Seq<char>, name: Seq<char>) -> bool {
    if pattern.len() > 0 && pattern[0] == '*' {
        pattern.drop_first().is_suffix_of(name)
    } else if pattern.len() > 0 && pattern.last() == '*' {
        pattern.drop_last().is_prefix_of(name)
    } else {
        pattern == name
    }
}

/// Some pattern of `patterns` matches `name`.
pub open spec fn any_glob_matches(patterns: Seq<Seq<char>>, name: Seq<char>) -> bool {
    exists|i: int| 0 <= i < patterns.len() && glob_matches(#[trigger] patterns[i], name)
}

/// Some marker of `markers` matches some name of `siblings`.
pub open spec fn marker_present(markers: Seq<Seq<char>>, siblings: Seq<Seq<char>>) -> bool {
    exists|k: int| 0 <= k < siblings.len() && any_glob_matches(markers, #[trigger] siblings[k])
}

/// `rule` accepts a directory named `dir` whose parent holds `siblings`.
pub open spec fn rule_accepts(rule: RuleView, dir: Seq<char>, siblings: Seq<Seq<char>>) -> bool {
    &&& any_glob_matches(rule.dir_names, dir)
    &&& (!rule.requires_marker || marker_present(rule.markers, siblings))
}

/// The rule with label `ecosystem` matching `dir_names`, confirmed by
/// `markers`; a marker is required exactly when some are given.
pub open spec fn rule_spec(ecosystem: Seq<char>, dir_names: Seq<Seq<char>>, markers: Seq<Seq<char>>) -> RuleView {
    RuleView { ecosystem, dir_names, markers, requires_marker: markers.len() > 0 }
}

/// Owned copies of the given string slices.
fn strings_from(v: &[&str]) -> (r: Vec<String>)
    ensures
        strings_view(r@) == strs_view(v@),
{
    let mut r: Vec<String> = Vec::new();
    let n = v.len();
    for i in 0..n
        invariant
            n == v@.len(),
            r@.len() == i,
            forall|j: int| 0 <= j < i ==> #[trigger] r@[j]@ == v@[j]@,
    {
        let st = v[i].to_string();
        assert(st@ == v@[i as int]@);
        r.push(st);
    }
    assert(strings_view(r@) =~= strs_view(v@));
    r
}

impl Rule {
    /// A rule whose directory names must be confirmed by a sibling marker
    /// (when `markers` is empty, the name alone is enough).
    fn new(eco: &str, dir_names: &[&str], markers: &[&str]) -> (r: Self)
        ensures
            r@ == rule_spec(eco@, strs_view(dir_names@), strs_view(markers@)),
    {
        Rule {
            ecosystem: eco.to_string(),
            dir_names: strings_from(dir_names),
            markers: strings_from(markers),
            requires_marker: markers.len() != 0,
        }
    }

    /// A rule whose directory names are unambiguous: no marker needed.
    fn safe(eco: &str, dir_names: &[&str]) -> (r: Self)
        ensures
            r@ == rule_spec(eco@, strs_view(dir_names@), Seq::empty()),
    {
        let r = Rule {
            ecosystem: eco.to_string(),
            dir_names: strings_from(dir_names),
            markers: Vec::new(),
            requires_marker: false,
        };
        assert(strings_view(r.markers@) =~= Seq::<Seq<char>>::empty());
        r
    }
}

/// A pattern ending in `*` (and not starting with one) matches exactly the
/// names that begin with the pattern's other characters, in the same places.
pub proof fn lemma_trailing_star_matches_prefix(pattern: Seq<char>, name: Seq<char>)
    requires
        pattern.len() > 0,
        pattern[pattern.len() - 1] == '*',
        pattern[0] != '*',
    ensures
        glob_matches(pattern, name) <==> (name.len() >= pattern.len() - 1 && forall|i: int|
            0 <= i < pattern.len() - 1 ==> #[trigger] name[i] == pattern[i]),
{
    let p = pattern.drop_last();
    if name.len() >= p.len() && forall|i: int| 0 <= i < p.len() ==> #[trigger] name[i] == pattern[i] {
        assert(p =~= name.subrange(0, p.len() as int));
    }
    if glob_matches(pattern, name) {
        assert forall|i: int| 0 <= i < pattern.len() - 1 implies #[trigger] name[i] == pattern[i] by {
            assert(name.subrange(0, p.len() as int)[i] == p[i]);
        }
    }
}

/// A pattern starting with `*` matches exactly the names that end with the
/// pattern's other characters, in the same places.
pub proof fn lemma_leading_star_matches_suffix(pattern: Seq<char>, name: Seq<char>)
    requires
        pattern.len() > 0,
        pattern[0] == '*',
    ensures
        glob_matches(pattern, name) <==> (name.len() >= pattern.len() - 1 && forall|i: int|
            1 <= i < pattern.len() ==> #[trigger] pattern[i] == name[name.len() - pattern.len() + i]),
{
    let p = pattern.drop_first();
    let off = name.len() - p.len();
    if name.len() >= p.len() && forall|i: int| 1 <= i < pattern.len() ==> #[trigger] pattern[i] == name[name.len() - pattern.len() + i] {
        assert forall|j: int| 0 <= j < p.len() implies #[trigger] name.subrange(off, name.len() as int)[j] == p[j] by {
            assert(pattern[j + 1] == name[name.len() - pattern.len() + (j + 1)]);
        }
        assert(p =~= name.subrange(off, name.len() as int));
    }
    if glob_matches(pattern, name) {
        assert forall|i: int| 1 <= i < pattern.len() implies #[trigger] pattern[i] == name[name.len() - pattern.len() + i] by {
            assert(name.subrange(off, name.len() as int)[i - 1] == p[i - 1]);
        }
    }
}

/// A pattern with `*` at neither end matches only the name equal to it.
pub proof fn lemma_plain_pattern_matches_itself(pattern: Seq<char>, name: Seq<char>)
    requires
        pattern.len() == 0 || (pattern[0] != '*' && pattern[pattern.len() - 1] != '*'),
    ensures
        glob_matches(pattern, name) <==> pattern == name,
{
}

/// Match a concrete name against a pattern allowing a single `*` glob at the
/// start (suffix match) or end (prefix match). No `*` means an exact match.
pub fn name_matches(pattern: &str, name: &str) -> (r: bool)
    ensures
        r == glob_matches(pattern@, name@),
{
    let p = chars_of(pattern);
    let n = chars_of(name);
    let plen = p.len();
    if plen > 0 && p[0] == '*' {
        let suffix = slice_from(&p, 1);
        assert(suffix@ =~= p@.drop_first());
        ends_with(n.as_slice(), suffix.as_slice())
    } else if plen > 0 && p[plen - 1] == '*' {
        let prefix = slice_to(&p, plen - 1);
        assert(prefix@ =~= p@.drop_last());
        starts_with(n.as_slice(), prefix.as_slice())
    } else {
        chars_eq(p.as_slice(), n.as_slice())
    }
}

/// The characters of `v` from position `start` on.
fn slice_from(v: &Vec<char>, start: usize) -> (r: Vec<char>)
    requires
        start <= v@.len(),
    ensures
        r@ == v@.subrange(start as int, v@.len() as int),
{
    let mut r: Vec<char> = Vec::new();
    let n = v.len();
    for i in start..n
        invariant
            n == v@.len(),
            start <= i,
            r@ == v@.subrange(start as int, i as int),
    {
        r.push(v[i]);
        assert(r@ =~= v@.subrange(start as int, i + 1));
    }
    r
}

/// The first `end` characters of `v`.
fn slice_to(v: &Vec<char>, end: usize) -> (r: Vec<char>)
    requires
        end <= v@.len(),
    ensures
        r@ == v@.subrange(0, end as int),
{
    let mut r: Vec<char> = Vec::new();
    for i in 0..end
        invariant
            end <= v@.len(),
            r@ == v@.subrange(0, i as int),
    {
        r.push(v[i]);
        assert(r@ =~= v@.subrange(0, i + 1));
    }
    r
}

/// Some pattern of `patterns` matches `name`.
fn any_matches(patterns: &Vec<String>, name: &str) -> (r: bool)
    ensures
        r == any_glob_matches(strings_view(patterns@), name@),
{
    let n = patterns.len();
    for i in 0..n
        invariant
            n == patterns@.len(),
            forall|j: int| 0 <= j < i ==> !glob_matches(#[trigger] strings_view(patterns@)[j], name@),
    {
        if name_matches(patterns[i].as_str(), name) {
            assert(glob_matches(strings_view(patterns@)[i as int], name@));
            return true;
        }
    }
    false
}

/// Some marker of `markers` matches some entry of `siblings`.
fn any_marker_present(markers: &Vec<String>, siblings: &[&str]) -> (r: bool)
    ensures
        r == marker_present(strings_view(markers@), strs_view(siblings@)),
{
    let n = siblings.len();
    for k in 0..n
        invariant
            n == siblings@.len(),
            forall|j: int|
                0 <= j < k ==> !any_glob_matches(
                    strings_view(markers@),
                    #[trigger] strs_view(siblings@)[j],
                ),
    {
        if any_matches(markers, siblings[k]) {
            assert(any_glob_matches(strings_view(markers@), strs_view(siblings@)[k as int]));
            return true;
        }
    }
    false
}

/// The characters of each string slice, in order.
pub open spec fn strs_view(v: Seq<&str>) -> Seq<Seq<char>> {
    v.map_values(|s: &str| s@)
}

/// The ecosystem of the first rule of `rules` that accepts `dir`, if any.
pub open spec fn first_match(rules: Seq<RuleView>, dir: Seq<char>, siblings: Seq<Seq<char>>) -> Option<
    Seq<char>,
>
    decreases rules.len(),
{
    if rules.len() == 0 {
        None
    } else if rule_accepts(rules[0], dir, siblings) {
        Some(rules[0].ecosystem)
    } else {
        first_match(rules.drop_first(), dir, siblings)
    }
}

/// The label [`first_match`] gives comes from the first rule that accepts
/// the directory; it gives none exactly when no rule accepts it. In
/// particular a rule that requires a marker only ever matches when a sibling
/// matches one of its markers.
pub proof fn lemma_first_match_is_first_accepting(rules: Seq<RuleView>, dir: Seq<char>, siblings: Seq<Seq<char>>)
    ensures
        first_match(rules, dir, siblings) is None <==> forall|i: int|
            0 <= i < rules.len() ==> !rule_accepts(#[trigger] rules[i], dir, siblings),
        first_match(rules, dir, siblings) matches Some(e) ==> exists|i: int|
            0 <= i < rules.len() && rule_accepts(#[trigger] rules[i], dir, siblings) && rules[i].ecosystem == e
                && (!rules[i].requires_marker || marker_present(rules[i].markers, siblings))
                && forall|j: int| 0 <= j < i ==> !rule_accepts(#[trigger] rules[j], dir, siblings),
    decreases rules.len(),
{
    if rules.len() > 0 {
        let rest = rules.drop_first();
        lemma_first_match_is_first_accepting(rest, dir, siblings);
        if !rule_accepts(rules[0], dir, siblings) {
            assert forall|i: int| 0 < i < rules.len() implies rules[i] == rest[i - 1] by {}
            if first_match(rest, dir, siblings) is None {
                assert forall|i: int| 0 <= i < rules.len() implies !rule_accepts(#[trigger] rules[i], dir, siblings) by {
                    if i > 0 {
                        assert(rules[i] == rest[i - 1]);
                    }
                }
            } else {
                let i0 = choose|i: int|
                    0 <= i < rest.len() && rule_accepts(#[trigger] rest[i], dir, siblings)
                        && rest[i].ecosystem == first_match(rest, dir, siblings)->0
                        && forall|j: int| 0 <= j < i ==> !rule_accepts(#[trigger] rest[j], dir, siblings);
                assert(rules[i0 + 1] == rest[i0]);
                assert forall|j: int| 0 <= j < i0 + 1 implies !rule_accepts(#[trigger] rules[j], dir, siblings) by {
                    if j > 0 {
                        assert(rules[j] == rest[j - 1]);
                    }
                }
                assert(!(forall|i: int| 0 <= i < rules.len() ==> !rule_accepts(#[trigger] rules[i], dir, siblings)));
            }
        } else {
            assert(rule_accepts(rules[0], dir, siblings));
            assert(!(forall|i: int| 0 <= i < rules.len() ==> !rule_accepts(#[trigger] rules[i], dir, siblings)));
        }
    }
}

/// Rules listed earlier win: matching against `a` followed by `b` gives
/// what `a` gives, and only when `a` gives nothing, what `b` gives.
pub proof fn lemma_first_match_append(
    a: Seq<RuleView>,
    b: Seq<RuleView>,
    dir: Seq<char>,
    siblings: Seq<Seq<char>>,
)
    ensures
        first_match(a + b, dir, siblings) == (match first_match(a, dir, siblings) {
            Some(e) => Some(e),
            None => first_match(b, dir, siblings),
        }),
    decreases a.len(),
{
    if a.len() == 0 {
        assert(a + b =~= b);
    } else {
        assert((a + b)[0] == a[0]);
        assert((a + b).drop_first() =~= a.drop_first() + b);
        lemma_first_match_append(a.drop_first(), b, dir, siblings);
    }
}

/// A collection of rules with the matching entry point used by the scanner.
pub struct RuleSet {
    pub rules: Vec<Rule>,
}

impl View for RuleSet {
    type V = Seq<RuleView>;

    open spec fn view(&self) -> Seq<RuleView> {
        self.rules@.map_values(|r: Rule| r@)
    }
}

impl RuleSet {
    /// Decide whether `dir_name` (a child of some directory) is a reclaimable
    /// artifact, given `sibling_names`, the names present in that same parent
    /// directory. Returns the ecosystem label of the first accepting rule.
    pub fn match_dir<'a>(&'a self, dir_name: &str, sibling_names: &[&str]) -> (r: Option<&'a str>)
        ensures
            match r {
                Some(e) => first_match(self@, dir_name@, strs_view(sibling_names@)) == Some(e@),
                None => first_match(self@, dir_name@, strs_view(sibling_names@)) is None,
            },
    {
        let n = self.rules.len();
        let ghost sibs = strs_view(sibling_names@);
        assert(self@.skip(0) =~= self@);
        for i in 0..n
            invariant
                n == self.rules@.len(),
                sibs == strs_view(sibling_names@),
                first_match(self@, dir_name@, sibs) == first_match(
                    self@.skip(i as int),
                    dir_name@,
                    sibs,
                ),
        {
            let rule = &self.rules[i];
            proof {
                assert(self@[i as int] == self.rules@[i as int]@);
                assert(self@.skip(i as int)[0] == rule@);
                assert(self@.skip(i as int).drop_first() =~= self@.skip(i + 1));
            }
            let name_ok = any_matches(&rule.dir_names, dir_name);
            let marker_ok = if rule.requires_marker {
                any_marker_present(&rule.markers, sibling_names)
            } else {
                true
            };
            if name_ok && marker_ok {
                return Some(rule.ecosystem.as_str());
            }
        }
        assert(self@.skip(n as int) =~= Seq::<RuleView>::empty());
        None
    }
}

/// The built-in catalog, in the order its rules are tried.
pub open spec fn default_catalog() -> Seq<RuleView> {
    seq![
        rule_spec("Node"@, seq!["node_modules"@], seq![]),
        rule_spec("Node"@, seq![".next"@, ".nuxt"@, ".svelte-kit"@, ".turbo"@, ".parcel-cache"@], seq![]),
        rule_spec("Rust"@, seq!["target"@], seq!["Cargo.toml"@]),
        rule_spec("Maven"@, seq!["target"@], seq!["pom.xml"@]),
        rule_spec("Gradle"@, seq!["build"@, ".gradle"@], seq!["build.gradle"@, "build.gradle.kts"@, "settings.gradle"@]),
        rule_spec("Python"@, seq!["__pycache__"@, ".pytest_cache"@, ".mypy_cache"@, ".ruff_cache"@, ".tox"@], seq![]),
        rule_spec("Python"@, seq![".venv"@, "venv"@, "*.egg-info"@], seq![]),
        rule_spec("Go"@, seq!["vendor"@], seq!["go.mod"@]),
        rule_spec("PHP"@, seq!["vendor"@], seq!["composer.json"@]),
        rule_spec(".NET"@, seq!["bin"@, "obj"@], seq!["*.csproj"@, "*.fsproj"@, "*.vbproj"@, "*.sln"@]),
        rule_spec("CocoaPods"@, seq!["Pods"@], seq!["Podfile"@]),
        rule_spec("Terraform"@, seq![".terraform"@], seq![]),
        rule_spec("Elixir"@, seq!["_build"@, "deps"@], seq!["mix.exs"@]),
        rule_spec("Elm"@, seq!["elm-stuff"@], seq!["elm.json"@]),
        rule_spec("Dart"@, seq![".dart_tool"@], seq!["pubspec.yaml"@]),
    ]
}

/// `node_modules` is unambiguous: whatever its siblings, it is flagged as
/// Node without any marker.
pub proof fn lemma_node_modules_needs_no_marker(siblings: Seq<Seq<char>>)
    ensures
        first_match(default_catalog(), "node_modules"@, siblings) == Some("Node"@),
{
    reveal_strlit("*.csproj");
    reveal_strlit("*.egg-info");
    reveal_strlit("*.fsproj");
    reveal_strlit("*.sln");
    reveal_strlit("*.vbproj");
    reveal_strlit(".NET");
    reveal_strlit(".dart_tool");
    reveal_strlit(".gradle");
    reveal_strlit(".mypy_cache");
    reveal_strlit(".next");
    reveal_strlit(".nuxt");
    reveal_strlit(".parcel-cache");
    reveal_strlit(".pytest_cache");
    reveal_strlit(".ruff_cache");
    reveal_strlit(".svelte-kit");
    reveal_strlit(".terraform");
    reveal_strlit(".tox");
    reveal_strlit(".turbo");
    reveal_strlit(".venv");
    reveal_strlit("Cargo.toml");
    reveal_strlit("CocoaPods");
    reveal_strlit("Dart");
    reveal_strlit("Elixir");
    reveal_strlit("Elm");
    reveal_strlit("Go");
    reveal_strlit("Gradle");
    reveal_strlit("Maven");
    reveal_strlit("Node");
    reveal_strlit("PHP");
    reveal_strlit("Podfile");
    reveal_strlit("Pods");
    reveal_strlit("Python");
    reveal_strlit("Rust");
    reveal_strlit("Terraform");
    reveal_strlit("__pycache__");
    reveal_strlit("_build");
    reveal_strlit("bin");
    reveal_strlit("build");
    reveal_strlit("build.gradle");
    reveal_strlit("build.gradle.kts");
    reveal_strlit("composer.json");
    reveal_strlit("deps");
    reveal_strlit("elm-stuff");
    reveal_strlit("elm.json");
    reveal_strlit("go.mod");
    reveal_strlit("mix.exs");
    reveal_strlit("node_modules");
    reveal_strlit("obj");
    reveal_strlit("pom.xml");
    reveal_strlit("pubspec.yaml");
    reveal_strlit("settings.gradle");
    reveal_strlit("target");
    reveal_strlit("vendor");
    reveal_strlit("venv");
    let r = default_catalog()[0];
    assert(glob_matches(r.dir_names[0], "node_modules"@));
    assert(rule_accepts(r, "node_modules"@, siblings));
}

/// `target` is ambiguous: it is flagged as Rust only next to a `Cargo.toml`,
/// as Maven only next to a `pom.xml`, and otherwise not at all.
pub proof fn lemma_target_needs_marker(siblings: Seq<Seq<char>>)
    ensures
        first_match(default_catalog(), "target"@, siblings) == (if marker_present(seq!["Cargo.toml"@], siblings) {
            Some("Rust"@)
        } else if marker_present(seq!["pom.xml"@], siblings) {
            Some("Maven"@)
        } else {
            None
        }),
{
    reveal_strlit("*.csproj");
    reveal_strlit("*.egg-info");
    reveal_strlit("*.fsproj");
    reveal_strlit("*.sln");
    reveal_strlit("*.vbproj");
    reveal_strlit(".NET");
    reveal_strlit(".dart_tool");
    reveal_strlit(".gradle");
    reveal_strlit(".mypy_cache");
    reveal_strlit(".next");
    reveal_strlit(".nuxt");
    reveal_strlit(".parcel-cache");
    reveal_strlit(".pytest_cache");
    reveal_strlit(".ruff_cache");
    reveal_strlit(".svelte-kit");
    reveal_strlit(".terraform");
    reveal_strlit(".tox");
    reveal_strlit(".turbo");
    reveal_strlit(".venv");
    reveal_strlit("Cargo.toml");
    reveal_strlit("CocoaPods");
    reveal_strlit("Dart");
    reveal_strlit("Elixir");
    reveal_strlit("Elm");
    reveal_strlit("Go");
    reveal_strlit("Gradle");
    reveal_strlit("Maven");
    reveal_strlit("Node");
    reveal_strlit("PHP");
    reveal_strlit("Podfile");
    reveal_strlit("Pods");
    reveal_strlit("Python");
    reveal_strlit("Rust");
    reveal_strlit("Terraform");
    reveal_strlit("__pycache__");
    reveal_strlit("_build");
    reveal_strlit("bin");
    reveal_strlit("build");
    reveal_strlit("build.gradle");
    reveal_strlit("build.gradle.kts");
    reveal_strlit("composer.json");
    reveal_strlit("deps");
    reveal_strlit("elm-stuff");
    reveal_strlit("elm.json");
    reveal_strlit("go.mod");
    reveal_strlit("mix.exs");
    reveal_strlit("node_modules");
    reveal_strlit("obj");
    reveal_strlit("pom.xml");
    reveal_strlit("pubspec.yaml");
    reveal_strlit("settings.gradle");
    reveal_strlit("target");
    reveal_strlit("vendor");
    reveal_strlit("venv");
    reveal_strlit("target");
    let c = default_catalog();
    let d = "target"@;
    assert(!glob_matches(c[0].dir_names[0], d));
    assert(!rule_accepts(c[0], d, siblings));
    assert(!glob_matches(c[1].dir_names[0], d));
    assert(!glob_matches(c[1].dir_names[1], d));
    assert(!glob_matches(c[1].dir_names[2], d));
    assert(!glob_matches(c[1].dir_names[3], d));
    assert(!glob_matches(c[1].dir_names[4], d));
    assert(!rule_accepts(c[1], d, siblings));
    assert(c[2].markers == seq!["Cargo.toml"@]);
    assert(c[3].markers == seq!["pom.xml"@]);
    assert(glob_matches(c[2].dir_names[0], d));
    assert(glob_matches(c[3].dir_names[0], d));
    assert(!glob_matches(c[4].dir_names[0], d));
    assert(!glob_matches(c[4].dir_names[1], d));
    assert(!rule_accepts(c[4], d, siblings));
    assert(!glob_matches(c[5].dir_names[0], d));
    assert(!glob_matches(c[5].dir_names[1], d));
    assert(!glob_matches(c[5].dir_names[2], d));
    assert(!glob_matches(c[5].dir_names[3], d));
    assert(!glob_matches(c[5].dir_names[4], d));
    assert(!rule_accepts(c[5], d, siblings));
    assert(!glob_matches(c[6].dir_names[0], d));
    assert(!glob_matches(c[6].dir_names[1], d));
    assert(!glob_matches(c[6].dir_names[2], d));
    assert(!rule_accepts(c[6], d, siblings));
    assert(!glob_matches(c[7].dir_names[0], d));
    assert(!rule_accepts(c[7], d, siblings));
    assert(!glob_matches(c[8].dir_names[0], d));
    assert(!rule_accepts(c[8], d, siblings));
    assert(!glob_matches(c[9].dir_names[0], d));
    assert(!glob_matches(c[9].dir_names[1], d));
    assert(!rule_accepts(c[9], d, siblings));
    assert(!glob_matches(c[10].dir_names[0], d));
    assert(!rule_accepts(c[10], d, siblings));
    assert(!glob_matches(c[11].dir_names[0], d));
    assert(!rule_accepts(c[11], d, siblings));
    assert(!glob_matches(c[12].dir_names[0], d));
    assert(!glob_matches(c[12].dir_names[1], d));
    assert(!rule_accepts(c[12], d, siblings));
    assert(!glob_matches(c[13].dir_names[0], d));
    assert(!rule_accepts(c[13], d, siblings));
    assert(!glob_matches(c[14].dir_names[0], d));
    assert(!rule_accepts(c[14], d, siblings));
    lemma_first_match_is_first_accepting(c, d, siblings);
    lemma_first_match_is_first_accepting(c.drop_first().drop_first().drop_first().drop_first(), d, siblings);
    assert(c.drop_first().drop_first().drop_first().drop_first().len() == c.len() - 4);
    assert forall|k: int| 0 <= k < c.len() - 4 implies !rule_accepts(#[trigger] c.drop_first().drop_first().drop_first().drop_first()[k], d, siblings) by {
        assert(c.drop_first().drop_first().drop_first().drop_first()[k] == c[k + 4]);
    }
}

/// A `build` folder is flagged (as Gradle) only next to a Gradle build file.
pub proof fn lemma_build_needs_marker(siblings: Seq<Seq<char>>)
    ensures
        first_match(default_catalog(), "build"@, siblings) == (if marker_present(
            seq!["build.gradle"@, "build.gradle.kts"@, "settings.gradle"@],
            siblings,
        ) {
            Some("Gradle"@)
        } else {
            None
        }),
{
    reveal_strlit("*.csproj");
    reveal_strlit("*.egg-info");
    reveal_strlit("*.fsproj");
    reveal_strlit("*.sln");
    reveal_strlit("*.vbproj");
    reveal_strlit(".NET");
    reveal_strlit(".dart_tool");
    reveal_strlit(".gradle");
    reveal_strlit(".mypy_cache");
    reveal_strlit(".next");
    reveal_strlit(".nuxt");
    reveal_strlit(".parcel-cache");
    reveal_strlit(".pytest_cache");
    reveal_strlit(".ruff_cache");
    reveal_strlit(".svelte-kit");
    reveal_strlit(".terraform");
    reveal_strlit(".tox");
    reveal_strlit(".turbo");
    reveal_strlit(".venv");
    reveal_strlit("Cargo.toml");
    reveal_strlit("CocoaPods");
    reveal_strlit("Dart");
    reveal_strlit("Elixir");
    reveal_strlit("Elm");
    reveal_strlit("Go");
    reveal_strlit("Gradle");
    reveal_strlit("Maven");
    reveal_strlit("Node");
    reveal_strlit("PHP");
    reveal_strlit("Podfile");
    reveal_strlit("Pods");
    reveal_strlit("Python");
    reveal_strlit("Rust");
    reveal_strlit("Terraform");
    reveal_strlit("__pycache__");
    reveal_strlit("_build");
    reveal_strlit("bin");
    reveal_strlit("build");
    reveal_strlit("build.gradle");
    reveal_strlit("build.gradle.kts");
    reveal_strlit("composer.json");
    reveal_strlit("deps");
    reveal_strlit("elm-stuff");
    reveal_strlit("elm.json");
    reveal_strlit("go.mod");
    reveal_strlit("mix.exs");
    reveal_strlit("node_modules");
    reveal_strlit("obj");
    reveal_strlit("pom.xml");
    reveal_strlit("pubspec.yaml");
    reveal_strlit("settings.gradle");
    reveal_strlit("target");
    reveal_strlit("vendor");
    reveal_strlit("venv");
    reveal_strlit("build");
    let c = default_catalog();
    let d = "build"@;
    let rest = c.skip(5);
    assert(!glob_matches(c[0].dir_names[0], d));
    assert(!rule_accepts(c[0], d, siblings));
    assert(!glob_matches(c[1].dir_names[0], d));
    assert(!glob_matches(c[1].dir_names[1], d));
    assert(!glob_matches(c[1].dir_names[2], d));
    assert(!glob_matches(c[1].dir_names[3], d));
    assert(!glob_matches(c[1].dir_names[4], d));
    assert(!rule_accepts(c[1], d, siblings));
    assert(!glob_matches(c[2].dir_names[0], d));
    assert(!rule_accepts(c[2], d, siblings));
    assert(!glob_matches(c[3].dir_names[0], d));
    assert(!rule_accepts(c[3], d, siblings));
    assert(glob_matches(c[4].dir_names[0], d));
    assert(!glob_matches(c[5].dir_names[0], d));
    assert(!glob_matches(c[5].dir_names[1], d));
    assert(!glob_matches(c[5].dir_names[2], d));
    assert(!glob_matches(c[5].dir_names[3], d));
    assert(!glob_matches(c[5].dir_names[4], d));
    assert(!rule_accepts(c[5], d, siblings));
    assert(!glob_matches(c[6].dir_names[0], d));
    assert(!glob_matches(c[6].dir_names[1], d));
    assert(!glob_matches(c[6].dir_names[2], d));
    assert(!rule_accepts(c[6], d, siblings));
    assert(!glob_matches(c[7].dir_names[0], d));
    assert(!rule_accepts(c[7], d, siblings));
    assert(!glob_matches(c[8].dir_names[0], d));
    assert(!rule_accepts(c[8], d, siblings));
    assert(!glob_matches(c[9].dir_names[0], d));
    assert(!glob_matches(c[9].dir_names[1], d));
    assert(!rule_accepts(c[9], d, siblings));
    assert(!glob_matches(c[10].dir_names[0], d));
    assert(!rule_accepts(c[10], d, siblings));
    assert(!glob_matches(c[11].dir_names[0], d));
    assert(!rule_accepts(c[11], d, siblings));
    assert(!glob_matches(c[12].dir_names[0], d));
    assert(!glob_matches(c[12].dir_names[1], d));
    assert(!rule_accepts(c[12], d, siblings));
    assert(!glob_matches(c[13].dir_names[0], d));
    assert(!rule_accepts(c[13], d, siblings));
    assert(!glob_matches(c[14].dir_names[0], d));
    assert(!rule_accepts(c[14], d, siblings));
    assert forall|k: int| 0 <= k < rest.len() implies !rule_accepts(#[trigger] rest[k], d, siblings) by {
        assert(rest[k] == c[k + 5]);
    }
    lemma_first_match_is_first_accepting(rest, d, siblings);
    let head = c.take(4);
    assert forall|k: int| 0 <= k < head.len() implies !rule_accepts(#[trigger] head[k], d, siblings) by {
        assert(head[k] == c[k]);
    }
    lemma_first_match_is_first_accepting(head, d, siblings);
    assert(c =~= head + c.skip(4));
    lemma_first_match_append(head, c.skip(4), d, siblings);
    assert(c.skip(4)[0] == c[4]);
    assert(c.skip(4).drop_first() =~= rest);
    assert(c[4].markers == seq!["build.gradle"@, "build.gradle.kts"@, "settings.gradle"@]);
}

/// The broad built-in catalog. Ambiguous directory names always carry markers.
pub fn default_rules() -> (r: RuleSet)
    ensures
        r@ == default_catalog(),
{
    // Node / JS ecosystem: names are unambiguous.
    let r0 = Rule::safe("Node", &["node_modules"]);
    assert(r0@.dir_names =~= default_catalog()[0].dir_names);
    assert(r0@.markers =~= default_catalog()[0].markers);
    assert(r0@ == default_catalog()[0]);
    let r1 = Rule::safe("Node", &[".next", ".nuxt", ".svelte-kit", ".turbo", ".parcel-cache"]);
    assert(r1@.dir_names =~= default_catalog()[1].dir_names);
    assert(r1@.markers =~= default_catalog()[1].markers);
    assert(r1@ == default_catalog()[1]);
    // Rust
    let r2 = Rule::new("Rust", &["target"], &["Cargo.toml"]);
    assert(r2@.dir_names =~= default_catalog()[2].dir_names);
    assert(r2@.markers =~= default_catalog()[2].markers);
    assert(r2@ == default_catalog()[2]);
    // Java / Gradle / Maven: `build` and `target` are ambiguous.
    let r3 = Rule::new("Maven", &["target"], &["pom.xml"]);
    assert(r3@.dir_names =~= default_catalog()[3].dir_names);
    assert(r3@.markers =~= default_catalog()[3].markers);
    assert(r3@ == default_catalog()[3]);
    let r4 = Rule::new("Gradle", &["build", ".gradle"], &["build.gradle", "build.gradle.kts", "settings.gradle"]);
    assert(r4@.dir_names =~= default_catalog()[4].dir_names);
    assert(r4@.markers =~= default_catalog()[4].markers);
    assert(r4@ == default_catalog()[4]);
    // Python: caches are unambiguous; virtualenvs are nearly so.
    let r5 = Rule::safe("Python", &["__pycache__", ".pytest_cache", ".mypy_cache", ".ruff_cache", ".tox"]);
    assert(r5@.dir_names =~= default_catalog()[5].dir_names);
    assert(r5@.markers =~= default_catalog()[5].markers);
    assert(r5@ == default_catalog()[5]);
    let r6 = Rule::safe("Python", &[".venv", "venv", "*.egg-info"]);
    assert(r6@.dir_names =~= default_catalog()[6].dir_names);
    assert(r6@.markers =~= default_catalog()[6].markers);
    assert(r6@ == default_catalog()[6]);
    // Go (vendored deps)
    let r7 = Rule::new("Go", &["vendor"], &["go.mod"]);
    assert(r7@.dir_names =~= default_catalog()[7].dir_names);
    assert(r7@.markers =~= default_catalog()[7].markers);
    assert(r7@ == default_catalog()[7]);
    // PHP (Composer)
    let r8 = Rule::new("PHP", &["vendor"], &["composer.json"]);
    assert(r8@.dir_names =~= default_catalog()[8].dir_names);
    assert(r8@.markers =~= default_catalog()[8].markers);
    assert(r8@ == default_catalog()[8]);
    // .NET: bin/obj are very ambiguous, require a project/solution file.
    let r9 = Rule::new(".NET", &["bin", "obj"], &["*.csproj", "*.fsproj", "*.vbproj", "*.sln"]);
    assert(r9@.dir_names =~= default_catalog()[9].dir_names);
    assert(r9@.markers =~= default_catalog()[9].markers);
    assert(r9@ == default_catalog()[9]);
    // iOS / CocoaPods
    let r10 = Rule::new("CocoaPods", &["Pods"], &["Podfile"]);
    assert(r10@.dir_names =~= default_catalog()[10].dir_names);
    assert(r10@.markers =~= default_catalog()[10].markers);
    assert(r10@ == default_catalog()[10]);
    // Terraform
    let r11 = Rule::safe("Terraform", &[".terraform"]);
    assert(r11@.dir_names =~= default_catalog()[11].dir_names);
    assert(r11@.markers =~= default_catalog()[11].markers);
    assert(r11@ == default_catalog()[11]);
    // Elixir
    let r12 = Rule::new("Elixir", &["_build", "deps"], &["mix.exs"]);
    assert(r12@.dir_names =~= default_catalog()[12].dir_names);
    assert(r12@.markers =~= default_catalog()[12].markers);
    assert(r12@ == default_catalog()[12]);
    // Elm
    let r13 = Rule::new("Elm", &["elm-stuff"], &["elm.json"]);
    assert(r13@.dir_names =~= default_catalog()[13].dir_names);
    assert(r13@.markers =~= default_catalog()[13].markers);
    assert(r13@ == default_catalog()[13]);
    // Dart / Flutter
    let r14 = Rule::new("Dart", &[".dart_tool"], &["pubspec.yaml"]);
    assert(r14@.dir_names =~= default_catalog()[14].dir_names);
    assert(r14@.markers =~= default_catalog()[14].markers);
    assert(r14@ == default_catalog()[14]);
    let rules = vec![r0, r1, r2, r3, r4, r5, r6, r7, r8, r9, r10, r11, r12, r13, r14];
    let r = RuleSet { rules };
    assert(r@ =~= default_catalog());
    r
}

/// A rule as expressed in the user config file (`config.toml`).
pub struct RuleSpec {
    pub ecosystem: String,
    pub dir_names: Vec<String>,
    pub markers: Vec<String>,
}

impl View for RuleSpec {
    type V = RuleView;

    /// The rule that this entry of the config file describes.
    open spec fn view(&self) -> RuleView {
        rule_spec(self.ecosystem@, strings_view(self.dir_names@), strings_view(self.markers@))
    }
}

impl From<RuleSpec> for Rule {
    fn from(spec: RuleSpec) -> (r: Self) {
        let requires_marker = spec.markers.len() != 0;
        Rule {
            ecosystem: spec.ecosystem,
            dir_names: spec.dir_names,
            requires_marker,
            markers: spec.markers,
        }
    }
}

impl vstd::std_specs::convert::FromSpecImpl<RuleSpec> for Rule {
    open spec fn obeys_from_spec() -> bool {
        true
    }

    open spec fn from_spec(spec: RuleSpec) -> Rule {
        Rule {
            ecosystem: spec.ecosystem,
            dir_names: spec.dir_names,
            requires_marker: spec.markers@.len() > 0,
            markers: spec.markers,
        }
    }
}

} // verus!
