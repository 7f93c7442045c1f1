//! User configuration: whether the built-in catalog is used, and the extra
//! rules the user contributes.
//!
//! ```toml
//! # use_default_rules = true   # default
//!
//! [[rules]]
//! ecosystem = "Zig"
//! dir_names = ["zig-cache", "zig-out"]
//! markers = ["build.zig"]
//! ```

use vstd::prelude::*;

use crate::rules::{
    default_catalog, default_rules, first_match, lemma_first_match_append, Rule, RuleSet, RuleSpec,
    RuleView,
};

verus! {

/// The effective configuration.
pub struct Config {
    /// Whether to include the built-in catalog. A config file that leaves it
    /// out gets `true` (see [`default_true`]).
    pub use_default_rules: bool,
    /// Extra rules contributed by the user.
    pub rules: Vec<RuleSpec>,
}

/// The value a config file gets for `use_default_rules` when it leaves it out.
pub fn default_true() -> (r: bool)
    ensures
        r,
{
    true
}

/// The rules that the entries of a config file describe, in order.
pub open spec fn specs_view(specs: Seq<RuleSpec>) -> Seq<RuleView> {
    specs.map_values(|s: RuleSpec| s@)
}

impl Default for Config {
    /// No built-in catalog and no extra rules.
    fn default() -> (c: Self)
        ensures
            !c.use_default_rules,
            c.rules@.len() == 0,
    {
        Config { use_default_rules: false, rules: Vec::new() }
    }
}

impl Config {
    /// The rule set in effect: the user's rules first (so they take precedence
    /// on overlapping names), then the built-ins unless disabled.
    pub fn into_ruleset(self) -> (r: RuleSet)
        ensures
            r@ == specs_view(self.rules@) + (if self.use_default_rules {
                default_catalog()
            } else {
                Seq::empty()
            }),
    {
        let ghost specs = self.rules@;
        let mut rules: Vec<Rule> = Vec::new();
        for spec in it: self.rules
            invariant
                it.seq() == specs,
                rules@.len() == it.index(),
                forall|j: int| 0 <= j < it.index() ==> #[trigger] rules@[j]@ == specs[j]@,
        {
            rules.push(Rule::from(spec));
        }
        if self.use_default_rules {
            let mut defaults = default_rules();
            rules.append(&mut defaults.rules);
        }
        let r = RuleSet { rules };
        assert(r@ =~= specs_view(specs) + (if self.use_default_rules {
            default_catalog()
        } else {
            Seq::empty()
        }));
        r
    }
}

/// The user's rules are checked before the built-ins, so they win on
/// overlapping names: a directory the user's rules match gets their label,
/// and only a directory they leave unmatched is looked up in the built-in
/// catalog (when it is in use).
pub proof fn lemma_user_rules_take_precedence(config_rules: Seq<RuleSpec>, use_default_rules: bool, dir: Seq<char>, siblings: Seq<Seq<char>>)
    ensures
        first_match(
            specs_view(config_rules) + (if use_default_rules {
                default_catalog()
            } else {
                Seq::empty()
            }),
            dir,
            siblings,
        ) == (match first_match(specs_view(config_rules), dir, siblings) {
            Some(e) => Some(e),
            None => if use_default_rules {
                first_match(default_catalog(), dir, siblings)
            } else {
                None
            },
        }),
{
    let tail = if use_default_rules {
        default_catalog()
    } else {
        Seq::empty()
    };
    lemma_first_match_append(specs_view(config_rules), tail, dir, siblings);
}

} // verus!
