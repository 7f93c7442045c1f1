//! Checks made before a scan starts: whether the root is broad enough to ask
//! first, and whether the answer to that question is a yes.

use vstd::prelude::*;

use crate::delete::{components_view, same_path};
use crate::text::{chars_eq, chars_of, trim_chars, trimmed};

verus! {

broadcast use vstd::string::group_string_axioms;

/// The components of the filesystem root `/`.
pub open spec fn filesystem_root() -> Seq<Seq<u8>> {
    seq![seq![47u8]]
}

/// Why scanning `root` deserves a heads-up, if it does: it is the filesystem
/// root, the home directory, or a top-level directory (at most two
/// components, as `/` is one and `/opt` two).
pub open spec fn risky_reason(root: Seq<Seq<u8>>, home: Option<Seq<Seq<u8>>>) -> Option<Seq<char>> {
    if root == filesystem_root() {
        Some("the filesystem root"@)
    } else if home == Some(root) {
        Some("your home directory"@)
    } else if root.len() <= 2 {
        Some("a top-level directory"@)
    } else {
        None
    }
}

/// The components of the home directory, if known.
pub open spec fn home_view(home: Option<&Vec<Vec<u8>>>) -> Option<Seq<Seq<u8>>> {
    match home {
        Some(h) => Some(components_view(h@)),
        None => None,
    }
}

/// Returns a human reason when `root` (canonical, as components) is too broad
/// to scan without a heads-up; `home` is the home directory, if known.
pub fn risky_root_reason(root: &Vec<Vec<u8>>, home: Option<&Vec<Vec<u8>>>) -> (r: Option<String>)
    ensures
        match r {
            Some(s) => risky_reason(components_view(root@), home_view(home)) == Some(s@),
            None => risky_reason(components_view(root@), home_view(home)) is None,
        },
{
    let slash: Vec<u8> = vec![47u8];
    assert(slash@ =~= seq![47u8]);
    let fs_root: Vec<Vec<u8>> = vec![slash];
    assert(components_view(fs_root@)[0] == seq![47u8]);
    assert(components_view(fs_root@) =~= filesystem_root());
    if same_path(root, &fs_root) {
        return Some("the filesystem root".to_string());
    }
    if let Some(h) = home {
        if same_path(root, h) {
            return Some("your home directory".to_string());
        }
    }
    if root.len() <= 2 {
        return Some("a top-level directory".to_string());
    }
    None
}

/// The answer `line` to "Continue? [y/N]" is a yes: after trimming
/// whitespace it is `y`, `Y`, `yes` or `Yes`.
pub open spec fn affirmative(line: Seq<char>) -> bool {
    let t = trimmed(line);
    t == "y"@ || t == "Y"@ || t == "yes"@ || t == "Yes"@
}

/// Whether the answer `line` confirms scanning a broad root.
pub fn is_affirmative(line: &str) -> (r: bool)
    ensures
        r == affirmative(line@),
{
    let t = trim_chars(&chars_of(line));
    chars_eq(t.as_slice(), chars_of("y").as_slice()) || chars_eq(t.as_slice(), chars_of("Y").as_slice())
        || chars_eq(t.as_slice(), chars_of("yes").as_slice()) || chars_eq(
        t.as_slice(),
        chars_of("Yes").as_slice(),
    )
}

} // verus!
