use cleard::cli::{split_size, SizeError};
use cleard::delete::{check_removal, same_path, starts_with_components, Refusal};
use cleard::guard::{is_affirmative, risky_root_reason};

fn comps(parts: &[&str]) -> Vec<Vec<u8>> {
    parts.iter().map(|p| p.as_bytes().to_vec()).collect()
}

#[test]
fn allows_paths_inside_root() {
    let root = comps(&["/", "tmp", "t1"]);
    let victim = comps(&["/", "tmp", "t1", "proj", "node_modules"]);
    assert_eq!(check_removal(&root, &victim), Ok(()));
}

#[test]
fn refuses_root_itself() {
    let root = comps(&["/", "tmp", "t1"]);
    assert!(check_removal(&root, &root).is_err());
    assert_eq!(check_removal(&root, &root), Err(Refusal::RootItself));
}

#[test]
fn refuses_outside_root() {
    let inside = comps(&["/", "tmp", "t1"]);
    let dir = comps(&["/", "tmp", "t2", "data"]);
    assert!(check_removal(&inside, &dir).is_err());
    assert_eq!(check_removal(&inside, &dir), Err(Refusal::OutsideRoot));
    // A sibling whose name merely starts with the root's last component.
    let sibling = comps(&["/", "tmp", "t10"]);
    assert_eq!(check_removal(&inside, &sibling), Err(Refusal::OutsideRoot));
    // The root's parent.
    assert_eq!(check_removal(&inside, &comps(&["/", "tmp"])), Err(Refusal::OutsideRoot));
}

#[test]
fn component_prefixes() {
    let a = comps(&["/", "a", "b"]);
    assert!(starts_with_components(&a, &comps(&["/", "a"])));
    assert!(!starts_with_components(&a, &comps(&["/", "ab"])));
    assert!(!starts_with_components(&comps(&["/"]), &a));
    assert!(same_path(&a, &comps(&["/", "a", "b"])));
    assert!(!same_path(&a, &comps(&["/", "a"])));
}

#[test]
fn broad_roots_need_a_heads_up() {
    let home = comps(&["/", "home", "me"]);
    assert_eq!(risky_root_reason(&comps(&["/"]), Some(&home)).as_deref(), Some("the filesystem root"));
    assert_eq!(risky_root_reason(&home, Some(&home)).as_deref(), Some("your home directory"));
    assert_eq!(risky_root_reason(&comps(&["/", "opt"]), Some(&home)).as_deref(), Some("a top-level directory"));
    assert_eq!(risky_root_reason(&comps(&["/", "home", "me", "code"]), Some(&home)), None);
    // Without a known home, a deep home path is not flagged.
    assert_eq!(risky_root_reason(&home, None), None);
}

#[test]
fn only_yes_confirms() {
    assert!(is_affirmative("y\n"));
    assert!(is_affirmative("  Yes  "));
    assert!(is_affirmative("Y"));
    assert!(is_affirmative("yes"));
    assert!(!is_affirmative("YES"));
    assert!(!is_affirmative(""));
    assert!(!is_affirmative("n"));
    assert!(!is_affirmative("yep"));
}

#[test]
fn sizes_split_into_number_and_unit() {
    let p = split_size(" 1.5G ").ok().unwrap();
    assert_eq!(p.number, "1.5");
    assert_eq!(p.multiplier, 1 << 30);
    let p = split_size("1024").ok().unwrap();
    assert_eq!(p.number, "1024");
    assert_eq!(p.multiplier, 1);
    let p = split_size("1k").ok().unwrap();
    assert_eq!(p.number, "1");
    assert_eq!(p.multiplier, 1024);
    let p = split_size("2T").ok().unwrap();
    assert_eq!(p.multiplier, 1 << 40);
    let p = split_size("100M").ok().unwrap();
    assert_eq!((p.number.as_str(), p.multiplier), ("100", 1 << 20));
    let p = split_size("12b").ok().unwrap();
    assert_eq!((p.number.as_str(), p.multiplier), ("12", 1));
    assert_eq!(split_size("   ").err(), Some(SizeError::Empty));
    assert_eq!(split_size("abc").err(), Some(SizeError::UnknownSuffix('C')));
}

/// The front end's size parser, as the program has it: the library splits
/// the text, the number is read and scaled in floating point (which the
/// library does not hold).
fn parse_size(s: &str) -> Result<u64, String> {
    let parts = match split_size(s) {
        Ok(p) => p,
        Err(SizeError::Empty) => return Err("empty size".into()),
        Err(SizeError::UnknownSuffix(other)) => return Err(format!("unknown size suffix '{other}'")),
    };
    let num = parts.number;
    let value: f64 = num
        .trim()
        .parse()
        .map_err(|_| format!("invalid size number '{num}'"))?;
    if value < 0.0 {
        return Err("size must be non-negative".into());
    }
    Ok((value * parts.multiplier as f64) as u64)
}

#[test]
fn parses_sizes() {
    assert_eq!(parse_size("0").unwrap(), 0);
    assert_eq!(parse_size("1024").unwrap(), 1024);
    assert_eq!(parse_size("1K").unwrap(), 1024);
    assert_eq!(parse_size("1M").unwrap(), 1 << 20);
    assert_eq!(parse_size("1.5G").unwrap(), (1.5 * (1u64 << 30) as f64) as u64);
    assert!(parse_size("abc").is_err());
    assert_eq!(parse_size("abc").err().as_deref(), Some("unknown size suffix 'C'"));
    assert_eq!(parse_size(" ").err().as_deref(), Some("empty size"));
    assert_eq!(parse_size("x1K").err().as_deref(), Some("invalid size number 'x1'"));
}
