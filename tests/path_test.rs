use assistant::path::{Path, PathError};

#[test]
fn path_create_right() {
    let path_str = "agent::completion";
    let path = Path::try_from(path_str);
    assert!(path.is_ok());
    assert_eq!(path.unwrap().inner(), path_str);
}

#[test]
fn path_create_wrong() {
    let path_str = "agent:completion";
    let path = Path::try_from(path_str);
    assert!(path.is_ok());
    assert_eq!(path.unwrap().inner(), path_str);
}

#[test]
fn path_create_absolute() {
    let path_str = "::agent::completion";
    let path = Path::try_from(path_str);
    assert!(path.is_ok());
    assert_eq!(path.unwrap().inner(), path_str);
}

#[test]
fn path_create_empty_fails() {
    assert_eq!(Path::try_from("").err(), Some(PathError::Empty));
}

#[test]
fn path_get_some_parent_relative() {
    let path_str = "agent::completion";
    let path = Path::try_from(path_str).unwrap();
    let path_parent = path.parent();
    assert!(path_parent.is_some());
    assert_eq!(path_parent.unwrap().inner(), "agent");
}

#[test]
fn path_get_some_parent_absolute() {
    let path_str = "::agent";
    let path = Path::try_from(path_str).unwrap();
    let path_parent = path.parent();
    assert!(path_parent.is_some());
    assert_eq!(path_parent.unwrap().inner(), "::");
}

#[test]
fn path_get_none_parent() {
    let path_str = "agent";
    let path = Path::try_from(path_str).unwrap();
    let path_parent = path.parent();
    assert!(path_parent.is_none());
}

#[test]
fn path_parent_of_root_is_none() {
    assert!(Path::try_from("::").unwrap().parent().is_none());
}

#[test]
fn path_parent_of_three_components() {
    let p = Path::try_from("a::b::c").unwrap();
    assert_eq!(p.parent().unwrap().inner(), "a::b");
}

#[test]
fn path_is_relative() {
    let path_str = "agent";
    let path = Path::try_from(path_str).unwrap();
    let is_relative = path.is_relative();
    let is_absolute = path.is_absolute();
    assert!(is_relative);
    assert!(!is_absolute);
}

#[test]
fn path_is_absolute() {
    let path_str = "::agent";
    let path = Path::try_from(path_str).unwrap();
    let is_relative = path.is_relative();
    let is_absolute = path.is_absolute();
    assert!(!is_relative);
    assert!(is_absolute);
}

#[test]
fn path_join_relative() {
    let orig_path = Path::try_from("agent").unwrap();
    let append = Path::try_from("completion").unwrap();
    let combined = orig_path.join(append);
    assert!(combined.is_ok());
    assert_eq!(combined.unwrap().inner(), "agent::completion");
}

#[test]
fn path_join_absolute() {
    let orig_path = Path::try_from("agent").unwrap();
    let append = Path::try_from("::completion").unwrap();
    let combined = orig_path.join(append);
    assert!(combined.is_err());
    assert_eq!(combined.err(), Some(PathError::JoinAbsolute));
}

#[test]
fn path_join_root() {
    let orig_path = Path::try_from("::").unwrap();
    let append = Path::try_from("agent").unwrap();
    let combined = orig_path.join(append);
    assert!(combined.is_ok());
    assert_eq!(combined.unwrap().inner(), "::agent");
}

#[test]
fn path_starts_with_abs_abs() {
    let a = Path::try_from("::agent::completion").unwrap();
    let b = Path::try_from("::agent").unwrap();
    assert!(a.starts_with(b));
}

#[test]
fn path_starts_with_abs_rel() {
    let a = Path::try_from("::agent::completion").unwrap();
    let b = Path::try_from("agent").unwrap();
    assert!(!a.starts_with(b));
}

#[test]
fn path_starts_with_rel_abs() {
    let a = Path::try_from("agent").unwrap();
    let b = Path::try_from("::agent::completion").unwrap();
    assert!(!a.starts_with(b));
}

#[test]
fn path_starts_with_rel_rel() {
    let a = Path::try_from("agent::completion").unwrap();
    let b = Path::try_from("agent").unwrap();
    assert!(a.starts_with(b));
}

#[test]
fn path_not_starts_with_abs_abs() {
    let a = Path::try_from("::agent::completion").unwrap();
    let b = Path::try_from("::output").unwrap();
    assert!(!a.starts_with(b));
}

#[test]
fn path_not_starts_with_rel_rel() {
    let a = Path::try_from("agent::completion").unwrap();
    let b = Path::try_from("output").unwrap();
    assert!(!a.starts_with(b));
}

#[test]
fn path_starts_with_partial_component_is_false() {
    let a = Path::try_from("agents::completion").unwrap();
    let b = Path::try_from("agent").unwrap();
    assert!(!a.starts_with(b));
}

#[test]
fn path_starts_with_root() {
    let a = Path::try_from("::agent").unwrap();
    let b = Path::try_from("::").unwrap();
    assert!(a.starts_with(b));
}

#[test]
fn path_inner() {
    let path_str = "::agent::completion";
    let path = Path::try_from(path_str).unwrap();
    let inner = path.inner();
    assert_eq!(inner, path_str);
}

#[test]
fn path_from_iter_right() {
    let expected = "agents::completion";
    let elements = vec!["agents", "completion"];
    let path = Path::from_iter(&elements);
    assert!(path.is_ok());
    assert_eq!(path.unwrap().inner(), expected);
}

#[test]
fn path_test_path_from_iter_right() {
    let elements = vec!["agents:", "completion"];
    let path = Path::from_iter(&elements);
    assert!(path.is_err());
    assert_eq!(path.err(), Some(PathError::InvalidFragment { index: 0 }));
}

#[test]
fn path_from_iter_with_root() {
    let expected = "::agents::completion";
    let elements = vec!["::", "agents", "completion"];
    let path = Path::from_iter(&elements);
    assert!(path.is_ok());
    assert_eq!(path.unwrap().inner(), expected);
}

#[test]
fn path_from_iter_root_not_first() {
    let elements = vec!["agents", "::"];
    assert_eq!(
        Path::from_iter(&elements).err(),
        Some(PathError::RootNotFirst { index: 1 })
    );
}

#[test]
fn path_from_iter_empty_fragment() {
    let elements = vec!["agents", ""];
    assert_eq!(
        Path::from_iter(&elements).err(),
        Some(PathError::InvalidFragment { index: 1 })
    );
}

#[test]
fn path_from_iter_no_fragments() {
    let elements: Vec<&str> = vec![];
    assert_eq!(Path::from_iter(&elements).err(), Some(PathError::Empty));
}

#[test]
fn path_from_iter_root_alone() {
    let elements = vec!["::"];
    assert_eq!(Path::from_iter(&elements).unwrap().inner(), "::");
}

#[test]
fn path_join_then_starts_with() {
    let a = Path::try_from("agent").unwrap();
    let b = Path::try_from("completion::next").unwrap();
    let j = a.join(b).unwrap();
    assert!(j.starts_with(Path::try_from("agent").unwrap()));
}

#[test]
fn path_parent_join_round_trip() {
    let p = Path::try_from("::a::b::c").unwrap();
    let q = p.parent().unwrap();
    assert_eq!(q.inner(), "::a::b");
    let back = q.join(Path::try_from("c").unwrap()).unwrap();
    assert_eq!(back.inner(), "::a::b::c");
}

#[test]
fn path_colon_run_components() {
    let p = Path::try_from("a:::b").unwrap();
    assert_eq!(p.components(), vec!["a".to_string(), ":b".to_string()]);
    assert!(p.starts_with(Path::try_from("a").unwrap()));
    assert!(!p.starts_with(Path::try_from("a:").unwrap()));
    assert_eq!(p.parent().unwrap().inner(), "a");
}

#[test]
fn path_starts_with_partial_name_is_false() {
    let a = Path::try_from("agent::completion").unwrap();
    assert!(!a.starts_with(Path::try_from("age").unwrap()));
}

#[test]
fn path_components_of_absolute_and_root() {
    let p = Path::try_from("::agent::completion").unwrap();
    assert_eq!(p.components(), vec!["agent".to_string(), "completion".to_string()]);
    assert!(Path::try_from("::").unwrap().components().is_empty());
}
