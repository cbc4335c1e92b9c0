use htmlgrep::path::{relative, Component};

fn normal(s: &str) -> Component {
    Component::Normal(s.to_string())
}

fn abs(list: &[&str]) -> Vec<Component> {
    let mut v = vec![Component::RootDir];
    v.extend(list.iter().map(|s| normal(s)));
    v
}

fn rel(list: &[&str]) -> Vec<Component> {
    list.iter().map(|s| normal(s)).collect()
}

#[test]
fn sibling_directory_climbs_once() {
    let path = abs(&["a", "b", "c"]);
    let base = abs(&["a", "b", "d"]);
    let got = relative(&path, &base).unwrap();
    assert_eq!(vec![Component::ParentDir, normal("c")], got);
}

#[test]
fn equal_paths_yield_nothing_to_walk() {
    let path = abs(&["a", "b"]);
    let base = abs(&["a", "b"]);
    let got = relative(&path, &base).unwrap();
    assert_eq!(Vec::<Component>::new(), got);
}

#[test]
fn deeper_path_extends_from_the_shared_prefix() {
    let path = rel(&["a", "b", "c"]);
    let base = rel(&["a"]);
    let got = relative(&path, &base).unwrap();
    assert_eq!(vec![normal("b"), normal("c")], got);
}

#[test]
fn deeper_base_climbs_per_remaining_component() {
    let path = rel(&["a"]);
    let base = rel(&["a", "b", "c"]);
    let got = relative(&path, &base).unwrap();
    assert_eq!(vec![Component::ParentDir, Component::ParentDir], got);
}

#[test]
fn absolute_path_against_relative_base_stands_as_it_is() {
    let path = abs(&["x", "y"]);
    let base = rel(&["z"]);
    let got = relative(&path, &base).unwrap();
    assert_eq!(abs(&["x", "y"]), got);
}

#[test]
fn relative_path_against_absolute_base_is_unusable() {
    let path = rel(&["x"]);
    let base = abs(&["z"]);
    assert!(relative(&path, &base).is_none());
}

#[test]
fn parent_marker_in_base_blocks_the_walk() {
    let path = rel(&["a", "b"]);
    let base = vec![normal("a"), Component::ParentDir];
    assert!(relative(&path, &base).is_none());
}

#[test]
fn current_marker_in_base_passes_the_component_through() {
    let path = rel(&["a", "b"]);
    let base = vec![Component::CurDir, normal("b")];
    let got = relative(&path, &base).unwrap();
    assert_eq!(vec![normal("a"), Component::ParentDir, normal("b")], got);
}
