use keith_shareit::backend::store::{
    canonicalized_path_to_string, get_export_path, name_le_exec, path_components, sort_by_name,
    tmp_store_dir_name, validate_path_component, PathComponent, PathError,
};
use std::path::{Path, PathBuf};

fn normal(s: &str) -> PathComponent {
    PathComponent::Normal(Some(s.to_string()))
}

#[test]
fn canonical_name_of_relative_path() {
    let r = canonicalized_path_to_string(&vec![normal("music"), normal("song.mp3")], true);
    assert_eq!(r.unwrap(), "music/song.mp3");
}

#[test]
fn canonical_name_of_absolute_path_when_allowed() {
    let r = canonicalized_path_to_string(&vec![PathComponent::RootDir, normal("x")], false);
    assert_eq!(r.unwrap(), "/x");
    let r = canonicalized_path_to_string(&vec![], true);
    assert_eq!(r.unwrap(), "");
}

#[test]
fn canonical_name_refuses_root_when_relative() {
    let r = canonicalized_path_to_string(&vec![PathComponent::RootDir, normal("x")], true);
    assert!(matches!(r, Err(PathError::InvalidComponent(PathComponent::RootDir))));
}

#[test]
fn canonical_name_refuses_non_unicode_and_separators() {
    let r = canonicalized_path_to_string(&vec![normal("a"), PathComponent::Normal(None)], true);
    assert!(matches!(r, Err(PathError::InvalidCharacter)));
    let r = canonicalized_path_to_string(&vec![normal("a\\b")], true);
    assert!(matches!(r, Err(PathError::InvalidComponent(PathComponent::Normal(Some(ref s)))) if s == "a\\b"));
    let r = canonicalized_path_to_string(&vec![normal("a"), PathComponent::ParentDir, PathComponent::Normal(None)], true);
    assert!(matches!(r, Err(PathError::InvalidComponent(PathComponent::ParentDir))));
    let r = canonicalized_path_to_string(&vec![PathComponent::CurDir], false);
    assert!(matches!(r, Err(PathError::InvalidComponent(PathComponent::CurDir))));
    let r = canonicalized_path_to_string(&vec![PathComponent::Prefix], false);
    assert!(matches!(r, Err(PathError::InvalidComponent(PathComponent::Prefix))));
}

#[test]
fn validate_path_component_refuses_slash() {
    assert!(validate_path_component("song.mp3").is_ok());
    assert!(matches!(validate_path_component("a/b"), Err(PathError::SeparatorInComponent)));
}

fn std_export(root: &str, name: &str) -> String {
    let mut p = PathBuf::from(root);
    for part in name.split('/') {
        p.push(part);
    }
    p.to_str().unwrap().to_string()
}

#[test]
fn export_path_matches_pathbuf_push() {
    for (root, name) in [
        ("/tmp/out", "dir/file.txt"),
        ("/", "a"),
        ("", "a/b"),
        ("/r/", "x"),
        ("/r", "a//b"),
        ("/r", "a/"),
        ("rel", ""),
    ] {
        assert_eq!(get_export_path(root, name).unwrap(), std_export(root, name), "{root} {name}");
    }
    assert_eq!(get_export_path("/tmp/out", "dir/file.txt").unwrap(), "/tmp/out/dir/file.txt");
}

#[test]
fn law_import_name_exports_to_same_layout() {
    let rel = Path::new("album/disc1/track.flac");
    let comps: Vec<PathComponent> = rel
        .components()
        .map(|c| match c {
            std::path::Component::Normal(x) => PathComponent::Normal(x.to_str().map(|s| s.to_string())),
            _ => PathComponent::CurDir,
        })
        .collect();
    let name = canonicalized_path_to_string(&comps, true).unwrap();
    assert_eq!(get_export_path("/dst", &name).unwrap(), "/dst/album/disc1/track.flac");
}

#[test]
fn tmp_store_dir_name_is_prefix_and_hex() {
    let suffix: [u8; 16] = [0x00, 0x01, 0x0a, 0xff, 0x10, 0x20, 0x30, 0x40, 0x50, 0x60, 0x70, 0x80, 0x90, 0xa0, 0xb0, 0xc0];
    assert_eq!(tmp_store_dir_name(&suffix), ".keith-shareit-00010aff102030405060708090a0b0c0");
}

#[test]
fn sort_by_name_orders_like_string() {
    let names = ["b/x", "a", "é", "z", "b", "B", "ab"];
    let entries: Vec<(String, usize)> = names.iter().enumerate().map(|(i, n)| (n.to_string(), i)).collect();
    let out = sort_by_name(entries.clone());
    let mut expected = entries;
    expected.sort_by(|(a, _), (b, _)| a.cmp(b));
    assert_eq!(out, expected);
}

#[test]
fn sort_by_name_keeps_order_of_equal_names() {
    let entries = vec![("x".to_string(), 1), ("a".to_string(), 2), ("x".to_string(), 3)];
    assert_eq!(sort_by_name(entries), vec![("a".to_string(), 2), ("x".to_string(), 1), ("x".to_string(), 3)]);
}

#[test]
fn name_le_exec_is_lexicographic() {
    assert!(name_le_exec("a", "b"));
    assert!(name_le_exec("ab", "ab"));
    assert!(name_le_exec("", "a"));
    assert!(!name_le_exec("b", "ab"));
    assert!(name_le_exec("z", "é"));
    assert!(!name_le_exec("abc", "ab"));
}

#[test]
fn validate_path_component_checks_slash_only() {
    assert!(validate_path_component("a\\b").is_ok());
    assert!(validate_path_component("..").is_ok());
    assert!(validate_path_component("").is_ok());
    assert!(validate_path_component("file.txt").is_ok());
}

#[test]
fn export_path_refuses_separators_and_parent_parts() {
    assert!(matches!(get_export_path("/dst", "a\\b"), Err(PathError::SeparatorInComponent)));
    assert!(matches!(
        get_export_path("/dst", "../etc/passwd"),
        Err(PathError::InvalidComponent(PathComponent::ParentDir))
    ));
    assert_eq!(get_export_path("/dst", "a/./b").unwrap(), "/dst/a/./b");
    assert_eq!(get_export_path("/dst", "./b").unwrap(), "/dst/./b");
    assert!(matches!(get_export_path("/dst", "a/.."), Err(PathError::InvalidComponent(PathComponent::ParentDir))));
    assert_eq!(get_export_path("/dst", "a/..b").unwrap(), "/dst/a/..b");
}

#[test]
fn path_components_keep_every_dot() {
    assert!(matches!(
        path_components("a/./b").as_slice(),
        [PathComponent::Normal(Some(a)), PathComponent::CurDir, PathComponent::Normal(Some(b))] if a == "a" && b == "b"
    ));
    assert!(matches!(path_components("/x//y/").as_slice(),
        [PathComponent::RootDir, PathComponent::Normal(Some(x)), PathComponent::Normal(Some(y))] if x == "x" && y == "y"));
    assert!(matches!(path_components("../a").as_slice(), [PathComponent::ParentDir, PathComponent::Normal(_)]));
    assert!(path_components("").is_empty());
}

#[test]
fn canonical_name_refuses_dot_in_path_text() {
    assert!(matches!(
        canonicalized_path_to_string(&path_components("a/./b"), true),
        Err(PathError::InvalidComponent(PathComponent::CurDir))
    ));
    assert!(matches!(
        canonicalized_path_to_string(&path_components("a/b/."), true),
        Err(PathError::InvalidComponent(PathComponent::CurDir))
    ));
    assert_eq!(canonicalized_path_to_string(&path_components("a/b"), true).unwrap(), "a/b");
    assert_eq!(canonicalized_path_to_string(&path_components("/a/b"), false).unwrap(), "/a/b");
}

#[test]
fn canonical_name_refuses_dot_texts_as_normal_components() {
    let comps = vec![PathComponent::Normal(Some("..".to_string()))];
    assert!(canonicalized_path_to_string(&comps, true).is_err());
}

#[test]
fn law_sort_result_does_not_depend_on_input_order() {
    let a = vec![("b".to_string(), 1), ("a/x".to_string(), 2), ("c".to_string(), 3)];
    let b = vec![("c".to_string(), 3), ("b".to_string(), 1), ("a/x".to_string(), 2)];
    let sa = sort_by_name(a);
    assert_eq!(sa, sort_by_name(b));
    assert!(sa.windows(2).all(|w| w[0].0 < w[1].0));
}

#[test]
fn law_export_path_stays_below_root() {
    for name in ["a", "a/b", "a//b", "x/"] {
        let p = get_export_path("/dst", name).unwrap();
        assert!(p.starts_with("/dst/"), "{p}");
    }
}

#[test]
fn law_canonical_name_round_trip() {
    let name = canonicalized_path_to_string(&path_components("album/disc 1/track.flac"), true).unwrap();
    assert_eq!(name, "album/disc 1/track.flac");
    assert_eq!(canonicalized_path_to_string(&path_components(&name), true).unwrap(), name);
}

#[test]
fn law_absolute_canonical_name_round_trip() {
    let name = canonicalized_path_to_string(&path_components("/music/a.mp3"), false).unwrap();
    assert_eq!(name, "/music/a.mp3");
    assert_eq!(canonicalized_path_to_string(&path_components(&name), false).unwrap(), name);
    assert!(canonicalized_path_to_string(&path_components(&name), true).is_err());
}
