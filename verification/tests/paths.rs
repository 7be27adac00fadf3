use vfs::memory::check_path;
use vfs::path::PathId;

#[test]
fn check_path_tests() {
    let absolute = PathId::from("/a-file");
    let relative = PathId::from("a-file");
    assert!(check_path(&absolute).is_ok());
    assert!(check_path(&relative).is_err());
}

#[test]
fn path_construction_is_canonical() {
    assert_eq!(PathId::from("/a/b"), PathId::from("/a/b"));
    assert_eq!(PathId::from("/a/b"), PathId::from("/a//b/"));
    assert_ne!(PathId::from("/a/b"), PathId::from("/a/c"));
    assert_ne!(PathId::from("/a"), PathId::from("a"));
}

#[test]
fn parent_round_trip() {
    let a = PathId::from("/a");
    let a_b = a.join("b");
    assert_eq!(a_b, PathId::from("/a/b"));
    assert_eq!(a_b.parent(), Some(a.clone()));
    assert_eq!(a.parent(), Some(PathId::from("/")));
    assert_eq!(PathId::from("/").parent(), None);
}

#[test]
fn render_round_trip() {
    let p = PathId::from("/a//b/");
    assert_eq!(p.render(), b"/a/b".to_vec());
    assert_eq!(PathId::from_bytes(&p.render()), p);
    let rel = PathId::from("x/y");
    assert_eq!(rel.render(), b"x/y".to_vec());
    assert_eq!(PathId::from_bytes(&rel.render()), rel);
    assert_eq!(PathId::from("/").render(), b"/".to_vec());
}

#[test]
fn absolute_flag() {
    assert!(PathId::from("/x").is_absolute());
    assert!(!PathId::from("x").is_absolute());
    assert!(PathId::from("/").is_absolute());
}
