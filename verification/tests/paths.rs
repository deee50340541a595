use tuxdrive::path::{copy_name, is_valid_name, same_name, AbsPath};

fn name(text: &str) -> Vec<u8> {
    text.as_bytes().to_vec()
}

#[test]
fn canonical_paths_are_parsed_into_their_components() {
    let path = AbsPath::from_bytes(b"/tmp/w/a.txt").unwrap();
    assert_eq!(path.len(), 3);
    assert_eq!(path.component(0), &name("tmp"));
    assert_eq!(path.component(1), &name("w"));
    assert_eq!(path.component(2), &name("a.txt"));
    assert_eq!(path, AbsPath::from_components(vec![name("tmp"), name("w"), name("a.txt")]));
    assert_eq!(path.to_bytes(), b"/tmp/w/a.txt".to_vec());
}

#[test]
fn root_is_a_single_separator() {
    let root = AbsPath::from_bytes(b"/").unwrap();
    assert_eq!(root.len(), 0);
    assert_eq!(root, AbsPath::root());
    assert_eq!(root.to_bytes(), b"/".to_vec());
    assert_eq!(root.file_name(), None);
    assert_eq!(root.parent(), None);
}

#[test]
fn what_is_not_canonical_is_no_path() {
    assert_eq!(AbsPath::from_bytes(b""), None);
    assert_eq!(AbsPath::from_bytes(b"tmp/w"), None);
    assert_eq!(AbsPath::from_bytes(b"/tmp/"), None);
    assert_eq!(AbsPath::from_bytes(b"//"), None);
    assert_eq!(AbsPath::from_bytes(b"/tmp//w"), None);
    assert_eq!(AbsPath::from_bytes(b"/tmp/./w"), None);
    assert_eq!(AbsPath::from_bytes(b"/tmp/../w"), None);
    assert_eq!(AbsPath::from_bytes(b"/tmp/w/."), None);
    assert_eq!(AbsPath::from_bytes(b"/tmp/a\0b"), None);
    assert!(AbsPath::from_bytes(b"/tmp/.../w").is_some());
    assert!(AbsPath::from_bytes(b"/tmp/.hidden").is_some());
    assert!(AbsPath::from_bytes("/tmp/\u{e4}".as_bytes()).is_some());
}

#[test]
fn text_and_components_round_trip() {
    let texts: [&[u8]; 5] = [b"/", b"/a", b"/a/b", b"/usr/local/share/x.y.z", b"/..a/b.."];
    for text in texts {
        let path = AbsPath::from_bytes(text).unwrap();
        assert_eq!(path.to_bytes(), text.to_vec());
        assert_eq!(AbsPath::from_bytes(&path.to_bytes()), Some(path));
    }
}

#[test]
fn paths_made_of_components_are_checked() {
    assert!(AbsPath::root().is_canonical());
    assert!(AbsPath::from_bytes(b"/tmp/w").unwrap().is_canonical());
    assert!(AbsPath::from_components(vec![name("tmp"), name("w")]).is_canonical());
    assert!(!AbsPath::from_components(vec![name("tmp"), name("..")]).is_canonical());
    assert!(!AbsPath::from_components(vec![name("."), name("w")]).is_canonical());
    assert!(!AbsPath::from_components(vec![name("a/b")]).is_canonical());
    assert!(!AbsPath::from_components(vec![name("")]).is_canonical());
}

#[test]
fn names_are_checked() {
    assert!(is_valid_name(&name("a.txt")));
    assert!(is_valid_name(&name("...")));
    assert!(!is_valid_name(&name("")));
    assert!(!is_valid_name(&name(".")));
    assert!(!is_valid_name(&name("..")));
    assert!(!is_valid_name(&name("a/b")));
    assert!(!is_valid_name(&vec![b'a', 0]));
    assert!(same_name(&name("abc"), &name("abc")));
    assert!(!same_name(&name("abc"), &name("abd")));
    assert!(!same_name(&name("abc"), &name("ab")));
    assert_eq!(copy_name(&name("abc")), name("abc"));
}

#[test]
fn paths_are_taken_apart_and_put_together() {
    let path = AbsPath::from_bytes(b"/tmp/w/a.txt").unwrap();
    let dir = AbsPath::from_bytes(b"/tmp/w").unwrap();
    assert_eq!(path.file_name(), Some(&name("a.txt")));
    assert_eq!(path.parent(), Some(dir.clone()));
    assert_eq!(dir.join(&name("a.txt")), path);
    let mut grown = dir.clone();
    grown.push(name("a.txt"));
    assert_eq!(grown, path);
    assert_eq!(grown.pop(), Some(name("a.txt")));
    assert_eq!(grown, dir);
    let mut root = AbsPath::root();
    assert_eq!(root.pop(), None);
    assert_eq!(root, AbsPath::root());
}

#[test]
fn prefixes_are_component_wise() {
    let path = AbsPath::from_bytes(b"/tmp/work/a").unwrap();
    assert!(path.starts_with(&AbsPath::root()));
    assert!(path.starts_with(&AbsPath::from_bytes(b"/tmp").unwrap()));
    assert!(path.starts_with(&AbsPath::from_bytes(b"/tmp/work").unwrap()));
    assert!(path.starts_with(&path));
    assert!(!path.starts_with(&AbsPath::from_bytes(b"/tmp/wor").unwrap()));
    assert!(!path.starts_with(&AbsPath::from_bytes(b"/tmp/work/a/b").unwrap()));
    assert!(path.same_as(&path.clone()));
    assert!(!path.same_as(&AbsPath::from_bytes(b"/tmp/work").unwrap()));
}
