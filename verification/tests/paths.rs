use std::path::Path;

use mpvremote::path::{check_path, components_of, is_within, join, parent};

fn canonical(path: &str) -> Option<Vec<u8>> {
    let found = Path::new(path).canonicalize().ok()?;
    Some(found.into_os_string().into_encoded_bytes())
}

#[test]
fn browse_root_confinement() {
    let root = canonical("/usr").unwrap();
    assert!(check_path(&root, canonical("/usr/share")).is_some());
    assert!(check_path(&root, canonical("/etc")).is_none());
    assert!(check_path(&root, canonical("/usr/../etc")).is_none());
    assert!(check_path(&root, canonical("/usr/nonexistent-xyz")).is_none());
}

#[test]
fn a_kept_path_is_the_canonical_one() {
    assert_eq!(check_path(b"/srv", Some(b"/srv/a".to_vec())), Some(b"/srv/a".to_vec()));
    assert_eq!(check_path(b"/srv/", Some(b"/srv".to_vec())), Some(b"/srv".to_vec()));
    assert_eq!(check_path(b"/", Some(b"/etc".to_vec())), Some(b"/etc".to_vec()));
    assert_eq!(check_path(b"/srv", Some(b"/srv2/a".to_vec())), None);
    assert_eq!(check_path(b"/srv/a", Some(b"/srv".to_vec())), None);
    assert_eq!(check_path(b"/srv", None), None);
}

#[test]
fn paths_agree_with_the_standard_library() {
    let all = [
        "", "/", "//", ".", "..", "a", "/a", "a/", "./a", "a/.", "a/./b", "/a//b", "/a/b/", "../a",
        "/..", "/.", "a/../b", "/a/./.", "..a", ".a/b.",
    ];
    for a in all {
        let mine: Vec<Vec<u8>> = components_of(a.as_bytes());
        let theirs: Vec<Vec<u8>> =
            Path::new(a).components().map(|c| c.as_os_str().as_encoded_bytes().to_vec()).collect();
        assert_eq!(mine, theirs, "{a:?}");
        let up = Path::new(a).parent().map(|p| p.as_os_str().as_encoded_bytes().to_vec());
        assert_eq!(parent(a.as_bytes()), up, "{a:?}");
        for b in all {
            let below = Path::new(b).starts_with(Path::new(a));
            assert_eq!(is_within(a.as_bytes(), b.as_bytes()), below, "{a:?} {b:?}");
            let joined = Path::new(a).join(b).into_os_string().into_encoded_bytes();
            assert_eq!(join(a.as_bytes(), b.as_bytes()), joined, "{a:?} {b:?}");
        }
    }
}

#[test]
fn parents_and_entries_stay_under_the_root() {
    let root = b"/media";
    for dir in ["/media/a", "/media/a/b", "/media/a/b/"] {
        let up = parent(dir.as_bytes()).unwrap();
        assert!(is_within(root, &up), "{dir}");
        assert!(is_within(root, &join(dir.as_bytes(), b"x.mkv")), "{dir}");
    }
    assert_eq!(parent(b"/media/a//b"), Some(b"/media/a".to_vec()));
    assert_eq!(parent(b"/"), None);
}
