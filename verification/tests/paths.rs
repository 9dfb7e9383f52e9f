use std::path::PathBuf;

use zrs::paths::{
    common_prefix, is_same_path, join_components, parent, path_components, pop, same_components,
    shared_directory,
};

fn s(path: &str) -> Vec<u8> {
    path.as_bytes().to_vec()
}

#[test]
fn pathbuf_pop() {
    let mut p = PathBuf::from("/home/faux");
    let mut q = s("/home/faux");
    assert!(p.pop());
    assert!(pop(&mut q));
    assert_eq!(PathBuf::from("/home"), p);
    assert_eq!(s("/home"), q);
    assert!(p.pop());
    assert!(pop(&mut q));
    assert_eq!(PathBuf::from("/"), p);
    assert_eq!(s("/"), q);
    // a path for / has no parent, but `pop()` succeeded
    assert_eq!(None, p.parent());
    assert_eq!(None, parent(&q));
    assert!(!p.pop());
    assert!(!pop(&mut q));

    // further popping doesn't remove anything
    assert_eq!(PathBuf::from("/"), p);
    assert_eq!(s("/"), q);
}

#[test]
fn common() {
    assert_eq!(None, common_prefix(&vec![]));
    assert_eq!(None, common_prefix(&vec![s("/home")]));
    assert_eq!(None, common_prefix(&vec![s("/home"), s("/etc")]));
    assert_eq!(
        Some(s("/home")),
        common_prefix(&vec![s("/home/faux"), s("/home/john")])
    );

    assert_eq!(
        Some(s("/home")),
        common_prefix(&vec![
            s("/home/faux"),
            s("/home/alex/public_html"),
            s("/home/john"),
            s("/home/alex")
        ])
    );
}

#[test]
fn common_prefix_first_path_holds_the_rest() {
    assert_eq!(
        Some(s("/home/alex")),
        common_prefix(&vec![s("/home/alex"), s("/home/alex/public_html")])
    );
    assert_eq!(None, common_prefix(&vec![s("/"), s("/home")]));
    assert_eq!(None, common_prefix(&vec![s("/"), s("/")]));
    assert_eq!(None, common_prefix(&vec![s(""), s("a")]));
    assert_eq!(Some(s("/a/b")), common_prefix(&vec![s("/a/b"), s("/a/b")]));
}

#[test]
fn common_prefix_of_relative_paths() {
    assert_eq!(Some(s("a")), common_prefix(&vec![s("a/b"), s("a/c")]));
    assert_eq!(None, common_prefix(&vec![s("a/b"), s("c")]));
    assert_eq!(None, common_prefix(&vec![s("/"), s("a")]));
}

#[test]
fn common_prefix_goes_by_components() {
    assert_eq!(None, common_prefix(&vec![s("/home"), s("/homestead")]));
    assert_eq!(
        Some(s("/srv/www")),
        common_prefix(&vec![s("/srv//www/a/"), s("/srv/www/./b")])
    );
}

#[test]
fn components_follow_the_standard_library() {
    for text in [
        "", "/", "//", "/home", "/home/", "/home//faux", "/home/./faux", "./a", ".", "a/.", "..",
        "../a", "a/../b", "/.", "/..", "a", "a/b/c", ".hidden", "/a/.b/", "./.", "...",
    ] {
        let expected: Vec<Vec<u8>> = PathBuf::from(text)
            .components()
            .map(|c| c.as_os_str().to_str().unwrap().as_bytes().to_vec())
            .collect();
        assert_eq!(expected, path_components(text.as_bytes()), "{:?}", text);
    }
}

#[test]
fn same_path_follows_the_standard_library() {
    let texts = ["/a", "/a/", "/a/.", "a", "./a", "/a/b", "/a//b", "", "/", "."];
    for x in texts {
        for y in texts {
            assert_eq!(
                PathBuf::from(x) == PathBuf::from(y),
                is_same_path(x.as_bytes(), y.as_bytes()),
                "{:?} {:?}",
                x,
                y
            );
        }
    }
}

#[test]
fn parent_follows_the_standard_library() {
    for text in ["/home/faux", "/home", "/", "", "a", "a/b", "./a", ".", "/a//b/", "/a/./b"] {
        let expected = PathBuf::from(text).parent().map(PathBuf::from);
        let got = parent(text.as_bytes()).map(|p| PathBuf::from(String::from_utf8(p).unwrap()));
        assert_eq!(expected, got, "{:?}", text);
    }
}

#[test]
fn join_components_spells_the_shortest_path() {
    for (text, spelled) in [
        ("", ""),
        ("/", "/"),
        ("//", "/"),
        ("/home//faux/", "/home/faux"),
        ("/home/./faux/.", "/home/faux"),
        ("./a/b", "./a/b"),
        ("a//b", "a/b"),
        ("a", "a"),
        ("../a", "../a"),
    ] {
        let comps = path_components(text.as_bytes());
        assert_eq!(s(spelled), join_components(&comps), "{:?}", text);
        assert_eq!(comps, path_components(&join_components(&comps)));
        assert!(is_same_path(text.as_bytes(), &join_components(&comps)));
    }
}

#[test]
fn same_components_compares_component_by_component() {
    let a = path_components(b"/home/faux");
    assert!(same_components(&a, &path_components(b"/home//faux/")));
    assert!(!same_components(&a, &path_components(b"/home")));
    assert!(!same_components(&a, &path_components(b"/home/fauy")));
    assert!(!same_components(&a, &path_components(b"home/faux")));
    assert!(same_components(&vec![], &path_components(b"")));
}

#[test]
fn shared_directory_gives_the_shared_components() {
    assert_eq!(
        Some(vec![s("/"), s("home")]),
        shared_directory(&vec![s("/home/faux"), s("/home/john")])
    );
    assert_eq!(
        Some(vec![s("/"), s("home"), s("alex")]),
        shared_directory(&vec![s("/home/alex/a"), s("/home/alex/b/c"), s("/home/alex")])
    );
    assert_eq!(None, shared_directory(&vec![s("/home"), s("/etc")]));
    assert_eq!(None, shared_directory(&vec![s("/home")]));
    assert_eq!(None, shared_directory(&vec![]));
}

#[test]
fn every_path_lies_below_the_common_prefix() {
    let paths = vec![s("/srv/www/a/b"), s("/srv/www/a"), s("/srv/www/c//d"), s("/srv/www/./e")];
    let shared = common_prefix(&paths).unwrap();
    assert_eq!(s("/srv/www"), shared);
    for path in &paths {
        let text = String::from_utf8(path.clone()).unwrap();
        assert!(PathBuf::from(text).starts_with(PathBuf::from("/srv/www")));
    }
}
