use async_path::component::Component;
use async_path::path::Path;

fn render(c: &Component) -> String {
    match c {
        Component::RootDir => String::from("/"),
        Component::CurDir => String::from("."),
        Component::ParentDir => String::from(".."),
        Component::Normal(s) => s.clone(),
    }
}

fn comps(p: &str) -> Vec<String> {
    let path = Path::new(p);
    let mut out: Vec<String> = Vec::new();
    for c in path.components().iter() {
        out.push(render(c));
    }
    out
}

#[test]
fn components_of_absolute_path() {
    assert_eq!(comps("/tmp/foo.txt"), vec!["/", "tmp", "foo.txt"]);
}

#[test]
fn components_collapse_repeated_separators() {
    assert_eq!(comps("a//b"), vec!["a", "b"]);
    assert_eq!(comps("a/b"), vec!["a", "b"]);
}

#[test]
fn components_drop_inner_cur_dir() {
    assert_eq!(comps("a/./b"), vec!["a", "b"]);
    assert_eq!(comps("a/b/."), vec!["a", "b"]);
}

#[test]
fn components_ignore_trailing_separator() {
    assert_eq!(comps("a/b/"), vec!["a", "b"]);
    assert_eq!(comps("/a/b/"), vec!["/", "a", "b"]);
}

#[test]
fn components_keep_leading_cur_dir() {
    assert_eq!(comps("./a/b"), vec![".", "a", "b"]);
    assert_eq!(comps("."), vec!["."]);
    assert_eq!(comps("./."), vec!["."]);
}

#[test]
fn components_keep_parent_dir_markers() {
    assert_eq!(comps("a/b/../c"), vec!["a", "b", "..", "c"]);
    assert_eq!(comps(".."), vec![".."]);
}

#[test]
fn components_edge_cases() {
    assert_eq!(comps(""), Vec::<String>::new());
    assert_eq!(comps("/"), vec!["/"]);
    assert_eq!(comps("//"), vec!["/"]);
    assert_eq!(comps("/."), vec!["/"]);
    assert_eq!(comps(".hidden"), vec![".hidden"]);
}

#[test]
fn components_deterministic_across_constructions() {
    let first = Path::new("/usr/./local//bin/").components();
    let second = Path::new("/usr/./local//bin/").components();
    assert_eq!(first.len(), second.len());
    for k in 0..first.len() {
        assert!(first[k].same_as(&second[k]));
    }
}

#[test]
fn ancestors_of_absolute_path() {
    let path = Path::new("/foo/bar");
    let anc = path.ancestors();
    let shown: Vec<String> = anc.iter().map(|p| p.display()).collect();
    assert_eq!(shown, vec!["/foo/bar", "/foo", "/"]);
}

#[test]
fn ancestors_of_relative_path() {
    let anc = Path::new("foo/bar").ancestors();
    let shown: Vec<String> = anc.iter().map(|p| p.display()).collect();
    assert_eq!(shown, vec!["foo/bar", "foo", ""]);
}

#[test]
fn ancestors_start_with_path_and_follow_parent() {
    let path = Path::new("/a/b//c/");
    let anc = path.ancestors();
    assert!(anc.len() >= 1);
    assert_eq!(anc[0].display(), path.display());
    for k in 0..anc.len() - 1 {
        let parent = anc[k].parent().expect("every element but the last has a parent");
        assert_eq!(parent.display(), anc[k + 1].display());
    }
    assert!(anc[anc.len() - 1].parent().is_none());
}

#[test]
fn ancestors_of_empty_path() {
    let anc = Path::new("").ancestors();
    let shown: Vec<String> = anc.iter().map(|p| p.display()).collect();
    assert_eq!(shown, vec![""]);
}

#[test]
fn parent_of_root_is_none() {
    assert!(Path::new("/").parent().is_none());
    assert!(Path::new("//").parent().is_none());
    assert!(Path::new("").parent().is_none());
}

#[test]
fn parent_drops_final_component() {
    assert_eq!(Path::new("/foo/bar").parent().unwrap().display(), "/foo");
    assert_eq!(Path::new("/foo").parent().unwrap().display(), "/");
    assert_eq!(Path::new("foo").parent().unwrap().display(), "");
    assert_eq!(Path::new("a//b/").parent().unwrap().display(), "a");
    assert_eq!(Path::new("./a").parent().unwrap().display(), ".");
}

#[test]
fn extension_examples() {
    assert_eq!(Path::new("foo.rs").extension().unwrap(), "rs");
    assert!(Path::new(".bashrc").extension().is_none());
    assert!(Path::new("foo").extension().is_none());
    assert_eq!(Path::new("a.b.c").extension().unwrap(), "c");
}

#[test]
fn extension_edge_cases() {
    assert_eq!(Path::new("foo.").extension().unwrap(), "");
    assert_eq!(Path::new("/dir/file.tar.gz").extension().unwrap(), "gz");
    assert!(Path::new("/").extension().is_none());
    assert!(Path::new("a/..").extension().is_none());
}

#[test]
fn file_name_is_final_normal_component() {
    assert_eq!(Path::new("/tmp/foo.txt").file_name().unwrap(), "foo.txt");
    assert_eq!(Path::new("foo.txt/").file_name().unwrap(), "foo.txt");
    assert!(Path::new("/").file_name().is_none());
    assert!(Path::new("a/..").file_name().is_none());
    assert!(Path::new("").file_name().is_none());
}

#[test]
fn file_stem_is_name_before_extension() {
    assert_eq!(Path::new("foo.rs").file_stem().unwrap(), "foo");
    assert_eq!(Path::new(".bashrc").file_stem().unwrap(), ".bashrc");
    assert_eq!(Path::new("a.b.c").file_stem().unwrap(), "a.b");
    assert_eq!(Path::new("foo").file_stem().unwrap(), "foo");
}

#[test]
fn stem_and_extension_reassemble_the_file_name() {
    for name in ["a.b.c", "foo.rs", "archive.tar.gz", "trailing.", "..."] {
        let path = Path::new(name);
        let glued = format!(
            "{}.{}",
            path.file_stem().unwrap(),
            path.extension().unwrap()
        );
        assert_eq!(glued, path.file_name().unwrap());
    }
    for name in [".bashrc", "foo", ".a"] {
        let path = Path::new(name);
        assert!(path.extension().is_none());
        assert_eq!(path.file_stem().unwrap(), path.file_name().unwrap());
    }
}

#[test]
fn ends_with_matches_whole_components() {
    let path = Path::new("/etc/passwd");
    assert!(path.ends_with(&Path::new("passwd")));
    assert!(!path.ends_with(&Path::new("wd")));
}

#[test]
fn ends_with_longer_suffixes() {
    let path = Path::new("/etc/passwd");
    assert!(path.ends_with(&Path::new("etc/passwd")));
    assert!(path.ends_with(&Path::new("/etc/passwd")));
    assert!(!path.ends_with(&Path::new("/passwd")));
    assert!(Path::new("/etc").ends_with(&Path::new("/etc")));
    assert!(!Path::new("etc").ends_with(&Path::new("/etc")));
}

#[test]
fn ends_with_ignores_spelling_differences() {
    assert!(Path::new("/a//b/").ends_with(&Path::new("a/./b")));
}

#[test]
fn ends_with_empty_suffix_always_matches() {
    assert!(Path::new("/etc/passwd").ends_with(&Path::new("")));
    assert!(Path::new("").ends_with(&Path::new("")));
}

#[test]
fn conversions_keep_the_text() {
    let buf = Path::new("foo.txt").to_path_buf();
    assert_eq!(buf.as_str(), "foo.txt");
    assert_eq!(buf.as_path().display(), "foo.txt");
    let boxed: Box<Path> = Box::new(Path::new("/x/y"));
    assert_eq!(boxed.into_path_buf().as_str(), "/x/y");
    let from_string = async_path::path::PathBuf::from_string(String::from("/z"));
    assert_eq!(from_string.as_path().as_str(), "/z");
}

#[test]
fn push_appends_with_a_separator() {
    let mut buf = Path::new("/usr").to_path_buf();
    buf.push(&Path::new("share"));
    assert_eq!(buf.as_str(), "/usr/share");
    buf.push(&Path::new("doc/"));
    assert_eq!(buf.as_str(), "/usr/share/doc/");
    buf.push(&Path::new("x"));
    assert_eq!(buf.as_str(), "/usr/share/doc/x");
}

#[test]
fn push_onto_empty_buffer_adds_no_separator() {
    let mut buf = Path::new("").to_path_buf();
    buf.push(&Path::new("a"));
    assert_eq!(buf.as_str(), "a");
}

#[test]
fn push_of_rooted_path_replaces_the_buffer() {
    let mut buf = Path::new("scratch").to_path_buf();
    buf.push(&Path::new("/etc"));
    assert_eq!(buf.as_str(), "/etc");
}

#[test]
fn component_queries() {
    let cs = Path::new("./x").components();
    assert!(!cs[0].is_normal());
    assert!(cs[0].normal_text().is_none());
    assert!(cs[1].is_normal());
    assert_eq!(cs[1].normal_text().unwrap(), "x");
    assert!(cs[0].same_as(&cs[0]));
    assert!(!cs[0].same_as(&cs[1]));
}
