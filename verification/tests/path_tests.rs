use component_inliner::path::{file_stem, normalize, parent_dir, resolve};

fn some(s: &str) -> Option<String> {
    Some(s.to_string())
}

#[test]
fn normalize_drops_dots_and_empty_segments() {
    assert_eq!(normalize("/a/./b//c/"), "/a/b/c");
    assert_eq!(normalize("a/./b"), "a/b");
    assert_eq!(normalize("./a"), "a");
    assert_eq!(normalize("/"), "/");
    assert_eq!(normalize("//"), "/");
    assert_eq!(normalize(""), ".");
    assert_eq!(normalize("."), ".");
    assert_eq!(normalize("a"), "a");
}

#[test]
fn normalize_takes_back_one_segment_for_each_dot_dot() {
    assert_eq!(normalize("/a/b/../c"), "/a/c");
    assert_eq!(normalize("/a/b/../../c"), "/c");
    assert_eq!(normalize("a/b/.."), "a");
    assert_eq!(normalize("a/.."), ".");
    assert_eq!(normalize("/a/.."), "/");
}

#[test]
fn dot_dot_with_nothing_to_take_back() {
    assert_eq!(normalize("/.."), "/");
    assert_eq!(normalize("/../a"), "/a");
    assert_eq!(normalize(".."), "..");
    assert_eq!(normalize("../a"), "../a");
    assert_eq!(normalize("../../a"), "../../a");
    assert_eq!(normalize("a/../../b"), "../b");
    assert_eq!(normalize("../a/.."), "..");
}

#[test]
fn normalize_keeps_names_that_only_look_like_dots() {
    assert_eq!(normalize("/a/.../b"), "/a/.../b");
    assert_eq!(normalize("/a/..b/.c"), "/a/..b/.c");
}

#[test]
fn path_resolution() {
    let path = resolve("/project/pages/home", "../shared/card.html");
    assert_eq!(path, "/project/pages/shared/card.html");
    assert_eq!(file_stem(&path), some("card"));
    let from_pages = resolve("/project/pages", "../shared/card.html");
    assert_eq!(from_pages, "/project/shared/card.html");
    assert_eq!(file_stem(&from_pages), some("card"));
}

#[test]
fn resolve_joins_then_normalizes() {
    assert_eq!(resolve("/site", "card.html"), "/site/card.html");
    assert_eq!(resolve("/site", "./parts/../card.html"), "/site/card.html");
    assert_eq!(resolve("/site/", "/card.html"), "/site/card.html");
    assert_eq!(resolve("", "a/../b.html"), "b.html");
    assert_eq!(resolve("", "/b.html"), "/b.html");
    assert_eq!(resolve("site", "../../x.html"), "../x.html");
    assert_eq!(resolve("/", "x.html"), "/x.html");
}

#[test]
fn file_stem_is_the_name_without_its_last_extension() {
    assert_eq!(file_stem("/a/b/card.html"), some("card"));
    assert_eq!(file_stem("card.html"), some("card"));
    assert_eq!(file_stem("/a/archive.tar.gz"), some("archive.tar"));
    assert_eq!(file_stem("/a/Makefile"), some("Makefile"));
    assert_eq!(file_stem("/a/.hidden"), some(".hidden"));
    assert_eq!(file_stem("/a/.hidden.txt"), some(".hidden"));
    assert_eq!(file_stem("/a/name."), some("name"));
    assert_eq!(file_stem("/a.b/name"), some("name"));
}

#[test]
fn file_stem_agrees_with_std_on_normalized_paths() {
    for path in ["/a/b/card.html", "x.y.z", "/.a", "/a/.b.c", "/a/b.", "rel/dir/file", "/a/...", "/a/..b"] {
        let expected = std::path::Path::new(path)
            .file_stem()
            .map(|s| s.to_str().unwrap().to_string());
        assert_eq!(file_stem(path), expected, "{}", path);
    }
}

#[test]
fn a_path_without_file_name_has_no_stem() {
    assert_eq!(file_stem(""), None);
    assert_eq!(file_stem("/"), None);
    assert_eq!(file_stem("/a/"), None);
    assert_eq!(file_stem("."), None);
    assert_eq!(file_stem(".."), None);
    assert_eq!(file_stem("/a/.."), None);
    assert_eq!(file_stem("/a/."), None);
}

#[test]
fn parent_dir_is_the_path_up_to_the_last_slash() {
    assert_eq!(parent_dir("/site/pages/index.html"), "/site/pages");
    assert_eq!(parent_dir("/index.html"), "/");
    assert_eq!(parent_dir("index.html"), "");
    assert_eq!(parent_dir("a/b"), "a");
    assert_eq!(parent_dir("/a/b/"), "/a/b");
    assert_eq!(parent_dir(""), "");
}
