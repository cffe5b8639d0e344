use dotgirl::path::{last_segment, parent_path, split_path};
use dotgirl::util::{dir_contents_equal, get_name};
use dotgirl::Error;

#[test]
fn get_name_should_work() {
    // should return directory names
    let dir_name = get_name("/foo/bar/baz/").unwrap();
    assert_eq!(dir_name, "baz".to_owned());

    // should return file names
    let file_name = get_name("/foo/bar/baz.conf").unwrap();
    assert_eq!(file_name, "baz.conf".to_owned());

    // should trim dots at the start
    let dot_name = get_name("/foo/bar/.baz.conf").unwrap();
    assert_eq!(dot_name, "baz.conf".to_owned());
}

#[test]
fn get_name_strips_one_dot_only() {
    assert_eq!(get_name("/home/u/.bashrc").unwrap(), "bashrc");
    assert_eq!(get_name("/home/u/..hidden").unwrap(), ".hidden");
    assert_eq!(get_name("/home/u/...").unwrap(), "..");
    assert_eq!(get_name("plain").unwrap(), "plain");
}

#[test]
fn get_name_rejects_paths_without_a_name() {
    assert_eq!(get_name("/"), Err(Error::PathComponentInvalid));
    assert_eq!(get_name(""), Err(Error::PathComponentInvalid));
    assert_eq!(get_name("///"), Err(Error::PathComponentInvalid));
    assert_eq!(get_name("/foo/."), Err(Error::PathComponentInvalid));
    assert_eq!(get_name("/foo/.."), Err(Error::PathComponentInvalid));
    assert_eq!(get_name("/foo/../"), Err(Error::PathComponentInvalid));
}

#[test]
fn get_name_handles_wide_characters() {
    assert_eq!(get_name("/données/.café").unwrap(), "café");
    assert_eq!(get_name("/données/日本語/").unwrap(), "日本語");
}

#[test]
fn dir_contents_equal_reports_equal() {
    assert_eq!(dir_contents_equal(), Ok(true));
}

#[test]
fn split_path_drops_empty_segments() {
    assert_eq!(split_path("/a//b/"), vec!["a".to_owned(), "b".to_owned()]);
    assert_eq!(split_path("a/b"), vec!["a".to_owned(), "b".to_owned()]);
    assert_eq!(split_path("/"), Vec::<String>::new());
    assert_eq!(split_path(""), Vec::<String>::new());
    assert_eq!(split_path("/foobar"), vec!["foobar".to_owned()]);
}

#[test]
fn last_segment_gives_character_offsets() {
    assert_eq!(last_segment("/foo/bar/baz/"), Some((9, 12)));
    assert_eq!(last_segment("/foo"), Some((1, 4)));
    assert_eq!(last_segment("foo"), Some((0, 3)));
    assert_eq!(last_segment("/é/ü"), Some((3, 4)));
    assert_eq!(last_segment("//"), None);
}

#[test]
fn parent_path_ends_with_the_segment_before_the_last() {
    assert_eq!(parent_path("/a/b/c"), Some("/a/b".to_owned()));
    assert_eq!(parent_path("/a/b/c/"), Some("/a/b".to_owned()));
    assert_eq!(parent_path("/a//b//c"), Some("/a//b".to_owned()));
    assert_eq!(parent_path("a/b"), Some("a".to_owned()));
    assert_eq!(parent_path("/a"), Some("/".to_owned()));
    assert_eq!(parent_path("a"), Some("".to_owned()));
    assert_eq!(parent_path("/"), None);
    assert_eq!(parent_path(""), None);
}
