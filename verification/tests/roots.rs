use editsync::paths::{get_server_logdir, url_or_error, ToUrl};
use editsync::roots::{
    get_rootPath, holds_any, holds_name, is_dotnet_root, language_markers, same_text, traverse_groups,
    traverse_up,
};
use editsync::text::{trim, Strip, TrimSet};

fn dir(names: &[&str]) -> Vec<String> {
    names.iter().map(|n| n.to_string()).collect()
}

#[test]
fn nearest_marker_of_the_language_wins() {
    let dirs = vec![
        dir(&[]),
        dir(&["main.rs"]),
        dir(&["Cargo.toml", "src"]),
        dir(&["Cargo.toml", ".git"]),
    ];
    assert_eq!(get_rootPath(&dirs, "rust"), Some(2));
    assert_eq!(get_rootPath(&dirs, "php"), Some(3));
    assert_eq!(get_rootPath(&dirs, "no such language"), Some(3));
}

#[test]
fn parent_is_the_last_resort() {
    let dirs = vec![dir(&[]), dir(&["a.txt"]), dir(&["b.txt"])];
    assert_eq!(get_rootPath(&dirs, "rust"), Some(1));
    assert_eq!(get_rootPath(&dirs, "unknown"), Some(1));
    assert_eq!(get_rootPath(&vec![dir(&[])], "rust"), None);
    assert_eq!(get_rootPath(&Vec::new(), "rust"), None);
}

#[test]
fn haskell_prefers_stack_over_cabal_anywhere() {
    let dirs = vec![dir(&[]), dir(&[".cabal"]), dir(&["stack.yaml"])];
    assert_eq!(get_rootPath(&dirs, "haskell"), Some(2));
    let dirs = vec![dir(&[]), dir(&[".cabal"]), dir(&["other"])];
    assert_eq!(get_rootPath(&dirs, "haskell"), Some(1));
}

#[test]
fn each_language_has_its_markers() {
    assert_eq!(language_markers("rust"), Some(vec![vec!["Cargo.toml"]]));
    assert_eq!(language_markers("php"), Some(vec![vec!["composer.json"]]));
    assert_eq!(language_markers("javascript"), Some(vec![vec!["package.json"]]));
    assert_eq!(language_markers("typescript"), Some(vec![vec!["package.json"]]));
    assert_eq!(language_markers("python"), Some(vec![vec!["__init__.py", "setup.py"]]));
    assert_eq!(language_markers("cs"), Some(vec![vec!["project.json", ".csproj"]]));
    assert_eq!(language_markers("java"), Some(vec![vec![".project", "pom.xml"]]));
    assert_eq!(language_markers("haskell"), Some(vec![vec!["stack.yaml"], vec![".cabal"]]));
    assert_eq!(language_markers("Rust"), None);
}

#[test]
fn dotnet_root_is_told_by_either_marker() {
    assert!(is_dotnet_root(&dir(&["a", "project.json"])));
    assert!(is_dotnet_root(&dir(&[".csproj"])));
    assert!(!is_dotnet_root(&dir(&["app.csproj", "project.jsonx"])));
    assert!(!is_dotnet_root(&dir(&[])));
    let dirs = vec![dir(&[]), dir(&["x"]), dir(&["y"]), dir(&[".csproj"])];
    assert_eq!(get_rootPath(&dirs, "cs"), Some(3));
}

#[test]
fn traversals_find_the_first_place() {
    let dirs = vec![dir(&["a"]), dir(&["b", "c"]), dir(&["c"])];
    assert_eq!(traverse_up(&dirs, &vec!["c"]), Some(1));
    assert_eq!(traverse_up(&dirs, &vec!["z", "a"]), Some(0));
    assert_eq!(traverse_up(&dirs, &vec!["z"]), None);
    assert_eq!(traverse_up(&dirs, &vec![]), None);
    assert_eq!(traverse_groups(&dirs, &vec![vec!["z"], vec!["c"], vec!["a"]]), Some(1));
    assert_eq!(traverse_groups(&dirs, &vec![]), None);
    assert!(holds_any(&dirs[1], &vec!["x", "c"]));
    assert!(!holds_any(&dirs[1], &vec!["x"]));
    assert!(holds_name(&dirs[1], "b"));
    assert!(!holds_name(&dirs[1], "bc"));
    assert!(same_text("ab", "ab"));
    assert!(!same_text("ab", "abc"));
}

#[test]
fn strip_takes_blank_ends_off() {
    assert_eq!("  a b \r\n".strip(), "a b");
    assert_eq!("\n\t x".strip(), "x");
    assert_eq!(" \r\n ".strip(), "");
    assert_eq!("".strip(), "");
    assert_eq!("a\nb".strip(), "a\nb");
    assert_eq!(trim("\r\n a \n", TrimSet::LineEnds), " a ");
    assert_eq!(trim("\u{a0}é \u{2003}", TrimSet::Whitespace), "é");
}

#[test]
fn file_url_of_an_absolute_path() {
    assert_eq!("/tmp/foo.txt".to_url().unwrap(), "file:///tmp/foo.txt");
    let e = "../foo.txt".to_url().unwrap_err();
    assert_eq!(e.path, "../foo.txt");
    assert_eq!("".to_url().unwrap_err().path, "");
    assert!("/".to_url().unwrap().starts_with(editsync::paths::FILE_SCHEME));
    assert_eq!(url_or_error(Some("file:///x".to_owned()), "/x").unwrap(), "file:///x");
    assert_eq!(url_or_error(None, "y").unwrap_err().path, "y");
}

#[test]
fn log_dir_follows_the_settings() {
    assert_eq!(get_server_logdir(Some("/a".to_owned()), Some("/b".to_owned())), "/a");
    assert_eq!(get_server_logdir(None, Some("/b".to_owned())), "/b");
    assert_eq!(get_server_logdir(None, None), "/tmp");
}
