use purple::ssh_config::model::{ConfigElement, IncludedFile, SshConfigFile};
use purple::ssh_config::parser::MAX_INCLUDE_DEPTH;
use purple::ssh_config::lookup::{find_host_directives, serialize_host_block};
use purple::ssh_config::resolve::{push_unique, resolve_includes};
use std::cell::RefCell;

fn files_of(element: &ConfigElement) -> &Vec<IncludedFile> {
    match element {
        ConfigElement::Include(inc) => &inc.resolved_files,
        _ => panic!("Expected Include"),
    }
}

/// A finder over a fixed set of files: a pattern matches the path it names
/// exactly, or, ending in `*`, the files of the directory that stands before.
fn finder<'a>(
    files: &'a [(&'a str, &'a str)],
    asked: &'a RefCell<Vec<String>>,
) -> impl Fn(&str) -> Vec<(String, String)> + 'a {
    move |pattern: &str| {
        asked.borrow_mut().push(pattern.to_string());
        files
            .iter()
            .filter(|(path, _)| match pattern.strip_suffix('*') {
                Some(prefix) => path.starts_with(prefix) && !path[prefix.len()..].contains('/'),
                None => *path == pattern,
            })
            .map(|(path, text)| (path.to_string(), text.to_string()))
            .collect()
    }
}

#[test]
fn includes_resolve_against_the_directory_of_their_file() {
    let files = [
        ("/etc/ssh/conf.d/a", "Host a\n  HostName a.example.com\nInclude sub/*\n"),
        ("/etc/ssh/conf.d/b", "Host b\n"),
        ("/etc/ssh/conf.d/sub/c", "Host c\n  User deep\n"),
        ("/abs/d", "Host d\n"),
    ];
    let asked = RefCell::new(Vec::new());
    let find = finder(&files, &asked);
    let mut config = SshConfigFile::parse(
        "/etc/ssh/config",
        "Include conf.d/*\nInclude /abs/d\nInclude /none\nHost top\n",
    );
    let before = config.serialize();
    config.resolve_includes(&find);
    assert_eq!(
        *asked.borrow(),
        vec!["/etc/ssh/conf.d/*", "/etc/ssh/conf.d/sub/*", "/abs/d", "/none"]
    );
    assert_eq!(config.serialize(), before);
    let first = files_of(&config.elements[0]);
    assert_eq!(first.len(), 2);
    assert_eq!(first[0].path, "/etc/ssh/conf.d/a");
    assert_eq!(first[1].path, "/etc/ssh/conf.d/b");
    assert_eq!(files_of(&first[0].elements[1])[0].path, "/etc/ssh/conf.d/sub/c");
    assert_eq!(files_of(&config.elements[1]).len(), 1);
    assert!(files_of(&config.elements[2]).is_empty());

    assert_eq!(
        config.include_paths(),
        vec!["/etc/ssh/conf.d/a", "/etc/ssh/conf.d/sub/c", "/etc/ssh/conf.d/b", "/abs/d"]
    );
    let entries = config.host_entries();
    let seen: Vec<(&str, Option<&str>)> =
        entries.iter().map(|e| (e.alias.as_str(), e.source_file.as_deref())).collect();
    assert_eq!(
        seen,
        vec![
            ("a", Some("/etc/ssh/conf.d/a")),
            ("c", Some("/etc/ssh/conf.d/sub/c")),
            ("b", Some("/etc/ssh/conf.d/b")),
            ("d", Some("/abs/d")),
            ("top", None),
        ]
    );
    assert!(config.has_host("c"));
    assert!(config.has_host("top"));
    assert!(!config.has_host("e"));
    assert_eq!(
        config.include_glob_dirs_with(None),
        vec!["/etc/ssh/conf.d", "/etc/ssh/conf.d/sub", "/abs", "/"]
    );
    assert_eq!(
        serialize_host_block(&config.elements, "c"),
        Some("Host c\n  User deep".to_string())
    );
    assert_eq!(
        find_host_directives(&config.elements, "a"),
        vec![("HostName".to_string(), "a.example.com".to_string())]
    );
    assert!(find_host_directives(&config.elements, "b").is_empty());
}

#[test]
fn edits_leave_included_files_alone() {
    let files = [("/etc/ssh/inc", "Host inner\n  User u\n")];
    let asked = RefCell::new(Vec::new());
    let find = finder(&files, &asked);
    let mut config = SshConfigFile::parse("/etc/ssh/config", "Include inc\nHost top\n");
    config.resolve_includes(&find);
    assert!(config.has_host("inner"));
    assert!(!config.update_host("inner", &Default::default()));
    assert!(config.delete_host_undoable("inner").is_none());
    assert!(!config.set_host_tags("inner", &["t".to_string()]));
    assert_eq!(files_of(&config.elements[0])[0].elements.len(), 1);
    assert_eq!(config.serialize(), "Include inc\nHost top\n");
}

#[test]
fn include_chains_stop_at_the_depth_limit() {
    let files = [("/r/loop", "Host in-loop\nInclude loop\n")];
    let asked = RefCell::new(Vec::new());
    let find = finder(&files, &asked);
    let mut config = SshConfigFile::parse("/r/config", "Include loop\n");
    config.resolve_includes(&find);
    assert_eq!(asked.borrow().len(), MAX_INCLUDE_DEPTH);
    let mut depth = 0;
    let mut elements = &config.elements;
    loop {
        let directive = elements.iter().find(|e| matches!(e, ConfigElement::Include(_))).unwrap();
        let files = files_of(directive);
        if files.is_empty() {
            break;
        }
        depth += 1;
        elements = &files[0].elements;
    }
    assert_eq!(depth, MAX_INCLUDE_DEPTH);
    assert_eq!(MAX_INCLUDE_DEPTH, 5);
    assert_eq!(elements.len(), 2);
    assert_eq!(config.host_entries().len(), 5);
    assert_eq!(config.include_paths().len(), 5);
}

#[test]
fn nothing_is_resolved_at_the_depth_limit() {
    let files = [("/r/x", "Host x\n")];
    let asked = RefCell::new(Vec::new());
    let find = finder(&files, &asked);
    let mut elements = SshConfigFile::parse_content("Include /r/x\n");
    resolve_includes(&mut elements, Some("/r"), None, MAX_INCLUDE_DEPTH, &find);
    assert!(files_of(&elements[0]).is_empty());
    resolve_includes(&mut elements, Some("/r"), None, MAX_INCLUDE_DEPTH - 1, &find);
    assert_eq!(files_of(&elements[0]).len(), 1);
    resolve_includes(&mut elements, Some("/r"), None, 9, &find);
    assert!(files_of(&elements[0]).is_empty());
    assert_eq!(asked.borrow().len(), 1);
}

#[test]
fn relative_patterns_need_a_directory() {
    let files = [("x", "Host x\n"), ("/abs", "Host y\n")];
    let asked = RefCell::new(Vec::new());
    let find = finder(&files, &asked);
    let mut elements = SshConfigFile::parse_content("Include x\nInclude /abs\n");
    resolve_includes(&mut elements, None, None, 0, &find);
    assert!(files_of(&elements[0]).is_empty());
    assert_eq!(files_of(&elements[1]).len(), 1);
    assert_eq!(*asked.borrow(), vec!["/abs"]);
}

#[test]
fn tilde_expands_to_the_home_directory() {
    assert_eq!(SshConfigFile::expand_tilde_with("~/x/*", Some("/home/me")), "/home/me/x/*");
    assert_eq!(SshConfigFile::expand_tilde_with("~/", Some("/home/me")), "/home/me/");
    assert_eq!(SshConfigFile::expand_tilde_with("~x", Some("/home/me")), "~x");
    assert_eq!(SshConfigFile::expand_tilde_with("a/~/x", Some("/home/me")), "a/~/x");
    assert_eq!(SshConfigFile::expand_tilde_with("~/x", None), "~/x");
    let expected = match dirs::home_dir() {
        Some(home) => format!("{}/{}", home.display(), ".ssh/conf.d/*"),
        None => "~/.ssh/conf.d/*".to_string(),
    };
    assert_eq!(SshConfigFile::expand_tilde("~/.ssh/conf.d/*"), expected);
    assert_eq!(SshConfigFile::expand_tilde("/etc/x"), "/etc/x");

    let files = [("/h/.ssh/k", "Host k\n")];
    let asked = RefCell::new(Vec::new());
    let find = finder(&files, &asked);
    let mut elements = SshConfigFile::parse_content("Include ~/.ssh/k\n");
    resolve_includes(&mut elements, None, Some("/h"), 0, &find);
    assert_eq!(files_of(&elements[0]).len(), 1);
    assert_eq!(*asked.borrow(), vec!["/h/.ssh/k"]);
}

#[test]
fn glob_directories_are_listed_once() {
    let config = SshConfigFile::parse(
        "/etc/ssh/config",
        "Include conf.d/*\nInclude conf.d/*.conf\nInclude ~/mine/*\nInclude /\nInclude other\n",
    );
    assert_eq!(
        config.include_glob_dirs_with(Some("/home/me")),
        vec!["/etc/ssh/conf.d", "/home/me/mine", "/etc/ssh"]
    );
    let bare = SshConfigFile::parse("", "Include conf.d/*\nInclude /a/b\n");
    assert_eq!(bare.include_glob_dirs_with(None), vec!["/a"]);
    let here = config.include_glob_dirs();
    assert_eq!(here.len(), 3);
    assert_eq!(here[0], "/etc/ssh/conf.d");
}

#[test]
fn push_unique_keeps_the_first() {
    let mut dirs: Vec<String> = Vec::new();
    push_unique(&mut dirs, "a".to_string());
    push_unique(&mut dirs, "b".to_string());
    push_unique(&mut dirs, "a".to_string());
    assert_eq!(dirs, vec!["a", "b"]);
}
