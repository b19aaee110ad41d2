use purple::ssh_config::model::{ConfigElement, Directive, HostBlock, HostEntry, SshConfigFile};
use purple::ssh_config::lookup::{find_host_directives, serialize_host_block};

fn parse_str(content: &str) -> SshConfigFile {
    SshConfigFile {
        elements: SshConfigFile::parse_content(content),
        path: String::from("/tmp/test_config"),
        crlf: content.contains("\r\n"),
    }
}

fn entry(alias: &str, hostname: &str, user: &str, port: u16) -> HostEntry {
    HostEntry {
        alias: alias.to_string(),
        hostname: hostname.to_string(),
        user: user.to_string(),
        port,
        ..Default::default()
    }
}

fn tags(list: &[&str]) -> Vec<String> {
    list.iter().map(|t| t.to_string()).collect()
}

fn block_of(config: &SshConfigFile, index: usize) -> &HostBlock {
    match &config.elements[index] {
        ConfigElement::HostBlock(b) => b,
        _ => panic!("Expected HostBlock"),
    }
}

fn normalized(text: &str) -> String {
    format!("{}\n", text.trim_end_matches('\n'))
}

const FIXTURES: [&str; 12] = [
    "",
    "\n",
    "Host a",
    "Host a\n",
    "Host a\n\n\n",
    "# comment\n\nHost a\n  HostName x\n\n# tail",
    "Include conf.d/*\nHost a b\n\tUser u # note\n  Include nested\nInclude other\n",
    "Host *\n  ServerAliveInterval 60\n\nhost\tlower\n  hostname=h\n  port = 2200\n",
    "  indented global\nHostName not-a-stanza\nHost\n",
    "# \u{3042}\u{3042}\u{3042}xyz\nInclud\u{e9} x\nHost h\u{e9}\n  # \u{1f600}\n",
    "a\rb\nHost x\r",
    "\n\n\nHost a\n\n\n",
];

#[test]
fn round_trip_of_any_text_without_crlf() {
    for text in FIXTURES {
        let config = parse_str(text);
        assert_eq!(config.serialize(), normalized(text), "{:?}", text);
    }
}

#[test]
fn serializing_again_changes_nothing() {
    let more = ["Host a\r\n  HostName x\r\n", "a\r\n\r\n", "Host a\n  User u\n\n\n\n"];
    for text in FIXTURES.iter().chain(more.iter()) {
        if text.lines().any(|l| l.ends_with('\r')) {
            continue;
        }
        let once = parse_str(text).serialize();
        let twice = parse_str(&once).serialize();
        assert_eq!(twice, once, "{:?}", text);
    }
}

#[test]
fn crlf_is_noticed_and_written_as_line_feeds() {
    let text = "Host a\r\n  HostName x\r\n";
    let config = SshConfigFile::parse("/etc/ssh/cfg", text);
    assert!(config.crlf);
    assert_eq!(config.path, "/etc/ssh/cfg");
    assert_eq!(config.serialize(), "Host a\n  HostName x\n");
    assert!(!SshConfigFile::parse("p", "Host a\n\r").crlf);
    assert!(!SshConfigFile::parse("p", "").crlf);
}

#[test]
fn text_ends_in_exactly_one_line_feed() {
    assert_eq!(parse_str("").serialize(), "\n");
    assert_eq!(parse_str("\n\n").serialize(), "\n");
    assert_eq!(parse_str("Host a\n  User u\n\n\n").serialize(), "Host a\n  User u\n");
    assert_eq!(parse_str("# c\n  \n").serialize(), "# c\n  \n");
    let empty = SshConfigFile { elements: Vec::new(), path: String::new(), crlf: false };
    assert_eq!(empty.serialize(), "\n");
}

#[test]
fn lines_land_where_they_belong() {
    let config = parse_str(
        "# top\nInclude a/*\nHost one two\n  User u\n\n  Include inner\n=odd\nInclude\tb\nglobal x\n",
    );
    assert_eq!(config.elements.len(), 5);
    assert!(matches!(&config.elements[0], ConfigElement::GlobalLine(s) if s == "# top"));
    assert!(matches!(&config.elements[1], ConfigElement::Include(i) if i.pattern == "a/*" && i.resolved_files.is_empty()));
    let b = block_of(&config, 2);
    assert_eq!(b.host_pattern, "one two");
    assert_eq!(b.raw_host_line, "Host one two");
    assert_eq!(b.directives.len(), 4);
    assert_eq!((b.directives[0].key.as_str(), b.directives[0].value.as_str()), ("User", "u"));
    assert!(b.directives[1].is_non_directive && b.directives[1].raw_line.is_empty());
    assert!(!b.directives[2].is_non_directive);
    assert_eq!((b.directives[2].key.as_str(), b.directives[2].value.as_str()), ("Include", "inner"));
    assert!(b.directives[3].is_non_directive);
    assert_eq!(b.directives[3].raw_line, "=odd");
    assert!(matches!(&config.elements[3], ConfigElement::Include(i) if i.pattern == "b" && i.raw_line == "Include\tb"));
    assert!(matches!(&config.elements[4], ConfigElement::GlobalLine(s) if s == "global x"));
}

#[test]
fn directive_values_lose_inline_comments_only() {
    let config = parse_str(
        "Host a\n  User bob # the admin\n  IdentityFile=~/.ssh/k\t# key\n  Port 22#x\n  ProxyJump\n  LocalForward 1 h:2 #a #b\n  Key = v = w\n",
    );
    let b = block_of(&config, 0);
    let kv: Vec<(&str, &str)> =
        b.directives.iter().map(|d| (d.key.as_str(), d.value.as_str())).collect();
    assert_eq!(
        kv,
        vec![
            ("User", "bob"),
            ("IdentityFile", "~/.ssh/k"),
            ("Port", "22#x"),
            ("ProxyJump", ""),
            ("LocalForward", "1 h:2"),
            ("Key", "v = w"),
        ]
    );
    assert_eq!(b.directives[0].raw_line, "  User bob # the admin");
}

#[test]
fn keywords_match_whole_words_in_any_case() {
    let config = parse_str("HOST a\nhOsT\tb\nHostess c\n include x\nHostName\nHost\n");
    assert_eq!(config.elements.len(), 2);
    assert_eq!(block_of(&config, 0).host_pattern, "a");
    let b = block_of(&config, 1);
    assert_eq!(b.host_pattern, "b");
    assert_eq!(b.directives.len(), 4);
    assert_eq!(b.directives[0].key, "Hostess");
    assert_eq!(b.directives[1].key, "include");
    assert_eq!(b.directives[2].key, "HostName");
    assert_eq!(b.directives[3].key, "Host");
    let flat = parse_str("include x\nINCLUDE  y \nIncluded z\nInclude\n");
    assert!(matches!(&flat.elements[0], ConfigElement::Include(i) if i.pattern == "x"));
    assert!(matches!(&flat.elements[1], ConfigElement::Include(i) if i.pattern == "y" && i.raw_line == "INCLUDE  y "));
    assert!(matches!(&flat.elements[2], ConfigElement::GlobalLine(_)));
    assert!(matches!(&flat.elements[3], ConfigElement::GlobalLine(_)));
}

#[test]
fn projection_reads_the_known_keys() {
    let config = parse_str(
        "Host a\n  hostname first\n  HOSTNAME second\n  Port 70000\n  IdentityFile\n  identityfile k1\n  IdentityFile k2\n  USER u\n  proxyjump j\n  # purple:tags x, y ,,z\n",
    );
    let entries = config.host_entries();
    assert_eq!(entries.len(), 1);
    let e = &entries[0];
    assert_eq!(e.hostname, "second");
    assert_eq!(e.port, 22);
    assert_eq!(e.identity_file, "k1");
    assert_eq!(e.user, "u");
    assert_eq!(e.proxy_jump, "j");
    assert_eq!(e.tags, vec!["x", "y", "z"]);
    assert_eq!(e.source_file, None);
    let ports = parse_str("Host a\n  Port 2222\n  Port x\nHost b\n  Port +443\n").host_entries();
    assert_eq!(ports[0].port, 22);
    assert_eq!(ports[1].port, 443);
}

#[test]
fn patterns_with_wildcards_or_blanks_are_not_projected() {
    let config = parse_str("Host a*\nHost b?\nHost c d\nHost e\tf\nHost g\n");
    let entries = config.host_entries();
    assert_eq!(entries.len(), 1);
    assert_eq!(entries[0].alias, "g");
    assert!(config.has_host("c"));
    assert!(config.has_host("d"));
    assert!(config.has_host("f"));
    assert!(config.has_host("a*"));
    assert!(!config.has_host("c d"));
    assert!(!config.has_host(""));
    assert!(!config.has_host("h"));
}

#[test]
fn add_then_find() {
    for port in [22u16, 2222] {
        let mut config = parse_str("Host existing\n  HostName 10.0.0.1\n");
        let e = entry("newhost", "10.0.0.2", "", port);
        config.add_host(&e);
        assert!(config.has_host("newhost"));
        let out = config.serialize();
        assert!(out.contains("\n\nHost newhost\n  HostName 10.0.0.2\n"));
        assert_eq!(out.contains("\n  Port "), port != 22);
        if port != 22 {
            assert!(out.ends_with("  HostName 10.0.0.2\n  Port 2222\n"));
        }
    }
}

#[test]
fn add_host_writes_only_what_is_set() {
    let mut config = parse_str("");
    config.add_host(&HostEntry {
        alias: "full".to_string(),
        hostname: "h".to_string(),
        user: "u".to_string(),
        port: 2200,
        identity_file: "~/.ssh/k".to_string(),
        proxy_jump: "j".to_string(),
        ..Default::default()
    });
    assert_eq!(
        config.serialize(),
        "Host full\n  HostName h\n  User u\n  Port 2200\n  IdentityFile ~/.ssh/k\n  ProxyJump j\n"
    );
    config.add_host(&entry("bare", "", "", 22));
    assert_eq!(config.elements.len(), 3);
    assert!(config.serialize().ends_with("  ProxyJump j\n\nHost bare\n"));
}

#[test]
fn add_host_separates_with_one_blank_line() {
    let mut after_blank_global = parse_str("# c\n\n");
    after_blank_global.add_host(&entry("a", "h", "", 22));
    assert_eq!(after_blank_global.serialize(), "# c\n\nHost a\n  HostName h\n");
    let mut after_blank_directive = parse_str("Host x\n  User u\n  \n");
    assert!(after_blank_directive.last_element_has_trailing_blank());
    after_blank_directive.add_host(&entry("a", "h", "", 22));
    assert_eq!(after_blank_directive.serialize(), "Host x\n  User u\n  \nHost a\n  HostName h\n");
    let mut after_include = parse_str("Include x\n");
    assert!(!after_include.last_element_has_trailing_blank());
    after_include.add_host(&entry("a", "h", "", 22));
    assert_eq!(after_include.serialize(), "Include x\n\nHost a\n  HostName h\n");
    assert!(!parse_str("").last_element_has_trailing_blank());
    assert!(!parse_str("Host x\n").last_element_has_trailing_blank());
}

#[test]
fn update_keeps_what_it_does_not_know() {
    let content = "\
Host myserver
  HostName 10.0.0.1
  # keep me
  User admin
  ForwardAgent yes
  LocalForward 8080 localhost:80

";
    let mut config = parse_str(content);
    assert!(config.update_host("myserver", &entry("myserver", "10.0.0.2", "root", 22)));
    assert_eq!(
        config.serialize(),
        "Host myserver\n  HostName 10.0.0.2\n  # keep me\n  User root\n  ForwardAgent yes\n  LocalForward 8080 localhost:80\n"
    );
    let lines: Vec<&str> =
        block_of(&config, 0).directives.iter().map(|d| d.raw_line.as_str()).collect();
    assert_eq!(lines[4], "  LocalForward 8080 localhost:80");
    assert_eq!(lines[5], "");
}

#[test]
fn update_inserts_before_trailing_blanks_with_the_stanza_indent() {
    let mut config = parse_str("Host a\n\tHostName h # note\n\n\nHost b\n");
    let mut e = entry("a2", "h", "me", 2222);
    e.identity_file = "~/.ssh/k".to_string();
    assert!(config.update_host("a", &e));
    assert_eq!(
        config.serialize(),
        "Host a2\n\tHostName h # note\n\tUser me\n\tPort 2222\n\tIdentityFile ~/.ssh/k\n\n\nHost b\n"
    );
    assert!(config.has_host("a2"));
    assert!(!config.has_host("a"));
}

#[test]
fn update_removes_empty_values_and_the_default_port() {
    let mut config =
        parse_str("Host a\n  HostName h\n  user u\n  PORT 22\n  port 23\n  ProxyJump j\n  # c\n");
    assert!(config.update_host("a", &entry("a", "h", "", 22)));
    assert_eq!(config.serialize(), "Host a\n  HostName h\n  # c\n");
}

#[test]
fn update_changes_the_first_of_several_and_keeps_its_key() {
    let mut config = parse_str("Host a\n    hostName old\n  HostName other\n");
    assert!(config.update_host("a", &entry("a", "new", "", 22)));
    assert_eq!(config.serialize(), "Host a\n    hostName new\n  HostName other\n");
}

#[test]
fn update_of_a_missing_host_changes_nothing() {
    let content = "Host a b\n  HostName h\n\n\nInclude x\n";
    let mut config = parse_str(content);
    assert!(!config.update_host("a", &entry("z", "q", "", 22)));
    assert!(!config.set_host_tags("a", &tags(&["t"])));
    assert!(!config.delete_host("b"));
    assert!(config.delete_host_undoable("a").is_none());
    assert!(!config.swap_hosts("a", "a b"));
    assert_eq!(config.serialize(), "Host a b\n  HostName h\n\n\nInclude x\n");
    assert_eq!(config.elements.len(), 2);
}

#[test]
fn exact_undo() {
    let content = "# head\nHost a\n  User u\n\nHost b\n  User v\n\n\nInclude x\nHost b\n";
    for alias in ["a", "b"] {
        let mut config = parse_str(content);
        let before = config.serialize();
        let count = config.elements.len();
        let (element, position) = config.delete_host_undoable(alias).unwrap();
        assert_eq!(config.elements.len(), count - 1);
        assert!(matches!(&element, ConfigElement::HostBlock(b) if b.host_pattern == alias));
        assert_ne!(config.serialize(), before);
        config.insert_host_at(element, position);
        assert_eq!(config.serialize(), before);
        assert_eq!(config.elements.len(), count);
    }
    let mut config = parse_str(content);
    assert_eq!(config.delete_host_undoable("b").unwrap().1, 2);
}

#[test]
fn insert_past_the_end_appends() {
    let mut config = parse_str("Host a\n");
    config.insert_host_at(ConfigElement::GlobalLine("# end".to_string()), 99);
    config.insert_host_at(ConfigElement::GlobalLine("# start".to_string()), 0);
    assert_eq!(config.serialize(), "# start\nHost a\n# end\n");
}

#[test]
fn delete_removes_every_match_and_doubled_blank_lines() {
    let mut config =
        parse_str("# c\n\n\nHost a\n  User u\nInclude x\n\n \n# d\nHost b\n\n\nHost a\n# e\n");
    assert!(config.delete_host("a"));
    assert_eq!(config.serialize(), "# c\n\nInclude x\n\n# d\nHost b\n");
    assert!(!config.has_host("a"));
    assert_eq!(config.elements.len(), 6);
    let mut joined = parse_str("\nHost a\nInclude x\n");
    joined.elements.remove(2);
    joined.elements.push(ConfigElement::GlobalLine(String::new()));
    assert!(joined.delete_host("a"));
    assert_eq!(joined.elements.len(), 1);
}

#[test]
fn tag_round_trip() {
    let mut config = parse_str("Host a\n\tHostName h\n  # purple:tags old\n\n# purple:tags\n\nHost b\n");
    assert!(config.set_host_tags("a", &tags(&["a", "b"])));
    assert_eq!(config.host_entries()[0].tags, vec!["a", "b"]);
    assert_eq!(config.serialize(), "Host a\n\tHostName h\n\t# purple:tags a,b\n\n\nHost b\n");
    assert!(config.set_host_tags("a", &tags(&[])));
    assert!(!config.serialize().contains("purple:tags"));
    assert!(config.host_entries()[0].tags.is_empty());
    assert_eq!(config.serialize(), "Host a\n\tHostName h\n\n\nHost b\n");
    assert!(config.set_host_tags("b", &tags(&["x y", "z"])));
    assert_eq!(config.serialize(), "Host a\n\tHostName h\n\n\nHost b\n  # purple:tags x y,z\n");
    assert_eq!(config.host_entries()[1].tags, vec!["x y", "z"]);
}

#[test]
fn tags_come_from_the_first_tag_comment() {
    let block = HostBlock {
        host_pattern: "a".to_string(),
        raw_host_line: "Host a".to_string(),
        directives: vec![
            Directive {
                key: "X".to_string(),
                value: "# purple:tags no".to_string(),
                raw_line: "# purple:tags no".to_string(),
                is_non_directive: false,
            },
            Directive {
                key: String::new(),
                value: String::new(),
                raw_line: "  # purple:tags".to_string(),
                is_non_directive: true,
            },
            Directive {
                key: String::new(),
                value: String::new(),
                raw_line: " # purple:tags  one , two,".to_string(),
                is_non_directive: true,
            },
            Directive {
                key: String::new(),
                value: String::new(),
                raw_line: "# purple:tags three".to_string(),
                is_non_directive: true,
            },
        ],
    };
    assert_eq!(block.tags(), vec!["one", "two"]);
    assert_eq!(block.detect_indent(), "  ");
    assert_eq!(block.content_end(), 4);
    let mut changed = block.clone();
    changed.set_tags(&tags(&["q"]));
    let lines: Vec<&str> = changed.directives.iter().map(|d| d.raw_line.as_str()).collect();
    assert_eq!(lines, vec!["# purple:tags no", "  # purple:tags q"]);
}

#[test]
fn trailing_blanks_are_counted_popped_and_restored() {
    let mut config = parse_str("Host a\n    User u\n\n  \n\t\n");
    let b = match &mut config.elements[0] {
        ConfigElement::HostBlock(b) => b,
        _ => panic!("Expected HostBlock"),
    };
    assert_eq!(b.content_end(), 1);
    assert_eq!(b.detect_indent(), "    ");
    let mut kept = b.clone();
    let popped = kept.pop_trailing_blanks();
    assert_eq!(popped.len(), 3);
    assert_eq!(popped[1].raw_line, "  ");
    assert_eq!(popped[2].raw_line, "\t");
    assert_eq!(kept.directives.len(), 1);
    b.ensure_trailing_blank();
    assert_eq!(b.directives.len(), 2);
    assert_eq!(b.directives[1].raw_line, "");
    assert!(b.directives[1].is_non_directive);
}

#[test]
fn swap_hosts_moves_the_separator() {
    let mut config = parse_str("Host a\n  User u\n\n\nHost b\n  User v\n");
    assert!(config.swap_hosts("a", "b"));
    assert_eq!(config.serialize(), "Host b\n  User v\n\nHost a\n  User u\n");
    let mut middle = parse_str("Host a\n  User u\n\nHost b\n  User v\nInclude end\n");
    assert!(middle.swap_hosts("b", "a"));
    assert_eq!(middle.serialize(), "Host b\n  User v\n\nHost a\n  User u\n\nInclude end\n");
    let mut same = parse_str("Host a\n  User u\n");
    assert!(same.swap_hosts("a", "a"));
    assert_eq!(block_of(&same, 0).directives.len(), 2);
}

#[test]
fn unicode_lines_stay_whole() {
    let content = "# abcde\u{e9} test\nInclud\u{e9}\u{3042} x\nHost \u{3042}\n  User \u{e9} # \u{1f600}\n";
    let config = parse_str(content);
    assert_eq!(config.serialize(), content);
    assert!(matches!(&config.elements[0], ConfigElement::GlobalLine(s) if s == "# abcde\u{e9} test"));
    assert!(matches!(&config.elements[1], ConfigElement::GlobalLine(_)));
    let entries = config.host_entries();
    assert_eq!(entries[0].alias, "\u{3042}");
    assert_eq!(entries[0].user, "\u{e9}");
}

#[test]
fn one_stanza_as_text_and_as_pairs() {
    let config = parse_str("Host a\n  User u\n  # c\n\nHost b\n  Port 1\n");
    assert_eq!(
        serialize_host_block(&config.elements, "a"),
        Some("Host a\n  User u\n  # c\n".to_string())
    );
    assert_eq!(serialize_host_block(&config.elements, "b"), Some("Host b\n  Port 1".to_string()));
    assert_eq!(serialize_host_block(&config.elements, "c"), None);
    assert_eq!(
        find_host_directives(&config.elements, "a"),
        vec![("User".to_string(), "u".to_string())]
    );
    assert!(find_host_directives(&config.elements, "c").is_empty());
}

#[test]
fn a_copy_holds_the_same_and_is_its_own() {
    let mut config = parse_str("# c\nInclude x\nHost a\n  User u\n");
    if let ConfigElement::Include(inc) = &mut config.elements[1] {
        inc.resolved_files.push(purple::ssh_config::model::IncludedFile {
            path: "/x".to_string(),
            elements: SshConfigFile::parse_content("Host deep\n"),
        });
    }
    let mut copy = config.clone();
    assert_eq!(copy.serialize(), config.serialize());
    assert_eq!(copy.path, config.path);
    assert_eq!(copy.include_paths(), vec!["/x"]);
    assert!(copy.has_host("deep"));
    assert!(copy.update_host("a", &entry("b", "h", "", 22)));
    assert!(config.has_host("a"));
    assert!(!config.has_host("b"));
    let element = config.elements[2].clone();
    assert!(matches!(element, ConfigElement::HostBlock(b) if b.directives.len() == 1));
}
