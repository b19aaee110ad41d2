use purple::display::{
    build_display_list, centered_fixed, cursor_column, header_of, is_listed,
};
use purple::history::{ConnectionHistory, HistoryEntry};
use purple::import::{alias_of_hostname, is_meaningful_line, parse_import_line};
use purple::search::{
    collect_unique_tags, contains_text, filter_hosts, first_host_row, matched_field,
    next_host_row, selected_host_index, MatchedField,
};
use purple::sorting::{
    order_by_alias, order_by_hostname, order_by_recency, order_by_text, order_by_time, text_le_of,
};
use purple::ssh_config::model::{ConfigElement, HostEntry, IncludedFile, SshConfigFile};
use purple::ssh_keys::{is_public_key_name, private_key_name};
use purple::state::{parse_tags, HostForm, HostListItem};

fn parse_str(content: &str) -> SshConfigFile {
    SshConfigFile {
        elements: SshConfigFile::parse_content(content),
        path: String::from("/tmp/test_config"),
        crlf: content.contains("\r\n"),
    }
}

fn rows(config: &SshConfigFile) -> Vec<String> {
    let hosts = config.host_entries().len();
    build_display_list(config, hosts)
        .iter()
        .map(|item| match item {
            HostListItem::GroupHeader(text) => format!("# {}", text),
            HostListItem::Host { index } => format!("host {}", index),
        })
        .collect()
}

fn host(alias: &str, hostname: &str, user: &str, tags: &[&str]) -> HostEntry {
    HostEntry {
        alias: alias.to_string(),
        hostname: hostname.to_string(),
        user: user.to_string(),
        port: 22,
        tags: tags.iter().map(|t| t.to_string()).collect(),
        ..Default::default()
    }
}

#[test]
fn comments_directly_above_a_host_head_it() {
    let config = parse_str(
        "# Production\nHost prod\n  HostName prod.example.com\n\n# Staging\nHost staging\n  HostName staging.example.com\n",
    );
    assert_eq!(rows(&config), vec!["# Production", "host 0", "# Staging", "host 1"]);
}

#[test]
fn a_blank_line_parts_a_comment_from_the_host() {
    let config = parse_str("# This comment is separated by blank line\n\nHost nogroup\n");
    assert_eq!(rows(&config), vec!["host 0"]);
}

#[test]
fn headers_follow_the_last_comment_with_text() {
    let config = parse_str(
        "## First \n#\n  #  \nHost a\n  User u\n  # not last\n  User v\nHost b*\n# Gone\nHost c\n  #Tail##\nHost d\nglobal\nHost e\n",
    );
    assert_eq!(rows(&config), vec!["# First", "host 0", "host 1", "# Tail##", "host 2", "host 3"]);
}

#[test]
fn no_more_rows_than_hosts() {
    let config = parse_str("# A\nHost a\n# B\nHost b\n");
    let items = build_display_list(&config, 1);
    assert_eq!(items.len(), 2);
    assert!(matches!(&items[1], HostListItem::Host { index: 0 }));
    assert!(build_display_list(&config, 0).is_empty());
}

#[test]
fn included_files_are_headed_by_their_name() {
    let mut config = parse_str("# Mine\nInclude conf.d/*\nHost top\n");
    if let ConfigElement::Include(inc) = &mut config.elements[1] {
        inc.resolved_files.push(IncludedFile {
            path: "/etc/ssh/conf.d/work".to_string(),
            elements: SshConfigFile::parse_content("# Servers\nHost w1\nHost w2\n  # Tail\nHost w3\n"),
        });
        inc.resolved_files.push(IncludedFile {
            path: "/etc/ssh/conf.d/empty".to_string(),
            elements: SshConfigFile::parse_content("Host *\n  User u\n"),
        });
        inc.resolved_files.push(IncludedFile {
            path: "/".to_string(),
            elements: SshConfigFile::parse_content("Host rootless\n"),
        });
    }
    assert_eq!(
        rows(&config),
        vec!["# work", "# Servers", "host 0", "host 1", "host 2", "host 3", "host 4"]
    );
}

#[test]
fn header_texts() {
    assert_eq!(header_of("# Production"), (true, Some("Production".to_string())));
    assert_eq!(header_of("  ###  a # b  "), (true, Some("a # b".to_string())));
    assert_eq!(header_of("#"), (true, None));
    assert_eq!(header_of(" # \t"), (true, None));
    assert_eq!(header_of(""), (false, None));
    assert_eq!(header_of("Host a # c"), (false, None));
    assert!(is_listed("web"));
    assert!(is_listed("a\tb"));
    assert!(!is_listed("a b"));
    assert!(!is_listed("*"));
    assert!(!is_listed("w?b"));
}

#[test]
fn moving_through_the_list_skips_headers() {
    let config = parse_str("# Group\nHost alpha\n  HostName a.com\n\n# Group 2\nHost beta\n");
    let items = build_display_list(&config, 2);
    assert_eq!(first_host_row(&items), Some(1));
    assert_eq!(next_host_row(&items, 1, true), Some(3));
    assert_eq!(next_host_row(&items, 3, true), Some(1));
    assert_eq!(next_host_row(&items, 3, false), Some(1));
    assert_eq!(next_host_row(&items, 1, false), Some(3));
    assert_eq!(next_host_row(&items, 0, true), Some(1));
    assert_eq!(next_host_row(&items, 0, false), Some(3));
    assert_eq!(next_host_row(&items, usize::MAX, true), Some(1));
    let one = vec![HostListItem::Host { index: 0 }];
    assert_eq!(next_host_row(&one, 0, true), Some(0));
    let none = vec![HostListItem::GroupHeader("x".to_string())];
    assert_eq!(next_host_row(&none, 0, true), None);
    assert_eq!(first_host_row(&none), None);
    assert_eq!(next_host_row(&Vec::new(), 0, false), None);
}

#[test]
fn the_selected_row_names_a_host() {
    let items = vec![HostListItem::GroupHeader("g".to_string()), HostListItem::Host { index: 7 }];
    let matches = vec![4, 2];
    assert_eq!(selected_host_index(&items, &matches, false, Some(1)), Some(7));
    assert_eq!(selected_host_index(&items, &matches, false, Some(0)), None);
    assert_eq!(selected_host_index(&items, &matches, false, Some(2)), None);
    assert_eq!(selected_host_index(&items, &matches, false, None), None);
    assert_eq!(selected_host_index(&items, &matches, true, Some(1)), Some(2));
    assert_eq!(selected_host_index(&items, &matches, true, Some(2)), None);
    assert_eq!(selected_host_index(&items, &matches, true, None), None);
}

#[test]
fn queries_match_alias_host_user_and_tags() {
    let hosts = vec![
        host("alpha", "a.com", "root", &["Prod", "web"]),
        host("beta", "b.com", "deploy", &["prod-eu"]),
        host("Gamma", "ALPHA.example.com", "", &[]),
    ];
    assert_eq!(filter_hosts(&hosts, "alp"), vec![0, 2]);
    assert_eq!(filter_hosts(&hosts, "b.com"), vec![1]);
    assert_eq!(filter_hosts(&hosts, ""), vec![0, 1, 2]);
    assert_eq!(filter_hosts(&hosts, "zzz"), Vec::<usize>::new());
    assert_eq!(filter_hosts(&hosts, "DEPLOY"), vec![1]);
    assert_eq!(filter_hosts(&hosts, "web"), vec![0]);
    assert_eq!(filter_hosts(&hosts, "tag=prod"), vec![0]);
    assert_eq!(filter_hosts(&hosts, "TAG=PROD"), vec![0]);
    assert_eq!(filter_hosts(&hosts, "tag:prod"), vec![0, 1]);
    assert_eq!(filter_hosts(&hosts, "tag:"), vec![0, 1]);
    assert_eq!(filter_hosts(&hosts, "tag="), Vec::<usize>::new());
    assert_eq!(filter_hosts(&hosts, "tag"), Vec::<usize>::new());
    assert_eq!(filter_hosts(&[], "x"), Vec::<usize>::new());
    let unicode = vec![host("\u{c4}pfel", "h", "", &[])];
    assert_eq!(filter_hosts(&unicode, "\u{e4}PF"), vec![0]);
}

#[test]
fn texts_are_found_inside_texts() {
    let c = |s: &str| s.chars().collect::<Vec<char>>();
    assert!(contains_text(&c("example.com"), &c("ple.c")));
    assert!(contains_text(&c("example.com"), &c("")));
    assert!(contains_text(&c(""), &c("")));
    assert!(contains_text(&c("abc"), &c("abc")));
    assert!(contains_text(&c("aab"), &c("ab")));
    assert!(!contains_text(&c("abc"), &c("abcd")));
    assert!(!contains_text(&c("abc"), &c("ac")));
    assert!(!contains_text(&c(""), &c("a")));
}

#[test]
fn tags_are_collected_once_each() {
    let hosts = vec![
        host("a", "h", "", &["web", "prod"]),
        host("b", "h", "", &[]),
        host("c", "h", "", &["prod", "Web", "db", "db"]),
    ];
    assert_eq!(collect_unique_tags(&hosts), vec!["web", "prod", "Web", "db"]);
    assert!(collect_unique_tags(&[]).is_empty());
}

#[test]
fn tag_input_is_split_at_commas() {
    assert_eq!(parse_tags("a, b ,,c d,"), vec!["a", "b", "c d"]);
    assert!(parse_tags("").is_empty());
    assert!(parse_tags(" , ,").is_empty());
}

#[test]
fn a_pasted_target_fills_the_form() {
    let mut form = HostForm::new();
    form.alias = "admin@db1.example.com:2222".to_string();
    assert!(form.smart_paste());
    assert_eq!(form.alias, "db1");
    assert_eq!(form.hostname, "db1.example.com");
    assert_eq!(form.user, "admin");
    assert_eq!(form.port, "2222");

    let mut kept = HostForm::new();
    kept.alias = "admin@db1.example.com:2222".to_string();
    kept.hostname = "mine".to_string();
    kept.user = "me".to_string();
    kept.port = "23".to_string();
    assert!(kept.smart_paste());
    assert_eq!((kept.alias.as_str(), kept.hostname.as_str()), ("db1", "mine"));
    assert_eq!((kept.user.as_str(), kept.port.as_str()), ("me", "23"));

    let mut plain = HostForm::new();
    plain.alias = "myserver".to_string();
    assert!(!plain.smart_paste());
    assert_eq!(plain.alias, "myserver");
    assert_eq!(plain.hostname, "");

    let mut broken = HostForm::new();
    broken.alias = "user@".to_string();
    assert!(!broken.smart_paste());
    assert_eq!(broken.alias, "user@");

    let mut default_port = HostForm::new();
    default_port.alias = "root@10.0.0.1".to_string();
    assert!(default_port.smart_paste());
    assert_eq!(default_port.alias, "10");
    assert_eq!(default_port.port, "22");
    assert_eq!(default_port.user, "root");
}

#[test]
fn import_lines_give_hosts() {
    assert!(is_meaningful_line("host"));
    assert!(is_meaningful_line("  x # y"));
    assert!(!is_meaningful_line(""));
    assert!(!is_meaningful_line("  \t"));
    assert!(!is_meaningful_line("  # comment"));
    assert_eq!(alias_of_hostname("web.example.com"), "web");
    assert_eq!(alias_of_hostname("web"), "web");
    assert_eq!(alias_of_hostname(".hidden"), "");
    let entry = parse_import_line("  deploy@web.example.com:2200 ").unwrap();
    assert_eq!(entry.alias, "web");
    assert_eq!(entry.hostname, "web.example.com");
    assert_eq!(entry.user, "deploy");
    assert_eq!(entry.port, 2200);
    assert!(parse_import_line("user@").is_none());
    assert!(parse_import_line("").is_none());
}

#[test]
fn hosts_are_listed_in_columns() {
    let e = host("web", "w.example.com", "deploy", &[]);
    assert_eq!(e.list_line(), "web                  deploy@w.example.com");
    let mut p = host("a-very-long-alias-indeed", "h", "", &[]);
    p.port = 2222;
    assert_eq!(p.list_line(), "a-very-long-alias-indeed h:2222");
    let exact = host("12345678901234567890", "h", "", &[]);
    assert_eq!(exact.list_line(), "12345678901234567890 h");
    let wide = host("\u{e9}", "h", "u", &[]);
    assert_eq!(wide.list_line(), format!("{:<20} {}@{}", "\u{e9}", "u", "h"));
}

#[test]
fn key_files_are_told_by_their_names() {
    assert!(is_public_key_name("id_ed25519.pub"));
    assert!(is_public_key_name(".pub"));
    assert!(!is_public_key_name("id_ed25519"));
    assert!(!is_public_key_name("authorized_keys.pub"));
    assert!(!is_public_key_name("known_hosts.pub"));
    assert!(!is_public_key_name("key.pub.bak"));
    assert!(!is_public_key_name("pub"));
    assert_eq!(private_key_name("id_rsa.pub"), "id_rsa");
    assert_eq!(private_key_name("id_rsa"), "id_rsa");
    assert_eq!(private_key_name("a.pub.pub"), "a.pub");
}

#[test]
fn hosts_are_ordered_by_alias_host_name_and_recency() {
    let hosts = vec![
        host("beta", "Z.example.com", "", &[]),
        host("Alpha", "m.example.com", "", &[]),
        host("alpha", "a.example.com", "", &[]),
        host("gamma", "M.example.com", "", &[]),
        host("Beta", "b", "", &[]),
    ];
    assert_eq!(order_by_alias(&hosts), vec![1, 2, 0, 4, 3]);
    assert_eq!(order_by_hostname(&hosts), vec![2, 4, 1, 3, 0]);
    let mut history = ConnectionHistory::default();
    history.insert(HistoryEntry { alias: "gamma".to_string(), last_connected: 50, count: 1 });
    history.insert(HistoryEntry { alias: "beta".to_string(), last_connected: 90, count: 1 });
    history.insert(HistoryEntry { alias: "Beta".to_string(), last_connected: 50, count: 3 });
    assert_eq!(order_by_recency(&hosts, &history), vec![0, 3, 4, 1, 2]);
    assert!(order_by_alias(&[]).is_empty());
    let mut expected: Vec<usize> = (0..hosts.len()).collect();
    expected.sort_by(|a, b| hosts[*a].alias.to_lowercase().cmp(&hosts[*b].alias.to_lowercase()));
    assert_eq!(order_by_alias(&hosts), expected);
}

#[test]
fn texts_are_ordered_as_strings_are() {
    let c = |s: &str| s.chars().collect::<Vec<char>>();
    let samples = ["", "a", "ab", "b", "B", "\u{e9}", "a\u{e9}", "aa", "\u{10000}", "\u{ffff}"];
    for x in samples {
        for y in samples {
            assert_eq!(text_le_of(&c(x), &c(y)), x <= y, "{:?} {:?}", x, y);
        }
    }
    let keys: Vec<Vec<char>> = samples.iter().map(|s| c(s)).collect();
    let mut expected: Vec<usize> = (0..samples.len()).collect();
    expected.sort_by(|a, b| samples[*a].cmp(samples[*b]));
    assert_eq!(order_by_text(&keys), expected);
    assert_eq!(order_by_time(&vec![5, 9, 5, 0, 9]), vec![1, 4, 0, 2, 3]);
}

fn listed_hosts(content: &str) -> Vec<HostEntry> {
    parse_str(content).host_entries()
}

#[test]
fn test_apply_filter_matches_alias() {
    let hosts = listed_hosts("Host alpha\n  HostName a.com\n\nHost beta\n  HostName b.com\n");
    assert_eq!(filter_hosts(&hosts, "alp"), vec![0]);
}

#[test]
fn test_apply_filter_matches_hostname() {
    let hosts = listed_hosts("Host alpha\n  HostName a.com\n\nHost beta\n  HostName b.com\n");
    assert_eq!(filter_hosts(&hosts, "b.com"), vec![1]);
}

#[test]
fn test_apply_filter_empty_query() {
    let hosts = listed_hosts("Host alpha\n  HostName a.com\n\nHost beta\n  HostName b.com\n");
    assert_eq!(filter_hosts(&hosts, ""), vec![0, 1]);
}

#[test]
fn test_apply_filter_no_matches() {
    let hosts = listed_hosts("Host alpha\n  HostName a.com\n");
    assert!(filter_hosts(&hosts, "zzz").is_empty());
}

#[test]
fn test_build_display_list_with_group_headers() {
    let content = "\
# Production
Host prod
  HostName prod.example.com

# Staging
Host staging
  HostName staging.example.com
";
    let config = parse_str(content);
    let display_list = build_display_list(&config, config.host_entries().len());
    assert_eq!(display_list.len(), 4);
    assert!(matches!(&display_list[0], HostListItem::GroupHeader(s) if s == "Production"));
    assert!(matches!(&display_list[1], HostListItem::Host { index: 0 }));
    assert!(matches!(&display_list[2], HostListItem::GroupHeader(s) if s == "Staging"));
    assert!(matches!(&display_list[3], HostListItem::Host { index: 1 }));
}

#[test]
fn test_build_display_list_blank_line_breaks_group() {
    let content = "\
# This comment is separated by blank line

Host nogroup
  HostName nogroup.example.com
";
    let config = parse_str(content);
    let display_list = build_display_list(&config, config.host_entries().len());
    assert_eq!(display_list.len(), 1);
    assert!(matches!(&display_list[0], HostListItem::Host { index: 0 }));
}

#[test]
fn test_navigation_skips_headers() {
    let content = "\
# Group
Host alpha
  HostName a.com

# Group 2
Host beta
  HostName b.com
";
    let config = parse_str(content);
    let display_list = build_display_list(&config, config.host_entries().len());
    let selected = first_host_row(&display_list);
    assert_eq!(selected, Some(1));
    let selected = next_host_row(&display_list, selected.unwrap_or(0), true);
    assert_eq!(selected, Some(3));
    let selected = next_host_row(&display_list, selected.unwrap_or(0), false);
    assert_eq!(selected, Some(1));
}

#[test]
fn the_cursor_stands_after_the_text() {
    assert_eq!(cursor_column(0, 80, ""), Some(1));
    assert_eq!(cursor_column(0, 80, "abc"), Some(4));
    assert_eq!(cursor_column(10, 20, "abc"), Some(14));
    assert_eq!(cursor_column(0, 80, "\u{3042}\u{3042}"), Some(5));
    assert_eq!(cursor_column(0, 80, "e\u{301}"), Some(2));
    assert_eq!(cursor_column(0, 6, "abc"), Some(4));
    assert_eq!(cursor_column(0, 5, "abc"), None);
    assert_eq!(cursor_column(0, 1, ""), None);
    assert_eq!(cursor_column(65000, 535, &"x".repeat(600)), None);
    assert_eq!(cursor_column(0, u16::MAX, &"x".repeat(70000)), None);
    assert_eq!(cursor_column(0, u16::MAX, &"x".repeat(65000)), Some(65001));
}

#[test]
fn a_fixed_rectangle_sits_in_the_middle() {
    assert_eq!(centered_fixed(0, 0, 80, 24, 44, 7), (18, 8, 44, 7));
    assert_eq!(centered_fixed(10, 5, 80, 24, 58, 11), (21, 11, 58, 11));
    assert_eq!(centered_fixed(0, 0, 40, 5, 44, 7), (0, 0, 40, 5));
    assert_eq!(centered_fixed(3, 4, 45, 8, 44, 7), (3, 4, 44, 7));
    assert_eq!(centered_fixed(0, 0, 0, 0, 1, 1), (0, 0, 0, 0));
    assert_eq!(centered_fixed(65000, 0, 535, 1, 1, 1), (65267, 0, 1, 1));
}

#[test]
fn the_first_matching_field_is_shown() {
    let h = host("Alpha", "alpha.example.com", "root", &["x"]);
    assert_eq!(matched_field(&h, "ALP"), MatchedField::Alias);
    assert_eq!(matched_field(&h, "example"), MatchedField::Hostname);
    assert_eq!(matched_field(&h, "oo"), MatchedField::User);
    assert_eq!(matched_field(&h, "x"), MatchedField::Hostname);
    assert_eq!(matched_field(&h, "zzz"), MatchedField::Nothing);
    assert_eq!(matched_field(&h, ""), MatchedField::Nothing);
}
