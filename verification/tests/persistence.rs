use purple::ping::ping_address;
use purple::preferences::{set_sort_mode, sort_mode_in};
use purple::ssh_config::persistence::{
    backup_name_of, backup_prefix_of, stale_backups, BACKUPS_KEPT,
};
use purple::state::SortMode;

fn names(list: &[&str]) -> Vec<String> {
    list.iter().map(|n| n.to_string()).collect()
}

#[test]
fn backups_are_named_after_the_file_and_the_time() {
    assert_eq!(backup_prefix_of("config"), "config.bak.");
    assert_eq!(backup_name_of("config", 1700000000123), "config.bak.1700000000123");
    assert_eq!(backup_name_of("", 0), ".bak.0");
    assert_eq!(
        backup_name_of("c", u128::MAX),
        "c.bak.340282366920938463463374607431768211455"
    );
}

#[test]
fn all_but_the_five_most_recent_backups_are_stale() {
    assert_eq!(BACKUPS_KEPT, 5);
    let dir = names(&[
        "config.bak.1700000000007",
        "config",
        "config.bak.1700000000003",
        "other.bak.1700000000000",
        "config.bak.1700000000001",
        "config.bak.1700000000005",
        "config.bak",
        "config.bak.1700000000002",
        "xconfig.bak.1",
        "config.bak.1700000000006",
        "config.bak.1700000000004",
    ]);
    assert_eq!(
        stale_backups(&dir, "config", BACKUPS_KEPT),
        names(&["config.bak.1700000000001", "config.bak.1700000000002"])
    );
    assert_eq!(stale_backups(&dir, "config", 7), Vec::<String>::new());
    assert_eq!(stale_backups(&dir, "config", 100), Vec::<String>::new());
    assert_eq!(stale_backups(&dir, "config", 0).len(), 7);
    assert_eq!(stale_backups(&dir, "other", 0), names(&["other.bak.1700000000000"]));
    assert_eq!(stale_backups(&dir, "none", 0), Vec::<String>::new());
    assert_eq!(stale_backups(&Vec::new(), "config", 5), Vec::<String>::new());
}

#[test]
fn backups_are_ordered_as_strings_are() {
    let dir = names(&["c.bak.9", "c.bak.10", "c.bak.", "c.bak.\u{e9}", "c.bak.a", "c.bak.9"]);
    let mut expected = dir.clone();
    expected.sort();
    assert_eq!(stale_backups(&dir, "c", 0), expected);
    assert_eq!(stale_backups(&dir, "c", 2), expected[..4].to_vec());
    assert_eq!(expected[0], "c.bak.");
    assert_eq!(expected[1], "c.bak.10");
}

#[test]
fn the_sort_mode_is_read_from_the_first_line_that_sets_it() {
    assert_eq!(sort_mode_in(""), SortMode::Original);
    assert_eq!(sort_mode_in("sort_mode=frecency\n"), SortMode::Frecency);
    assert_eq!(sort_mode_in("# sort_mode=frecency\n\n  sort_mode = alpha_alias \n"), SortMode::AlphaAlias);
    assert_eq!(sort_mode_in("sort_mode=most_recent\nsort_mode=frecency\n"), SortMode::MostRecent);
    assert_eq!(sort_mode_in("sort_mode=bogus\nsort_mode=frecency\n"), SortMode::Original);
    assert_eq!(sort_mode_in("sort_mode\nother=sort_mode\nsort_modes=frecency\n"), SortMode::Original);
    assert_eq!(sort_mode_in("theme=dark\r\nsort_mode=alpha_hostname\r\n"), SortMode::AlphaHostname);
    assert_eq!(sort_mode_in("sort_mode=alpha_alias=x"), SortMode::Original);
}

#[test]
fn setting_the_sort_mode_keeps_every_other_line() {
    assert_eq!(set_sort_mode("", SortMode::Frecency), "sort_mode=frecency\n");
    assert_eq!(
        set_sort_mode("# prefs\ntheme=dark\n", SortMode::AlphaAlias),
        "# prefs\ntheme=dark\nsort_mode=alpha_alias\n"
    );
    assert_eq!(
        set_sort_mode("a=1\n sort_mode = x\n# sort_mode=y\nsort_mode=z\n\nb=2", SortMode::Original),
        "a=1\nsort_mode=original\n# sort_mode=y\nsort_mode=original\n\nb=2\n"
    );
    assert_eq!(set_sort_mode("\n", SortMode::MostRecent), "\nsort_mode=most_recent\n");
    for mode in [SortMode::Original, SortMode::AlphaHostname, SortMode::MostRecent] {
        let text = set_sort_mode("x=y\nsort_mode=frecency\n", mode);
        assert_eq!(sort_mode_in(&text), mode);
    }
}

#[test]
fn addresses_put_ipv6_hosts_in_brackets() {
    assert_eq!(ping_address("example.com", 22), "example.com:22");
    assert_eq!(ping_address("::1", 2222), "[::1]:2222");
    assert_eq!(ping_address("[::1]", 22), "[::1]:22");
    assert_eq!(ping_address("[[2001:db8::1]]]", 65535), "[2001:db8::1]:65535");
    assert_eq!(ping_address("[example.com]", 80), "[example.com]:80");
    assert_eq!(ping_address("", 0), ":0");
    assert_eq!(ping_address("[:]", 1), "[:]:1");
    assert_eq!(ping_address("]a:b[", 1), "[]a:b[]:1");
}
