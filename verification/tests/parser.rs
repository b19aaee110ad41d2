use purple::ssh_config::model::{ConfigElement, HostEntry, SshConfigFile};

fn parse_str(content: &str) -> SshConfigFile {
    SshConfigFile {
        elements: SshConfigFile::parse_content(content),
        path: String::from("/tmp/test_config"),
        crlf: content.contains("\r\n"),
    }
}

#[test]
fn test_empty_config() {
    let config = parse_str("");
    assert!(config.host_entries().is_empty());
}

#[test]
fn test_basic_host() {
    let config =
        parse_str("Host myserver\n  HostName 192.168.1.10\n  User admin\n  Port 2222\n");
    let entries = config.host_entries();
    assert_eq!(entries.len(), 1);
    assert_eq!(entries[0].alias, "myserver");
    assert_eq!(entries[0].hostname, "192.168.1.10");
    assert_eq!(entries[0].user, "admin");
    assert_eq!(entries[0].port, 2222);
}

#[test]
fn test_multiple_hosts() {
    let content = "\
Host alpha
  HostName alpha.example.com
  User deploy

Host beta
  HostName beta.example.com
  User root
  Port 22022
";
    let config = parse_str(content);
    let entries = config.host_entries();
    assert_eq!(entries.len(), 2);
    assert_eq!(entries[0].alias, "alpha");
    assert_eq!(entries[1].alias, "beta");
    assert_eq!(entries[1].port, 22022);
}

#[test]
fn test_wildcard_host_filtered() {
    let content = "\
Host *
  ServerAliveInterval 60

Host myserver
  HostName 10.0.0.1
";
    let config = parse_str(content);
    let entries = config.host_entries();
    assert_eq!(entries.len(), 1);
    assert_eq!(entries[0].alias, "myserver");
}

#[test]
fn test_comments_preserved() {
    let content = "\
# Global comment
Host myserver
  # This is a comment
  HostName 10.0.0.1
  User admin
";
    let config = parse_str(content);
    assert!(matches!(&config.elements[0], ConfigElement::GlobalLine(s) if s == "# Global comment"));
    if let ConfigElement::HostBlock(block) = &config.elements[1] {
        assert!(block.directives[0].is_non_directive);
        assert_eq!(block.directives[0].raw_line, "  # This is a comment");
    } else {
        panic!("Expected HostBlock");
    }
}

#[test]
fn test_identity_file_and_proxy_jump() {
    let content = "\
Host bastion
  HostName bastion.example.com
  User admin
  IdentityFile ~/.ssh/id_ed25519
  ProxyJump gateway
";
    let config = parse_str(content);
    let entries = config.host_entries();
    assert_eq!(entries[0].identity_file, "~/.ssh/id_ed25519");
    assert_eq!(entries[0].proxy_jump, "gateway");
}

#[test]
fn test_unknown_directives_preserved() {
    let content = "\
Host myserver
  HostName 10.0.0.1
  ForwardAgent yes
  LocalForward 8080 localhost:80
";
    let config = parse_str(content);
    if let ConfigElement::HostBlock(block) = &config.elements[0] {
        assert_eq!(block.directives.len(), 3);
        assert_eq!(block.directives[1].key, "ForwardAgent");
        assert_eq!(block.directives[1].value, "yes");
        assert_eq!(block.directives[2].key, "LocalForward");
    } else {
        panic!("Expected HostBlock");
    }
}

#[test]
fn test_include_directive_parsed() {
    let content = "\
Include config.d/*

Host myserver
  HostName 10.0.0.1
";
    let config = parse_str(content);
    assert!(
        matches!(&config.elements[0], ConfigElement::Include(inc) if inc.raw_line == "Include config.d/*")
    );
    assert!(matches!(&config.elements[1], ConfigElement::GlobalLine(s) if s.is_empty()));
    assert!(matches!(&config.elements[2], ConfigElement::HostBlock(_)));
}

#[test]
fn test_include_round_trip() {
    let content = "\
Include ~/.ssh/config.d/*

Host myserver
  HostName 10.0.0.1
";
    let config = parse_str(content);
    assert_eq!(config.serialize(), content);
}

#[test]
fn test_unicode_comment_no_panic() {
    let content = "# abcde\u{00e9} test\n\nHost myserver\n  HostName 10.0.0.1\n";
    let config = parse_str(content);
    let entries = config.host_entries();
    assert_eq!(entries.len(), 1);
    assert_eq!(entries[0].alias, "myserver");
}

#[test]
fn test_unicode_multibyte_line_no_panic() {
    let content = "# \u{3042}\u{3042}\u{3042}xyz\n\nHost myserver\n  HostName 10.0.0.1\n";
    let config = parse_str(content);
    let entries = config.host_entries();
    assert_eq!(entries.len(), 1);
}

#[test]
fn test_host_with_tab_separator() {
    let content = "Host\tmyserver\n  HostName 10.0.0.1\n";
    let config = parse_str(content);
    let entries = config.host_entries();
    assert_eq!(entries.len(), 1);
    assert_eq!(entries[0].alias, "myserver");
}

#[test]
fn test_include_with_tab_separator() {
    let content = "Include\tconfig.d/*\n\nHost myserver\n  HostName 10.0.0.1\n";
    let config = parse_str(content);
    assert!(
        matches!(&config.elements[0], ConfigElement::Include(inc) if inc.pattern == "config.d/*")
    );
}

#[test]
fn test_hostname_not_confused_with_host() {
    let content = "Host myserver\n  HostName example.com\n";
    let config = parse_str(content);
    let entries = config.host_entries();
    assert_eq!(entries.len(), 1);
    assert_eq!(entries[0].hostname, "example.com");
}

#[test]
fn ssh_command_quotes_the_alias() {
    let entry = HostEntry {
        alias: "myserver".to_string(),
        hostname: "10.0.0.1".to_string(),
        ..Default::default()
    };
    assert_eq!(entry.ssh_command(), "ssh -- 'myserver'");
    let tricky = HostEntry { alias: "it's".to_string(), ..Default::default() };
    assert_eq!(tricky.ssh_command(), "ssh -- 'it'\\''s'");
}
