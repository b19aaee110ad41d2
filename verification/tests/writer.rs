use purple::ssh_config::model::{HostEntry, SshConfigFile};

fn parse_str(content: &str) -> SshConfigFile {
    SshConfigFile {
        elements: SshConfigFile::parse_content(content),
        path: String::from("/tmp/test_config"),
        crlf: content.contains("\r\n"),
    }
}

#[test]
fn test_round_trip_basic() {
    let content = "\
Host myserver
  HostName 192.168.1.10
  User admin
  Port 2222
";
    let config = parse_str(content);
    assert_eq!(config.serialize(), content);
}

#[test]
fn test_round_trip_with_comments() {
    let content = "\
# My SSH config
# Generated by hand

Host alpha
  HostName alpha.example.com
  # Deploy user
  User deploy

Host beta
  HostName beta.example.com
  User root
";
    let config = parse_str(content);
    assert_eq!(config.serialize(), content);
}

#[test]
fn test_round_trip_with_globals_and_wildcards() {
    let content = "\
# Global settings
Host *
  ServerAliveInterval 60
  ServerAliveCountMax 3

Host production
  HostName prod.example.com
  User deployer
  IdentityFile ~/.ssh/prod_key
";
    let config = parse_str(content);
    assert_eq!(config.serialize(), content);
}

#[test]
fn test_add_host_serializes() {
    let mut config = parse_str("Host existing\n  HostName 10.0.0.1\n");
    config.add_host(&HostEntry {
        alias: "newhost".to_string(),
        hostname: "10.0.0.2".to_string(),
        user: "admin".to_string(),
        port: 22,
        ..Default::default()
    });
    let output = config.serialize();
    assert!(output.contains("Host newhost"));
    assert!(output.contains("HostName 10.0.0.2"));
    assert!(output.contains("User admin"));
    assert!(!output.contains("Port 22"));
}

#[test]
fn test_delete_host_serializes() {
    let content = "\
Host alpha
  HostName alpha.example.com

Host beta
  HostName beta.example.com
";
    let mut config = parse_str(content);
    config.delete_host("alpha");
    let output = config.serialize();
    assert!(!output.contains("Host alpha"));
    assert!(output.contains("Host beta"));
}

#[test]
fn test_update_host_serializes() {
    let content = "\
Host myserver
  HostName 10.0.0.1
  User old_user
";
    let mut config = parse_str(content);
    config.update_host(
        "myserver",
        &HostEntry {
            alias: "myserver".to_string(),
            hostname: "10.0.0.2".to_string(),
            user: "new_user".to_string(),
            port: 22,
            ..Default::default()
        },
    );
    let output = config.serialize();
    assert!(output.contains("HostName 10.0.0.2"));
    assert!(output.contains("User new_user"));
    assert!(!output.contains("old_user"));
}

#[test]
fn test_update_host_preserves_unknown_directives() {
    let content = "\
Host myserver
  HostName 10.0.0.1
  User admin
  ForwardAgent yes
  LocalForward 8080 localhost:80
  Compression yes
";
    let mut config = parse_str(content);
    config.update_host(
        "myserver",
        &HostEntry {
            alias: "myserver".to_string(),
            hostname: "10.0.0.2".to_string(),
            user: "admin".to_string(),
            port: 22,
            ..Default::default()
        },
    );
    let output = config.serialize();
    assert!(output.contains("HostName 10.0.0.2"));
    assert!(output.contains("ForwardAgent yes"));
    assert!(output.contains("LocalForward 8080 localhost:80"));
    assert!(output.contains("Compression yes"));
}
