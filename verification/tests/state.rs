use purple::clipboard::clipboard_args;
use purple::ssh_config::model::HostEntry;
use purple::state::{
    cycle_selection, placeholder_for, FormField, HostForm, SortMode, StatusMessage,
};

fn form(alias: &str, hostname: &str, port: &str) -> HostForm {
    let mut f = HostForm::new();
    f.alias = alias.to_string();
    f.hostname = hostname.to_string();
    f.port = port.to_string();
    f
}

#[test]
fn form_fields_cycle_in_both_directions() {
    let order = FormField::ALL;
    assert_eq!(order[0], FormField::Alias);
    assert_eq!(order[5], FormField::ProxyJump);
    for i in 0..6 {
        assert_eq!(order[i].next(), order[(i + 1) % 6]);
        assert_eq!(order[i].prev(), order[(i + 5) % 6]);
        assert_eq!(order[i].next().prev(), order[i]);
    }
    assert_eq!(FormField::Hostname.label(), "Host / IP");
    assert_eq!(FormField::IdentityFile.label(), "Identity File");
    assert_eq!(placeholder_for(FormField::Alias), "my-server");
    assert_eq!(placeholder_for(FormField::ProxyJump), "bastion-host");
}

#[test]
fn new_form_is_empty_with_port_22() {
    let f = HostForm::new();
    assert_eq!(f.alias, "");
    assert_eq!(f.port, "22");
    assert_eq!(f.focused_field, FormField::Alias);
}

#[test]
fn form_from_entry_and_back() {
    let entry = HostEntry {
        alias: "web".to_string(),
        hostname: "w.example.com".to_string(),
        user: "deploy".to_string(),
        port: 2222,
        identity_file: "~/.ssh/id".to_string(),
        proxy_jump: "bastion".to_string(),
        source_file: Some("/etc/x".to_string()),
        tags: vec!["a".to_string()],
    };
    let f = HostForm::from_entry(&entry);
    assert_eq!(f.port, "2222");
    assert_eq!(f.alias, "web");
    let back = f.to_entry();
    assert_eq!(back.alias, "web");
    assert_eq!(back.hostname, "w.example.com");
    assert_eq!(back.user, "deploy");
    assert_eq!(back.port, 2222);
    assert_eq!(back.identity_file, "~/.ssh/id");
    assert_eq!(back.proxy_jump, "bastion");
    assert_eq!(back.source_file, None);
    assert!(back.tags.is_empty());
}

#[test]
fn to_entry_trims_and_defaults_the_port() {
    let mut f = form("  web ", "\thost.example.com ", "no");
    f.user = " me ".to_string();
    let e = f.to_entry();
    assert_eq!(e.alias, "web");
    assert_eq!(e.hostname, "host.example.com");
    assert_eq!(e.user, "me");
    assert_eq!(e.port, 22);
}

#[test]
fn validate_reports_the_first_fault() {
    assert_eq!(form("web", "h", "22").validate(), Ok(()));
    assert_eq!(
        form("  ", "h", "22").validate(),
        Err("Alias can't be empty. Every host needs a name!".to_string())
    );
    assert_eq!(
        form("my web", "h", "22").validate(),
        Err("Alias can't contain spaces. Keep it simple.".to_string())
    );
    assert_eq!(
        form("web", " ", "22").validate(),
        Err("Hostname can't be empty. Where should we connect to?".to_string())
    );
    assert_eq!(
        form("web", "h", "ssh").validate(),
        Err("That's not a port number. Ports are 1-65535, not poetry.".to_string())
    );
    assert_eq!(
        form("web", "h", "65536").validate(),
        Err("That's not a port number. Ports are 1-65535, not poetry.".to_string())
    );
    assert_eq!(
        form("web", "h", "0").validate(),
        Err("Port 0? Bold choice, but no. Try 1-65535.".to_string())
    );
    assert_eq!(form("web", "h", "65535").validate(), Ok(()));
}

#[test]
fn focused_value_follows_the_focus() {
    let mut f = form("a", "h", "22");
    f.focused_value_mut().push('x');
    assert_eq!(f.alias, "ax");
    f.focused_field = FormField::Port;
    f.focused_value_mut().push('2');
    assert_eq!(f.port, "222");
    f.focused_field = FormField::ProxyJump;
    f.focused_value_mut().push_str("jump");
    assert_eq!(f.proxy_jump, "jump");
    assert_eq!(f.hostname, "h");
}

#[test]
fn sort_modes_cycle_and_keep_their_keys() {
    let order = [
        SortMode::Original,
        SortMode::AlphaAlias,
        SortMode::AlphaHostname,
        SortMode::Frecency,
        SortMode::MostRecent,
    ];
    for i in 0..5 {
        assert_eq!(order[i].next(), order[(i + 1) % 5]);
        assert_eq!(SortMode::from_key(order[i].to_key()), order[i]);
    }
    assert_eq!(SortMode::from_key("nonsense"), SortMode::Original);
    assert_eq!(SortMode::from_key(""), SortMode::Original);
    assert_eq!(SortMode::Frecency.to_key(), "frecency");
    assert_eq!(SortMode::Frecency.label(), "most used");
    assert_eq!(SortMode::Original.label(), "config order");
}

#[test]
fn status_messages_expire() {
    let mut ok = StatusMessage { text: "done".to_string(), is_error: false, tick_count: 11 };
    assert!(!ok.tick());
    assert!(ok.tick());
    assert_eq!(ok.tick_count, 13);
    let mut bad = StatusMessage { text: "oops".to_string(), is_error: true, tick_count: 19 };
    assert!(!bad.tick());
    assert!(bad.tick());
}

#[test]
fn selection_wraps_around() {
    assert_eq!(cycle_selection(None, 0, true), None);
    assert_eq!(cycle_selection(Some(3), 0, true), Some(3));
    assert_eq!(cycle_selection(None, 4, true), Some(0));
    assert_eq!(cycle_selection(None, 4, false), Some(0));
    assert_eq!(cycle_selection(Some(0), 4, true), Some(1));
    assert_eq!(cycle_selection(Some(3), 4, true), Some(0));
    assert_eq!(cycle_selection(Some(9), 4, true), Some(0));
    assert_eq!(cycle_selection(Some(0), 4, false), Some(3));
    assert_eq!(cycle_selection(Some(2), 4, false), Some(1));
}

#[test]
fn clipboard_tools_and_their_arguments() {
    assert_eq!(clipboard_args("xclip"), vec!["-selection", "clipboard"]);
    assert_eq!(clipboard_args("xsel"), vec!["--clipboard", "--input"]);
    assert!(clipboard_args("pbcopy").is_empty());
    assert!(clipboard_args("wl-copy").is_empty());
}
