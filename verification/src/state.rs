//! State of the interactive front end that does not depend on a terminal:
//! screens, the host form, sort modes, status messages and list selection.
use crate::number::{decimal, decimal_chars, parse_u16, parsed_u16};
use crate::ssh_config::model::{ConfigElement, HostEntry, HostEntryView};
use crate::text::{chars_of, contains, str_eq, string_of, trim, trimmed, CharSet};
use vstd::prelude::*;

verus! {

/// Which screen is shown.
#[derive(Debug, Clone, PartialEq)]
pub enum Screen {
    HostList,
    AddHost,
    EditHost { index: usize },
    ConfirmDelete { alias: String },
    Help,
    KeyList,
    KeyDetail { index: usize },
    HostDetail { index: usize },
    TagPicker,
}

/// Which field of the host form has the focus.
#[derive(Debug, Clone, Copy, PartialEq, Eq, Structural)]
pub enum FormField {
    Alias,
    Hostname,
    User,
    Port,
    IdentityFile,
    ProxyJump,
}

impl FormField {
    /// Every field, in the order of the form.
    pub const ALL: [FormField; 6] = [
        FormField::Alias,
        FormField::Hostname,
        FormField::User,
        FormField::Port,
        FormField::IdentityFile,
        FormField::ProxyJump,
    ];

    /// The field after this one, the first after the last.
    pub fn next(self) -> (r: Self)
        ensures
            r == match self {
                FormField::Alias => FormField::Hostname,
                FormField::Hostname => FormField::User,
                FormField::User => FormField::Port,
                FormField::Port => FormField::IdentityFile,
                FormField::IdentityFile => FormField::ProxyJump,
                FormField::ProxyJump => FormField::Alias,
            },
    {
        match self {
            FormField::Alias => FormField::Hostname,
            FormField::Hostname => FormField::User,
            FormField::User => FormField::Port,
            FormField::Port => FormField::IdentityFile,
            FormField::IdentityFile => FormField::ProxyJump,
            FormField::ProxyJump => FormField::Alias,
        }
    }

    /// The field before this one, the last before the first.
    pub fn prev(self) -> (r: Self)
        ensures
            r == match self {
                FormField::Alias => FormField::ProxyJump,
                FormField::Hostname => FormField::Alias,
                FormField::User => FormField::Hostname,
                FormField::Port => FormField::User,
                FormField::IdentityFile => FormField::Port,
                FormField::ProxyJump => FormField::IdentityFile,
            },
    {
        match self {
            FormField::Alias => FormField::ProxyJump,
            FormField::Hostname => FormField::Alias,
            FormField::User => FormField::Hostname,
            FormField::Port => FormField::User,
            FormField::IdentityFile => FormField::Port,
            FormField::ProxyJump => FormField::IdentityFile,
        }
    }

    /// The label shown beside the field.
    pub fn label(self) -> (r: &'static str)
        ensures
            r@ == match self {
                FormField::Alias => "Alias"@,
                FormField::Hostname => "Host / IP"@,
                FormField::User => "User"@,
                FormField::Port => "Port"@,
                FormField::IdentityFile => "Identity File"@,
                FormField::ProxyJump => "ProxyJump"@,
            },
    {
        match self {
            FormField::Alias => "Alias",
            FormField::Hostname => "Host / IP",
            FormField::User => "User",
            FormField::Port => "Port",
            FormField::IdentityFile => "Identity File",
            FormField::ProxyJump => "ProxyJump",
        }
    }
}

/// An example of what the field may hold.
pub fn placeholder_for(field: FormField) -> (r: &'static str)
    ensures
        r@ == match field {
            FormField::Alias => "my-server"@,
            FormField::Hostname => "192.168.1.1 or example.com"@,
            FormField::User => "root"@,
            FormField::Port => "22"@,
            FormField::IdentityFile => "~/.ssh/id_ed25519"@,
            FormField::ProxyJump => "bastion-host"@,
        },
{
    match field {
        FormField::Alias => "my-server",
        FormField::Hostname => "192.168.1.1 or example.com",
        FormField::User => "root",
        FormField::Port => "22",
        FormField::IdentityFile => "~/.ssh/id_ed25519",
        FormField::ProxyJump => "bastion-host",
    }
}

/// The form in which a host is added or edited.
#[derive(Debug, Clone)]
pub struct HostForm {
    pub alias: String,
    pub hostname: String,
    pub user: String,
    pub port: String,
    pub identity_file: String,
    pub proxy_jump: String,
    pub focused_field: FormField,
}

/// Why a form cannot be saved.
pub ghost enum FormFault {
    EmptyAlias,
    SpaceInAlias,
    EmptyHostname,
    NoPort,
    PortZero,
}

/// The message for each fault.
pub open spec fn form_fault_text(f: FormFault) -> Seq<char> {
    match f {
        FormFault::EmptyAlias => "Alias can't be empty. Every host needs a name!"@,
        FormFault::SpaceInAlias => "Alias can't contain spaces. Keep it simple."@,
        FormFault::EmptyHostname => "Hostname can't be empty. Where should we connect to?"@,
        FormFault::NoPort => "That's not a port number. Ports are 1-65535, not poetry."@,
        FormFault::PortZero => "Port 0? Bold choice, but no. Try 1-65535."@,
    }
}

impl HostForm {
    /// The first fault of the form, if it has one: a blank alias, a space in the
    /// alias, a blank host name, a port that is no number, a port of 0.
    pub open spec fn fault(&self) -> Option<FormFault> {
        if trimmed(self.alias@).len() == 0 {
            Some(FormFault::EmptyAlias)
        } else if self.alias@.contains(' ') {
            Some(FormFault::SpaceInAlias)
        } else if trimmed(self.hostname@).len() == 0 {
            Some(FormFault::EmptyHostname)
        } else {
            match parsed_u16(self.port@) {
                None => Some(FormFault::NoPort),
                Some(p) => if p == 0 {
                    Some(FormFault::PortZero)
                } else {
                    None
                },
            }
        }
    }

    /// The record that the form describes: every text without surrounding white
    /// space, the port 22 where the field holds no port number.
    pub open spec fn entry(&self) -> HostEntryView {
        HostEntryView {
            alias: trimmed(self.alias@),
            hostname: trimmed(self.hostname@),
            user: trimmed(self.user@),
            port: match parsed_u16(self.port@) {
                Some(p) => p,
                None => 22,
            },
            identity_file: trimmed(self.identity_file@),
            proxy_jump: trimmed(self.proxy_jump@),
            source_file: None,
            tags: Seq::empty(),
        }
    }

    /// The empty form, with port 22 and the focus on the alias.
    pub fn new() -> (form: Self)
        ensures
            form.alias@.len() == 0,
            form.hostname@.len() == 0,
            form.user@.len() == 0,
            form.port@ == "22"@,
            form.identity_file@.len() == 0,
            form.proxy_jump@.len() == 0,
            form.focused_field == FormField::Alias,
    {
        HostForm {
            alias: String::new(),
            hostname: String::new(),
            user: String::new(),
            port: String::from_str("22"),
            identity_file: String::new(),
            proxy_jump: String::new(),
            focused_field: FormField::Alias,
        }
    }

    /// The form filled from a record, with the focus on the alias.
    pub fn from_entry(entry: &HostEntry) -> (form: Self)
        ensures
            form.alias@ == entry.alias@,
            form.hostname@ == entry.hostname@,
            form.user@ == entry.user@,
            form.port@ == decimal(entry.port as nat),
            form.identity_file@ == entry.identity_file@,
            form.proxy_jump@ == entry.proxy_jump@,
            form.focused_field == FormField::Alias,
    {
        HostForm {
            alias: entry.alias.clone(),
            hostname: entry.hostname.clone(),
            user: entry.user.clone(),
            port: string_of(decimal_chars(entry.port as u64).as_slice()),
            identity_file: entry.identity_file.clone(),
            proxy_jump: entry.proxy_jump.clone(),
            focused_field: FormField::Alias,
        }
    }

    /// The text of the field that has the focus, to be edited in place.
    pub fn focused_value_mut(&mut self) -> (value: &mut String)
        ensures
            final(self).focused_field == old(self).focused_field,
            match old(self).focused_field {
                FormField::Alias => *value == old(self).alias && *final(self) == (HostForm {
                    alias: *final(value),
                    ..*old(self)
                }),
                FormField::Hostname => *value == old(self).hostname && *final(self) == (HostForm {
                    hostname: *final(value),
                    ..*old(self)
                }),
                FormField::User => *value == old(self).user && *final(self) == (HostForm {
                    user: *final(value),
                    ..*old(self)
                }),
                FormField::Port => *value == old(self).port && *final(self) == (HostForm {
                    port: *final(value),
                    ..*old(self)
                }),
                FormField::IdentityFile => *value == old(self).identity_file && *final(self) == (
                HostForm { identity_file: *final(value), ..*old(self) }),
                FormField::ProxyJump => *value == old(self).proxy_jump && *final(self) == (
                HostForm { proxy_jump: *final(value), ..*old(self) }),
            },
    {
        match self.focused_field {
            FormField::Alias => &mut self.alias,
            FormField::Hostname => &mut self.hostname,
            FormField::User => &mut self.user,
            FormField::Port => &mut self.port,
            FormField::IdentityFile => &mut self.identity_file,
            FormField::ProxyJump => &mut self.proxy_jump,
        }
    }

    /// Checks the form, and says in a message what is wrong with it.
    pub fn validate(&self) -> (r: Result<(), String>)
        ensures
            match r {
                Ok(_) => self.fault() is None,
                Err(msg) => self.fault() is Some && msg@ == form_fault_text(self.fault()->0),
            },
    {
        let alias = chars_of(self.alias.as_str());
        if trim(alias.as_slice()).len() == 0 {
            return Err(String::from_str("Alias can't be empty. Every host needs a name!"));
        }
        proof {
            if alias@.contains(' ') {
                let i = choose|i: int| 0 <= i < alias@.len() && alias@[i] == ' ';
                assert(CharSet::Exactly(' ').has(alias@[i]));
            }
        }
        if contains(alias.as_slice(), CharSet::Exactly(' ')) {
            return Err(String::from_str("Alias can't contain spaces. Keep it simple."));
        }
        let hostname = chars_of(self.hostname.as_str());
        if trim(hostname.as_slice()).len() == 0 {
            return Err(String::from_str("Hostname can't be empty. Where should we connect to?"));
        }
        let port = chars_of(self.port.as_str());
        match parse_u16(port.as_slice()) {
            None => Err(
                String::from_str("That's not a port number. Ports are 1-65535, not poetry."),
            ),
            Some(p) => {
                if p == 0 {
                    Err(String::from_str("Port 0? Bold choice, but no. Try 1-65535."))
                } else {
                    Ok(())
                }
            },
        }
    }

    /// The record that the form describes.
    pub fn to_entry(&self) -> (entry: HostEntry)
        ensures
            entry@ == self.entry(),
    {
        let port = chars_of(self.port.as_str());
        let entry = HostEntry {
            alias: trimmed_string(self.alias.as_str()),
            hostname: trimmed_string(self.hostname.as_str()),
            user: trimmed_string(self.user.as_str()),
            port: match parse_u16(port.as_slice()) {
                Some(p) => p,
                None => 22,
            },
            identity_file: trimmed_string(self.identity_file.as_str()),
            proxy_jump: trimmed_string(self.proxy_jump.as_str()),
            source_file: None,
            tags: Vec::new(),
        };
        proof {
            assert(entry@.tags =~= Seq::<Seq<char>>::empty());
        }
        entry
    }
}

impl HostForm {
    /// Whether the alias field holds a target.
    pub open spec fn holds_target(self) -> bool {
        crate::quick_add::target_like(self.alias@) && crate::quick_add::target_of(self.alias@)
            is Ok
    }

    /// Takes a target in the alias field apart and fills the other fields from
    /// it. Returns whether there was one.
    pub fn smart_paste(&mut self) -> (filled: bool)
        ensures
            filled == old(self).holds_target(),
            !filled ==> *final(self) == *old(self),
            filled ==> {
                let t = crate::quick_add::target_of(old(self).alias@)->Ok_0;
                &&& final(self).alias@ == crate::import::alias_for(t.hostname)
                &&& final(self).hostname@ == if old(self).hostname@.len() == 0 {
                    t.hostname
                } else {
                    old(self).hostname@
                }
                &&& final(self).user@ == if old(self).user@.len() == 0 {
                    t.user
                } else {
                    old(self).user@
                }
                &&& final(self).port@ == if old(self).port@ == "22"@ && t.port != 22 {
                    decimal(t.port as nat)
                } else {
                    old(self).port@
                }
                &&& final(self).identity_file == old(self).identity_file
                &&& final(self).proxy_jump == old(self).proxy_jump
                &&& final(self).focused_field == old(self).focused_field
            },
    {
        if !crate::quick_add::looks_like_target(self.alias.as_str()) {
            return false;
        }
        match crate::quick_add::parse_target(self.alias.as_str()) {
            Ok(parsed) => {
                if self.hostname.as_str().is_empty() {
                    self.hostname = parsed.hostname.clone();
                }
                if self.user.as_str().is_empty() && !parsed.user.as_str().is_empty() {
                    self.user = parsed.user.clone();
                }
                if str_eq(self.port.as_str(), "22") && parsed.port != 22 {
                    self.port = string_of(decimal_chars(parsed.port as u64).as_slice());
                }
                self.alias = crate::import::alias_of_hostname(parsed.hostname.as_str());
                true
            },
            Err(_) => false,
        }
    }
}

/// The tags that a text lists: its pieces between commas, each without
/// surrounding white space, the blank ones left out.
pub fn parse_tags(input: &str) -> (tags: Vec<String>)
    ensures
        crate::split::strings(tags@) == crate::ssh_config::projection::kept_tags(
            crate::split::split(input@, ','),
        ),
{
    let cs = chars_of(input);
    let pieces = crate::split::split_on(cs.as_slice(), ',');
    let ghost all = crate::split::texts(pieces@);
    let mut tags: Vec<String> = Vec::new();
    let mut k: usize = 0;
    proof {
        assert(all.take(0) =~= Seq::<Seq<char>>::empty());
        assert(crate::split::strings(tags@) =~= Seq::<Seq<char>>::empty());
    }
    while k < pieces.len()
        invariant
            k <= pieces.len(),
            all == crate::split::texts(pieces@),
            crate::split::strings(tags@) == crate::ssh_config::projection::kept_tags(
                all.take(k as int),
            ),
        decreases pieces.len() - k,
    {
        let piece = trim(pieces[k].as_slice());
        proof {
            let p = all.take(k as int + 1);
            assert(p.drop_last() =~= all.take(k as int));
            assert(p.last() == pieces@[k as int]@);
        }
        if piece.len() > 0 {
            let tag = string_of(piece);
            proof {
                assert(crate::split::strings(tags@.push(tag)) =~= crate::split::strings(
                    tags@,
                ).push(tag@));
            }
            tags.push(tag);
        }
        k += 1;
    }
    proof {
        assert(all.take(k as int) =~= all);
    }
    tags
}

/// `s` without surrounding white space.
pub fn trimmed_string(s: &str) -> (out: String)
    ensures
        out@ == trimmed(s@),
{
    let cs = chars_of(s);
    string_of(trim(cs.as_slice()))
}

/// A message in the status bar.
#[derive(Debug, Clone)]
pub struct StatusMessage {
    pub text: String,
    pub is_error: bool,
    pub tick_count: u32,
}

impl StatusMessage {
    /// How many ticks a message stays: 20 for an error, 12 otherwise.
    pub open spec fn lifetime(is_error: bool) -> u32 {
        if is_error {
            20
        } else {
            12
        }
    }

    /// Counts one tick and says whether the message has outstayed its time.
    pub fn tick(&mut self) -> (expired: bool)
        requires
            old(self).tick_count < u32::MAX,
        ensures
            final(self).text == old(self).text,
            final(self).is_error == old(self).is_error,
            final(self).tick_count == old(self).tick_count + 1,
            expired == (final(self).tick_count > Self::lifetime(old(self).is_error)),
    {
        self.tick_count += 1;
        let timeout: u32 = if self.is_error {
            20
        } else {
            12
        };
        self.tick_count > timeout
    }
}

/// A row of the host list: the header of a group, or a host by its index.
#[derive(Debug, Clone)]
pub enum HostListItem {
    GroupHeader(String),
    Host { index: usize },
}

/// Whether a host answers.
#[derive(Debug, Clone, PartialEq)]
pub enum PingStatus {
    Checking,
    Reachable,
    Unreachable,
    Skipped,
}

/// The order of the host list.
#[derive(Debug, Clone, Copy, PartialEq, Eq, Structural)]
pub enum SortMode {
    Original,
    AlphaAlias,
    AlphaHostname,
    Frecency,
    MostRecent,
}

impl SortMode {
    /// The key under which the mode is stored.
    pub open spec fn key(self) -> Seq<char> {
        match self {
            SortMode::Original => "original"@,
            SortMode::AlphaAlias => "alpha_alias"@,
            SortMode::AlphaHostname => "alpha_hostname"@,
            SortMode::Frecency => "frecency"@,
            SortMode::MostRecent => "most_recent"@,
        }
    }

    /// The mode that is stored under `key`, the original order for any other text.
    pub open spec fn of_key(key: Seq<char>) -> SortMode {
        if key == "alpha_alias"@ {
            SortMode::AlphaAlias
        } else if key == "alpha_hostname"@ {
            SortMode::AlphaHostname
        } else if key == "frecency"@ {
            SortMode::Frecency
        } else if key == "most_recent"@ {
            SortMode::MostRecent
        } else {
            SortMode::Original
        }
    }

    /// The mode after this one, the first after the last.
    pub fn next(self) -> (r: Self)
        ensures
            r == match self {
                SortMode::Original => SortMode::AlphaAlias,
                SortMode::AlphaAlias => SortMode::AlphaHostname,
                SortMode::AlphaHostname => SortMode::Frecency,
                SortMode::Frecency => SortMode::MostRecent,
                SortMode::MostRecent => SortMode::Original,
            },
    {
        match self {
            SortMode::Original => SortMode::AlphaAlias,
            SortMode::AlphaAlias => SortMode::AlphaHostname,
            SortMode::AlphaHostname => SortMode::Frecency,
            SortMode::Frecency => SortMode::MostRecent,
            SortMode::MostRecent => SortMode::Original,
        }
    }

    /// The name of the mode as it is shown.
    pub fn label(self) -> (r: &'static str)
        ensures
            r@ == match self {
                SortMode::Original => "config order"@,
                SortMode::AlphaAlias => "A-Z alias"@,
                SortMode::AlphaHostname => "A-Z hostname"@,
                SortMode::Frecency => "most used"@,
                SortMode::MostRecent => "most recent"@,
            },
    {
        match self {
            SortMode::Original => "config order",
            SortMode::AlphaAlias => "A-Z alias",
            SortMode::AlphaHostname => "A-Z hostname",
            SortMode::Frecency => "most used",
            SortMode::MostRecent => "most recent",
        }
    }

    /// The key under which the mode is stored.
    pub fn to_key(self) -> (r: &'static str)
        ensures
            r@ == self.key(),
    {
        match self {
            SortMode::Original => "original",
            SortMode::AlphaAlias => "alpha_alias",
            SortMode::AlphaHostname => "alpha_hostname",
            SortMode::Frecency => "frecency",
            SortMode::MostRecent => "most_recent",
        }
    }

    /// The mode that is stored under `s`.
    pub fn from_key(s: &str) -> (r: Self)
        ensures
            r == Self::of_key(s@),
    {
        if str_eq(s, "alpha_alias") {
            SortMode::AlphaAlias
        } else if str_eq(s, "alpha_hostname") {
            SortMode::AlphaHostname
        } else if str_eq(s, "frecency") {
            SortMode::Frecency
        } else if str_eq(s, "most_recent") {
            SortMode::MostRecent
        } else {
            SortMode::Original
        }
    }
}

/// Every mode is found again under its key.
pub proof fn sort_mode_key_round_trip(mode: SortMode)
    ensures
        SortMode::of_key(mode.key()) == mode,
{
    reveal_strlit("original");
    reveal_strlit("alpha_alias");
    reveal_strlit("alpha_hostname");
    reveal_strlit("frecency");
    reveal_strlit("most_recent");
    assert("original"@.len() == 8);
    assert("alpha_alias"@.len() == 11);
    assert("alpha_hostname"@.len() == 14);
    assert("frecency"@.len() == 8);
    assert("most_recent"@.len() == 11);
    assert("original"@[0] == 'o' && "frecency"@[0] == 'f');
    assert("alpha_alias"@[0] == 'a' && "most_recent"@[0] == 'm');
}

/// A deleted element and where it stood, kept for undo.
#[derive(Debug, Clone)]
pub struct DeletedHost {
    pub element: ConfigElement,
    pub position: usize,
}

/// The selection after a step through a list of `len` rows: one row on, or one
/// back, around the ends; the first row if none was selected; unchanged for
/// an empty list.
pub open spec fn cycled(selected: Option<usize>, len: usize, forward: bool) -> Option<usize> {
    if len == 0 {
        selected
    } else {
        match selected {
            Some(i) => if forward {
                if i >= len - 1 {
                    Some(0usize)
                } else {
                    Some((i + 1) as usize)
                }
            } else if i == 0 {
                Some((len - 1) as usize)
            } else {
                Some((i - 1) as usize)
            },
            None => Some(0usize),
        }
    }
}

/// The selection after a step through a list of `len` rows.
pub fn cycle_selection(selected: Option<usize>, len: usize, forward: bool) -> (r: Option<usize>)
    ensures
        r == cycled(selected, len, forward),
{
    if len == 0 {
        return selected;
    }
    match selected {
        Some(i) => {
            if forward {
                if i >= len - 1 {
                    Some(0)
                } else {
                    Some(i + 1)
                }
            } else if i == 0 {
                Some(len - 1)
            } else {
                Some(i - 1)
            }
        },
        None => Some(0),
    }
}

} // verus!
