use purple::number::parse_u16;
use purple::quick_add::{looks_like_target, parse_target};
use purple::split::{split_lines, split_whitespace};
use purple::ssh_config::model::{ConfigElement, SshConfigFile};
use purple::text::trim;

/// A small generator of repeatable pseudo-random numbers.
struct Numbers(u64);

impl Numbers {
    fn next(&mut self) -> u64 {
        self.0 = self.0.wrapping_mul(6364136223846793005).wrapping_add(1442695040888963407);
        self.0 >> 33
    }

    fn text(&mut self, alphabet: &[&str], max_len: u64) -> String {
        let len = self.next() % (max_len + 1);
        let mut out = String::new();
        for _ in 0..len {
            out.push_str(alphabet[(self.next() % alphabet.len() as u64) as usize]);
        }
        out
    }
}

const CONFIG_ALPHABET: [&str; 22] = [
    "\n", "\n", "\n", " ", "  ", "\t", "#", "=", "Host", "host ", "Include ", "include\t",
    "HostName", "User", "Port 22", "a", "b*", "\u{e9}", "\u{3042}", "\r", "# purple:tags x,y", "\u{a0}",
];

fn parse_str(content: &str) -> SshConfigFile {
    SshConfigFile {
        elements: SshConfigFile::parse_content(content),
        path: String::from("/tmp/test_config"),
        crlf: content.contains("\r\n"),
    }
}

fn lines_of(config: &SshConfigFile) -> Vec<String> {
    let mut lines = Vec::new();
    for element in &config.elements {
        match element {
            ConfigElement::GlobalLine(l) => lines.push(l.clone()),
            ConfigElement::Include(i) => lines.push(i.raw_line.clone()),
            ConfigElement::HostBlock(b) => {
                lines.push(b.raw_host_line.clone());
                lines.extend(b.directives.iter().map(|d| d.raw_line.clone()));
            }
        }
    }
    lines
}

#[test]
fn generated_texts_round_trip() {
    let mut numbers = Numbers(7);
    for _ in 0..3000 {
        let text = numbers.text(&CONFIG_ALPHABET, 24);
        let config = parse_str(&text);
        let kept: Vec<String> = text.lines().map(|l| l.to_string()).collect();
        assert_eq!(lines_of(&config), kept, "{:?}", text);
        let once = config.serialize();
        assert!(once.ends_with('\n') && !once.ends_with("\n\n"), "{:?}", text);
        if !text.contains("\r\n") {
            assert_eq!(once, format!("{}\n", text.trim_end_matches('\n')), "{:?}", text);
        }
        if !kept.iter().any(|l| l.ends_with('\r')) {
            assert_eq!(parse_str(&once).serialize(), once, "{:?}", text);
        }
        assert_eq!(SshConfigFile::parse("p", &text).crlf, text.contains("\r\n"));
    }
}

#[test]
fn generated_edits_can_be_undone() {
    let mut numbers = Numbers(11);
    for _ in 0..1500 {
        let text = numbers.text(&CONFIG_ALPHABET, 24);
        let mut config = parse_str(&text);
        let before = config.serialize();
        let aliases: Vec<String> = config.host_entries().iter().map(|e| e.alias.clone()).collect();
        for alias in aliases {
            let one_word = !alias.contains(char::is_whitespace);
            assert_eq!(config.has_host(&alias), one_word, "{:?}", text);
            let (element, position) = config.delete_host_undoable(&alias).unwrap();
            config.insert_host_at(element, position);
            assert_eq!(config.serialize(), before, "{:?}", text);
            let tags = vec!["one".to_string(), "two words".to_string()];
            assert!(config.set_host_tags(&alias, &tags));
            let shown = config.host_entries().into_iter().find(|e| e.alias == alias).unwrap();
            assert_eq!(shown.tags, tags, "{:?}", text);
            assert!(config.set_host_tags(&alias, &[]));
            let shown = config.host_entries().into_iter().find(|e| e.alias == alias).unwrap();
            assert!(shown.tags.is_empty(), "{:?}", text);
        }
    }
}

#[test]
fn generated_texts_split_and_trim_as_std_does() {
    let mut numbers = Numbers(13);
    let alphabet = [" ", "\t", "\n", "\r", "\u{a0}", "\u{2003}", "a", "b", "\u{e9}", "#", "\u{b}"];
    for _ in 0..3000 {
        let text = numbers.text(&alphabet, 12);
        let chars: Vec<char> = text.chars().collect();
        let lines: Vec<String> = split_lines(&chars).iter().map(|l| l.iter().collect()).collect();
        assert_eq!(lines, text.lines().map(|l| l.to_string()).collect::<Vec<_>>(), "{:?}", text);
        let words: Vec<String> =
            split_whitespace(&chars).iter().map(|l| l.iter().collect()).collect();
        assert_eq!(
            words,
            text.split_whitespace().map(|l| l.to_string()).collect::<Vec<_>>(),
            "{:?}",
            text
        );
        assert_eq!(trim(&chars).iter().collect::<String>(), text.trim(), "{:?}", text);
    }
}

#[test]
fn generated_numbers_and_targets_parse_as_expected() {
    let mut numbers = Numbers(17);
    let digits = ["0", "1", "5", "6", "9", "+", "-", " ", "a"];
    for _ in 0..3000 {
        let text = numbers.text(&digits, 7);
        let chars: Vec<char> = text.chars().collect();
        assert_eq!(parse_u16(&chars), text.parse::<u16>().ok(), "{:?}", text);
    }
    let parts = ["a", "b.c", "@", ":", "[", "]", "2", "0", "::"];
    for _ in 0..3000 {
        let text = numbers.text(&parts, 6);
        match parse_target(&text) {
            Ok(t) => {
                assert!(!t.hostname.is_empty() && t.port != 0, "{:?}", text);
                assert_eq!(text.contains('@'), !t.user.is_empty() || text.starts_with('@'));
                assert!(!t.user.contains('@'), "{:?}", text);
            }
            Err(message) => assert!(!message.is_empty(), "{:?}", text),
        }
        if text.contains('@') || text.starts_with('[') {
            assert!(looks_like_target(&text), "{:?}", text);
        }
    }
}
