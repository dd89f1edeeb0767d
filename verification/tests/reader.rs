use config_diff::{read_to_map, ConfigMap, Interner, Key};
use std::io::BufRead;

fn rows(map: ConfigMap<'_>) -> Vec<(String, String, String)> {
    let mut rows: Vec<(String, String, String)> = map
        .into_entries()
        .into_iter()
        .map(|(key, value)| (key.section.to_string(), key.property, value))
        .collect();
    rows.sort();
    rows
}

fn read(text: &[u8]) -> Vec<(String, String, String)> {
    let store = Interner::new();
    rows(read_to_map(text, &store))
}

fn row(section: &str, property: &str, value: &str) -> (String, String, String) {
    (section.to_string(), property.to_string(), value.to_string())
}

#[test]
fn section_key_value_round_trip() {
    assert_eq!(read(b"[s]\nk = v\n"), vec![row("s", "k", "v")]);
}

#[test]
fn key_without_header_goes_to_root() {
    assert_eq!(read(b"k=v"), vec![row("root", "k", "v")]);
}

#[test]
fn last_write_wins() {
    assert_eq!(read(b"[s]\nk=1\nk=2\n"), vec![row("s", "k", "2")]);
}

#[test]
fn trailing_comment_is_stripped() {
    assert_eq!(read(b"k=v ; comment"), vec![row("root", "k", "v")]);
}

#[test]
fn bracketed_assignment_is_a_header() {
    assert_eq!(read(b"[a=b]"), vec![]);
    assert_eq!(read(b"[a=b]\nk=v\n"), vec![row("a=b", "k", "v")]);
}

#[test]
fn empty_value_is_present() {
    assert_eq!(read(b"k="), vec![row("root", "k", "")]);
}

#[test]
fn blank_and_comment_lines_add_nothing() {
    assert_eq!(read(b"\n   \n\t\t\n; note\n   ; k=v\n;\n"), vec![]);
    assert_eq!(read(b"a=1\n \n;x=y\nb=2\n"), vec![row("root", "a", "1"), row("root", "b", "2")]);
    assert_eq!(read(b"a=1\nb=2\n"), vec![row("root", "a", "1"), row("root", "b", "2")]);
}

#[test]
fn empty_input_gives_empty_map() {
    assert_eq!(read(b""), vec![]);
    assert_eq!(read(b"\n"), vec![]);
    assert_eq!(read(b"\r\n\r\n"), vec![]);
}

#[test]
fn unrecognized_lines_are_skipped() {
    assert_eq!(read(b"stray prose\n[s\nk=v\ns]\n"), vec![row("root", "k", "v")]);
}

#[test]
fn carriage_returns_end_lines_too() {
    assert_eq!(
        read(b"[s]\r\nk = v\r\nj = w\r"),
        vec![row("s", "j", "w"), row("s", "k", "v")]
    );
}

#[test]
fn undecodable_line_is_dropped() {
    assert_eq!(
        read(b"a=1\n\xff\xfe=2\n[s]\nb=\xc3\xa9\nc=\xc3\n"),
        vec![row("root", "a", "1"), row("s", "b", "\u{e9}")]
    );
}

#[test]
fn undecodable_header_leaves_the_section() {
    assert_eq!(read(b"[s]\n[\xff]\nk=v\n"), vec![row("s", "k", "v")]);
}

#[test]
fn undecodable_bytes_in_one_line_do_not_reach_the_next() {
    assert_eq!(read(b"a=\xe2\x82\nb=2\n"), vec![row("root", "b", "2")]);
    assert_eq!(read(b"a=\xed\xa0\x80\nb=2"), vec![row("root", "b", "2")]);
    assert_eq!(read(b"a=\xc0\x80\nb=2"), vec![row("root", "b", "2")]);
    assert_eq!(read(b"a=\xf4\x90\x80\x80\nb=2"), vec![row("root", "b", "2")]);
    assert_eq!(
        read(b"a=\xf4\x8f\xbf\xbf\nb=2"),
        vec![row("root", "a", "\u{10ffff}"), row("root", "b", "2")]
    );
}

#[test]
fn reopened_section_is_one_section() {
    assert_eq!(
        read(b"[a]\nx=1\n[b]\nx=2\n[a]\ny=3\nx=4\n"),
        vec![row("a", "x", "4"), row("a", "y", "3"), row("b", "x", "2")]
    );
}

#[test]
fn header_name_is_not_trimmed() {
    assert_eq!(
        read(b"  [ a ]  \nk=v\n[]\nk=w\n"),
        vec![row("", "k", "w"), row(" a ", "k", "v")]
    );
}

#[test]
fn value_keeps_later_equal_signs_and_inner_spaces() {
    assert_eq!(
        read(b" my key = a = b  c \n=\n"),
        vec![row("root", "", ""), row("root", "my key", "a = b  c")]
    );
}

#[test]
fn keys_are_case_sensitive() {
    assert_eq!(
        read(b"[S]\nK=1\n[s]\nk=2\nK=3\n"),
        vec![row("S", "K", "1"), row("s", "K", "3"), row("s", "k", "2")]
    );
}

#[test]
fn unicode_whitespace_is_trimmed() {
    assert_eq!(
        read("\u{3000}k\u{a0}=\u{2003}v\u{85}\n".as_bytes()),
        vec![row("root", "k", "v")]
    );
}

#[test]
fn section_named_root_is_the_initial_section() {
    assert_eq!(read(b"k=1\n[root]\nk=2\n"), vec![row("root", "k", "2")]);
}

#[test]
fn map_insert_replaces() {
    let store = Interner::new();
    let mut map = ConfigMap::new();
    map.insert(Key { section: store.intern("s"), property: "k".to_string() }, "1".to_string());
    map.insert(Key { section: store.intern("s"), property: "j".to_string() }, "2".to_string());
    map.insert(Key { section: store.intern("s"), property: "k".to_string() }, "3".to_string());
    assert_eq!(rows(map), vec![row("s", "j", "2"), row("s", "k", "3")]);
    assert_eq!(rows(ConfigMap::new()), vec![]);
}

#[test]
fn interned_name_is_a_copy() {
    let store = Interner::new();
    let name = String::from("section");
    let held = store.intern(&name);
    drop(name);
    assert_eq!(held, "section");
    assert_eq!(store.intern(""), "");
}

fn read_with_std(bytes: &[u8]) -> Vec<(String, String, String)> {
    let mut section = String::from("root");
    let mut map = std::collections::BTreeMap::new();
    for line in std::io::BufReader::new(bytes).lines() {
        let line = match line {
            Ok(line) => line,
            Err(_) => continue,
        };
        let line = match line.find(';') {
            Some(at) => line.split_at(at).0.trim(),
            None => line.trim(),
        };
        if line.is_empty() {
            continue;
        }
        if line.starts_with('[') && line.ends_with(']') {
            section = line[1..line.len() - 1].to_string();
            continue;
        }
        if let Some(at) = line.find('=') {
            let (key, value) = line.split_at(at);
            map.insert(
                (section.clone(), key.trim().to_string()),
                value[1..].trim().to_string(),
            );
        }
    }
    map.into_iter().map(|((section, property), value)| (section, property, value)).collect()
}

fn next(state: &mut u64) -> usize {
    *state = state.wrapping_mul(6364136223846793005).wrapping_add(1442695040888963407);
    (*state >> 33) as usize
}

#[test]
fn agrees_with_a_reading_by_the_standard_library() {
    let pieces: [&[u8]; 20] = [
        b"\n", b"\n", b"\r\n", b"\r", b" ", b"\t", b";", b"=", b"=", b"[", b"]", b"a", b"b",
        b"key", b"\xc3\xa9", b"\xe3\x80\x80", b"\xc2\xa0", b"\xff", b"\xe2\x82", b"\x0b",
    ];
    let mut state: u64 = 7;
    for _ in 0..4000 {
        let length = next(&mut state) % 24;
        let mut text: Vec<u8> = Vec::new();
        for _ in 0..length {
            text.extend_from_slice(pieces[next(&mut state) % pieces.len()]);
        }
        assert_eq!(read(&text), read_with_std(&text), "{:?}", text);
    }
}
