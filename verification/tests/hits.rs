use delfaf::hits::{parse_paths, strip_ansi, trim_path_bytes};

fn owned(paths: &[&[u8]]) -> Vec<Vec<u8>> {
    paths.iter().map(|p| p.to_vec()).collect()
}

#[test]
fn parse_newline_paths() {
    let got = parse_paths(b"/a/node_modules\n/b/node_modules\n");
    assert_eq!(got, owned(&[b"/a/node_modules", b"/b/node_modules"]));
}

#[test]
fn parse_skips_empty_lines() {
    let got = parse_paths(b"/a\n\n/b\n");
    assert_eq!(got, owned(&[b"/a", b"/b"]));
}

#[test]
fn parse_strips_ansi() {
    let raw = b"\x1b[2m/app/\x1b[0m\x1b[32mnode_modules\x1b[0m\n";
    let got = parse_paths(raw);
    assert_eq!(got, owned(&[b"/app/node_modules"]));
}

#[test]
fn parse_nul_separated() {
    let got = parse_paths(b"/a/node_modules\0/b/node_modules\0");
    assert_eq!(got, owned(&[b"/a/node_modules", b"/b/node_modules"]));
}

#[test]
fn parse_crlf_lines() {
    let got = parse_paths(b"/a\r\n/b\r\n");
    assert_eq!(got, owned(&[b"/a", b"/b"]));
}

#[test]
fn parse_trims_only_one_cr() {
    let got = parse_paths(b"/a\r\r\n");
    assert_eq!(got, owned(&[b"/a\r"]));
}

#[test]
fn parse_last_line_without_newline() {
    let got = parse_paths(b"/a\n/b");
    assert_eq!(got, owned(&[b"/a", b"/b"]));
}

#[test]
fn parse_empty_input() {
    assert!(parse_paths(b"").is_empty());
    assert!(parse_paths(b"\n\n\r\n").is_empty());
}

#[test]
fn parse_nul_list_keeps_newlines_in_paths() {
    let got = parse_paths(b"/a\nb\0/c\0");
    assert_eq!(got, owned(&[b"/a\nb", b"/c"]));
}

#[test]
fn parse_path_made_only_of_codes_is_dropped() {
    let got = parse_paths(b"\x1b[1m\x1b[0m\n/x\n");
    assert_eq!(got, owned(&[b"/x"]));
}

#[test]
fn strip_keeps_plain_text() {
    assert_eq!(strip_ansi(b"/plain/path\n"), b"/plain/path\n".to_vec());
}

#[test]
fn strip_removes_unterminated_sequence() {
    assert_eq!(strip_ansi(b"/a\x1b[12;3"), b"/a".to_vec());
}

#[test]
fn strip_keeps_lone_escape() {
    assert_eq!(strip_ansi(b"a\x1bb"), b"a\x1bb".to_vec());
    assert_eq!(strip_ansi(b"a\x1b"), b"a\x1b".to_vec());
}

#[test]
fn strip_sequence_with_parameters() {
    assert_eq!(strip_ansi(b"\x1b[38;5;208mx\x1b[K"), b"x".to_vec());
}

#[test]
fn trim_drops_one_carriage_return() {
    assert_eq!(trim_path_bytes(b"/a\r"), b"/a");
    assert_eq!(trim_path_bytes(b"/a"), b"/a");
    assert_eq!(trim_path_bytes(b"\r"), b"");
    assert_eq!(trim_path_bytes(b""), b"");
}

#[test]
fn listing_reads_back() {
    let paths = owned(&[b"/srv/app/node_modules", b"relative/dir", b"/with space/x"]);
    let mut text = Vec::new();
    for p in &paths {
        text.extend_from_slice(p);
        text.push(b'\n');
    }
    assert_eq!(parse_paths(&text), paths);
    let mut text0 = Vec::new();
    for p in &paths {
        text0.extend_from_slice(p);
        text0.push(0);
    }
    assert_eq!(parse_paths(&text0), paths);
}

#[test]
fn parsed_paths_are_nonempty() {
    for p in parse_paths(b"\n\r\n/a\n\x1b[0m\n\r\n/b") {
        assert!(!p.is_empty());
    }
}
