use zip_lister::descriptor::JsonResult;
use zip_lister::entry::{ends_with_slash, ZipEntry};
use zip_lister::json::{entries_json, render_listing};
use zip_lister::names::decode_name;
use zip_lister::scan::scan_entries;
use zip_lister::list_zip_entries;

/// A local file header with the given flag, name and extra field, followed by
/// `data`.
fn member(flag: u16, name: &[u8], extra: &[u8], data: &[u8]) -> Vec<u8> {
    let mut v: Vec<u8> = vec![0x50, 0x4B, 0x03, 0x04, 20, 0];
    v.extend_from_slice(&flag.to_le_bytes());
    v.extend_from_slice(&[0u8; 18]);
    v.extend_from_slice(&(name.len() as u16).to_le_bytes());
    v.extend_from_slice(&(extra.len() as u16).to_le_bytes());
    assert_eq!(v.len(), 30);
    v.extend_from_slice(name);
    v.extend_from_slice(extra);
    v.extend_from_slice(data);
    v
}

fn listing(data: &[u8]) -> String {
    list_zip_entries(data)
}

#[test]
fn empty_buffer_lists_nothing() {
    assert_eq!(listing(&[]), "[]");
}

#[test]
fn short_buffers_list_nothing() {
    for n in 0..30usize {
        let mut d = vec![0u8; n];
        if n >= 4 {
            d[0..4].copy_from_slice(&[0x50, 0x4B, 0x03, 0x04]);
        }
        assert_eq!(listing(&d), "[]");
    }
}

#[test]
fn single_utf8_entry() {
    let d = member(0x0800, b"a.txt", &[], b"hello");
    assert_eq!(listing(&d), r#"[{"path":"a.txt","is_file":true,"is_encrypted":false}]"#);
}

#[test]
fn directory_entry_is_not_a_file() {
    for flag in [0x0800u16, 0x0801u16] {
        let d = member(flag, b"dir/", &[], b"");
        let entries = scan_entries(&d);
        assert_eq!(entries.len(), 1);
        assert_eq!(entries[0].path, "dir/");
        assert!(!entries[0].is_file);
    }
}

#[test]
fn encryption_bit_marks_only_its_entry() {
    let mut d = member(0x0800, b"one.txt", &[], b"xx");
    d.extend(member(0x0801, b"two.txt", &[], b"yy"));
    d.extend(member(0x0800, b"three.txt", &[], b"zz"));
    assert_eq!(
        listing(&d),
        r#"[{"path":"one.txt","is_file":true,"is_encrypted":false},{"path":"two.txt","is_file":true,"is_encrypted":true},{"path":"three.txt","is_file":true,"is_encrypted":false}]"#
    );
}

#[test]
fn truncated_name_stops_the_scan() {
    let mut d = member(0x0800, b"first.txt", &[], b"data");
    let mut bad = member(0x0800, b"second.txt", &[], b"");
    bad[26] = 0xFF;
    bad[27] = 0x00;
    d.extend(bad);
    d.extend(member(0x0800, b"third.txt", &[], b"data"));
    assert_eq!(listing(&d), r#"[{"path":"first.txt","is_file":true,"is_encrypted":false}]"#);
}

#[test]
fn invalid_utf8_name_gets_placeholder() {
    let mut d = member(0x0800, &[0x61, 0xFF, 0x62], &[], b"");
    d.extend(member(0x0800, b"ok.txt", &[], b"body"));
    assert_eq!(
        listing(&d),
        r#"[{"path":"[invalid utf8]","is_file":true,"is_encrypted":false},{"path":"ok.txt","is_file":true,"is_encrypted":false}]"#
    );
}

#[test]
fn shift_jis_name_is_decoded() {
    // "テスト.txt" in Shift-JIS
    let name = [0x83, 0x65, 0x83, 0x58, 0x83, 0x67, b'.', b't', b'x', b't'];
    let d = member(0, &name, &[], b"abc");
    let entries = scan_entries(&d);
    assert_eq!(entries.len(), 1);
    assert_eq!(entries[0].path, "テスト.txt");
    assert_eq!(listing(&d), r#"[{"path":"テスト.txt","is_file":true,"is_encrypted":false}]"#);
}

#[test]
fn scanning_twice_gives_identical_output() {
    let mut d = member(0, &[0x93, 0xFA, 0x96, 0x7B, b'/'], &[], b"");
    d.extend(member(0x0801, b"x.bin", &[1, 2, 3], b"payload"));
    let first = list_zip_entries(&d);
    let second = list_zip_entries(&d);
    assert_eq!(first.as_bytes(), second.as_bytes());
}

#[test]
fn extra_field_is_skipped() {
    // the extra field holds a signature that must not be read as a header
    let extra = member(0x0800, b"fake.txt", &[], b"");
    let mut d = member(0x0800, b"real.txt", &extra, b"");
    d.extend(member(0x0800, b"next.txt", &[], b"data"));
    let entries = scan_entries(&d);
    let paths: Vec<&str> = entries.iter().map(|e| e.path.as_str()).collect();
    assert_eq!(paths, vec!["real.txt", "next.txt"]);
}

#[test]
fn junk_before_header_is_stepped_over() {
    let mut d = vec![0x50, 0x4B, 0x00, 0x11, 0x22];
    d.extend(member(0x0800, b"a/b.txt", &[], b"data"));
    let entries = scan_entries(&d);
    assert_eq!(entries.len(), 1);
    assert_eq!(entries[0].path, "a/b.txt");
    assert!(entries[0].is_file);
}

#[test]
fn extra_field_past_end_ends_scan() {
    let mut d = member(0x0800, b"last.txt", &[], b"");
    d[28] = 0xFF;
    d[29] = 0xFF;
    d.extend_from_slice(&[0u8; 40]);
    let entries = scan_entries(&d);
    assert_eq!(entries.len(), 1);
    assert_eq!(entries[0].path, "last.txt");
}

#[test]
fn quotes_and_backslashes_are_escaped() {
    let d = member(0x0800, b"a\"b\\c\n.txt", &[], b"");
    assert_eq!(
        listing(&d),
        r#"[{"path":"a\"b\\c\n.txt","is_file":true,"is_encrypted":false}]"#
    );
}

#[test]
fn render_uses_given_quoted_paths() {
    let entries = vec![
        ZipEntry::new(String::from("d/"), true),
        ZipEntry::new(String::from("f"), false),
    ];
    let quoted = vec![String::from("\"D\""), String::from("\"F\"")];
    assert_eq!(
        render_listing(&entries, &quoted),
        r#"[{"path":"D","is_file":false,"is_encrypted":true},{"path":"F","is_file":true,"is_encrypted":false}]"#
    );
    assert_eq!(render_listing(&vec![], &vec![]), "[]");
}

#[test]
fn entries_json_quotes_paths() {
    let entries = vec![ZipEntry::new(String::from("tab\there"), false)];
    assert_eq!(
        entries_json(&entries),
        r#"[{"path":"tab\there","is_file":true,"is_encrypted":false}]"#
    );
}

#[test]
fn decode_name_by_flag() {
    assert_eq!(decode_name(0x0800, "é.txt".as_bytes()), "é.txt");
    assert_eq!(decode_name(0x0800, &[0xC3]), "[invalid utf8]");
    assert_eq!(decode_name(0x0000, &[0x93, 0xFA, 0x96, 0x7B]), "日本");
    assert_eq!(decode_name(0x0000, b""), "");
}

#[test]
fn slash_detection() {
    assert!(ends_with_slash(&String::from("dir/")));
    assert!(!ends_with_slash(&String::from("dir")));
    assert!(!ends_with_slash(&String::new()));
    assert!(ends_with_slash(&String::from("日本/")));
}

#[test]
fn zip_entry_new_derives_is_file() {
    let e = ZipEntry::new(String::from("x/"), false);
    assert!(!e.is_file);
    assert!(!e.is_encrypted);
    let f = ZipEntry::new(String::from("x"), true);
    assert!(f.is_file);
    assert!(f.is_encrypted);
}

#[test]
fn descriptor_holds_address_and_length() {
    let r = JsonResult::new(4096, 17);
    assert_eq!(r.ptr, 4096);
    assert_eq!(r.len, 17);
}

#[test]
fn scan_resumes_after_invalid_utf8_name_and_extra() {
    let fake = member(0x0800, b"fake.txt", &[], b"");
    let mut d = member(0x0801, &[0xFF, 0xFE], &fake, b"");
    d.extend(member(0x0800, b"after/", &[], b""));
    d.extend_from_slice(&[0u8; 4]);
    assert_eq!(
        listing(&d),
        r#"[{"path":"[invalid utf8]","is_file":true,"is_encrypted":true},{"path":"after/","is_file":false,"is_encrypted":false}]"#
    );
}
