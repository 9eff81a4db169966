use std::path::{Component, Path};
use vic2enc_core::convert::{convert_bytes, should_convert, BatchScope, Stats};
use vic2enc_core::path::{FsPath, PathPart};
use vic2enc_core::safe_token::{to_safe_string, to_unsafe_string};
use vic2enc_core::{Codepage, ConvertOptions, Direction};

const UTF8_BOM: &[u8] = &[0xEF, 0xBB, 0xBF];

fn opts(safe: bool) -> ConvertOptions {
    ConvertOptions {
        codepage: Codepage::Gbk,
        safe_tokens: safe,
    }
}

/// The components of a `std` path, as the library holds them.
fn fs(path: &Path) -> FsPath {
    FsPath::from_parts(
        path.components()
            .map(|c| match c {
                Component::Prefix(p) => PathPart::Prefix(p.as_os_str().as_encoded_bytes().to_vec()),
                Component::RootDir => PathPart::Root,
                Component::CurDir => PathPart::Current,
                Component::ParentDir => PathPart::Parent,
                Component::Normal(n) => PathPart::Name(n.as_encoded_bytes().to_vec()),
            })
            .collect(),
    )
}

#[test]
fn bytes_roundtrip_with_safe_tokens() {
    // With safe tokens on, the human-editable form holds `<...>` tokens; the
    // round-trip identity is decode(encode(safe_form)) == safe_form.
    let editable = "PROV_BEIJING;北京 <VAR-PROVINCE> <A7-Y>重要<A7-!>;x\n".as_bytes();
    let game = convert_bytes(editable, Direction::ToGame, &opts(true));
    // The game bytes must contain the raw control byte, not the token text.
    assert!(game.contains(&0xA7));
    let back = convert_bytes(&game, Direction::ToUnicode, &opts(true));
    assert_eq!(back, editable);
}

#[test]
fn bytes_roundtrip_without_safe_tokens() {
    let original = "KEY;南斯拉夫王国;x\n大公国;x\n".as_bytes();
    let game = convert_bytes(original, Direction::ToGame, &opts(false));
    let back = convert_bytes(&game, Direction::ToUnicode, &opts(false));
    assert_eq!(back, original);
}

#[test]
fn game_output_is_not_utf8_for_chinese() {
    let game = convert_bytes("中国".as_bytes(), Direction::ToGame, &opts(false));
    // GBK encodes each Chinese char to two high bytes, never the 6 UTF-8 bytes.
    assert_eq!(game.len(), 4);
}

#[test]
fn to_game_strips_utf8_bom() {
    let mut with_bom = UTF8_BOM.to_vec();
    with_bom.extend_from_slice("KEY;test;x".as_bytes());
    let game = convert_bytes(&with_bom, Direction::ToGame, &opts(false));
    assert_eq!(game, b"KEY;test;x");
}

#[test]
fn script_txt_only_under_events_or_decisions() {
    let root = fs(Path::new("/mod"));
    let none = BatchScope::default();
    // csv anywhere
    assert!(should_convert(&root, &fs(Path::new("/mod/common/x.csv")), none));
    // txt under events / decisions
    assert!(should_convert(&root, &fs(Path::new("/mod/events/x.txt")), none));
    assert!(should_convert(
        &root,
        &fs(Path::new("/mod/decisions/sub/y.txt")),
        none
    ));
    assert!(should_convert(
        &root,
        &fs(Path::new("/mod/Events/CamelCase.txt")),
        none
    ));
    // txt elsewhere: skipped by default
    assert!(!should_convert(
        &root,
        &fs(Path::new("/mod/common/units/z.txt")),
        none
    ));
    // ...but converted when txt_all_folders is set
    let all = BatchScope {
        txt_all_folders: true,
        ..BatchScope::default()
    };
    assert!(should_convert(
        &root,
        &fs(Path::new("/mod/common/units/z.txt")),
        all
    ));
    // unrelated extensions never convert
    assert!(!should_convert(
        &root,
        &fs(Path::new("/mod/events/readme.md")),
        none
    ));
}

#[test]
fn convert_txt_disabled_skips_all_txt() {
    let root = fs(Path::new("/mod"));
    let no_txt = BatchScope {
        convert_txt: false,
        txt_all_folders: true,
    };
    // csv still converts
    assert!(should_convert(
        &root,
        &fs(Path::new("/mod/localisation/x.csv")),
        no_txt
    ));
    // ...but every txt is skipped, even under events and even with all-folders on
    assert!(!should_convert(
        &root,
        &fs(Path::new("/mod/events/x.txt")),
        no_txt
    ));
    assert!(!should_convert(
        &root,
        &fs(Path::new("/mod/common/y.txt")),
        no_txt
    ));
}

#[test]
fn input_dir_pointing_at_events_folder_counts() {
    let root = fs(Path::new("/mod/events"));
    assert!(should_convert(
        &root,
        &fs(Path::new("/mod/events/foo.txt")),
        BatchScope::default()
    ));
}

#[test]
fn extension_case_and_dot_files() {
    let root = fs(Path::new("/mod"));
    let none = BatchScope::default();
    assert!(should_convert(&root, &fs(Path::new("/mod/a/B.CSV")), none));
    // a leading dot is no extension
    assert!(!should_convert(&root, &fs(Path::new("/mod/a/.csv")), none));
    assert!(should_convert(&root, &fs(Path::new("/mod/a/x.tar.csv")), none));
    // the file's own name does not count as a folder
    assert!(!should_convert(&root, &fs(Path::new("/mod/events.txt")), none));
    // a path outside the input folder is read whole
    assert!(should_convert(&root, &fs(Path::new("/other/events/x.txt")), none));
}

#[test]
fn script_folder_is_judged_without_the_file_name() {
    let none = BatchScope::default();
    // a file whose own name is not UTF-8 still lies in `events`
    let mut parts = fs(Path::new("/mod/events")).parts;
    parts.push(PathPart::Name(vec![0xFF, b'.', b't', b'x', b't']));
    assert!(should_convert(&fs(Path::new("/mod")), &FsPath::from_parts(parts), none));
    // only folders below the input folder count
    assert!(!should_convert(
        &fs(Path::new("/x/events/mod")),
        &fs(Path::new("/x/events/mod/common/a.txt")),
        none
    ));
    // a file named like a script folder is not a folder
    assert!(!should_convert(&fs(Path::new("/mod")), &fs(Path::new("/mod/common/events.txt")), none));
}

#[test]
fn stats_count_and_describe() {
    let mut s = Stats::default();
    s.add_file(10, 7);
    s.add_file(5, 3);
    assert_eq!(s, Stats { files: 2, bytes_in: 15, bytes_out: 10 });
    let mut total = Stats::default();
    total.add(&s);
    total.add(&s);
    assert_eq!(total.files, 4);
    assert_eq!(total.describe(), "4 file(s), 30 bytes in, 20 bytes out");
    assert_eq!(Stats::default().describe(), "0 file(s), 0 bytes in, 0 bytes out");
}

#[test]
fn invalid_utf8_reads_as_replacement_character() {
    // 0xFF is not UTF-8: it becomes U+FFFD, which GBK cannot hold: `?`.
    let game = convert_bytes(&[b'a', 0xFF, b'b'], Direction::ToGame, &opts(false));
    assert_eq!(game, b"a?b");
}

#[test]
fn unknown_high_byte_reads_as_latin1() {
    // 0xFF is no GBK lead byte: it is read as U+00FF.
    let text = convert_bytes(&[0xFF, b'x'], Direction::ToUnicode, &opts(false));
    assert_eq!(String::from_utf8(text).unwrap(), "\u{ff}x");
}

#[test]
fn safe_tokens_compose_with_the_conversion() {
    // Writing: tokens on is the raw form written with tokens off, also when
    // the input holds invalid UTF-8.
    let mut readable = "K;<VAR-X> <A7-Y>黄金<A7-!> £".as_bytes().to_vec();
    readable.push(0xFF);
    readable.extend_from_slice(b";x\n");
    let with = convert_bytes(&readable, Direction::ToGame, &opts(true));
    let raw = to_unsafe_string(&String::from_utf8_lossy(&readable));
    let without = convert_bytes(raw.as_bytes(), Direction::ToGame, &opts(false));
    assert_eq!(with, without);
    // Reading: tokens on is the safe form of reading with tokens off.
    let read_with = convert_bytes(&with, Direction::ToUnicode, &opts(true));
    let read_without = convert_bytes(&with, Direction::ToUnicode, &opts(false));
    let safe = to_safe_string(&String::from_utf8(read_without).unwrap());
    assert_eq!(read_with, safe.into_bytes());
}
