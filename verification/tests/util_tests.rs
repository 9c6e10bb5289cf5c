use anything::model::{string_to_fs, string_to_sort, Sort, SupportedFilesystems};
use anything::util::lines_from_bytes;

#[test]
fn lines_keep_their_newlines() {
    let lines = lines_from_bytes(b"one\ntwo\nthree\n".to_vec());
    assert_eq!(lines, vec![b"one\n".to_vec(), b"two\n".to_vec(), b"three\n".to_vec()]);
}

#[test]
fn last_line_without_newline_is_kept_whole() {
    let lines = lines_from_bytes(b"alpha\nbeta".to_vec());
    assert_eq!(lines, vec![b"alpha\n".to_vec(), b"beta".to_vec()]);
}

#[test]
fn empty_input_has_no_lines() {
    assert_eq!(lines_from_bytes(Vec::new()), Vec::<Vec<u8>>::new());
}

#[test]
fn consecutive_newlines_make_single_byte_lines() {
    let lines = lines_from_bytes(b"\n\nx".to_vec());
    assert_eq!(lines, vec![b"\n".to_vec(), b"\n".to_vec(), b"x".to_vec()]);
}

#[test]
fn filesystem_names_map_to_exfat() {
    assert_eq!(string_to_fs(&String::from("Exfat")), SupportedFilesystems::Exfat);
    assert_eq!(string_to_fs(&String::from("anything else")), SupportedFilesystems::Exfat);
}

#[test]
fn sort_names_map_to_their_orders() {
    let cases = [
        ("DateCreatedAscending", Sort::DateCreatedAscending),
        ("DateCreatedDescending", Sort::DateCreatedDescending),
        ("DateModifiedAscending", Sort::DateModifiedAscending),
        ("DateModifiedDescending", Sort::DateModifiedDescending),
        ("SizeAscending", Sort::SizeAscending),
        ("SizeDescending", Sort::SizeDescending),
        ("PathAscending", Sort::PathAscending),
        ("PathDescending", Sort::PathDescending),
        ("FileAscending", Sort::FileAscending),
        ("FileDescending", Sort::FileDescending),
    ];
    for (name, sort) in cases {
        assert_eq!(string_to_sort(&String::from(name)), sort);
    }
}

#[test]
fn unknown_sort_name_falls_back_to_default() {
    assert_eq!(string_to_sort(&String::from("Backwards")), Sort::DateCreatedAscending);
}
