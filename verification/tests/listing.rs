//! End-to-end tests of the listing parser and tree reconstruction.

use soarzip::parse_7z_list_output;

#[test]
fn simple_archive() {
    let input = "Path = docs/readme.txt\nSize = 120\nFolder = -\n\nPath = docs/\nFolder = +\n\n";
    let out = parse_7z_list_output(input);
    assert_eq!(out.len(), 2);
    assert_eq!(out[0].name, "docs/");
    assert!(out[0].is_dir);
    assert_eq!(out[1].name, "docs/readme.txt");
    assert!(!out[1].is_dir);
    assert_eq!(out[1].size, 120);
    assert_eq!(out[1].type_label, "文本文档");
}

#[test]
fn missing_folder_entry() {
    let input = "Path = a/b/c.log\nSize = 5\n\n";
    let out = parse_7z_list_output(input);
    assert_eq!(out.len(), 3);
    assert_eq!(out[0].name, "a/");
    assert!(out[0].is_dir);
    assert_eq!(out[0].size, 0);
    assert_eq!(out[0].modified_date, "");
    assert_eq!(out[1].name, "a/b/");
    assert!(out[1].is_dir);
    assert_eq!(out[1].size, 0);
    assert_eq!(out[1].modified_date, "");
    assert_eq!(out[2].name, "a/b/c.log");
    assert!(!out[2].is_dir);
    assert_eq!(out[2].size, 5);
    assert_eq!(out[2].type_label, "日志文件");
}

#[test]
fn backslash_paths() {
    let input = "Path = folder\\file.txt\nSize = 1\n\n";
    let out = parse_7z_list_output(input);
    assert_eq!(out.len(), 2);
    assert_eq!(out[0].name, "folder/");
    assert!(out[0].is_dir);
    assert_eq!(out[1].name, "folder/file.txt");
}

#[test]
fn duplicate_entries_first_wins() {
    let input = "Path = x.txt\nSize = 10\nModified = 2020-01-01\n\nPath = x.txt\nSize = 99\n\n";
    let out = parse_7z_list_output(input);
    assert_eq!(out.len(), 1);
    assert_eq!(out[0].name, "x.txt");
    assert_eq!(out[0].size, 10);
    assert_eq!(out[0].modified_date, "2020-01-01");
}

#[test]
fn noise_line_not_a_record() {
    let input = "7-Zip 23.01\nScanning the drive for archives:\n\nErrors: 1\n\nPath = ok.txt\nSize = 3\n\n";
    let out = parse_7z_list_output(input);
    assert_eq!(out.len(), 1);
    assert_eq!(out[0].name, "ok.txt");
    for item in &out {
        assert!(!item.name.contains("Errors:"));
    }
}

#[test]
fn noisy_path_value_is_filtered() {
    let input = "Path = Errors: 1\n\nPath = good.txt\n\n";
    let out = parse_7z_list_output(input);
    assert_eq!(out.len(), 1);
    assert_eq!(out[0].name, "good.txt");
}

#[test]
fn trailing_block_without_blank_line_is_kept() {
    let input = "Path = a.txt\nSize = 7";
    let out = parse_7z_list_output(input);
    assert_eq!(out.len(), 1);
    assert_eq!(out[0].name, "a.txt");
    assert_eq!(out[0].size, 7);
}

#[test]
fn empty_input_yields_no_records() {
    let out = parse_7z_list_output("");
    assert_eq!(out.len(), 0);
}

#[test]
fn empty_path_record_is_dropped() {
    let input = "Path = \nSize = 4\n\n";
    let out = parse_7z_list_output(input);
    assert_eq!(out.len(), 0);
}

#[test]
fn folder_marker_forces_trailing_slash() {
    let input = "Path = d\nFolder = +\n\n";
    let out = parse_7z_list_output(input);
    assert_eq!(out.len(), 1);
    assert_eq!(out[0].name, "d/");
    assert!(out[0].is_dir);
    assert_eq!(out[0].type_label, "文件夹");
}

#[test]
fn folder_minus_stays_file() {
    let input = "Path = d.bin\nFolder = -\n\n";
    let out = parse_7z_list_output(input);
    assert_eq!(out.len(), 1);
    assert!(!out[0].is_dir);
}

#[test]
fn unparsable_size_stays_zero() {
    let input = "Path = a.txt\nSize = notanumber\n\n";
    let out = parse_7z_list_output(input);
    assert_eq!(out.len(), 1);
    assert_eq!(out[0].size, 0);
}

#[test]
fn oversized_size_stays_zero() {
    let input = "Path = a.txt\nSize = 99999999999999999999999\n\n";
    let out = parse_7z_list_output(input);
    assert_eq!(out.len(), 1);
    assert_eq!(out[0].size, 0);
}

#[test]
fn size_with_plus_sign_parses() {
    let input = "Path = a.txt\nSize = +120\n\n";
    let out = parse_7z_list_output(input);
    assert_eq!(out.len(), 1);
    assert_eq!(out[0].size, 120);
}

#[test]
fn unknown_keys_are_ignored() {
    let input = "Path = a.txt\nAttributes = A\nCRC = DEADBEEF\nSize = 2\n\n";
    let out = parse_7z_list_output(input);
    assert_eq!(out.len(), 1);
    assert_eq!(out[0].size, 2);
}

#[test]
fn value_lines_before_any_path_are_ignored() {
    let input = "Size = 55\nFolder = +\n\nPath = a\n\n";
    let out = parse_7z_list_output(input);
    assert_eq!(out.len(), 1);
    assert_eq!(out[0].name, "a");
    assert_eq!(out[0].size, 0);
    assert!(!out[0].is_dir);
}

#[test]
fn surrounding_whitespace_is_trimmed() {
    let input = "  Path = a.txt  \r\n  Size = 9  \r\n\r\n";
    let out = parse_7z_list_output(input);
    assert_eq!(out.len(), 1);
    assert_eq!(out[0].name, "a.txt");
    assert_eq!(out[0].size, 9);
}

#[test]
fn directories_sort_before_files_and_lexicographically() {
    let input = "Path = z/zz.txt\nSize = 1\n\nPath = a.txt\nSize = 1\n\nPath = Z.txt\nSize = 1\n\nPath = b/\nFolder = +\n\n";
    let out = parse_7z_list_output(input);
    let names: Vec<&str> = out.iter().map(|f| f.name.as_str()).collect();
    assert_eq!(names, vec!["b/", "z/", "Z.txt", "a.txt", "z/zz.txt"]);
    assert!(out[0].is_dir && out[1].is_dir);
    assert!(!out[2].is_dir && !out[3].is_dir && !out[4].is_dir);
}

#[test]
fn normalization_applies_to_dedup_key() {
    let input = "Path = a\\b.txt\nSize = 1\n\nPath = a/b.txt\nSize = 2\n\n";
    let out = parse_7z_list_output(input);
    let files: Vec<&str> = out
        .iter()
        .filter(|f| !f.is_dir)
        .map(|f| f.name.as_str())
        .collect();
    assert_eq!(files, vec!["a/b.txt"]);
    let file = out.iter().find(|f| f.name == "a/b.txt").unwrap();
    assert_eq!(file.size, 1);
}

#[test]
fn ancestors_of_deep_files_share_synthesized_dirs() {
    let input = "Path = r/s/a.txt\nSize = 1\n\nPath = r/s/b.txt\nSize = 2\n\n";
    let out = parse_7z_list_output(input);
    let names: Vec<&str> = out.iter().map(|f| f.name.as_str()).collect();
    assert_eq!(names, vec!["r/", "r/s/", "r/s/a.txt", "r/s/b.txt"]);
}

#[test]
fn explicit_directory_size_is_zeroed() {
    let input = "Path = d\nSize = 5\nFolder = +\n\n";
    let out = parse_7z_list_output(input);
    assert_eq!(out.len(), 1);
    assert!(out[0].is_dir);
    assert_eq!(out[0].size, 0);
}

#[test]
fn every_directory_record_has_size_zero() {
    let input = "Path = big/\nSize = 4096\nFolder = +\n\nPath = big/file.txt\nSize = 17\n\nPath = other/deep/leaf.md\nSize = 3\n\n";
    let out = parse_7z_list_output(input);
    for item in &out {
        if item.is_dir {
            assert_eq!(item.size, 0);
        }
    }
    let leaf = out.iter().find(|f| f.name == "big/file.txt").unwrap();
    assert_eq!(leaf.size, 17);
}

#[test]
fn unicode_whitespace_is_trimmed() {
    let input = "\u{a0}Path = nb.txt\u{3000}\nSize = 2\n\n";
    let out = parse_7z_list_output(input);
    assert_eq!(out.len(), 1);
    assert_eq!(out[0].name, "nb.txt");
    assert_eq!(out[0].size, 2);
}

#[test]
fn non_ascii_paths_survive_intact() {
    let input = "Path = 文档/说明.txt\nSize = 8\n\n";
    let out = parse_7z_list_output(input);
    assert_eq!(out.len(), 2);
    assert_eq!(out[0].name, "文档/");
    assert!(out[0].is_dir);
    assert_eq!(out[1].name, "文档/说明.txt");
    assert_eq!(out[1].type_label, "文本文档");
}

#[test]
fn crlf_line_endings_are_accepted() {
    let input = "Path = w.txt\r\nSize = 11\r\nFolder = -\r\n\r\nPath = v/\r\nFolder = +\r\n\r\n";
    let out = parse_7z_list_output(input);
    assert_eq!(out.len(), 2);
    assert_eq!(out[0].name, "v/");
    assert_eq!(out[1].name, "w.txt");
    assert_eq!(out[1].size, 11);
}

#[test]
fn repeated_blank_lines_do_not_duplicate_blocks() {
    let input = "Path = only.txt\nSize = 1\n\n\n\nPath = second.txt\n\n";
    let out = parse_7z_list_output(input);
    assert_eq!(out.len(), 2);
    assert_eq!(out[0].name, "only.txt");
    assert_eq!(out[1].name, "second.txt");
}

#[test]
fn modified_is_passed_through_verbatim() {
    let input = "Path = a.txt\nModified = 2024-05-06 07:08:09\n\n";
    let out = parse_7z_list_output(input);
    assert_eq!(out[0].modified_date, "2024-05-06 07:08:09");
}
