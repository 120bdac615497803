//! Tests of the lower-level building blocks through their public
//! functions.

use soarzip::chars::{str_to_chars, chars_to_string, eq_lit, starts_with_lit, contains_lit,
    find_last};
use soarzip::classify::label_for;
use soarzip::logging::{log_info, log_error};
use soarzip::parser::parse_entry_blocks;
use soarzip::text::{trimmed, normalize_chars, parse_u64_chars, split_lines};
use soarzip::tree::reconstruct;

fn label_of_str(path: &str, is_dir: bool) -> String {
    label_for(&str_to_chars(path), is_dir)
}

#[test]
fn chars_round_trip() {
    let v = str_to_chars("héllo/世界.txt");
    assert_eq!(chars_to_string(&v), "héllo/世界.txt");
}

#[test]
fn char_searches() {
    let v = str_to_chars("Path = a/b");
    assert!(starts_with_lit(&v, "Path = "));
    assert!(!starts_with_lit(&v, "Size = "));
    assert!(contains_lit(&v, "= a"));
    assert!(!contains_lit(&v, "zz"));
    assert!(eq_lit(&str_to_chars("abc"), "abc"));
    assert!(!eq_lit(&str_to_chars("abc"), "abd"));
    assert_eq!(find_last(&str_to_chars("a/b/c"), '/'), Some(3));
    assert_eq!(find_last(&str_to_chars("abc"), '/'), None);
}

#[test]
fn trimming_and_normalizing() {
    let t = trimmed(&str_to_chars("  a b \t\r\n"));
    assert_eq!(chars_to_string(&t), "a b");
    let n = normalize_chars(&str_to_chars("a\\b\\c"));
    assert_eq!(chars_to_string(&n), "a/b/c");
    let n2 = normalize_chars(&n);
    assert_eq!(chars_to_string(&n2), "a/b/c");
}

#[test]
fn splitting_lines() {
    let lines = split_lines(&str_to_chars("a\nbb\n\nc"));
    let strs: Vec<String> = lines.iter().map(chars_to_string).collect();
    assert_eq!(strs, vec!["a", "bb", "", "c"]);
}

#[test]
fn decimal_parsing() {
    assert_eq!(parse_u64_chars(&str_to_chars("0")), Some(0));
    assert_eq!(parse_u64_chars(&str_to_chars("120")), Some(120));
    assert_eq!(parse_u64_chars(&str_to_chars("+7")), Some(7));
    assert_eq!(parse_u64_chars(&str_to_chars("18446744073709551615")), Some(u64::MAX));
    assert_eq!(parse_u64_chars(&str_to_chars("18446744073709551616")), None);
    assert_eq!(parse_u64_chars(&str_to_chars("")), None);
    assert_eq!(parse_u64_chars(&str_to_chars("+")), None);
    assert_eq!(parse_u64_chars(&str_to_chars("12a")), None);
    assert_eq!(parse_u64_chars(&str_to_chars("-5")), None);
    assert_eq!(parse_u64_chars(&str_to_chars(" 5")), None);
}

#[test]
fn extension_labels() {
    assert_eq!(label_of_str("x/readme.txt", false), "文本文档");
    assert_eq!(label_of_str("photo.JPG", false), "图片");
    assert_eq!(label_of_str("book.pdf", false), "PDF文档");
    assert_eq!(label_of_str("a.docx", false), "Word文档");
    assert_eq!(label_of_str("t.xlsx", false), "Excel表格");
    assert_eq!(label_of_str("s.pptx", false), "PowerPoint演示文稿");
    assert_eq!(label_of_str("a.7z", false), "压缩文件");
    assert_eq!(label_of_str("setup.exe", false), "可执行文件");
    assert_eq!(label_of_str("lib.dll", false), "应用扩展");
    assert_eq!(label_of_str("conf.toml", false), "配置文件");
    assert_eq!(label_of_str("run.log", false), "日志文件");
    assert_eq!(label_of_str("doc.md", false), "Markdown文件");
    assert_eq!(label_of_str("page.htm", false), "HTML文档");
    assert_eq!(label_of_str("style.css", false), "样式表");
    assert_eq!(label_of_str("app.ts", false), "脚本文件");
    assert_eq!(label_of_str("tool.py", false), "Python脚本");
    assert_eq!(label_of_str("Main.java", false), "Java源文件");
    assert_eq!(label_of_str("core.cpp", false), "C/C++源文件");
    assert_eq!(label_of_str("app.cs", false), "C#源文件");
    assert_eq!(label_of_str("run.sh", false), "Shell脚本");
    assert_eq!(label_of_str("run.bat", false), "批处理脚本");
    assert_eq!(label_of_str("song.flac", false), "音频文件");
    assert_eq!(label_of_str("clip.mkv", false), "视频文件");
    assert_eq!(label_of_str("disk.iso", false), "镜像文件");
    assert_eq!(label_of_str("data.xyz", false), "XYZ文件");
    assert_eq!(label_of_str("f.тхт", false), "ТХТ文件");
    assert_eq!(label_of_str("m.TxT", false), "文本文档");
    assert_eq!(label_of_str("README", false), "File");
    assert_eq!(label_of_str(".hidden", false), "File");
    assert_eq!(label_of_str(".hidden.txt", false), "文本文档");
    assert_eq!(label_of_str("a/..", false), "File");
    assert_eq!(label_of_str("a/.", false), "File");
    assert_eq!(label_of_str("anything", true), "文件夹");
}

#[test]
fn parser_emits_one_entry_per_path_line() {
    let entries = parse_entry_blocks("Path = a\nSize = 1\n\nPath = b\nFolder = +\n\nPath = c");
    assert_eq!(entries.len(), 3);
    assert_eq!(entries[0].path, "a");
    assert_eq!(entries[0].size, 1);
    assert!(!entries[0].is_dir);
    assert_eq!(entries[1].path, "b/");
    assert!(entries[1].is_dir);
    assert_eq!(entries[2].path, "c");
}

#[test]
fn parser_keeps_source_order_and_resets_fields() {
    let entries = parse_entry_blocks(
        "Path = one\nSize = 5\nModified = m1\n\nPath = two\n\n",
    );
    assert_eq!(entries.len(), 2);
    assert_eq!(entries[1].path, "two");
    assert_eq!(entries[1].size, 0);
    assert_eq!(entries[1].modified, "");
}

#[test]
fn reconstruct_orders_and_backfills() {
    let entries = parse_entry_blocks("Path = p/q.txt\nSize = 3\n\n");
    let items = reconstruct(entries);
    let names: Vec<&str> = items.iter().map(|f| f.name.as_str()).collect();
    assert_eq!(names, vec!["p/", "p/q.txt"]);
}

#[test]
fn logging_is_a_no_op() {
    log_info("nothing happens");
    log_error("nothing happens either");
}
