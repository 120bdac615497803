//! Type classification: a human-readable label for every record.
//!
//! Directories carry the directory label. Files are classified by their
//! extension through a fixed mapping keyed by the lower-cased extension;
//! unmapped extensions fall back to a generic label built from the
//! upper-cased extension, and files without an extension get a generic
//! file label. Case mapping is Unicode, through the standard library's
//! `str::to_lowercase` and `str::to_uppercase`.

use vstd::prelude::*;
use crate::chars::{last_index_of, find_last, subrange_vec, eq_lit, chars_to_string, str_to_chars};
use vstd::string::StringExecFns;

verus! {

/// `s` without any trailing `/` characters.
pub open spec fn strip_trailing_slashes(s: Seq<char>) -> Seq<char>
    decreases s.len(),
{
    if s.len() > 0 && s.last() == '/' {
        strip_trailing_slashes(s.drop_last())
    } else {
        s
    }
}

/// The file-name part of a path: what follows the last `/`, trailing
/// slashes ignored.
pub open spec fn file_name_of(p: Seq<char>) -> Seq<char> {
    let q = strip_trailing_slashes(p);
    q.skip(last_index_of(q, '/') + 1)
}

/// The extension of a path: what follows the last `.` of the file name,
/// unless that dot is absent or starts the file name, or the file name
/// is the current- or parent-directory name.
pub open spec fn ext_of(p: Seq<char>) -> Option<Seq<char>> {
    let f = file_name_of(p);
    if f == seq!['.'] || f == seq!['.', '.'] {
        None
    } else {
        let di = last_index_of(f, '.');
        if di > 0 {
            Some(f.skip(di + 1))
        } else {
            None
        }
    }
}

/// What `str::to_lowercase` returns for a string with these characters.
pub uninterp spec fn lower_of(s: Seq<char>) -> Seq<char>;

/// What `str::to_uppercase` returns for a string with these characters.
pub uninterp spec fn upper_of(s: Seq<char>) -> Seq<char>;

/// Relies on `str::to_lowercase`: the Unicode lowercase equivalent of
/// the string, a function of its characters alone.
#[verifier::external_body]
fn to_lowercase(s: &str) -> (r: String)
    ensures
        r@ == lower_of(s@),
{
    s.to_lowercase()
}

/// Relies on `str::to_uppercase`: the Unicode uppercase equivalent of
/// the string, a function of its characters alone.
#[verifier::external_body]
fn to_uppercase(s: &str) -> (r: String)
    ensures
        r@ == upper_of(s@),
{
    s.to_uppercase()
}

/// The fixed extension table, matched on the lower-cased extension; an
/// unmapped extension yields the upper-cased raw extension followed by
/// the generic file suffix.
pub open spec fn label_for_ext(raw: Seq<char>) -> Seq<char> {
    let e = lower_of(raw);
    if e == "txt"@ { "文本文档"@ }
    else if e == "jpg"@ || e == "jpeg"@ || e == "png"@ || e == "gif"@ || e == "bmp"@ { "图片"@ }
    else if e == "pdf"@ { "PDF文档"@ }
    else if e == "doc"@ || e == "docx"@ { "Word文档"@ }
    else if e == "xls"@ || e == "xlsx"@ { "Excel表格"@ }
    else if e == "ppt"@ || e == "pptx"@ { "PowerPoint演示文稿"@ }
    else if e == "zip"@ || e == "rar"@ || e == "7z"@ || e == "tar"@ || e == "gz"@
        || e == "bz2"@ { "压缩文件"@ }
    else if e == "exe"@ || e == "msi"@ { "可执行文件"@ }
    else if e == "dll"@ { "应用扩展"@ }
    else if e == "ini"@ || e == "cfg"@ || e == "conf"@ || e == "json"@ || e == "xml"@
        || e == "yaml"@ || e == "toml"@ { "配置文件"@ }
    else if e == "log"@ { "日志文件"@ }
    else if e == "md"@ { "Markdown文件"@ }
    else if e == "html"@ || e == "htm"@ { "HTML文档"@ }
    else if e == "css"@ { "样式表"@ }
    else if e == "js"@ || e == "ts"@ { "脚本文件"@ }
    else if e == "py"@ { "Python脚本"@ }
    else if e == "java"@ { "Java源文件"@ }
    else if e == "c"@ || e == "cpp"@ || e == "h"@ { "C/C++源文件"@ }
    else if e == "cs"@ { "C#源文件"@ }
    else if e == "sh"@ { "Shell脚本"@ }
    else if e == "bat"@ { "批处理脚本"@ }
    else if e == "mp3"@ || e == "wav"@ || e == "ogg"@ || e == "flac"@ { "音频文件"@ }
    else if e == "mp4"@ || e == "mkv"@ || e == "avi"@ || e == "mov"@ || e == "wmv"@ { "视频文件"@ }
    else if e == "iso"@ { "镜像文件"@ }
    else { upper_of(raw) + "文件"@ }
}

/// The type label of a record with the given path and directory flag.
pub open spec fn label_of(path: Seq<char>, is_dir: bool) -> Seq<char> {
    if is_dir {
        "文件夹"@
    } else {
        match ext_of(path) {
            Some(raw) => label_for_ext(raw),
            None => "File"@,
        }
    }
}

/// The extension of the path held in `v`, when it has one.
#[verifier::loop_isolation(false)]
fn extension_of(v: &Vec<char>) -> (r: Option<Vec<char>>)
    ensures
        match r {
            Some(e) => ext_of(v@) == Some(e@),
            None => ext_of(v@) is None,
        },
{
    let mut e: usize = v.len();
    proof {
        assert(v@.take(v@.len() as int) =~= v@);
    }
    while e > 0 && v[e - 1] == '/'
        invariant
            e <= v@.len(),
            strip_trailing_slashes(v@) == strip_trailing_slashes(v@.take(e as int)),
        decreases e,
    {
        proof {
            assert(v@.take(e as int).drop_last() =~= v@.take(e as int - 1));
            assert(v@.take(e as int).last() == v@[e - 1]);
        }
        e = e - 1;
    }
    proof {
        if e > 0 {
            assert(v@.take(e as int).last() == v@[e - 1]);
        }
        assert(strip_trailing_slashes(v@) == v@.take(e as int));
    }
    let q: Vec<char> = subrange_vec(v, 0, e);
    let si: Option<usize> = find_last(&q, '/');
    proof {
        crate::chars::lemma_last_index_of(q@, '/');
    }
    let fstart: usize = match si {
        Some(j) => j + 1,
        None => 0,
    };
    let f: Vec<char> = subrange_vec(&q, fstart, e);
    proof {
        assert(f@ =~= q@.skip(last_index_of(q@, '/') + 1));
        assert(f@ == file_name_of(v@));
    }
    let fl: usize = f.len();
    if fl == 1 && f[0] == '.' {
        proof {
            assert(f@ =~= seq!['.']);
        }
        return None;
    }
    if fl == 2 && f[0] == '.' && f[1] == '.' {
        proof {
            assert(f@ =~= seq!['.', '.']);
        }
        return None;
    }
    let di: Option<usize> = find_last(&f, '.');
    proof {
        crate::chars::lemma_last_index_of(f@, '.');
    }
    match di {
        Some(j) => {
            if j > 0 {
                let ext: Vec<char> = subrange_vec(&f, j + 1, f.len());
                proof {
                    assert(ext@ =~= f@.skip(j + 1));
                }
                Some(ext)
            } else {
                None
            }
        },
        None => None,
    }
}

/// The type label, as a string, of a record with the given path
/// characters and directory flag.
pub fn label_for(path: &Vec<char>, is_dir: bool) -> (r: String)
    ensures
        r@ == label_of(path@, is_dir),
{
    if is_dir {
        return String::from_str("文件夹");
    }
    let ext: Option<Vec<char>> = extension_of(path);
    match ext {
        None => String::from_str("File"),
        Some(raw) => {
            let raw_s: String = chars_to_string(&raw);
            let low_s: String = to_lowercase(raw_s.as_str());
            let e: Vec<char> = str_to_chars(low_s.as_str());
            if eq_lit(&e, "txt") { String::from_str("文本文档") }
            else if eq_lit(&e, "jpg") || eq_lit(&e, "jpeg") || eq_lit(&e, "png")
                || eq_lit(&e, "gif") || eq_lit(&e, "bmp") { String::from_str("图片") }
            else if eq_lit(&e, "pdf") { String::from_str("PDF文档") }
            else if eq_lit(&e, "doc") || eq_lit(&e, "docx") { String::from_str("Word文档") }
            else if eq_lit(&e, "xls") || eq_lit(&e, "xlsx") { String::from_str("Excel表格") }
            else if eq_lit(&e, "ppt") || eq_lit(&e, "pptx") {
                String::from_str("PowerPoint演示文稿")
            }
            else if eq_lit(&e, "zip") || eq_lit(&e, "rar") || eq_lit(&e, "7z")
                || eq_lit(&e, "tar") || eq_lit(&e, "gz") || eq_lit(&e, "bz2") {
                String::from_str("压缩文件")
            }
            else if eq_lit(&e, "exe") || eq_lit(&e, "msi") { String::from_str("可执行文件") }
            else if eq_lit(&e, "dll") { String::from_str("应用扩展") }
            else if eq_lit(&e, "ini") || eq_lit(&e, "cfg") || eq_lit(&e, "conf")
                || eq_lit(&e, "json") || eq_lit(&e, "xml") || eq_lit(&e, "yaml")
                || eq_lit(&e, "toml") { String::from_str("配置文件") }
            else if eq_lit(&e, "log") { String::from_str("日志文件") }
            else if eq_lit(&e, "md") { String::from_str("Markdown文件") }
            else if eq_lit(&e, "html") || eq_lit(&e, "htm") { String::from_str("HTML文档") }
            else if eq_lit(&e, "css") { String::from_str("样式表") }
            else if eq_lit(&e, "js") || eq_lit(&e, "ts") { String::from_str("脚本文件") }
            else if eq_lit(&e, "py") { String::from_str("Python脚本") }
            else if eq_lit(&e, "java") { String::from_str("Java源文件") }
            else if eq_lit(&e, "c") || eq_lit(&e, "cpp") || eq_lit(&e, "h") {
                String::from_str("C/C++源文件")
            }
            else if eq_lit(&e, "cs") { String::from_str("C#源文件") }
            else if eq_lit(&e, "sh") { String::from_str("Shell脚本") }
            else if eq_lit(&e, "bat") { String::from_str("批处理脚本") }
            else if eq_lit(&e, "mp3") || eq_lit(&e, "wav") || eq_lit(&e, "ogg")
                || eq_lit(&e, "flac") { String::from_str("音频文件") }
            else if eq_lit(&e, "mp4") || eq_lit(&e, "mkv") || eq_lit(&e, "avi")
                || eq_lit(&e, "mov") || eq_lit(&e, "wmv") { String::from_str("视频文件") }
            else if eq_lit(&e, "iso") { String::from_str("镜像文件") }
            else {
                let mut s: String = to_uppercase(raw_s.as_str());
                s.append("文件");
                s
            }
        },
    }
}

} // verus!
