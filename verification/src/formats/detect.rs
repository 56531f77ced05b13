//! File format, told from the extension of a path.

use vstd::prelude::*;
use vstd::string::StringExecFns;
use crate::models::{text_opt_view, FileFormat};
use crate::text::{chars_of, has_substring, push_char};

verus! {

/// `c` in lowercase if it is an ASCII capital, else `c`.
pub open spec fn ascii_lower(c: char) -> char {
    if 'A' <= c <= 'Z' {
        ((c as u32 + 32) as u8) as char
    } else {
        c
    }
}

/// `s` with its ASCII capitals in lowercase.
pub open spec fn ascii_lowercase(s: Seq<char>) -> Seq<char> {
    s.map_values(|c: char| ascii_lower(c))
}

/// The format that the extension `ext` stands for, whatever its case.
pub open spec fn format_of_extension(ext: Seq<char>) -> FileFormat {
    let e = ascii_lowercase(ext);
    if e == "jsonl"@ {
        FileFormat::Jsonl
    } else if e == "csv"@ {
        FileFormat::Csv
    } else if e == "json"@ {
        FileFormat::Json
    } else if e == "parquet"@ {
        FileFormat::Parquet
    } else {
        FileFormat::Unknown
    }
}

/// Whether `path` is a plain file name: it holds no `/`, no `\` and no
/// `:`, so that on no platform it splits into several components or
/// starts with a prefix.
pub open spec fn is_plain_name(path: Seq<char>) -> bool {
    forall|i: int|
        0 <= i < path.len() ==> #[trigger] path[i] != '/' && path[i] != '\\' && path[i] != ':'
}

/// The index of the last dot among the first `n` characters of `name`, or
/// -1 where there is none.
pub open spec fn last_dot(name: Seq<char>, n: int) -> int
    decreases n,
{
    if n <= 0 || n > name.len() {
        -1
    } else if name[n - 1] == '.' {
        n - 1
    } else {
        last_dot(name, n - 1)
    }
}

/// The extension of a plain file name: the text after its last dot. There
/// is none where the name holds no dot, where its only dot is its first
/// character, and for the name `..`, which is no file name.
pub open spec fn plain_extension(name: Seq<char>) -> Option<Seq<char>> {
    let dot = last_dot(name, name.len() as int);
    if dot <= 0 || name == seq!['.', '.'] {
        None
    } else {
        Some(name.subrange(dot + 1, name.len() as int))
    }
}

/// The format that the extension of a plain file name stands for.
pub open spec fn plain_format(name: Seq<char>) -> FileFormat {
    match plain_extension(name) {
        Some(ext) => format_of_extension(ext),
        None => FileFormat::Unknown,
    }
}

/// Calls `Path::extension` and `OsStr::to_str`: the extension of the last
/// component of `path`, if it has one that is valid Unicode. How a path
/// splits into components depends on the platform; on every platform the
/// extension is the part of the file name after its last dot, so it stands
/// in the path behind a dot. A path without `/`, `\` and `:` is one
/// component on every platform, and its extension is what the rule of
/// `Path::extension` gives for that name: the text after the last dot, and
/// none without a dot, with the first character as the only dot, or for
/// `..`.
#[verifier::external_body]
pub(crate) fn path_extension(path: &str) -> (ext: Option<String>)
    ensures
        ext matches Some(e) ==> has_substring(path@, seq!['.'] + e@),
        is_plain_name(path@) ==> text_opt_view(ext) == plain_extension(path@),
{
    std::path::Path::new(path).extension().and_then(|e| e.to_str()).map(|e| e.to_string())
}

/// The format that an extension stands for.
pub fn format_for_extension(ext: &str) -> (format: FileFormat)
    ensures
        format == format_of_extension(ext@),
{
    let chars = chars_of(ext);
    let mut lower = String::new();
    let mut i: usize = 0;
    while i < chars.len()
        invariant
            i <= chars.len(),
            chars@ == ext@,
            lower@ == ascii_lowercase(ext@).take(i as int),
        decreases chars.len() - i,
    {
        let c = chars[i];
        let l = if 'A' <= c && c <= 'Z' {
            ((c as u32 + 32) as u8) as char
        } else {
            c
        };
        push_char(&mut lower, l);
        assert(lower@ =~= ascii_lowercase(ext@).take(i + 1));
        i += 1;
    }
    assert(ascii_lowercase(ext@).take(chars.len() as int) =~= ascii_lowercase(ext@));
    if lower == String::from_str("jsonl") {
        FileFormat::Jsonl
    } else if lower == String::from_str("csv") {
        FileFormat::Csv
    } else if lower == String::from_str("json") {
        FileFormat::Json
    } else if lower == String::from_str("parquet") {
        FileFormat::Parquet
    } else {
        FileFormat::Unknown
    }
}

/// Whether `path` holds, behind a dot, an extension that stands for
/// `format`.
pub open spec fn names_format(path: Seq<char>, format: FileFormat) -> bool {
    exists|ext: Seq<char>|
        has_substring(path, seq!['.'] + ext) && format == format_of_extension(ext)
}

/// Whether `path` holds, behind a dot, an extension that stands for a
/// format that can be opened.
pub open spec fn names_supported(path: Seq<char>) -> bool {
    exists|format: FileFormat| format != FileFormat::Unknown && names_format(path, format)
}

/// The format of the file at `path`, judged by the path's extension alone:
/// the format that [`format_for_extension`] gives for the extension that
/// the platform finds in the path, and `Unknown` when it finds none. For a
/// plain file name that is the format of the text after its last dot. A
/// format is only ever detected from an extension that stands in the path.
pub fn detect_format(path: &str) -> (format: FileFormat)
    ensures
        is_plain_name(path@) ==> format == plain_format(path@),
        format != FileFormat::Unknown ==> names_format(path@, format),
{
    match path_extension(path) {
        Some(ext) => format_for_extension(ext.as_str()),
        None => FileFormat::Unknown,
    }
}

/// Whether the file at `path` has a format that can be opened. For a plain
/// file name that is whether its extension stands for a known format.
pub fn is_supported_path(path: &str) -> (r: bool)
    ensures
        is_plain_name(path@) ==> r == (plain_format(path@) != FileFormat::Unknown),
        r ==> exists|format: FileFormat|
            format != FileFormat::Unknown && names_format(path@, format),
{
    !matches!(detect_format(path), FileFormat::Unknown)
}

} // verus!
