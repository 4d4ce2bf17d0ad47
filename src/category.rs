//! Classification of files by extension.

use vstd::prelude::*;
use crate::paths::{same_path, file_name, file_name_of};

verus! {

/// File category, by extension.
#[derive(Clone, Copy, Debug, PartialEq, Eq, Structural)]
pub enum FileCategory {
    /// Images, video, audio.
    Media,
    /// Source files.
    Code,
    /// Compressed archives.
    Archive,
    /// Text, PDF and the like.
    Document,
    /// Hidden files.
    System,
    Other,
}

/// Input item for a radial layout.
#[derive(Clone, Copy, Debug)]
pub struct RadialItem {
    pub size_bytes: u64,
    pub index: usize,
    pub category: FileCategory,
}

pub open spec fn is_media_ext(e: Seq<char>) -> bool {
    e == "jpg"@ ||
        e == "jpeg"@ ||
        e == "png"@ ||
        e == "gif"@ ||
        e == "bmp"@ ||
        e == "svg"@ ||
        e == "webp"@ ||
        e == "mp4"@ ||
        e == "mov"@ ||
        e == "avi"@ ||
        e == "mkv"@ ||
        e == "flv"@ ||
        e == "wmv"@ ||
        e == "mp3"@ ||
        e == "wav"@ ||
        e == "flac"@ ||
        e == "aac"@ ||
        e == "ogg"@ ||
        e == "m4a"@
}

pub open spec fn is_code_ext(e: Seq<char>) -> bool {
    e == "rs"@ ||
        e == "py"@ ||
        e == "js"@ ||
        e == "ts"@ ||
        e == "jsx"@ ||
        e == "tsx"@ ||
        e == "cpp"@ ||
        e == "c"@ ||
        e == "h"@ ||
        e == "hpp"@ ||
        e == "java"@ ||
        e == "go"@ ||
        e == "rb"@ ||
        e == "php"@ ||
        e == "swift"@ ||
        e == "kt"@ ||
        e == "cs"@ ||
        e == "m"@ ||
        e == "mm"@ ||
        e == "html"@ ||
        e == "css"@ ||
        e == "scss"@ ||
        e == "sass"@ ||
        e == "vue"@ ||
        e == "svelte"@
}

pub open spec fn is_archive_ext(e: Seq<char>) -> bool {
    e == "zip"@ ||
        e == "tar"@ ||
        e == "gz"@ ||
        e == "bz2"@ ||
        e == "xz"@ ||
        e == "7z"@ ||
        e == "rar"@ ||
        e == "dmg"@ ||
        e == "iso"@
}

pub open spec fn is_document_ext(e: Seq<char>) -> bool {
    e == "pdf"@ ||
        e == "doc"@ ||
        e == "docx"@ ||
        e == "txt"@ ||
        e == "md"@ ||
        e == "rtf"@ ||
        e == "odt"@ ||
        e == "xls"@ ||
        e == "xlsx"@ ||
        e == "csv"@ ||
        e == "ppt"@ ||
        e == "pptx"@
}

fn media_ext(e: &str) -> (r: bool)
    ensures
        r == is_media_ext(e@),
{
    same_path(e, "jpg") ||
        same_path(e, "jpeg") ||
        same_path(e, "png") ||
        same_path(e, "gif") ||
        same_path(e, "bmp") ||
        same_path(e, "svg") ||
        same_path(e, "webp") ||
        same_path(e, "mp4") ||
        same_path(e, "mov") ||
        same_path(e, "avi") ||
        same_path(e, "mkv") ||
        same_path(e, "flv") ||
        same_path(e, "wmv") ||
        same_path(e, "mp3") ||
        same_path(e, "wav") ||
        same_path(e, "flac") ||
        same_path(e, "aac") ||
        same_path(e, "ogg") ||
        same_path(e, "m4a")
}

fn code_ext(e: &str) -> (r: bool)
    ensures
        r == is_code_ext(e@),
{
    same_path(e, "rs") ||
        same_path(e, "py") ||
        same_path(e, "js") ||
        same_path(e, "ts") ||
        same_path(e, "jsx") ||
        same_path(e, "tsx") ||
        same_path(e, "cpp") ||
        same_path(e, "c") ||
        same_path(e, "h") ||
        same_path(e, "hpp") ||
        same_path(e, "java") ||
        same_path(e, "go") ||
        same_path(e, "rb") ||
        same_path(e, "php") ||
        same_path(e, "swift") ||
        same_path(e, "kt") ||
        same_path(e, "cs") ||
        same_path(e, "m") ||
        same_path(e, "mm") ||
        same_path(e, "html") ||
        same_path(e, "css") ||
        same_path(e, "scss") ||
        same_path(e, "sass") ||
        same_path(e, "vue") ||
        same_path(e, "svelte")
}

fn archive_ext(e: &str) -> (r: bool)
    ensures
        r == is_archive_ext(e@),
{
    same_path(e, "zip") ||
        same_path(e, "tar") ||
        same_path(e, "gz") ||
        same_path(e, "bz2") ||
        same_path(e, "xz") ||
        same_path(e, "7z") ||
        same_path(e, "rar") ||
        same_path(e, "dmg") ||
        same_path(e, "iso")
}

fn document_ext(e: &str) -> (r: bool)
    ensures
        r == is_document_ext(e@),
{
    same_path(e, "pdf") ||
        same_path(e, "doc") ||
        same_path(e, "docx") ||
        same_path(e, "txt") ||
        same_path(e, "md") ||
        same_path(e, "rtf") ||
        same_path(e, "odt") ||
        same_path(e, "xls") ||
        same_path(e, "xlsx") ||
        same_path(e, "csv") ||
        same_path(e, "ppt") ||
        same_path(e, "pptx")
}

/// The category of a lower-case extension.
pub open spec fn ext_category(e: Seq<char>) -> FileCategory {
    if is_media_ext(e) {
        FileCategory::Media
    } else if is_code_ext(e) {
        FileCategory::Code
    } else if is_archive_ext(e) {
        FileCategory::Archive
    } else if is_document_ext(e) {
        FileCategory::Document
    } else {
        FileCategory::Other
    }
}

/// Index of the last `.` in `s[..i]`, or -1.
pub open spec fn last_dot(s: Seq<char>, i: int) -> int
    decreases i,
{
    if i <= 0 || i > s.len() {
        -1
    } else if s[i - 1] == '.' {
        i - 1
    } else {
        last_dot(s, i - 1)
    }
}

/// The extension of a path: what follows the last `.` of its file name,
/// unless that dot is the name's first character or there is none.
pub open spec fn extension_of(p: Seq<char>) -> Option<Seq<char>> {
    let name = file_name_of(p);
    let j = last_dot(name, name.len() as int);
    if j <= 0 { None } else { Some(name.subrange(j + 1, name.len() as int)) }
}

/// What `str::to_lowercase` returns for a string.
pub uninterp spec fn lower_of(s: Seq<char>) -> Seq<char>;

/// Relies on `str::to_lowercase`: the lower-case form of a string depends on
/// its characters alone.
#[verifier::external_body]
fn lowercase(s: &str) -> (r: String)
    ensures
        r@ == lower_of(s@),
{
    s.to_lowercase()
}

/// The category of a path.
pub open spec fn path_category(p: Seq<char>) -> FileCategory {
    match extension_of(p) {
        Some(e) => ext_category(lower_of(e)),
        None => {
            let name = file_name_of(p);
            if name.len() > 0 && name[0] == '.' { FileCategory::System } else { FileCategory::Other }
        },
    }
}

fn find_last_dot(s: &str) -> (r: (usize, bool))
    ensures
        r.1 ==> r.0 < s@.len() && last_dot(s@, s@.len() as int) == r.0 as int,
        !r.1 ==> last_dot(s@, s@.len() as int) == -1,
{
    let n = s.unicode_len();
    let mut i: usize = n;
    while i > 0
        invariant
            n == s@.len(),
            i <= n,
            last_dot(s@, n as int) == last_dot(s@, i as int),
        decreases i,
    {
        if s.get_char(i - 1) == '.' {
            return (i - 1, true);
        }
        i = i - 1;
    }
    (0, false)
}

impl FileCategory {
    /// The category of a lower-case extension.
    pub fn from_extension(ext: &str) -> (r: Self)
        ensures
            r == ext_category(ext@),
    {
        if media_ext(ext) {
            FileCategory::Media
        } else if code_ext(ext) {
            FileCategory::Code
        } else if archive_ext(ext) {
            FileCategory::Archive
        } else if document_ext(ext) {
            FileCategory::Document
        } else {
            FileCategory::Other
        }
    }

    /// Classify a file by its extension; a name that starts with `.` and has
    /// no other extension is a system file.
    pub fn from_path(path: &str) -> (r: Self)
        ensures
            r == path_category(path@),
    {
        let name = file_name(path);
        let (j, found) = find_last_dot(name.as_str());
        if found && j > 0 {
            let n = name.as_str().unicode_len();
            let ext = name.as_str().substring_char(j + 1, n);
            let lower = lowercase(ext);
            FileCategory::from_extension(lower.as_str())
        } else {
            let n = name.as_str().unicode_len();
            if n > 0 && name.as_str().get_char(0) == '.' {
                FileCategory::System
            } else {
                FileCategory::Other
            }
        }
    }
}

} // verus!
