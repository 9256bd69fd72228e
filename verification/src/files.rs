use vstd::prelude::*;
use vstd::utf8::encode_utf8;
use vstd::string::StringSliceAdditionalSpecFns;
use crate::records::{opt_chars, or_else, path_extension, path_file_stem, path_parent};
use crate::text::{append_chars, has_prefix, str_chars, string_from_chars};

verus! {

/// What happens to the files of removed records.
#[derive(Debug, Clone, PartialEq, Eq)]
pub enum Delete {
    Keep,
    Trash,
    Delete,
    Archive(String),
}

/// The platform that the application runs on, as far as file paths go.
#[derive(Debug, Clone, Copy, PartialEq, Eq, Structural)]
pub enum Platform {
    Windows,
    MacOs,
    Other,
}

/// `base` joined with `rel`, as `Path::join` builds it.
pub uninterp spec fn path_join(base: Seq<char>, rel: Seq<char>) -> Seq<char>;

/// `Path::join`: `rel` appended to `base` with a separator where one is
/// needed, or `rel` alone where it is absolute; the contract names the
/// result as `path_join`.
#[verifier::external_body]
fn join_path(base: &str, rel: &str) -> (r: String)
    ensures
        r@ == path_join(base@, rel@),
{
    std::path::Path::new(base).join(rel).to_string_lossy().into_owned()
}

/// A path as text. The library's paths are text already, always valid
/// Unicode, so it is the path itself.
pub fn get_str(path: &str) -> (r: &str)
    ensures
        r@ == path@,
{
    path
}

/// The path of a file below an archive folder: on Windows without its drive
/// (the first two bytes, where the second character is `:` and the path has
/// three bytes or more), on macOS without `/Volumes` at its start; then
/// without leading `/` and `\`.
pub open spec fn archive_relative(path: Seq<char>, platform: Platform) -> Seq<char> {
    let p = if platform == Platform::Windows {
        if encode_utf8(path).len() >= 3 && path.len() >= 2 && path[1] == ':' {
            if (path[0] as u32) < 0x80 {
                path.skip(2)
            } else {
                path.skip(1)
            }
        } else {
            path
        }
    } else if platform == Platform::MacOs && has_prefix(path, "/Volumes/"@) {
        path.skip(8)
    } else {
        path
    };
    trim_start_seps(p)
}

/// `s` without its leading run of `/` and `\`.
pub open spec fn trim_start_seps(s: Seq<char>) -> Seq<char>
    decreases s.len(),
{
    if s.len() > 0 && (s[0] == '/' || s[0] == '\\') {
        trim_start_seps(s.drop_first())
    } else {
        s
    }
}

/// Whether cutting the drive from a Windows path would cut a character in
/// two, on which the cut panics.
pub open spec fn drive_cut_panics(path: Seq<char>, platform: Platform) -> bool {
    platform == Platform::Windows && path.len() >= 2 && path[1] == ':' && (path[0] as u32) >= 0x800
}

fn trim_start_seps_exec(v: &Vec<char>, from: usize) -> (r: Vec<char>)
    requires
        from <= v@.len(),
    ensures
        r@ == trim_start_seps(v@.skip(from as int)),
{
    let mut i = from;
    while i < v.len() && (v[i] == '/' || v[i] == '\\')
        invariant
            from <= i <= v@.len(),
            trim_start_seps(v@.skip(from as int)) == trim_start_seps(v@.skip(i as int)),
        decreases v@.len() - i,
    {
        assert(v@.skip(i as int).drop_first() =~= v@.skip(i + 1));
        i = i + 1;
    }
    let t = crate::text::slice_from(v, i, v.len());
    assert(t@ =~= v@.skip(i as int));
    t
}

/// The path of a file below the archive folder, before it is joined to it.
pub fn archive_relative_path(path: &str, platform: Platform) -> (r: String)
    requires
        !drive_cut_panics(path@, platform),
    ensures
        r@ == archive_relative(path@, platform),
{
    let v = str_chars(path);
    proof {
        reveal_strlit("/Volumes/");
    }
    let bytes = path.as_bytes();
    let blen = bytes.len();
    assert(blen == encode_utf8(path@).len());
    let mut start: usize = 0;
    if platform == Platform::Windows {
        if blen >= 3 && v.len() >= 2 && v[1] == ':' {
            let c0 = #[verifier::truncate] (v[0] as u32);
            if c0 < 0x80 {
                start = 2;
            } else {
                start = 1;
            }
        }
    } else if platform == Platform::MacOs {
        let pre = str_chars("/Volumes/");
        if crate::text::starts_with(&v, &pre) {
            start = 8;
        }
    }
    assert(v@.skip(0) =~= v@);
    assert(archive_relative(path@, platform) == trim_start_seps(v@.skip(start as int)));
    let t = trim_start_seps_exec(&v, start);
    string_from_chars(&t)
}

/// Where a file is moved in the archive folder.
pub fn archive_destination(path: &str, archive_folder: &str, platform: Platform) -> (r: String)
    requires
        !drive_cut_panics(path@, platform),
    ensures
        r@ == path_join(archive_folder@, archive_relative(path@, platform)),
{
    let rel = archive_relative_path(path, platform);
    join_path(archive_folder, rel.as_str())
}

/// The temporary file beside `input` into which a conversion writes: the
/// same folder (`.` where there is none), named `<stem>-temp.<extension>`.
pub open spec fn temp_path_of(input: Seq<char>) -> Seq<char> {
    path_join(
        or_else(path_parent(input), "."@),
        or_else(path_file_stem(input), Seq::empty()) + "-temp."@ + or_else(
            path_extension(input),
            Seq::empty(),
        ),
    )
}

/// The temporary file beside `input` into which a conversion writes.
pub fn get_temp_file_path(input: &str) -> (r: String)
    ensures
        r@ == temp_path_of(input@),
{
    proof {
        reveal_strlit("");
    }
    let parent = match crate::records::parent_of(input) {
        Some(p) => p,
        None => ".".to_string(),
    };
    let stem = match crate::records::file_stem_of(input) {
        Some(s) => s,
        None => String::new(),
    };
    let ext = match crate::records::extension_of(input) {
        Some(e) => e,
        None => String::new(),
    };
    let mut name: Vec<char> = Vec::new();
    append_chars(&mut name, stem.as_str());
    append_chars(&mut name, "-temp.");
    append_chars(&mut name, ext.as_str());
    let n = string_from_chars(&name);
    join_path(parent.as_str(), n.as_str())
}

/// A file path as it is shown and passed on: the path's own text.
pub fn normalized_path(file: &str) -> (r: String)
    ensures
        r@ == file@,
{
    file.to_string()
}

/// Whether cutting the drive from a Windows path would panic.
pub fn drive_cut_panics_exec(path: &str, platform: Platform) -> (b: bool)
    ensures
        b == drive_cut_panics(path@, platform),
{
    let v = str_chars(path);
    platform == Platform::Windows && v.len() >= 2 && v[1] == ':' && (#[verifier::truncate] (v[0] as u32)) >= 0x800
}

} // verus!
