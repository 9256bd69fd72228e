use vstd::prelude::*;
use crate::records::opt_chars;
use crate::text::{
    find_char, find_first, has_prefix, lowercase, replace_char, replace_chars, slice_from,
    starts_with, str_chars, string_from_chars, strip_prefix, to_lowercase, trim_start_char,
    trim_start_chars,
};

verus! {

/// The root of a Windows drive, such as `F:\`.
pub open spec fn drive_root(d: char) -> Seq<char> {
    seq![d, ':', '\\']
}

/// A macOS path with its separators turned into backslashes and its leading
/// backslashes removed.
pub open spec fn windows_normalized(p: Seq<char>) -> Seq<char> {
    trim_start_char(replace_char(p, '/', '\\'), '\\')
}

/// `s` without the prefix `a`, or failing that without the prefix `b`.
pub open spec fn strip_either(s: Seq<char>, a: Seq<char>, b: Seq<char>) -> Option<Seq<char>> {
    match strip_prefix(s, a) {
        Some(r) => Some(r),
        None => strip_prefix(s, b),
    }
}

/// The Windows path that a macOS path denotes on drive `d`: a path under
/// `/Volumes/<name>/` is taken relative to the root of the drive, any other
/// path is put under the drive root as it is.
pub open spec fn converted_path(p: Seq<char>, d: char) -> Option<Seq<char>> {
    let n = windows_normalized(p);
    if has_prefix(lowercase(n), "volumes\\"@) {
        match strip_either(n, "volumes\\"@, "Volumes\\"@) {
            None => None,
            Some(w) => match find_char(w, '\\') {
                Some(i) => Some(drive_root(d) + w.skip(i + 1)),
                None => Some(drive_root(d)),
            },
        }
    } else {
        Some(drive_root(d) + n)
    }
}

proof fn lemma_trim_is_suffix(s: Seq<char>, c: char)
    ensures
        trim_start_char(s, c).len() <= s.len(),
        trim_start_char(s, c) == s.skip(s.len() - trim_start_char(s, c).len()),
    decreases s.len(),
{
    if s.len() > 0 && s[0] == c {
        lemma_trim_is_suffix(s.drop_first(), c);
        let t = trim_start_char(s.drop_first(), c);
        assert(s.drop_first().skip(s.len() - 1 - t.len()) =~= s.skip(s.len() - t.len()));
    } else {
        assert(s.skip(0) =~= s);
    }
}

proof fn lemma_normalized_has_no_slash(p: Seq<char>)
    ensures
        forall|k: int| 0 <= k < windows_normalized(p).len() ==> #[trigger] windows_normalized(p)[k] != '/',
{
    let r = replace_char(p, '/', '\\');
    lemma_trim_is_suffix(r, '\\');
    let n = windows_normalized(p);
    assert forall|k: int| 0 <= k < n.len() implies #[trigger] n[k] != '/' by {
        assert(n[k] == r[r.len() - n.len() + k]);
    }
}

/// Law: converting a macOS path onto drive `d` fails only on a `Volumes`
/// prefix written in a case that neither `volumes` nor `Volumes` matches.
/// Every converted path starts at the root of `d`, holds no `/`, and below
/// the root holds a tail of the path with its separators turned into `\`
/// and its leading separators removed; a path outside `/Volumes/` keeps all
/// of that text, under the drive root.
pub proof fn lemma_conversion_shape(p: Seq<char>, d: char)
    ensures
        converted_path(p, d) is None <==> (has_prefix(lowercase(windows_normalized(p)), "volumes\\"@)
            && !has_prefix(windows_normalized(p), "volumes\\"@) && !has_prefix(
            windows_normalized(p),
            "Volumes\\"@,
        )),
        converted_path(p, d) matches Some(w) ==> {
            &&& has_prefix(w, drive_root(d))
            &&& forall|k: int| 3 <= k < w.len() ==> #[trigger] w[k] != '/'
            &&& w.len() - 3 <= windows_normalized(p).len()
            &&& w.skip(3) == windows_normalized(p).skip(windows_normalized(p).len() - (w.len() - 3))
        },
        !has_prefix(lowercase(windows_normalized(p)), "volumes\\"@) ==> converted_path(p, d) == Some(
            drive_root(d) + windows_normalized(p),
        ),
{
    let n = windows_normalized(p);
    lemma_normalized_has_no_slash(p);
    if has_prefix(lowercase(n), "volumes\\"@) {
        match strip_either(n, "volumes\\"@, "Volumes\\"@) {
            None => {},
            Some(wv) => {
                let a = if has_prefix(n, "volumes\\"@) {
                    "volumes\\"@
                } else {
                    "Volumes\\"@
                };
                assert(wv == n.skip(a.len() as int) && a.len() <= n.len());
                crate::text::lemma_find_char_found(wv, '\\');
                match find_char(wv, '\\') {
                    Some(i) => {
                        let w = drive_root(d) + wv.skip(i + 1);
                        assert(0 <= i < wv.len());
                        assert(w.skip(3) =~= wv.skip(i + 1));
                        assert(wv.skip(i + 1) =~= n.skip(n.len() - (w.len() - 3)));
                        assert(has_prefix(w, drive_root(d))) by {
                            assert(w.take(3) =~= drive_root(d));
                        }
                        assert forall|k: int| 3 <= k < w.len() implies #[trigger] w[k] != '/' by {
                            assert(w[k] == n[a.len() + i + 1 + k - 3]);
                        }
                    },
                    None => {
                        let w = drive_root(d);
                        assert(w.skip(3) =~= n.skip(n.len() - 0));
                        assert(has_prefix(w, drive_root(d))) by {
                            assert(w.take(3) =~= drive_root(d));
                        }
                    },
                }
            },
        }
    } else {
        let w = drive_root(d) + n;
        assert(w.skip(3) =~= n);
        assert(n.skip(0) =~= n);
        assert(has_prefix(w, drive_root(d))) by {
            assert(w.take(3) =~= drive_root(d));
        }
        assert forall|k: int| 3 <= k < w.len() implies #[trigger] w[k] != '/' by {
            assert(w[k] == n[k - 3]);
        }
    }
}

/// The volume name of a `/Volumes/<name>/...` path.
pub open spec fn volume_name_of(p: Seq<char>) -> Option<Seq<char>> {
    let n = trim_start_char(p, '/');
    if has_prefix(lowercase(n), "volumes/"@) {
        match strip_either(n, "volumes/"@, "Volumes/"@) {
            None => None,
            Some(w) => match find_char(w, '/') {
                Some(i) => Some(w.take(i)),
                None => Some(w),
            },
        }
    } else {
        None
    }
}

fn strip_either_exec(v: &[char], a: &str, b: &str) -> (r: Option<Vec<char>>)
    ensures
        r matches Some(x) ==> strip_either(v@, a@, b@) == Some(x@),
        r is None ==> strip_either(v@, a@, b@) is None,
{
    let av = str_chars(a);
    if starts_with(v, &av) {
        return Some(slice_from(v, av.len(), v.len()));
    }
    let bv = str_chars(b);
    if starts_with(v, &bv) {
        return Some(slice_from(v, bv.len(), v.len()));
    }
    None
}

/// Converts a macOS path, as the database stores it, into the path on Windows
/// drive `drive_letter`.
pub fn convert_macos_path_to_windows(macos_path: &str, drive_letter: char) -> (r: Option<String>)
    ensures
        r matches Some(s) ==> converted_path(macos_path@, drive_letter) == Some(s@),
        r is None ==> converted_path(macos_path@, drive_letter) is None,
{
    let p = str_chars(macos_path);
    let replaced = replace_chars(&p, '/', '\\');
    let normalized = trim_start_chars(&replaced, '\\');
    let normalized_str = string_from_chars(&normalized);
    let lower = to_lowercase(normalized_str.as_str());
    let lower_chars = str_chars(lower.as_str());
    let prefix = str_chars("volumes\\");
    let mut out: Vec<char> = vec![drive_letter, ':', '\\'];
    assert(out@ == drive_root(drive_letter));
    if starts_with(&lower_chars, &prefix) {
        let without = match strip_either_exec(&normalized, "volumes\\", "Volumes\\") {
            Some(w) => w,
            None => return None,
        };
        match find_first(&without, '\\') {
            Some(i) => {
                let rest = slice_from(&without, i + 1, without.len());
                let ghost before = out@;
                let mut j: usize = 0;
                while j < rest.len()
                    invariant
                        0 <= j <= rest.len(),
                        out@ == before + rest@.take(j as int),
                    decreases rest.len() - j,
                {
                    out.push(rest[j]);
                    assert(rest@.take(j + 1) =~= rest@.take(j as int).push(rest@[j as int]));
                    j = j + 1;
                }
                assert(rest@.take(rest.len() as int) =~= rest@);
                assert(rest@ =~= without@.skip(i + 1));
                Some(string_from_chars(&out))
            },
            None => Some(string_from_chars(&out)),
        }
    } else {
        let ghost before = out@;
        let mut j: usize = 0;
        while j < normalized.len()
            invariant
                0 <= j <= normalized.len(),
                out@ == before + normalized@.take(j as int),
            decreases normalized.len() - j,
        {
            out.push(normalized[j]);
            assert(normalized@.take(j + 1) =~= normalized@.take(j as int).push(normalized@[j as int]));
            j = j + 1;
        }
        assert(normalized@.take(normalized.len() as int) =~= normalized@);
        Some(string_from_chars(&out))
    }
}

/// Extracts the volume name from a `/Volumes/<name>/...` path.
pub fn extract_volume_name(macos_path: &str) -> (r: Option<String>)
    ensures
        r matches Some(s) ==> volume_name_of(macos_path@) == Some(s@),
        r is None ==> volume_name_of(macos_path@) is None,
{
    let p = str_chars(macos_path);
    let normalized = trim_start_chars(&p, '/');
    let normalized_str = string_from_chars(&normalized);
    let lower = to_lowercase(normalized_str.as_str());
    let lower_chars = str_chars(lower.as_str());
    let prefix = str_chars("volumes/");
    if starts_with(&lower_chars, &prefix) {
        let without = match strip_either_exec(&normalized, "volumes/", "Volumes/") {
            Some(w) => w,
            None => return None,
        };
        match find_first(&without, '/') {
            Some(i) => {
                let name = slice_from(&without, 0, i);
                assert(name@ =~= without@.take(i as int));
                Some(string_from_chars(&name))
            },
            None => Some(string_from_chars(&without)),
        }
    } else {
        None
    }
}


/// Whether `d` is one of the drive letters `A` to `Z`.
pub open spec fn is_drive_letter(d: char) -> bool {
    'A' <= d && d <= 'Z'
}

/// `Path::exists`: whether the file system holds an entry at the path. The
/// answer depends on the disk, so nothing is promised of it.
#[verifier::external_body]
pub fn validate_windows_path(windows_path: &str) -> bool {
    std::path::Path::new(windows_path).exists()
}

/// `Path::is_dir`: whether the path names a directory. The answer depends on
/// the disk, so nothing is promised of it.
#[verifier::external_body]
fn path_is_dir(p: &str) -> bool {
    std::path::Path::new(p).is_dir()
}

/// The drive letter of index `i`: `A` for 0, up to `Z` for 25.
pub open spec fn drive_letter_of(i: int) -> char {
    (65 + i) as char
}

fn drive_letter_at(i: u8) -> (d: char)
    requires
        i < 26,
    ensures
        is_drive_letter(d),
        d as u32 == 65 + i,
        d == drive_letter_of(i as int),
{
    let code: u8 = 65 + i;
    code as char
}

fn drive_root_string(d: char) -> (s: String)
    ensures
        s@ == drive_root(d),
{
    let v: Vec<char> = vec![d, ':', '\\'];
    string_from_chars(&v)
}

/// The path of the folder named `name` at the root of drive `d`, where a
/// volume may be mounted as a folder.
pub fn volume_folder(d: char, name: &str) -> (s: String)
    ensures
        s@ == drive_root(d) + name@,
{
    let mut chars: Vec<char> = vec![d, ':', '\\'];
    let name_chars = str_chars(name);
    let ghost before = chars@;
    let mut j: usize = 0;
    while j < name_chars.len()
        invariant
            0 <= j <= name_chars.len(),
            chars@ == before + name_chars@.take(j as int),
        decreases name_chars.len() - j,
    {
        chars.push(name_chars[j]);
        assert(name_chars@.take(j + 1) =~= name_chars@.take(j as int).push(name_chars@[j as int]));
        j = j + 1;
    }
    assert(name_chars@.take(j as int) =~= name_chars@);
    string_from_chars(&chars)
}

/// Whether drive `i` holds the volume: its root is a directory, and its
/// label equals the volume name ignoring case or it holds a folder of that
/// name at its root.
pub open spec fn drive_holds(
    volume: Seq<char>,
    labels: Seq<Option<String>>,
    is_dir: Seq<bool>,
    has_folder: Seq<bool>,
    i: int,
) -> bool {
    &&& is_dir[i]
    &&& {
        ||| opt_chars(labels[i]) matches Some(l) && lowercase(l) == lowercase(volume)
        ||| has_folder[i]
    }
}

/// The first drive, from index `i` on, that holds the volume.
pub open spec fn first_drive_from(
    volume: Seq<char>,
    labels: Seq<Option<String>>,
    is_dir: Seq<bool>,
    has_folder: Seq<bool>,
    i: int,
) -> Option<char>
    decreases 26 - i,
{
    if i < 0 || i >= 26 {
        None
    } else if drive_holds(volume, labels, is_dir, has_folder, i) {
        Some(drive_letter_of(i))
    } else {
        first_drive_from(volume, labels, is_dir, has_folder, i + 1)
    }
}

/// Picks the drive that holds the volume `volume_name`, given for each of
/// the drives `A:` to `Z:` whether its root is a directory (`is_dir`), its
/// label (`labels`), and whether a folder of the volume's name stands at its
/// root (`has_folder`): the first drive that holds it, or `None`.
pub fn first_drive(volume_name: &str, labels: &[Option<String>], is_dir: &[bool], has_folder: &[bool]) -> (r: Option<char>)
    requires
        labels@.len() == 26,
        is_dir@.len() == 26,
        has_folder@.len() == 26,
    ensures
        r == first_drive_from(volume_name@, labels@, is_dir@, has_folder@, 0),
{
    let wanted = to_lowercase(volume_name);
    let mut i: u8 = 0;
    while i < 26
        invariant
            0 <= i <= 26,
            labels@.len() == 26,
            is_dir@.len() == 26,
            has_folder@.len() == 26,
            wanted@ == lowercase(volume_name@),
            first_drive_from(volume_name@, labels@, is_dir@, has_folder@, 0) == first_drive_from(
                volume_name@,
                labels@,
                is_dir@,
                has_folder@,
                i as int,
            ),
        decreases 26 - i,
    {
        let d = drive_letter_at(i);
        let mut label_match = false;
        if let Some(label) = &labels[i as usize] {
            let l = to_lowercase(label.as_str());
            label_match = crate::text::str_eq(l.as_str(), wanted.as_str());
        }
        assert(label_match == (opt_chars(labels@[i as int]) matches Some(l) && lowercase(l) == lowercase(
            volume_name@,
        )));
        if is_dir[i as usize] && (label_match || has_folder[i as usize]) {
            return Some(d);
        }
        i = i + 1;
    }
    None
}

/// Finds the drive that holds the volume `volume_name`: the first of the
/// drives `A:` to `Z:` that is a directory and whose label (`labels[i]` is the
/// label of the `i`-th letter) equals the volume name ignoring case, or that
/// holds a folder of that name at its root. The drives are asked in turn,
/// until one holds the volume; the answers of the disk go to `first_drive`.
pub fn detect_drive_letter(volume_name: &str, labels: &[Option<String>]) -> (r: Option<char>)
    requires
        labels.len() == 26,
    ensures
        r matches Some(d) ==> is_drive_letter(d),
        exists|is_dir: Seq<bool>, has_folder: Seq<bool>|
            is_dir.len() == 26 && has_folder.len() == 26 && r == first_drive_from(
                volume_name@,
                labels@,
                is_dir,
                has_folder,
                0,
            ),
{
    let wanted = to_lowercase(volume_name);
    let mut is_dir: Vec<bool> = Vec::new();
    let mut has_folder: Vec<bool> = Vec::new();
    let mut found = false;
    let mut i: u8 = 0;
    while i < 26
        invariant
            0 <= i <= 26,
            labels@.len() == 26,
            is_dir@.len() == i,
            has_folder@.len() == i,
            wanted@ == lowercase(volume_name@),
        decreases 26 - i,
    {
        let mut dir = false;
        let mut folder = false;
        if !found {
            let d = drive_letter_at(i);
            let root = drive_root_string(d);
            dir = path_is_dir(root.as_str());
            if dir {
                let mut label_match = false;
                if let Some(label) = &labels[i as usize] {
                    let l = to_lowercase(label.as_str());
                    label_match = crate::text::str_eq(l.as_str(), wanted.as_str());
                }
                if label_match {
                    found = true;
                } else {
                    let path = volume_folder(d, volume_name);
                    folder = validate_windows_path(path.as_str());
                    found = folder;
                }
            }
        }
        is_dir.push(dir);
        has_folder.push(folder);
        i = i + 1;
    }
    let r = first_drive(volume_name, labels, &is_dir, &has_folder);
    proof {
        lemma_first_drive_letter(volume_name@, labels@, is_dir@, has_folder@, 0);
    }
    r
}

proof fn lemma_first_drive_letter(
    volume: Seq<char>,
    labels: Seq<Option<String>>,
    is_dir: Seq<bool>,
    has_folder: Seq<bool>,
    i: int,
)
    ensures
        first_drive_from(volume, labels, is_dir, has_folder, i) matches Some(d) ==> is_drive_letter(d),
    decreases 26 - i,
{
    if 0 <= i < 26 {
        lemma_first_drive_letter(volume, labels, is_dir, has_folder, i + 1);
        assert(('A' as u32) <= 65 + i <= ('Z' as u32));
    }
}

/// The path that the automatic conversion gives, given the answers of the
/// disk: the path on the drive that holds the path's volume, or `None` when
/// the path names no volume or no drive holds it.
pub open spec fn auto_path(
    p: Seq<char>,
    labels: Seq<Option<String>>,
    is_dir: Seq<bool>,
    has_folder: Seq<bool>,
) -> Option<Seq<char>> {
    match volume_name_of(p) {
        None => None,
        Some(v) => match first_drive_from(v, labels, is_dir, has_folder, 0) {
            None => None,
            Some(d) => converted_path(p, d),
        },
    }
}

/// Converts a macOS path by finding the drive that holds its volume. A path
/// with no volume name gives `None`; otherwise the drive is found on disk,
/// and the result is the path on the drive that `first_drive` picks from
/// the disk's answers.
pub fn auto_convert_macos_path_to_windows(macos_path: &str, labels: &[Option<String>]) -> (r:
    Option<String>)
    requires
        labels.len() == 26,
    ensures
        volume_name_of(macos_path@) is None ==> r is None,
        r matches Some(s) ==> exists|d: char|
            is_drive_letter(d) && converted_path(macos_path@, d) == Some(s@),
        exists|is_dir: Seq<bool>, has_folder: Seq<bool>|
            is_dir.len() == 26 && has_folder.len() == 26 && opt_chars(r) == auto_path(
                macos_path@,
                labels@,
                is_dir,
                has_folder,
            ),
{
    let volume_name = match extract_volume_name(macos_path) {
        Some(v) => v,
        None => {
            proof {
                let none = Seq::new(26, |i: int| false);
                assert(auto_path(macos_path@, labels@, none, none) is None);
            }
            return None;
        },
    };
    let found = detect_drive_letter(volume_name.as_str(), labels);
    let ghost (dirs, folders) = choose|is_dir: Seq<bool>, has_folder: Seq<bool>|
        is_dir.len() == 26 && has_folder.len() == 26 && found == first_drive_from(
            volume_name@,
            labels@,
            is_dir,
            has_folder,
            0,
        );
    let drive_letter = match found {
        Some(d) => d,
        None => {
            assert(auto_path(macos_path@, labels@, dirs, folders) is None);
            return None;
        },
    };
    let r = convert_macos_path_to_windows(macos_path, drive_letter);
    assert(opt_chars(r) == auto_path(macos_path@, labels@, dirs, folders));
    r
}

/// The candidates on each drive, when the detected drive fails: the path
/// converted onto each of the letters `A` to `Z`.
pub open spec fn drive_candidates(p: Seq<char>) -> Seq<Option<Seq<char>>> {
    Seq::new(26, |i: int| converted_path(p, drive_letter_of(i)))
}

/// The first candidate, from index `i` on, that is a path and exists.
pub open spec fn first_candidate(cands: Seq<Option<Seq<char>>>, exists: Seq<bool>, i: int) -> Option<Seq<char>>
    decreases cands.len() - i,
{
    if i < 0 || i >= cands.len() {
        None
    } else if cands[i] is Some && exists[i] {
        cands[i]
    } else {
        first_candidate(cands, exists, i + 1)
    }
}

/// The path that the validated conversion gives: the automatic one if it
/// exists, else the first candidate that exists; nothing when there is no
/// automatic one.
pub open spec fn first_existing_path(
    auto: Option<Seq<char>>,
    auto_exists: bool,
    cands: Seq<Option<Seq<char>>>,
    exists: Seq<bool>,
) -> Option<Seq<char>> {
    match auto {
        None => None,
        Some(a) => if auto_exists {
            Some(a)
        } else {
            first_candidate(cands, exists, 0)
        },
    }
}

/// Picks the validated path, given the automatic conversion and whether it
/// exists, and the candidates on the drives with whether each exists: the
/// automatic path if it exists, else the first candidate that exists, and
/// `None` when there is no automatic path.
pub fn first_existing(auto: Option<String>, auto_exists: bool, candidates: &[Option<String>], exists: &[bool]) -> (r:
    Option<String>)
    requires
        candidates@.len() == exists@.len(),
    ensures
        opt_chars(r) == first_existing_path(
            opt_chars(auto),
            auto_exists,
            candidates@.map_values(|c: Option<String>| opt_chars(c)),
            exists@,
        ),
{
    let ghost cands = candidates@.map_values(|c: Option<String>| opt_chars(c));
    match auto {
        None => None,
        Some(a) => {
            if auto_exists {
                return Some(a);
            }
            let mut i: usize = 0;
            while i < candidates.len()
                invariant
                    0 <= i <= candidates.len(),
                    candidates@.len() == exists@.len(),
                    cands == candidates@.map_values(|c: Option<String>| opt_chars(c)),
                    first_candidate(cands, exists@, 0) == first_candidate(cands, exists@, i as int),
                    !auto_exists,
                    opt_chars(auto) is Some,
                decreases candidates.len() - i,
            {
                assert(cands[i as int] == opt_chars(candidates@[i as int]));
                if candidates[i].is_some() && exists[i] {
                    return crate::waves::copy_option(&candidates[i]);
                }
                i = i + 1;
            }
            None
        },
    }
}

proof fn lemma_first_candidate_on_drive(p: Seq<char>, exists: Seq<bool>, i: int)
    requires
        0 <= i,
    ensures
        first_candidate(drive_candidates(p), exists, i) matches Some(s) ==> exists|d: char|
            is_drive_letter(d) && converted_path(p, d) == Some(s),
    decreases 26 - i,
{
    if i < 26 {
        lemma_first_candidate_on_drive(p, exists, i + 1);
        let d = drive_letter_of(i);
        assert(('A' as u32) <= 65 + i <= ('Z' as u32));
        assert(is_drive_letter(d));
    }
}

/// Converts a macOS path into an existing Windows path: the path on the drive
/// that holds its volume if it exists, or else the first drive letter on which
/// the converted path exists. The drives and paths are asked in turn, until
/// one exists; the answers of the disk go to `first_existing`.
pub fn convert_and_validate_path(macos_path: &str, labels: &[Option<String>]) -> (r: Option<
    String,
>)
    requires
        labels.len() == 26,
    ensures
        volume_name_of(macos_path@) is None ==> r is None,
        r matches Some(s) ==> exists|d: char|
            is_drive_letter(d) && converted_path(macos_path@, d) == Some(s@),
        exists|is_dir: Seq<bool>, has_folder: Seq<bool>, auto_exists: bool, exists: Seq<bool>|
            is_dir.len() == 26 && has_folder.len() == 26 && exists.len() == 26 && opt_chars(r)
                == first_existing_path(
                auto_path(macos_path@, labels@, is_dir, has_folder),
                auto_exists,
                drive_candidates(macos_path@),
                exists,
            ),
{
    let auto = auto_convert_macos_path_to_windows(macos_path, labels);
    let auto_exists = match &auto {
        Some(w) => validate_windows_path(w.as_str()),
        None => false,
    };
    let ghost auto_v = opt_chars(auto);
    let mut candidates: Vec<Option<String>> = Vec::new();
    let mut exists: Vec<bool> = Vec::new();
    let mut found = auto.is_none() || auto_exists;
    let mut i: u8 = 0;
    while i < 26
        invariant
            0 <= i <= 26,
            candidates@.len() == i,
            exists@.len() == i,
            forall|j: int|
                0 <= j < i ==> opt_chars(#[trigger] candidates@[j]) == converted_path(
                    macos_path@,
                    drive_letter_of(j),
                ),
        decreases 26 - i,
    {
        let d = drive_letter_at(i);
        let c = convert_macos_path_to_windows(macos_path, d);
        let mut ok = false;
        if !found {
            if let Some(t) = &c {
                ok = validate_windows_path(t.as_str());
                found = ok;
            }
        }
        candidates.push(c);
        exists.push(ok);
        i = i + 1;
    }
    let ghost cands = candidates@.map_values(|c: Option<String>| opt_chars(c));
    assert(cands =~= drive_candidates(macos_path@));
    let r = first_existing(auto, auto_exists, &candidates, &exists);
    proof {
        lemma_first_candidate_on_drive(macos_path@, exists@, 0);
    }
    r
}

} // verus!
