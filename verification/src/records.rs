use vstd::prelude::*;
use crate::marks::{Algorithm, AlgorithmSet};
use crate::prefs::{views, Enabled, Preferences};
use crate::text::{
    before_sub, find_substring, str_chars, string_from_chars, trim_range, trim_white,
};

verus! {

/// The characters of an optional string.
pub open spec fn opt_chars(o: Option<String>) -> Option<Seq<char>> {
    match o {
        Some(s) => Some(s@),
        None => None,
    }
}

/// The value of an option, or `default`.
pub open spec fn or_else(o: Option<Seq<char>>, default: Seq<char>) -> Seq<char> {
    match o {
        Some(s) => s,
        None => default,
    }
}

/// The final component of a path, as `Path::file_name` gives it.
pub uninterp spec fn path_file_name(p: Seq<char>) -> Option<Seq<char>>;

/// The final component of a path without its extension, as `Path::file_stem`
/// gives it.
pub uninterp spec fn path_file_stem(p: Seq<char>) -> Option<Seq<char>>;

/// The extension of the final component of a path, as `Path::extension`
/// gives it.
pub uninterp spec fn path_extension(p: Seq<char>) -> Option<Seq<char>>;

/// The path without its final component, as `Path::parent` gives it.
pub uninterp spec fn path_parent(p: Seq<char>) -> Option<Seq<char>>;

/// `Path::file_name` of the path `p`; the name of a path given as text is
/// always text again. Which component that is follows the path grammar of the
/// platform, which the contract names without spelling out.
#[verifier::external_body]
pub(crate) fn file_name_of(p: &str) -> (r: Option<String>)
    ensures
        opt_chars(r) == path_file_name(p@),
{
    std::path::Path::new(p).file_name().and_then(|n| n.to_str()).map(|n| n.to_string())
}

/// `Path::file_stem` of the path `p`, named as `path_file_stem`.
#[verifier::external_body]
pub(crate) fn file_stem_of(p: &str) -> (r: Option<String>)
    ensures
        opt_chars(r) == path_file_stem(p@),
{
    std::path::Path::new(p).file_stem().and_then(|n| n.to_str()).map(|n| n.to_string())
}

/// `Path::extension` of the path `p`, named as `path_extension`.
#[verifier::external_body]
pub(crate) fn extension_of(p: &str) -> (r: Option<String>)
    ensures
        opt_chars(r) == path_extension(p@),
{
    std::path::Path::new(p).extension().and_then(|n| n.to_str()).map(|n| n.to_string())
}

/// `Path::parent` of the path `p`, named as `path_parent`.
#[verifier::external_body]
pub(crate) fn parent_of(p: &str) -> (r: Option<String>)
    ensures
        opt_chars(r) == path_parent(p@),
{
    std::path::Path::new(p).parent().and_then(|n| n.to_str()).map(|n| n.to_string())
}

/// The text of the named group `group` in the first match of the regular
/// expression `pattern` in `text`, as the `regex` crate finds it; `None` when
/// the pattern does not compile, nothing matches or the group took no part.
pub uninterp spec fn regex_capture(pattern: Seq<char>, text: Seq<char>, group: Seq<char>) -> Option<
    Seq<char>,
>;

/// `regex::Regex::new(pattern)`, then `Regex::captures(text)` and
/// `Captures::name(group)`: the contract names the captured text as
/// `regex_capture`, a function of the three arguments alone.
#[verifier::external_body]
fn capture_group(pattern: &str, text: &str, group: &str) -> (r: Option<String>)
    ensures
        opt_chars(r) == regex_capture(pattern@, text@, group@),
{
    let re = regex::Regex::new(pattern).ok()?;
    re.captures(text).and_then(|c| c.name(group)).map(|m| m.as_str().to_string())
}

/// A file name without trailing `.<digits>` and `.M` parts: the base is the
/// shortest non-empty start of the name that the rest of such parts follows.
pub const FILENAME_PATTERN: &'static str = "^(?P<base>.+?)(?:\\.(?:\\d+|M))*$";

/// The copy markers that a duplicated file name carries.
pub open spec fn copy_tags() -> Seq<Seq<char>> {
    seq![" copy."@, " Copy."@, " COPY."@, ".copy."@, ".Copy."@, ".COPY."@]
}

fn copy_tags_vec() -> (v: Vec<String>)
    ensures
        views(v@) == copy_tags(),
{
    let v = vec![
        " copy.".to_string(),
        " Copy.".to_string(),
        " COPY.".to_string(),
        ".copy.".to_string(),
        ".Copy.".to_string(),
        ".COPY.".to_string(),
    ];
    assert(views(v@) =~= copy_tags());
    v
}

/// `name` cut before the first occurrence of the first tag of `tags` that
/// occurs in it; `name` itself when none does.
pub open spec fn cut_at_first_tag(name: Seq<char>, tags: Seq<Seq<char>>) -> Seq<char>
    decreases tags.len(),
{
    if tags.len() == 0 {
        name
    } else {
        match before_sub(name, tags[0]) {
            Some(b) => b,
            None => cut_at_first_tag(name, tags.drop_first()),
        }
    }
}

/// `name` without the trailing parts that `FILENAME_PATTERN` strips, given
/// what the pattern captured.
pub open spec fn regex_root(name: Seq<char>) -> Seq<char> {
    or_else(regex_capture(FILENAME_PATTERN@, name, "base"@), name)
}

/// `name` cut, for each tag in turn, before the tag's first occurrence, as
/// taking the first half of `split_once` for one tag after another does.
pub open spec fn cut_each_tag(name: Seq<char>, tags: Seq<Seq<char>>) -> Seq<char>
    decreases tags.len(),
{
    if tags.len() == 0 {
        name
    } else {
        let n = cut_each_tag(name, tags.drop_last());
        match before_sub(n, tags.last()) {
            Some(b) => b,
            None => n,
        }
    }
}

/// The root that the first way of grouping gave a record: its file stem cut
/// at each AudioSuite tag in turn where those are searched for, then at each
/// copy marker and stripped of numbered endings where file names are, with
/// the extension put back unless the file type is ignored.
pub open spec fn old_root_of(r: FileRecord, e: Enabled, p: Preferences) -> Seq<char> {
    let n1 = if e.audiosuite {
        cut_each_tag(filestem_of(r), views(p.tags@))
    } else {
        filestem_of(r)
    };
    let n2 = if e.filename {
        regex_root(cut_each_tag(n1, copy_tags()))
    } else {
        n1
    };
    if p.ignore_filetype {
        n2
    } else {
        n2 + "."@ + extension_text(r)
    }
}

fn cut_each(name: &Vec<char>, tags: &Vec<String>) -> (r: Vec<char>)
    ensures
        r@ == cut_each_tag(name@, views(tags@)),
{
    let mut cur: Vec<char> = crate::text::slice_from(name, 0, name.len());
    assert(name@.subrange(0, name@.len() as int) =~= name@);
    let mut i: usize = 0;
    assert(views(tags@).take(0) =~= Seq::<Seq<char>>::empty());
    while i < tags.len()
        invariant
            0 <= i <= tags.len(),
            cur@ == cut_each_tag(name@, views(tags@).take(i as int)),
        decreases tags.len() - i,
    {
        let t = str_chars(tags[i].as_str());
        let ghost prev = cur@;
        proof {
            let tk = views(tags@).take(i + 1);
            assert(tk.drop_last() =~= views(tags@).take(i as int));
            assert(tk.last() == t@);
        }
        match find_substring(&cur, &t) {
            Some(k) => {
                cur = crate::text::slice_from(&cur, 0, k);
                assert(cur@ =~= prev.take(k as int));
            },
            None => {},
        }
        i = i + 1;
    }
    assert(views(tags@).take(i as int) =~= views(tags@));
    cur
}

/// A record of the sound library, as the search reads it from the database.
#[derive(Debug, Clone)]
pub struct FileRecord {
    pub id: usize,
    pub path: String,
    pub root: String,
    pub duration: String,
    pub samplerate: i64,
    pub bitdepth: i64,
    pub channels: i64,
    pub description: String,
    pub data: Vec<(String, String)>,
    pub fingerprint: Option<String>,
    pub dual_mono: Option<bool>,
    pub algorithm: AlgorithmSet,
}

/// The file name of a record's path, or a placeholder.
pub open spec fn filename_of(r: FileRecord) -> Seq<char> {
    or_else(path_file_name(r.path@), "Invalid Filename"@)
}

/// The file stem of a record's path, or a placeholder.
pub open spec fn filestem_of(r: FileRecord) -> Seq<char> {
    or_else(path_file_stem(r.path@), "Invalid Filestem"@)
}

/// The extension of a record's path, or a placeholder.
pub open spec fn extension_text(r: FileRecord) -> Seq<char> {
    or_else(path_extension(r.path@), "Invalid Extension"@)
}

/// The folder of a record's path, or a placeholder.
pub open spec fn folder_of(r: FileRecord) -> Seq<char> {
    or_else(path_parent(r.path@), "Invalid Path"@)
}

/// The root under which a record is grouped with its duplicates: its trimmed
/// file stem cut at the first AudioSuite tag, then at the first copy marker,
/// then stripped of numbered endings, with the extension put back unless the
/// file type is ignored.
pub open spec fn root_of(r: FileRecord, p: Preferences) -> Seq<char> {
    let base = regex_root(
        cut_at_first_tag(cut_at_first_tag(trim_white(filestem_of(r)), views(p.tags@)), copy_tags()),
    );
    if p.ignore_filetype {
        base
    } else {
        base + "."@ + extension_text(r)
    }
}

/// The value stored for `key` in a record's column data.
pub open spec fn data_get(d: Seq<(String, String)>, key: Seq<char>) -> Option<Seq<char>>
    decreases d.len(),
{
    if d.len() == 0 {
        None
    } else if d[0].0@ == key {
        Some(d[0].1@)
    } else {
        data_get(d.drop_first(), key)
    }
}

fn or_placeholder(o: Option<String>, placeholder: &str) -> (s: String)
    ensures
        s@ == or_else(opt_chars(o), placeholder@),
{
    match o {
        Some(s) => s,
        None => placeholder.to_string(),
    }
}

/// `name` cut before the first occurrence of the first tag that occurs in it.
fn cut_at_tags(name: &Vec<char>, tags: &Vec<String>) -> (r: Vec<char>)
    ensures
        r@ == cut_at_first_tag(name@, views(tags@)),
{
    let mut i: usize = 0;
    assert(views(tags@).skip(0) =~= views(tags@));
    while i < tags.len()
        invariant
            0 <= i <= tags.len(),
            cut_at_first_tag(name@, views(tags@)) == cut_at_first_tag(name@, views(tags@).skip(i as int)),
        decreases tags.len() - i,
    {
        let t = str_chars(tags[i].as_str());
        let ghost rest = views(tags@).skip(i as int);
        assert(rest[0] == t@);
        assert(rest.drop_first() =~= views(tags@).skip(i + 1));
        match find_substring(name, &t) {
            Some(k) => {
                assert(before_sub(name@, rest[0]) == Some(name@.take(k as int)));
                return crate::text::slice_from(name, 0, k);
            },
            None => {},
        }
        i = i + 1;
    }
    assert(views(tags@).skip(i as int) =~= Seq::<Seq<char>>::empty());
    let mut out: Vec<char> = Vec::new();
    let mut j: usize = 0;
    while j < name.len()
        invariant
            0 <= j <= name.len(),
            out@ == name@.take(j as int),
        decreases name.len() - j,
    {
        out.push(name[j]);
        assert(name@.take(j + 1) =~= name@.take(j as int).push(name@[j as int]));
        j = j + 1;
    }
    assert(name@.take(j as int) =~= name@);
    out
}

impl FileRecord {
    /// The file name of the record's path, or `Invalid Filename`.
    pub fn get_filename(&self) -> (r: String)
        ensures
            r@ == filename_of(*self),
    {
        or_placeholder(file_name_of(self.path.as_str()), "Invalid Filename")
    }

    /// The file stem of the record's path, or `Invalid Filestem`.
    pub fn get_filestem(&self) -> (r: String)
        ensures
            r@ == filestem_of(*self),
    {
        or_placeholder(file_stem_of(self.path.as_str()), "Invalid Filestem")
    }

    /// The extension of the record's path, or `Invalid Extension`.
    pub fn get_extension(&self) -> (r: String)
        ensures
            r@ == extension_text(*self),
    {
        or_placeholder(extension_of(self.path.as_str()), "Invalid Extension")
    }

    /// The folder of the record's path, or `Invalid Path`.
    pub fn get_path(&self) -> (r: String)
        ensures
            r@ == folder_of(*self),
    {
        or_placeholder(parent_of(self.path.as_str()), "Invalid Path")
    }

    /// Whether the record's file exists on disk; the answer depends on the
    /// disk, so nothing is promised of it.
    pub fn check_path(&self) -> bool {
        crate::paths::validate_windows_path(self.path.as_str())
    }

    /// The record's path as text.
    pub fn get_filepath(&self) -> (r: String)
        ensures
            r@ == self.path@,
    {
        self.path.clone()
    }

    /// The record's file stem without the numbered endings that
    /// `FILENAME_PATTERN` strips.
    pub fn get_root(&self) -> (r: String)
        ensures
            r@ == regex_root(filestem_of(*self)),
    {
        let name = self.get_filestem();
        match capture_group(FILENAME_PATTERN, name.as_str(), "base") {
            Some(b) => b,
            None => name,
        }
    }

    /// Sets the root under which the record is grouped with its duplicates.
    pub fn set_root(&mut self, pref: &Preferences)
        ensures
            final(self).root@ == root_of(*old(self), *pref),
            final(self).path == old(self).path,
            final(self).id == old(self).id,
            final(self).data == old(self).data,
            final(self).algorithm == old(self).algorithm,
            final(self).fingerprint == old(self).fingerprint,
            final(self).dual_mono == old(self).dual_mono,
            final(self).duration == old(self).duration,
            final(self).description == old(self).description,
            final(self).channels == old(self).channels,
            final(self).bitdepth == old(self).bitdepth,
            final(self).samplerate == old(self).samplerate,
    {
        let stem = str_chars(self.get_filestem().as_str());
        let trimmed = trim_range(&stem, 0, stem.len());
        proof {
            assert(stem@.subrange(0, stem@.len() as int) =~= stem@);
        }
        let cut = cut_at_tags(&trimmed, &pref.tags);
        let copies = copy_tags_vec();
        let cut2 = cut_at_tags(&cut, &copies);
        let name = string_from_chars(&cut2);
        let base = match capture_group(FILENAME_PATTERN, name.as_str(), "base") {
            Some(b) => b,
            None => name,
        };
        if pref.ignore_filetype {
            self.root = base;
        } else {
            let ext = self.get_extension();
            let mut v = str_chars(base.as_str());
            v.push('.');
            let e = str_chars(ext.as_str());
            let mut i: usize = 0;
            let ghost start = v@;
            while i < e.len()
                invariant
                    0 <= i <= e.len(),
                    v@ == start + e@.take(i as int),
                decreases e.len() - i,
            {
                v.push(e[i]);
                assert(e@.take(i + 1) =~= e@.take(i as int).push(e@[i as int]));
                i = i + 1;
            }
            proof {
                assert(e@.take(i as int) =~= e@);
                reveal_strlit(".");
                assert(start =~= base@ + "."@);
            }
            self.root = string_from_chars(&v);
        }
    }

    /// Sets the root under which the record is grouped, the first way: see
    /// `old_root_of`.
    pub fn set_root_old(&mut self, enabled: &Enabled, pref: &Preferences)
        ensures
            final(self).root@ == old_root_of(*old(self), *enabled, *pref),
            *final(self) == (FileRecord { root: final(self).root, ..*old(self) }),
    {
        let stem = str_chars(self.get_filestem().as_str());
        let n1 = if enabled.audiosuite {
            cut_each(&stem, &pref.tags)
        } else {
            stem
        };
        let n2 = if enabled.filename {
            let copies = copy_tags_vec();
            let cut = cut_each(&n1, &copies);
            let name = string_from_chars(&cut);
            match capture_group(FILENAME_PATTERN, name.as_str(), "base") {
                Some(b) => b,
                None => name,
            }
        } else {
            string_from_chars(&n1)
        };
        let root = if pref.ignore_filetype {
            n2
        } else {
            let mut v = str_chars(n2.as_str());
            v.push('.');
            crate::text::append_chars(&mut v, self.get_extension().as_str());
            proof {
                reveal_strlit(".");
            }
            assert(v@ =~= n2@ + "."@ + extension_text(*old(self)));
            string_from_chars(&v)
        };
        self.root = root;
    }
}

} // verus!
