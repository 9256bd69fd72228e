use vstd::prelude::*;
use crate::marks::{Algorithm, AlgorithmSet};
use crate::prefs::{has_tag, views, Enabled, Preferences, PreservationLogic};
use crate::records::{data_get, opt_chars, or_else, root_of, FileRecord};
use crate::text::{str_chars, str_eq, string_from_chars};

verus! {

/// The values that the search reads from one row of the database: the
/// first columns by position, then the named columns that hold text or a
/// number, given as text.
#[derive(Debug, Clone)]
pub struct RowValues {
    pub id: Option<i64>,
    pub path: Option<String>,
    pub duration: Option<String>,
    pub description: Option<String>,
    pub channels: Option<i64>,
    pub bitdepth: Option<i64>,
    pub samplerate: Option<i64>,
    pub columns: Vec<(String, String)>,
    pub fingerprint: Option<String>,
    pub dual_mono: Option<String>,
}

/// Whether a path lies under a folder, compared component by component, as
/// `Path::starts_with` tells.
pub uninterp spec fn path_starts_with(path: Seq<char>, base: Seq<char>) -> bool;

/// `Path::starts_with`: whether `base` is a leading run of the components of
/// `path`; the contract names the answer as `path_starts_with`.
#[verifier::external_body]
fn starts_with_path(path: &str, base: &str) -> (b: bool)
    ensures
        b == path_starts_with(path@, base@),
{
    std::path::Path::new(path).starts_with(base)
}

/// `s` without its trailing run of `c`.
pub open spec fn trim_end_char(s: Seq<char>, c: char) -> Seq<char>
    decreases s.len(),
{
    if s.len() > 0 && s.last() == c {
        trim_end_char(s.drop_last(), c)
    } else {
        s
    }
}

/// Whether a path lies in one of the folders that the search leaves alone.
pub open spec fn in_safe_folder(path: Seq<char>, folders: Seq<Seq<char>>) -> bool {
    exists|i: int|
        0 <= i < folders.len() && (path_starts_with(path, #[trigger] folders[i]) || path_starts_with(
            path,
            trim_end_char(folders[i], '/'),
        ))
}

/// Whether a column is one that the search reads: a match criterion or the
/// column of a preservation rule.
pub open spec fn is_required(p: Preferences, k: Seq<char>) -> bool {
    views(p.match_criteria@).contains(k) || p.preservation_order@.map_values(
        |l: PreservationLogic| l.column@,
    ).contains(k)
}

/// The marks that a record gets when it is read: `InvalidPath` for a
/// missing file when the invalid path or dual mono search is on, `Duration`
/// for a too short file, `FileTags` for a path with an autoselect tag, and
/// `Keep` unless one of these, but for a missing file under the dual mono
/// search alone, says otherwise.
pub open spec fn row_marks(path: Seq<char>, exists: bool, too_short: bool, e: Enabled, p: Preferences) -> Set<Algorithm> {
    let invalid = (e.invalidpath || e.dual_mono) && !exists;
    let short = e.duration && too_short;
    let tagged = e.filetags && has_tag(path, views(p.autoselects@));
    let keep = !(invalid && e.invalidpath) && !short && !tagged;
    Set::new(
        |a: Algorithm|
            (a == Algorithm::InvalidPath && invalid) || (a == Algorithm::Duration && short) || (a
                == Algorithm::FileTags && tagged) || (a == Algorithm::Keep && keep),
    )
}

/// The record read from a row, `None` where its path lies in a safe folder.
/// `exists` tells whether the file is on disk, `too_short` whether its
/// duration is below the minimum.
pub open spec fn row_record_ok(
    row: RowValues,
    exists: bool,
    too_short: bool,
    e: Enabled,
    p: Preferences,
    r: Option<FileRecord>,
) -> bool {
    let path = or_else(opt_chars(row.path), Seq::empty());
    if in_safe_folder(path, views(p.safe_folders@)) {
        r is None
    } else {
        r matches Some(rec) && {
            &&& rec.id == (match row.id {
                Some(v) => v,
                None => 0,
            }) as usize
            &&& rec.path@ == path
            &&& rec.duration@ == or_else(opt_chars(row.duration), "0:00.000"@)
            &&& rec.description@ == or_else(opt_chars(row.description), Seq::empty())
            &&& rec.channels == (match row.channels {
                Some(v) => v,
                None => 0,
            })
            &&& rec.bitdepth == (match row.bitdepth {
                Some(v) => v,
                None => 0,
            })
            &&& rec.samplerate == (match row.samplerate {
                Some(v) => v,
                None => 0,
            })
            &&& rec.algorithm@ == row_marks(path, exists, too_short, e, p)
            &&& forall|k: Seq<char>| #[trigger]
                data_get(rec.data@, k) == if is_required(p, k) {
                    data_get(row.columns@, k)
                } else {
                    None
                }
            &&& opt_chars(rec.fingerprint) == (if p.fetch_waveforms && row.fingerprint is Some
                && row.fingerprint.unwrap()@.len() > 0 {
                opt_chars(row.fingerprint)
            } else {
                None
            })
            &&& rec.dual_mono == (if p.fetch_waveforms && row.dual_mono is Some {
                if row.dual_mono.unwrap()@ == "1"@ {
                    Some(true)
                } else if row.dual_mono.unwrap()@ == "0"@ {
                    Some(false)
                } else {
                    None
                }
            } else {
                None
            })
            &&& rec.root@ == root_of(rec, p)
        }
    }
}

proof fn lemma_data_get_push(d: Seq<(String, String)>, e: (String, String), k: Seq<char>)
    ensures
        data_get(d.push(e), k) == match data_get(d, k) {
            Some(v) => Some(v),
            None => if e.0@ == k {
                Some(e.1@)
            } else {
                None
            },
        },
    decreases d.len(),
{
    if d.len() == 0 {
        assert(d.push(e).drop_first() =~= Seq::<(String, String)>::empty());
        assert(d.push(e)[0] == e);
        assert(data_get(Seq::<(String, String)>::empty(), k) is None);
        assert(data_get(d, k) is None);
    } else {
        assert(d.push(e)[0] == d[0]);
        assert(d.push(e).drop_first() =~= d.drop_first().push(e));
        lemma_data_get_push(d.drop_first(), e, k);
        if d[0].0@ != k {
            assert(data_get(d, k) == data_get(d.drop_first(), k));
            assert(data_get(d.push(e), k) == data_get(d.push(e).drop_first(), k));
        }
    }
}

proof fn lemma_take_contains(s: Seq<Seq<char>>, i: int, k: Seq<char>)
    requires
        0 <= i < s.len(),
    ensures
        s.take(i + 1).contains(k) == (s.take(i).contains(k) || k == s[i]),
{
    let t = s.take(i + 1);
    if t.contains(k) {
        let w = choose|w: int| 0 <= w < t.len() && t[w] == k;
        if w < i {
            assert(s.take(i)[w] == k);
        }
    }
    let u = s.take(i);
    if u.contains(k) {
        let w = choose|w: int| 0 <= w < u.len() && u[w] == k;
        assert(s.take(i + 1)[w] == k);
    }
    if k == s[i] {
        assert(s.take(i + 1)[i] == k);
    }
}

fn trim_end_slashes(s: &str) -> (r: String)
    ensures
        r@ == trim_end_char(s@, '/'),
{
    let v = str_chars(s);
    let mut n: usize = v.len();
    assert(v@.take(n as int) =~= v@);
    while n > 0 && v[n - 1] == '/'
        invariant
            0 <= n <= v@.len(),
            trim_end_char(v@, '/') == trim_end_char(v@.take(n as int), '/'),
        decreases n,
    {
        assert(v@.take(n as int).drop_last() =~= v@.take(n - 1));
        n = n - 1;
    }
    let t = crate::text::slice_from(&v, 0, n);
    assert(t@ =~= v@.take(n as int));
    string_from_chars(&t)
}

/// Whether a path lies in one of the safe folders.
fn in_safe_folder_exec(path: &str, folders: &Vec<String>) -> (b: bool)
    ensures
        b == in_safe_folder(path@, views(folders@)),
{
    let mut i: usize = 0;
    while i < folders.len()
        invariant
            0 <= i <= folders.len(),
            forall|j: int| 0 <= j < i ==> !(path_starts_with(path@, #[trigger] views(folders@)[j]) || path_starts_with(
                path@,
                trim_end_char(views(folders@)[j], '/'),
            )),
        decreases folders.len() - i,
    {
        let f = folders[i].as_str();
        let t = trim_end_slashes(f);
        if starts_with_path(path, f) || starts_with_path(path, t.as_str()) {
            assert(views(folders@)[i as int] == f@);
            return true;
        }
        i = i + 1;
    }
    false
}

fn add_column(data: &mut Vec<(String, String)>, row: &RowValues, key: &String)
    ensures
        forall|k: Seq<char>| #[trigger]
            data_get(final(data)@, k) == if k == key@ {
                match data_get(old(data)@, k) {
                    Some(v) => Some(v),
                    None => data_get(row.columns@, k),
                }
            } else {
                data_get(old(data)@, k)
            },
{
    match crate::order::find_data(data, key.as_str()) {
        Some(_) => {},
        None => match crate::order::find_data(&row.columns, key.as_str()) {
            Some(j) => {
                let v = row.columns[j].1.clone();
                let ghost before = data@;
                data.push((key.clone(), v));
                proof {
                    assert forall|k: Seq<char>| #[trigger] data_get(data@, k) == if k == key@ {
                        match data_get(before, k) {
                            Some(v) => Some(v),
                            None => data_get(row.columns@, k),
                        }
                    } else {
                        data_get(before, k)
                    } by {
                        lemma_data_get_push(before, data@.last(), k);
                        assert(data@ == before.push(data@.last()));
                    }
                }
            },
            None => {},
        },
    }
}

fn required_data(row: &RowValues, p: &Preferences) -> (d: Vec<(String, String)>)
    ensures
        forall|k: Seq<char>| #[trigger]
            data_get(d@, k) == if is_required(*p, k) {
                data_get(row.columns@, k)
            } else {
                None
            },
{
    let mut d: Vec<(String, String)> = Vec::new();
    let ghost crit = views(p.match_criteria@);
    let ghost cols = p.preservation_order@.map_values(|l: PreservationLogic| l.column@);
    let mut i: usize = 0;
    while i < p.match_criteria.len()
        invariant
            0 <= i <= p.match_criteria.len(),
            crit == views(p.match_criteria@),
            forall|k: Seq<char>| #[trigger]
                data_get(d@, k) == if crit.take(i as int).contains(k) {
                    data_get(row.columns@, k)
                } else {
                    None
                },
        decreases p.match_criteria.len() - i,
    {
        add_column(&mut d, row, &p.match_criteria[i]);
        proof {
            assert(crit[i as int] == p.match_criteria@[i as int]@);
            assert forall|k: Seq<char>| #[trigger] crit.take(i + 1).contains(k) == (crit.take(i as int).contains(k) || k == crit[i as int]) by {
                lemma_take_contains(crit, i as int, k);
            }
        }
        i = i + 1;
    }
    assert(crit.take(i as int) =~= crit);
    let mut j: usize = 0;
    while j < p.preservation_order.len()
        invariant
            0 <= j <= p.preservation_order.len(),
            crit == views(p.match_criteria@),
            cols == p.preservation_order@.map_values(|l: PreservationLogic| l.column@),
            forall|k: Seq<char>| #[trigger]
                data_get(d@, k) == if crit.contains(k) || cols.take(j as int).contains(k) {
                    data_get(row.columns@, k)
                } else {
                    None
                },
        decreases p.preservation_order.len() - j,
    {
        add_column(&mut d, row, &p.preservation_order[j].column);
        proof {
            assert(cols[j as int] == p.preservation_order@[j as int].column@);
            assert forall|k: Seq<char>| #[trigger] cols.take(j + 1).contains(k) == (cols.take(j as int).contains(k) || k == cols[j as int]) by {
                lemma_take_contains(cols, j as int, k);
            }
        }
        j = j + 1;
    }
    assert(cols.take(j as int) =~= cols);
    d
}

fn text_or(o: &Option<String>, default: &str) -> (s: String)
    ensures
        s@ == or_else(opt_chars(*o), default@),
{
    match o {
        Some(s) => s.clone(),
        None => default.to_string(),
    }
}

impl FileRecord {
    /// The record read from a row of the database, given whether its file
    /// exists and whether its duration is below the minimum; `None` where
    /// its path lies in a safe folder.
    pub fn from_row(row: &RowValues, exists: bool, too_short: bool, e: &Enabled, p: &Preferences) -> (r: Option<FileRecord>)
        ensures
            row_record_ok(*row, exists, too_short, *e, *p, r),
    {
        let path = text_or(&row.path, "");
        proof {
            reveal_strlit("");
            reveal_strlit("1");
            reveal_strlit("0");
            assert(""@ =~= Seq::<char>::empty());
        }
        if in_safe_folder_exec(path.as_str(), &p.safe_folders) {
            return None;
        }
        let invalid = (e.invalidpath || e.dual_mono) && !exists;
        let short = e.duration && too_short;
        let tagged = e.filetags && crate::prefs::checktags(path.as_str(), &p.autoselects);
        let mut algorithm = AlgorithmSet::new();
        if invalid {
            algorithm.insert(Algorithm::InvalidPath);
        }
        if short {
            algorithm.insert(Algorithm::Duration);
        }
        if tagged {
            algorithm.insert(Algorithm::FileTags);
        }
        if !(invalid && e.invalidpath) && !short && !tagged {
            algorithm.insert(Algorithm::Keep);
        }
        assert(algorithm@ =~= row_marks(path@, exists, too_short, *e, *p));
        let fingerprint = match &row.fingerprint {
            Some(f) => if p.fetch_waveforms && str_chars(f.as_str()).len() > 0 {
                Some(f.clone())
            } else {
                None
            },
            None => None,
        };
        let dual_mono = if p.fetch_waveforms {
            match &row.dual_mono {
                Some(t) => if str_eq(t.as_str(), "1") {
                    Some(true)
                } else if str_eq(t.as_str(), "0") {
                    Some(false)
                } else {
                    None
                },
                None => None,
            }
        } else {
            None
        };
        let id = match row.id {
            Some(v) => v,
            None => 0,
        };
        let mut record = FileRecord {
            id: #[verifier::truncate] (id as usize),
            path,
            root: String::new(),
            duration: text_or(&row.duration, "0:00.000"),
            samplerate: match row.samplerate {
                Some(v) => v,
                None => 0,
            },
            bitdepth: match row.bitdepth {
                Some(v) => v,
                None => 0,
            },
            channels: match row.channels {
                Some(v) => v,
                None => 0,
            },
            description: text_or(&row.description, ""),
            data: required_data(row, p),
            fingerprint,
            dual_mono,
            algorithm,
        };
        record.set_root(p);
        Some(record)
    }

    /// The record read from a row of the database, its file looked up on
    /// disk; `None` where its path lies in a safe folder. Whatever the disk
    /// answered, the record is one that `from_row` gives for some answer.
    pub fn new_from_row(row: &RowValues, too_short: bool, e: &Enabled, p: &Preferences) -> (r: Option<FileRecord>)
        ensures
            exists|exists: bool| row_record_ok(*row, exists, too_short, *e, *p, r),
    {
        let path = text_or(&row.path, "");
        let exists = crate::paths::validate_windows_path(path.as_str());
        let r = FileRecord::from_row(row, exists, too_short, e, p);
        assert(row_record_ok(*row, exists, too_short, *e, *p, r));
        r
    }
}

} // verus!
