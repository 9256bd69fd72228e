use vstd::prelude::*;
use crate::dupes::{dupe_search, dupes_marked, groups_of, GroupBy};
use crate::marks::Algorithm;
use crate::order::groups_sortable;
use crate::prefs::{views, Enabled, Preferences};
use crate::records::{filename_of, opt_chars, or_else, path_file_stem, FileRecord};
use crate::results::{grouped_at_kept, flat, shows_all, FileRecordFrontend};
use crate::text::{find_substring, has_prefix, replace_all, replace_seq, str_chars, string_from_chars};

verus! {

/// The kind of database server that a URL names.
#[derive(Debug, Clone, Copy, PartialEq, Eq, Structural)]
pub enum Pool {
    Sqlite,
    MySql,
}

impl Pool {
    /// The server's name.
    pub fn get_type(&self) -> (s: &'static str)
        ensures
            s@ == if *self == Pool::MySql {
                "MySQL"@
            } else {
                "SQLite"@
            },
    {
        match self {
            Pool::MySql => "MySQL",
            Pool::Sqlite => "SQLite",
        }
    }

    /// The table that holds the records.
    pub fn get_table_name(&self) -> (s: &'static str)
        ensures
            s@ == table_name(*self),
    {
        match self {
            Pool::MySql => "metadata",
            Pool::Sqlite => "justinmetadata",
        }
    }

    /// Whether the database is an SQLite file.
    pub fn is_sqlite(&self) -> (b: bool)
        ensures
            b == (*self == Pool::Sqlite),
    {
        match self {
            Pool::Sqlite => true,
            Pool::MySql => false,
        }
    }

    /// Whether the database is on a MySQL server.
    pub fn is_mysql(&self) -> (b: bool)
        ensures
            b == (*self == Pool::MySql),
    {
        match self {
            Pool::MySql => true,
            Pool::Sqlite => false,
        }
    }

    /// The kind of database that a URL names: `sqlite://` or `mysql://`; no
    /// other is supported.
    pub fn for_url(url: &str) -> (r: Option<Pool>)
        ensures
            r == pool_for_url(url@),
    {
        let v = str_chars(url);
        proof {
            reveal_strlit("sqlite://");
            reveal_strlit("mysql://");
        }
        let s = str_chars("sqlite://");
        if crate::text::starts_with(&v, &s) {
            return Some(Pool::Sqlite);
        }
        let m = str_chars("mysql://");
        if crate::text::starts_with(&v, &m) {
            return Some(Pool::MySql);
        }
        None
    }
}

/// The table that holds the records of a database.
pub open spec fn table_name(p: Pool) -> Seq<char> {
    if p == Pool::MySql {
        "metadata"@
    } else {
        "justinmetadata"@
    }
}

/// The kind of database that a URL names.
pub open spec fn pool_for_url(url: Seq<char>) -> Option<Pool> {
    if has_prefix(url, "sqlite://"@) {
        Some(Pool::Sqlite)
    } else if has_prefix(url, "mysql://"@) {
        Some(Pool::MySql)
    } else {
        None
    }
}

/// An open database and the records that a search works on.
#[derive(Debug, Clone)]
pub struct Database {
    pub url: String,
    pub size: usize,
    pub records: Vec<FileRecord>,
    pub is_compare: bool,
    pub pool: Pool,
}

/// The part of a URL after its first `://`, or the whole URL.
pub open spec fn url_path(url: Seq<char>) -> Seq<char> {
    match crate::text::find_sub(url, "://"@) {
        Some(k) => url.skip(k + 3),
        None => url,
    }
}

/// How many records are not marked to keep.
pub open spec fn count_not_kept(s: Seq<FileRecord>) -> nat
    decreases s.len(),
{
    if s.len() == 0 {
        0
    } else {
        count_not_kept(s.drop_last()) + if s.last().algorithm@.contains(Algorithm::Keep) {
            0nat
        } else {
            1nat
        }
    }
}

impl Database {
    /// The path of the database: its URL after `://`.
    pub fn get_path(&self) -> (r: String)
        ensures
            r@ == url_path(self.url@),
    {
        let v = str_chars(self.url.as_str());
        let sep = str_chars("://");
        proof {
            reveal_strlit("://");
        }
        match find_substring(&v, &sep) {
            Some(k) => {
                assert(sep@.len() == 3);
                assert(k + 3 <= v@.len());
                let n = v.len();
                assert(k + 3 <= n);
                let start: usize = k + 3;
                let tail = crate::text::slice_from(&v, start, n);
                assert(tail@ =~= v@.skip(k + 3));
                string_from_chars(&tail)
            },
            None => self.url.clone(),
        }
    }

    /// The database's name: the stem of its path, or `unknown`.
    pub fn get_name(&self) -> (r: String)
        ensures
            r@ == or_else(path_file_stem(url_path(self.url@)), "unknown"@),
    {
        let p = self.get_path();
        match crate::records::file_stem_of(p.as_str()) {
            Some(s) => s,
            None => "unknown".to_string(),
        }
    }

    /// The number of records in the database.
    pub fn get_size(&self) -> (n: usize)
        ensures
            n == self.size,
    {
        self.size
    }

    /// The number of records that a search marked for removal: those not
    /// marked to keep.
    pub fn get_records_size(&self) -> (n: usize)
        ensures
            n == count_not_kept(self.records@),
    {
        let mut n: usize = 0;
        let mut i: usize = 0;
        while i < self.records.len()
            invariant
                0 <= i <= self.records.len(),
                n == count_not_kept(self.records@.take(i as int)),
                n <= i,
            decreases self.records.len() - i,
        {
            assert(self.records@.take(i + 1).drop_last() =~= self.records@.take(i as int));
            if !self.records[i].algorithm.contains(Algorithm::Keep) {
                n = n + 1;
            }
            i = i + 1;
        }
        assert(self.records@.take(i as int) =~= self.records@);
        n
    }

    /// The duplicate search on the database's records.
    pub fn dupe_search(&mut self, pref: &Preferences, enabled: &Enabled)
        requires
            groups_sortable(
                pref.preservation_order@,
                groups_of(old(self).records@, *pref, *enabled, GroupBy::Criteria),
            ),
        ensures
            dupes_marked(old(self).records@, final(self).records@, *pref, *enabled),
            final(self).url == old(self).url,
            final(self).size == old(self).size,
            final(self).pool == old(self).pool,
            final(self).is_compare == old(self).is_compare,
    {
        dupe_search(&mut self.records, pref, enabled);
    }

    /// The records as the results list shows them, in groups that each start
    /// at a record marked to keep.
    pub fn records_2_frontend(&self) -> (r: Vec<Vec<FileRecordFrontend>>)
        ensures
            shows_all(flat(r@), self.records@),
            grouped_at_kept(r@),
    {
        crate::results::records_2_frontend(&self.records)
    }
}

/// Whether `name` is the file name of one of the records.
pub open spec fn has_filename(s: Seq<FileRecord>, name: Seq<char>) -> bool {
    exists|j: int| 0 <= j < s.len() && filename_of(#[trigger] s[j]) == name
}

/// The file names of the records, in order.
pub fn filenames(records: &Vec<FileRecord>) -> (r: Vec<String>)
    ensures
        r@.len() == records@.len(),
        forall|j: int| 0 <= j < r@.len() ==> (#[trigger] r@[j])@ == filename_of(records@[j]),
{
    let mut out: Vec<String> = Vec::new();
    let mut i: usize = 0;
    while i < records.len()
        invariant
            0 <= i <= records.len(),
            out@.len() == i,
            forall|j: int| 0 <= j < i ==> (#[trigger] out@[j])@ == filename_of(records@[j]),
        decreases records.len() - i,
    {
        out.push(records[i].get_filename());
        i = i + 1;
    }
    out
}

fn list_has(list: &Vec<String>, s: &String) -> (b: bool)
    ensures
        b == exists|j: int| 0 <= j < list@.len() && (#[trigger] list@[j])@ == s@,
{
    let mut i: usize = 0;
    while i < list.len()
        invariant
            0 <= i <= list.len(),
            forall|j: int| 0 <= j < i ==> (#[trigger] list@[j])@ != s@,
        decreases list.len() - i,
    {
        if crate::text::str_eq(list[i].as_str(), s.as_str()) {
            return true;
        }
        i = i + 1;
    }
    false
}

/// Whether `after` is `before` with one change to every record: `f` gives
/// the new marks of a record from the old record.
pub open spec fn marks_changed(
    before: Seq<FileRecord>,
    after: Seq<FileRecord>,
    f: spec_fn(FileRecord) -> Set<Algorithm>,
) -> bool {
    &&& after.len() == before.len()
    &&& forall|i: int| 0 <= i < before.len() ==> crate::dupes::same_but_marks(#[trigger] before[i], after[i])
    &&& forall|i: int| 0 <= i < before.len() ==> (#[trigger] after[i]).algorithm@ == f(before[i])
}

/// The marks of a record after comparing against another database: a record
/// whose file name the other database holds is marked `Compare` and loses
/// `Keep`.
pub open spec fn compared_marks(r: FileRecord, other: Seq<FileRecord>) -> Set<Algorithm> {
    if has_filename(other, filename_of(r)) {
        r.algorithm@.insert(Algorithm::Compare).remove(Algorithm::Keep)
    } else {
        r.algorithm@
    }
}

impl Database {
    /// Marks the records whose file name the other database also holds.
    pub fn compare_search(&mut self, compare: &Database)
        ensures
            marks_changed(old(self).records@, final(self).records@, |r: FileRecord| compared_marks(r, compare.records@)),
            final(self).url == old(self).url,
            final(self).size == old(self).size,
            final(self).pool == old(self).pool,
            final(self).is_compare == old(self).is_compare,
    {
        let names = filenames(&compare.records);
        let ghost orig = self.records@;
        let mut all: Vec<FileRecord> = Vec::new();
        std::mem::swap(&mut all, &mut self.records);
        assert(orig.len() == all.len());
        let mut rest = crate::dupes::reversed(all);
        let mut out: Vec<FileRecord> = Vec::new();
        let mut i: usize = 0;
        while rest.len() > 0
            invariant
                i + rest@.len() == orig.len(),
                orig.len() <= usize::MAX,
                rest@ == orig.skip(i as int).reverse(),
                out@.len() == i,
                names@.len() == compare.records@.len(),
                forall|j: int| 0 <= j < names@.len() ==> (#[trigger] names@[j])@ == filename_of(compare.records@[j]),
                forall|j: int| 0 <= j < i ==> crate::dupes::same_but_marks(#[trigger] orig[j], out@[j]),
                forall|j: int| 0 <= j < i ==> (#[trigger] out@[j]).algorithm@ == compared_marks(orig[j], compare.records@),
            decreases rest@.len(),
        {
            let ghost n = rest@.len();
            let mut r = rest.pop().unwrap();
            assert(r == orig.skip(i as int).reverse()[n - 1]);
            assert(r == orig[i as int]);
            assert(rest@ =~= orig.skip(i + 1).reverse());
            let name = r.get_filename();
            let hit = list_has(&names, &name);
            proof {
                if hit {
                    let j = choose|j: int| 0 <= j < names@.len() && (#[trigger] names@[j])@ == name@;
                    assert(filename_of(compare.records@[j]) == filename_of(r));
                } else {
                    assert forall|j: int| 0 <= j < compare.records@.len() implies filename_of(#[trigger] compare.records@[j]) != filename_of(r) by {
                        assert(names@[j]@ != name@);
                    }
                }
            }
            if hit {
                r.algorithm.insert(Algorithm::Compare);
                r.algorithm.remove(Algorithm::Keep);
            }
            out.push(r);
            i = i + 1;
        }
        self.records = out;
    }
}

/// What the dual mono search has to do for a record.
#[derive(Debug, Clone, Copy, PartialEq, Eq, Structural)]
pub enum DualMonoStep {
    /// Nothing: the file is missing, or its answer is already known and
    /// marked.
    Known,
    /// Its channels have to be compared.
    Check,
}

/// The marks of a record before its channels are compared: one whose
/// stored answer is yes is marked `DualMono`.
pub open spec fn dual_mono_known_marks(r: FileRecord) -> Set<Algorithm> {
    if !r.algorithm@.contains(Algorithm::InvalidPath) && r.dual_mono == Some(true) {
        r.algorithm@.insert(Algorithm::DualMono)
    } else {
        r.algorithm@
    }
}

/// Whether the channels of a record still have to be compared: its file is
/// not missing and no answer is stored.
pub open spec fn needs_dual_mono_check(r: FileRecord) -> bool {
    !r.algorithm@.contains(Algorithm::InvalidPath) && r.dual_mono is None
}

/// Takes a record's stored dual mono answer into account, and says whether
/// its channels still have to be compared.
pub fn dual_mono_prepare(r: &mut FileRecord) -> (step: DualMonoStep)
    ensures
        crate::dupes::same_but_marks(*old(r), *final(r)),
        final(r).algorithm@ == dual_mono_known_marks(*old(r)),
        (step == DualMonoStep::Check) == needs_dual_mono_check(*old(r)),
{
    if r.algorithm.contains(Algorithm::InvalidPath) {
        return DualMonoStep::Known;
    }
    match r.dual_mono {
        Some(b) => {
            if b {
                r.algorithm.insert(Algorithm::DualMono);
            }
            DualMonoStep::Known
        },
        None => DualMonoStep::Check,
    }
}

/// Records the outcome of comparing a record's channels: the answer is
/// stored in the record and its `DualMono` mark set or taken away; the id and
/// answer are returned for the database.
pub fn dual_mono_record(r: &mut FileRecord, identical: bool) -> (stored: (usize, bool))
    ensures
        final(r).dual_mono == Some(identical),
        final(r).algorithm@ == if identical {
            old(r).algorithm@.insert(Algorithm::DualMono)
        } else {
            old(r).algorithm@.remove(Algorithm::DualMono)
        },
        final(r).id == old(r).id,
        final(r).path == old(r).path,
        final(r).data == old(r).data,
        final(r).fingerprint == old(r).fingerprint,
        final(r).root == old(r).root,
        stored == (old(r).id, identical),
{
    r.dual_mono = Some(identical);
    if identical {
        r.algorithm.insert(Algorithm::DualMono);
    } else {
        r.algorithm.remove(Algorithm::DualMono);
    }
    (r.id, identical)
}

/// The text stored for a dual mono answer.
pub fn dual_mono_text(identical: bool) -> (s: &'static str)
    ensures
        s@ == if identical {
            "1"@
        } else {
            "0"@
        },
{
    if identical {
        "1"
    } else {
        "0"
    }
}

/// The piece of a URL between its first `://` and the next one (or its
/// end); `None` where it has no `://`.
pub open spec fn url_address(url: Seq<char>) -> Option<Seq<char>> {
    match crate::text::find_sub(url, "://"@) {
        Some(k) => {
            let rest = url.skip(k + 3);
            match crate::text::find_sub(rest, "://"@) {
                Some(j) => Some(rest.take(j)),
                None => Some(rest),
            }
        },
        None => None,
    }
}

impl Database {
    /// The address of the database: the part of its URL after `://`, up to
    /// a further `://`.
    pub fn get_address(&self) -> (r: Option<String>)
        ensures
            opt_chars(r) == url_address(self.url@),
    {
        let v = str_chars(self.url.as_str());
        let sep = str_chars("://");
        proof {
            reveal_strlit("://");
        }
        match find_substring(&v, &sep) {
            Some(k) => {
                assert(sep@.len() == 3);
                let n = v.len();
                let start: usize = k + 3;
                let rest = crate::text::slice_from(&v, start, n);
                assert(rest@ =~= v@.skip(k + 3));
                match find_substring(&rest, &sep) {
                    Some(j) => {
                        let piece = crate::text::slice_from(&rest, 0, j);
                        assert(piece@ =~= rest@.take(j as int));
                        Some(string_from_chars(&piece))
                    },
                    None => Some(string_from_chars(&rest)),
                }
            },
            None => None,
        }
    }
}

/// A progress report for the user interface.
#[derive(Debug, Clone)]
pub struct StatusUpdate {
    pub stage: String,
    pub progress: usize,
    pub message: String,
}

impl StatusUpdate {
    /// A report of `progress` percent in `stage`.
    pub fn new(stage: &str, progress: usize, message: &str) -> (s: StatusUpdate)
        ensures
            s.stage@ == stage@,
            s.progress == progress,
            s.message@ == message@,
    {
        StatusUpdate { stage: stage.to_string(), progress, message: message.to_string() }
    }
}

/// Where progress reports go: the search status, its sub-status, and the
/// same two for a removal.
pub trait StatusEmitter {
    fn status(&self, stage: &str, progress: usize, message: &str);

    fn substatus(&self, stage: &str, progress: usize, message: &str);

    fn rstatus(&self, stage: &str, progress: usize, message: &str);

    fn rsubstatus(&self, stage: &str, progress: usize, message: &str);
}

/// The state that the application keeps between commands: the open
/// database.
#[derive(Debug, Clone)]
pub struct AppState {
    pub db: Database,
}

/// Whether `a` comes before `b` in the order of `str`: by the first
/// character where they differ, a prefix first.
pub open spec fn text_lt(a: Seq<char>, b: Seq<char>) -> bool
    decreases a.len(),
{
    if b.len() == 0 {
        false
    } else if a.len() == 0 {
        true
    } else if a[0] != b[0] {
        a[0] < b[0]
    } else {
        text_lt(a.drop_first(), b.drop_first())
    }
}

fn text_lt_exec(a: &Vec<char>, b: &Vec<char>) -> (r: bool)
    ensures
        r == text_lt(a@, b@),
{
    let mut i: usize = 0;
    assert(a@.skip(0) =~= a@);
    assert(b@.skip(0) =~= b@);
    while i < a.len() && i < b.len() && a[i] == b[i]
        invariant
            0 <= i <= a@.len(),
            i <= b@.len(),
            text_lt(a@, b@) == text_lt(a@.skip(i as int), b@.skip(i as int)),
        decreases a@.len() - i,
    {
        assert(a@.skip(i as int).drop_first() =~= a@.skip(i + 1));
        assert(b@.skip(i as int).drop_first() =~= b@.skip(i + 1));
        i = i + 1;
    }
    if i == b.len() {
        false
    } else if i == a.len() {
        true
    } else {
        a[i] < b[i]
    }
}

/// Whether a list of names is in the order of `str`.
pub open spec fn text_sorted(s: Seq<Seq<char>>) -> bool {
    forall|i: int, j: int| 0 <= i < j < s.len() ==> !text_lt(#[trigger] s[j], #[trigger] s[i])
}

proof fn lemma_text_lt_asym(a: Seq<char>, b: Seq<char>)
    ensures
        !(text_lt(a, b) && text_lt(b, a)),
    decreases a.len(),
{
    if a.len() > 0 && b.len() > 0 && a[0] == b[0] {
        lemma_text_lt_asym(a.drop_first(), b.drop_first());
    }
}

proof fn lemma_text_lt_trans(a: Seq<char>, b: Seq<char>, c: Seq<char>)
    requires
        text_lt(a, b),
        text_lt(b, c),
    ensures
        text_lt(a, c),
    decreases a.len(),
{
    if a.len() > 0 && b.len() > 0 && c.len() > 0 && a[0] == b[0] && b[0] == c[0] {
        lemma_text_lt_trans(a.drop_first(), b.drop_first(), c.drop_first());
    }
}

proof fn lemma_insert_sorted(before: Seq<Seq<char>>, p: int, v: Seq<char>)
    requires
        0 <= p <= before.len(),
        text_sorted(before),
        forall|j: int| 0 <= j < p ==> !text_lt(v, #[trigger] before[j]),
        p < before.len() ==> text_lt(v, before[p]),
    ensures
        text_sorted(before.insert(p, v)),
{
    let o = before.insert(p, v);
    assert forall|a: int, b: int| 0 <= a < b < o.len() implies !text_lt(#[trigger] o[b], #[trigger] o[a]) by {
        if a < p && b == p {
            assert(o[a] == before[a]);
        } else if a == p && b > p {
            assert(o[b] == before[b - 1]);
            lemma_text_lt_asym(v, before[p]);
            if b - 1 > p {
                if text_lt(before[b - 1], v) {
                    lemma_text_lt_trans(before[b - 1], v, before[p]);
                    assert(!text_lt(before[b - 1], before[p]));
                }
            }
        } else if a < p && b > p {
            assert(o[a] == before[a]);
            assert(o[b] == before[b - 1]);
        } else if b < p {
            assert(o[a] == before[a]);
            assert(o[b] == before[b]);
        } else {
            assert(o[a] == before[a - 1]);
            assert(o[b] == before[b - 1]);
        }
    }
}

fn insert_position(out: &Vec<String>, v: &Vec<char>) -> (p: usize)
    ensures
        p <= out@.len(),
        forall|j: int| 0 <= j < p ==> !text_lt(v@, #[trigger] views(out@)[j]),
        p < out@.len() ==> text_lt(v@, views(out@)[p as int]),
{
    let mut p: usize = 0;
    while p < out.len()
        invariant
            0 <= p <= out@.len(),
            forall|j: int| 0 <= j < p ==> !text_lt(v@, #[trigger] views(out@)[j]),
        decreases out@.len() - p,
    {
        let w = str_chars(out[p].as_str());
        if text_lt_exec(v, &w) {
            return p;
        }
        p = p + 1;
    }
    p
}

/// The names of the visible columns: those not starting with `_`, in the
/// order of `str`.
pub fn visible_columns(names: &Vec<String>) -> (r: Vec<String>)
    ensures
        views(r@).to_multiset() == views(names@).filter(|n: Seq<char>| !(n.len() > 0 && n[0] == '_')).to_multiset(),
        text_sorted(views(r@)),
{
    broadcast use vstd::seq_lib::group_to_multiset_ensures;

    let ghost keep = |n: Seq<char>| !(n.len() > 0 && n[0] == '_');
    let mut out: Vec<String> = Vec::new();
    let mut i: usize = 0;
    assert(views(names@).take(0).filter(keep) =~= Seq::<Seq<char>>::empty()) by {
        reveal_with_fuel(Seq::filter, 1);
    }
    assert(views(out@) =~= Seq::<Seq<char>>::empty());
    while i < names.len()
        invariant
            0 <= i <= names.len(),
            keep == (|n: Seq<char>| !(n.len() > 0 && n[0] == '_')),
            views(out@).to_multiset() == views(names@).take(i as int).filter(keep).to_multiset(),
            text_sorted(views(out@)),
        decreases names.len() - i,
    {
        let v = str_chars(names[i].as_str());
        let ghost nv = views(names@);
        proof {
            reveal_with_fuel(Seq::filter, 1);
            assert(nv.take(i + 1).drop_last() =~= nv.take(i as int));
            assert(nv.take(i + 1).last() == names@[i as int]@);
        }
        if !(v.len() > 0 && v[0] == '_') {
            let p = insert_position(&out, &v);
            let ghost before = views(out@);
            out.insert(p, names[i].clone());
            proof {
                assert(views(out@) =~= before.insert(p as int, v@));
                lemma_insert_sorted(before, p as int, v@);
                assert(nv.take(i + 1).filter(keep) == nv.take(i as int).filter(keep).push(v@));
                vstd::seq_lib::to_multiset_insert(before, p as int, v@);
                vstd::seq_lib::to_multiset_build(nv.take(i as int).filter(keep), v@);
            }
        } else {
            assert(nv.take(i + 1).filter(keep) == nv.take(i as int).filter(keep));
        }
        i = i + 1;
    }
    assert(views(names@).take(i as int) =~= views(names@));
    out
}

/// The paths of the safety copy of a database: its file with `_<tag>`
/// before each `.sqlite`, and the URL of that file.
pub fn clone_paths(db_path: &str, tag: &str) -> (r: (String, String))
    ensures
        r.0@ == replace_all(db_path@, ".sqlite"@, seq!['_'] + tag@ + ".sqlite"@),
        r.1@ == "sqlite://"@ + r.0@,
{
    let v = str_chars(db_path);
    let pat = str_chars(".sqlite");
    proof {
        reveal_strlit(".sqlite");
    }
    let mut rep: Vec<char> = Vec::new();
    rep.push('_');
    crate::text::append_chars(&mut rep, tag);
    crate::text::append_chars(&mut rep, ".sqlite");
    let out = replace_seq(&v, &pat, &rep);
    let target = string_from_chars(&out);
    let mut url: Vec<char> = Vec::new();
    crate::text::append_chars(&mut url, "sqlite://");
    crate::text::append_chars(&mut url, target.as_str());
    (target, string_from_chars(&url))
}

/// `s` (ordered by root) with `x` put after every record whose root does not
/// come after its own.
pub open spec fn insert_by_root(x: FileRecord, s: Seq<FileRecord>) -> Seq<FileRecord>
    decreases s.len(),
{
    if s.len() == 0 {
        seq![x]
    } else if text_lt(x.root@, s[0].root@) {
        seq![x] + s
    } else {
        seq![s[0]] + insert_by_root(x, s.drop_first())
    }
}

/// The records ordered by root in the order of `str`, records of equal roots
/// in their order: a stable sort.
pub open spec fn sorted_by_root(s: Seq<FileRecord>) -> Seq<FileRecord>
    decreases s.len(),
{
    if s.len() == 0 {
        s
    } else {
        insert_by_root(s.last(), sorted_by_root(s.drop_last()))
    }
}

proof fn lemma_insert_by_root_at(x: FileRecord, s: Seq<FileRecord>, p: int)
    requires
        0 <= p <= s.len(),
        forall|j: int| 0 <= j < p ==> !text_lt(x.root@, (#[trigger] s[j]).root@),
        p < s.len() ==> text_lt(x.root@, s[p].root@),
    ensures
        insert_by_root(x, s) == s.insert(p, x),
    decreases s.len(),
{
    if s.len() == 0 {
        assert(s.insert(p, x) =~= seq![x]);
    } else if p == 0 {
        assert(s.insert(0, x) =~= seq![x] + s);
    } else {
        assert(!text_lt(x.root@, s[0].root@));
        let t = s.drop_first();
        assert forall|j: int| 0 <= j < p - 1 implies !text_lt(x.root@, (#[trigger] t[j]).root@) by {
            assert(t[j] == s[j + 1]);
        }
        lemma_insert_by_root_at(x, t, p - 1);
        assert(seq![s[0]] + t.insert(p - 1, x) =~= s.insert(p, x));
    }
}

/// Orders the records by root, in the order of `str`, keeping the order of
/// records of equal roots: as the search lists them after the duplicate
/// search.
pub fn sort_by_root(vec: &mut Vec<FileRecord>)
    ensures
        final(vec)@ == sorted_by_root(old(vec)@),
{
    let ghost orig = vec@;
    let mut out: Vec<FileRecord> = Vec::new();
    let mut keys: Vec<Vec<char>> = Vec::new();
    assert(orig.skip(0) =~= orig);
    assert(orig.take(0) =~= Seq::<FileRecord>::empty());
    while vec.len() > 0
        invariant
            out@.len() + vec@.len() == orig.len(),
            vec@ == orig.skip(out@.len() as int),
            out@ == sorted_by_root(orig.take(out@.len() as int)),
            keys@.len() == out@.len(),
            forall|j: int| 0 <= j < keys@.len() ==> (#[trigger] keys@[j])@ == out@[j].root@,
        decreases vec@.len(),
    {
        let ghost n = out@.len() as int;
        let x = vec.remove(0);
        assert(x == orig[n]);
        let k = str_chars(x.root.as_str());
        let mut p: usize = 0;
        while p < keys.len() && !text_lt_exec(&k, &keys[p])
            invariant
                0 <= p <= keys@.len(),
                keys@.len() == out@.len(),
                forall|j: int| 0 <= j < keys@.len() ==> (#[trigger] keys@[j])@ == out@[j].root@,
                k@ == x.root@,
                forall|j: int| 0 <= j < p ==> !text_lt(x.root@, (#[trigger] out@[j]).root@),
            decreases keys@.len() - p,
        {
            assert(keys@[p as int]@ == out@[p as int].root@);
            p = p + 1;
        }
        let ghost keys_before = keys@;
        proof {
            if p < keys@.len() {
                assert(keys@[p as int]@ == out@[p as int].root@);
            }
            lemma_insert_by_root_at(x, out@, p as int);
            assert(orig.take(n + 1).drop_last() =~= orig.take(n));
            assert(orig.take(n + 1).last() == x);
            assert(vec@ =~= orig.skip(n + 1));
        }
        out.insert(p, x);
        keys.insert(p, k);
        proof {
            assert forall|j: int| 0 <= j < keys@.len() implies (#[trigger] keys@[j])@ == out@[j].root@ by {
                if j < p {
                } else if j == p {
                } else {
                    assert(keys@[j] == keys_before[j - 1]);
                }
            }
        }
    }
    assert(orig.take(out@.len() as int) =~= orig);
    *vec = out;
}

/// The roots of the records, in order.
pub open spec fn roots_of(s: Seq<FileRecord>) -> Seq<Seq<char>> {
    s.map_values(|r: FileRecord| r.root@)
}

proof fn lemma_insert_by_root_form(x: FileRecord, s: Seq<FileRecord>) -> (p: int)
    ensures
        0 <= p <= s.len(),
        insert_by_root(x, s) == s.insert(p, x),
        forall|j: int| 0 <= j < p ==> !text_lt(x.root@, (#[trigger] s[j]).root@),
        p < s.len() ==> text_lt(x.root@, s[p].root@),
    decreases s.len(),
{
    if s.len() == 0 {
        assert(s.insert(0, x) =~= seq![x]);
        0
    } else if text_lt(x.root@, s[0].root@) {
        assert(s.insert(0, x) =~= seq![x] + s);
        0
    } else {
        let t = s.drop_first();
        let q = lemma_insert_by_root_form(x, t);
        assert(seq![s[0]] + t.insert(q, x) =~= s.insert(q + 1, x));
        assert forall|j: int| 0 <= j < q + 1 implies !text_lt(x.root@, (#[trigger] s[j]).root@) by {
            if j > 0 {
                assert(s[j] == t[j - 1]);
            }
        }
        if q < t.len() {
            assert(s[q + 1] == t[q]);
        }
        q + 1
    }
}

/// Law: sorting by root only reorders the records, and leaves them in the
/// order of their roots: no root comes before the root of a record ahead of
/// it.
pub proof fn lemma_sorted_by_root(s: Seq<FileRecord>)
    ensures
        sorted_by_root(s).to_multiset() == s.to_multiset(),
        text_sorted(roots_of(sorted_by_root(s))),
    decreases s.len(),
{
    broadcast use vstd::seq_lib::group_to_multiset_ensures, vstd::multiset::group_multiset_axioms;

    if s.len() == 0 {
        assert(roots_of(s) =~= Seq::<Seq<char>>::empty());
    } else {
        let t = sorted_by_root(s.drop_last());
        let x = s.last();
        lemma_sorted_by_root(s.drop_last());
        let p = lemma_insert_by_root_form(x, t);
        assert(roots_of(t.insert(p, x)) =~= roots_of(t).insert(p, x.root@));
        assert forall|j: int| 0 <= j < p implies !text_lt(x.root@, #[trigger] roots_of(t)[j]) by {
            assert(roots_of(t)[j] == t[j].root@);
        }
        lemma_insert_sorted(roots_of(t), p, x.root@);
        assert(s =~= s.drop_last().push(x));
        t.insert_ensures(p, x);
    }
}

} // verus!
