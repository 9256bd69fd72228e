use vstd::prelude::*;
use vstd::multiset::Multiset;
use crate::marks::{Algorithm, AlgorithmSet};
use crate::order::{groups_sortable, rules_sortable, sorted_for_keeping};
use crate::prefs::{has_tag, views, Enabled, Preferences};
use crate::records::{data_get, filename_of, filestem_of, opt_chars, or_else, FileRecord};
use crate::text::{str_chars, str_eq, trim_range, trim_white};

verus! {

/// Whether a match criterion stands for the file name.
pub open spec fn is_filename_criterion(m: Seq<char>) -> bool {
    m == "Filename"@
}

/// The value that groups a record under one match criterion: its root for
/// `Filename` when a file name search is on, else its column value, empty
/// where it has none.
pub open spec fn criterion_value(r: FileRecord, m: Seq<char>, e: Enabled) -> Seq<char> {
    if is_filename_criterion(m) && (e.filename || e.audiosuite) {
        r.root@
    } else {
        or_else(data_get(r.data@, m), Seq::empty())
    }
}

/// The key under which a record is grouped with its duplicates: its value
/// for each match criterion.
pub open spec fn group_key(r: FileRecord, p: Preferences, e: Enabled) -> Seq<Seq<char>> {
    views(p.match_criteria@).map_values(|m: Seq<char>| criterion_value(r, m, e))
}

/// What the records are grouped by.
#[derive(Debug, Clone, Copy, PartialEq, Eq, Structural)]
pub enum GroupBy {
    /// The values of the match criteria.
    Criteria,
    /// The audio fingerprint.
    Fingerprint,
}

/// The key that groups a record: its match criteria values, or its
/// fingerprint (empty where it has none).
pub open spec fn record_key(r: FileRecord, p: Preferences, e: Enabled, by: GroupBy) -> Seq<Seq<char>> {
    match by {
        GroupBy::Criteria => group_key(r, p, e),
        GroupBy::Fingerprint => seq![or_else(opt_chars(r.fingerprint), Seq::empty())],
    }
}

/// The distinct keys of the records, in the order of their first record.
pub open spec fn keys_in_order(s: Seq<FileRecord>, p: Preferences, e: Enabled, by: GroupBy) -> Seq<Seq<Seq<char>>>
    decreases s.len(),
{
    if s.len() == 0 {
        Seq::empty()
    } else {
        let ks = keys_in_order(s.drop_last(), p, e, by);
        let k = record_key(s.last(), p, e, by);
        if ks.contains(k) {
            ks
        } else {
            ks.push(k)
        }
    }
}

/// The records of key `k`, in their order.
pub open spec fn group_of(s: Seq<FileRecord>, p: Preferences, e: Enabled, by: GroupBy, k: Seq<Seq<char>>) -> Seq<
    FileRecord,
> {
    s.filter(|r: FileRecord| record_key(r, p, e, by) == k)
}

/// The groups of duplicates: the records of each key, the groups in the
/// order of their first record.
pub open spec fn groups_of(s: Seq<FileRecord>, p: Preferences, e: Enabled, by: GroupBy) -> Seq<Seq<FileRecord>> {
    keys_in_order(s, p, e, by).map_values(|k: Seq<Seq<char>>| group_of(s, p, e, by, k))
}

fn value_of_criterion(r: &FileRecord, m: &str, e: &Enabled) -> (v: String)
    ensures
        v@ == criterion_value(*r, m@, *e),
{
    proof {
        reveal_strlit("Filename");
    }
    if str_eq(m, "Filename") && (e.filename || e.audiosuite) {
        r.root.clone()
    } else {
        crate::order::column_value(r, m)
    }
}

/// The key under which a record is grouped.
fn key_of(r: &FileRecord, p: &Preferences, e: &Enabled) -> (k: Vec<String>)
    ensures
        views(k@) == group_key(*r, *p, *e),
{
    let mut k: Vec<String> = Vec::new();
    let mut i: usize = 0;
    while i < p.match_criteria.len()
        invariant
            0 <= i <= p.match_criteria.len(),
            views(k@) == group_key(*r, *p, *e).take(i as int),
        decreases p.match_criteria.len() - i,
    {
        let v = value_of_criterion(r, p.match_criteria[i].as_str(), e);
        assert(views(p.match_criteria@)[i as int] == p.match_criteria@[i as int]@);
        assert(group_key(*r, *p, *e)[i as int] == v@);
        let ghost before = views(k@);
        k.push(v);
        assert(views(k@) =~= before.push(v@));
        assert(group_key(*r, *p, *e).take(i + 1) =~= group_key(*r, *p, *e).take(i as int).push(v@));
        i = i + 1;
    }
    assert(group_key(*r, *p, *e).take(i as int) =~= group_key(*r, *p, *e));
    k
}

fn key_for(r: &FileRecord, p: &Preferences, e: &Enabled, by: GroupBy) -> (k: Vec<String>)
    ensures
        views(k@) == record_key(*r, *p, *e, by),
{
    match by {
        GroupBy::Criteria => key_of(r, p, e),
        GroupBy::Fingerprint => {
            let f = match &r.fingerprint {
                Some(f) => f.clone(),
                None => String::new(),
            };
            let k = vec![f];
            assert(views(k@) =~= record_key(*r, *p, *e, by));
            k
        },
    }
}


fn keys_equal(a: &Vec<String>, b: &Vec<String>) -> (r: bool)
    ensures
        r == (views(a@) == views(b@)),
{
    if a.len() != b.len() {
        assert(views(a@).len() != views(b@).len());
        return false;
    }
    let mut i: usize = 0;
    while i < a.len()
        invariant
            0 <= i <= a.len(),
            a.len() == b.len(),
            forall|j: int| 0 <= j < i ==> a@[j]@ == b@[j]@,
        decreases a.len() - i,
    {
        if !str_eq(a[i].as_str(), b[i].as_str()) {
            assert(views(a@)[i as int] != views(b@)[i as int]);
            return false;
        }
        i = i + 1;
    }
    assert(views(a@) =~= views(b@));
    true
}

proof fn lemma_key_listed(s: Seq<FileRecord>, p: Preferences, e: Enabled, by: GroupBy, j: int)
    requires
        0 <= j < s.len(),
    ensures
        keys_in_order(s, p, e, by).contains(record_key(s[j], p, e, by)),
    decreases s.len(),
{
    let ks = keys_in_order(s.drop_last(), p, e, by);
    if j < s.len() - 1 {
        lemma_key_listed(s.drop_last(), p, e, by, j);
        assert(s.drop_last()[j] == s[j]);
        if !ks.contains(record_key(s.last(), p, e, by)) {
            let w = choose|w: int| 0 <= w < ks.len() && ks[w] == record_key(s[j], p, e, by);
            assert(ks.push(record_key(s.last(), p, e, by))[w] == record_key(s[j], p, e, by));
        }
    } else {
        if !ks.contains(record_key(s.last(), p, e, by)) {
            assert(ks.push(record_key(s.last(), p, e, by))[ks.len() as int] == record_key(s.last(), p, e, by));
        }
    }
}

proof fn lemma_unlisted_key_group_empty(s: Seq<FileRecord>, p: Preferences, e: Enabled, by: GroupBy, k: Seq<Seq<char>>)
    requires
        !keys_in_order(s, p, e, by).contains(k),
    ensures
        group_of(s, p, e, by, k) == Seq::<FileRecord>::empty(),
{
    let f = |r: FileRecord| record_key(r, p, e, by) == k;
    assert forall|j: int| 0 <= j < s.len() implies !f(s[j]) by {
        lemma_key_listed(s, p, e, by, j);
    }
    s.lemma_all_neg_filter_empty(f);
}

proof fn lemma_keys_distinct(s: Seq<FileRecord>, p: Preferences, e: Enabled, by: GroupBy)
    ensures
        keys_in_order(s, p, e, by).no_duplicates(),
    decreases s.len(),
{
    if s.len() > 0 {
        lemma_keys_distinct(s.drop_last(), p, e, by);
    }
}

/// Reverses a vector by moving its items.
pub(crate) fn reversed<T>(v: Vec<T>) -> (r: Vec<T>)
    ensures
        r@ == v@.reverse(),
{
    let mut v = v;
    let ghost orig = v@;
    let mut out: Vec<T> = Vec::new();
    while v.len() > 0
        invariant
            v@.len() <= orig.len(),
            v@ == orig.take(v@.len() as int),
            out@ == orig.skip(v@.len() as int).reverse(),
        decreases v@.len(),
    {
        let ghost n = v@.len();
        let x = v.pop().unwrap();
        proof {
            assert(x == orig[n - 1]);
            assert(orig.skip(n - 1).reverse() =~= orig.skip(n as int).reverse().push(x));
            assert(v@ =~= orig.take(n - 1));
        }
        out.push(x);
    }
    assert(orig.skip(0) =~= orig);
    out
}

/// Sorts the records into groups of equal key, in the order of each
/// group's first record, keeping the order of the records in each group.
pub fn group_records(records: Vec<FileRecord>, p: &Preferences, e: &Enabled, by: GroupBy) -> (r: Vec<Vec<FileRecord>>)
    ensures
        r@.len() == groups_of(records@, *p, *e, by).len(),
        forall|j: int| 0 <= j < r@.len() ==> (#[trigger] r@[j])@ == groups_of(records@, *p, *e, by)[j],
{
    let ghost orig = records@;
    assert(orig.len() == records.len());
    let mut rest = reversed(records);
    let mut keys: Vec<Vec<String>> = Vec::new();
    let mut groups: Vec<Vec<FileRecord>> = Vec::new();
    let mut i: usize = 0;
    assert(orig.take(0) =~= Seq::<FileRecord>::empty());
    while rest.len() > 0
        invariant
            i + rest@.len() == orig.len(),
            orig.len() <= usize::MAX,
            rest@ == orig.skip(i as int).reverse(),
            keys@.len() == groups@.len(),
            keys@.map_values(|k: Vec<String>| views(k@)) == keys_in_order(orig.take(i as int), *p, *e, by),
            forall|j: int| 0 <= j < groups@.len() ==> (#[trigger] groups@[j])@ == group_of(orig.take(i as int),
                *p,
                *e, by,
                views(keys@[j]@),
            ),
        decreases rest@.len(),
    {
        let ghost n = rest@.len();
        let x = rest.pop().unwrap();
        let ghost pre = orig.take(i as int);
        let ghost post = orig.take(i + 1);
        proof {
            assert(x == orig.skip(i as int).reverse()[n - 1]);
            assert(x == orig[i as int]);
            assert(rest@ =~= orig.skip(i + 1).reverse());
            assert(post.drop_last() =~= pre);
            assert(post.last() == x);
        }
        let k = key_for(&x, p, e, by);
        let mut j: usize = 0;
        while j < keys.len() && !keys_equal(&keys[j], &k)
            invariant
                0 <= j <= keys@.len(),
                forall|w: int| 0 <= w < j ==> views(keys@[w]@) != views(k@),
            decreases keys@.len() - j,
        {
            j = j + 1;
        }
        let ghost kx = views(k@);
        let ghost keys_before = keys@;
        let ghost groups_before = groups@;
        proof {
            reveal_with_fuel(Seq::filter, 1);
        }
        if j < keys.len() {
            let mut g = groups.remove(j);
            g.push(x);
            groups.insert(j, g);
            proof {
                assert(keys_before.map_values(|k: Vec<String>| views(k@))[j as int] == kx);
                assert(keys_in_order(pre, *p, *e, by).contains(kx));
                assert(keys_in_order(post, *p, *e, by) == keys_in_order(pre, *p, *e, by));
                assert forall|w: int| 0 <= w < groups@.len() implies (#[trigger] groups@[w])@ == group_of(post,
                    *p,
                    *e, by,
                    views(keys@[w]@),
                ) by {
                    if w == j {
                        assert(groups@[w]@ == groups_before[w]@.push(x));
                    } else {
                        assert(groups@[w] == groups_before[w]);
                        lemma_keys_distinct(pre, *p, *e, by);
                        assert(keys_before.map_values(|k: Vec<String>| views(k@))[w] == views(keys@[w]@));
                    }
                }
            }
        } else {
            proof {
                assert(!keys_in_order(pre, *p, *e, by).contains(kx)) by {
                    if keys_in_order(pre, *p, *e, by).contains(kx) {
                        let w = choose|w: int| 0 <= w < keys_in_order(pre, *p, *e, by).len() && keys_in_order(pre, *p, *e, by)[w] == kx;
                        assert(keys_before.map_values(|k: Vec<String>| views(k@))[w] == kx);
                    }
                }
                lemma_unlisted_key_group_empty(pre, *p, *e, by, kx);
            }
            keys.push(k);
            let mut g: Vec<FileRecord> = Vec::new();
            g.push(x);
            groups.push(g);
            proof {
                assert(keys@.map_values(|k: Vec<String>| views(k@)) =~= keys_in_order(post, *p, *e, by));
                assert forall|w: int| 0 <= w < groups@.len() implies (#[trigger] groups@[w])@ == group_of(post,
                    *p,
                    *e, by,
                    views(keys@[w]@),
                ) by {
                    if w == groups_before.len() {
                        assert(group_of(pre, *p, *e, by, kx) == Seq::<FileRecord>::empty());
                        assert(groups@[w]@ =~= seq![x]);
                        assert(Seq::<FileRecord>::empty().push(x) =~= seq![x]);
                    } else {
                        assert(groups@[w] == groups_before[w]);
                        assert(keys_before.map_values(|k: Vec<String>| views(k@))[w] == views(keys@[w]@));
                        assert(keys_in_order(pre, *p, *e, by)[w] != kx);
                    }
                }
            }
        }
        i = i + 1;
    }
    assert(orig.take(i as int) =~= orig);
    proof {
        assert forall|j: int| 0 <= j < groups@.len() implies (#[trigger] groups@[j])@ == groups_of(orig, *p, *e, by)[j] by {
            assert(keys@.map_values(|k: Vec<String>| views(k@))[j] == views(keys@[j]@));
        }
    }
    groups
}

/// `s` without `Keep` unless it belongs to the first record of its group.
pub open spec fn drop_keep(s: Set<Algorithm>, first: bool) -> Set<Algorithm> {
    if first {
        s
    } else {
        s.remove(Algorithm::Keep)
    }
}

/// Whether a record is a plain duplicate: no file name search is on, or its
/// root is its whole (trimmed) file name or stem.
pub open spec fn is_basic_dupe(r: FileRecord, e: Enabled) -> bool {
    !(e.audiosuite || e.filename) || r.root@ == trim_white(filename_of(r)) || r.root@ == trim_white(
        filestem_of(r),
    )
}

/// The marks of a record of a group of duplicates: `Basic` for a plain
/// duplicate, else `Tags` for an AudioSuite-tagged name when that search is
/// on, else `SimilarFilename` when the file name search is on; every record
/// but the first loses `Keep` when it is marked.
pub open spec fn marks_after(r: FileRecord, first: bool, p: Preferences, e: Enabled) -> Set<Algorithm> {
    let a = r.algorithm@;
    if is_basic_dupe(r, e) {
        drop_keep(a.insert(Algorithm::Basic), first)
    } else if has_tag(filestem_of(r), views(p.tags@)) {
        if e.audiosuite {
            drop_keep(a.insert(Algorithm::Tags), first)
        } else {
            a
        }
    } else if e.filename {
        drop_keep(a.insert(Algorithm::SimilarFilename), first)
    } else {
        a
    }
}

/// Whether two records are the same but for their marks.
pub open spec fn same_but_marks(a: FileRecord, b: FileRecord) -> bool {
    &&& a.id == b.id
    &&& a.path == b.path
    &&& a.root == b.root
    &&& a.duration == b.duration
    &&& a.samplerate == b.samplerate
    &&& a.bitdepth == b.bitdepth
    &&& a.channels == b.channels
    &&& a.description == b.description
    &&& a.data@ == b.data@
    &&& a.fingerprint == b.fingerprint
    &&& a.dual_mono == b.dual_mono
}

/// The marks of record `i` of a sorted group.
pub open spec fn mark_at(g: Seq<FileRecord>, i: int, p: Preferences, e: Enabled) -> Set<Algorithm> {
    marks_after(g[i], i == 0, p, e)
}

/// Whether every record of a sorted group keeps `Keep` after marking.
pub open spec fn all_kept(g: Seq<FileRecord>, p: Preferences, e: Enabled) -> bool {
    forall|i: int| 0 <= i < g.len() ==> #[trigger] mark_at(g, i, p, e).contains(Algorithm::Keep)
}

/// Whether `out` is the sorted group `g` with its marks set: each record
/// marked as `marks_after` says, or, where every record would still be kept,
/// each record marked `Keep` alone.
pub open spec fn group_marked(g: Seq<FileRecord>, out: Seq<FileRecord>, p: Preferences, e: Enabled) -> bool {
    &&& out.len() == g.len()
    &&& forall|i: int| 0 <= i < g.len() ==> same_but_marks(#[trigger] g[i], out[i])
    &&& forall|i: int|
        0 <= i < g.len() ==> (#[trigger] out[i]).algorithm@ == if all_kept(g, p, e) {
            set![Algorithm::Keep]
        } else {
            mark_at(g, i, p, e)
        }
}

/// What the search makes of one group: a single record stays as it is; a
/// larger group is sorted for keeping and marked.
pub open spec fn chunk_ok(g: Seq<FileRecord>, out: Seq<FileRecord>, p: Preferences, e: Enabled) -> bool {
    if g.len() < 2 {
        out == g
    } else {
        group_marked(sorted_for_keeping(p, g), out, p, e)
    }
}

/// Whether `out` is the outcome of the duplicate search on `s`: the groups of
/// `s`, in order, each made into its chunk.
pub open spec fn dupes_marked(s: Seq<FileRecord>, out: Seq<FileRecord>, p: Preferences, e: Enabled) -> bool {
    exists|chunks: Seq<Seq<FileRecord>>|
        #![trigger chunks.flatten()]
        chunks.len() == groups_of(s, p, e, GroupBy::Criteria).len() && out == chunks.flatten() && forall|j: int|
            0 <= j < chunks.len() ==> chunk_ok(#[trigger] groups_of(s, p, e, GroupBy::Criteria)[j], chunks[j], p, e)
}

fn trimmed_equals(root: &String, name: &String) -> (b: bool)
    ensures
        b == (root@ == trim_white(name@)),
{
    let v = str_chars(name.as_str());
    let t = trim_range(&v, 0, v.len());
    assert(v@.subrange(0, v@.len() as int) =~= v@);
    let ts = crate::text::string_from_chars(&t);
    str_eq(root.as_str(), ts.as_str())
}

fn marked(x: FileRecord, first: bool, p: &Preferences, e: &Enabled) -> (y: FileRecord)
    ensures
        same_but_marks(x, y),
        y.algorithm@ == marks_after(x, first, *p, *e),
{
    let mut y = x;
    let filename = y.get_filename();
    let stem = y.get_filestem();
    if !(e.audiosuite || e.filename) || trimmed_equals(&y.root, &filename) || trimmed_equals(&y.root, &stem) {
        y.algorithm.insert(Algorithm::Basic);
        if !first {
            y.algorithm.remove(Algorithm::Keep);
        }
    } else if p.check_tags(stem.as_str()) {
        if e.audiosuite {
            y.algorithm.insert(Algorithm::Tags);
            if !first {
                y.algorithm.remove(Algorithm::Keep);
            }
        }
    } else if e.filename {
        y.algorithm.insert(Algorithm::SimilarFilename);
        if !first {
            y.algorithm.remove(Algorithm::Keep);
        }
    }
    y
}

/// Sorts a group of duplicates for keeping and marks its records.
fn mark_group(g: Vec<FileRecord>, p: &Preferences, e: &Enabled) -> (out: Vec<FileRecord>)
    requires
        g@.len() >= 2 ==> rules_sortable(p.preservation_order@, g@),
    ensures
        chunk_ok(g@, out@, *p, *e),
{
    if g.len() < 2 {
        return g;
    }
    let mut g = g;
    p.sort_vec(&mut g);
    let ghost sorted = g@;
    assert(sorted.len() == g.len());
    let mut out: Vec<FileRecord> = Vec::new();
    let mut i: usize = 0;
    let mut all_keep = true;
    while g.len() > 0
        invariant
            i + g@.len() == sorted.len(),
            sorted.len() <= usize::MAX,
            g@ == sorted.skip(i as int),
            out@.len() == i,
            forall|j: int| 0 <= j < i ==> same_but_marks(#[trigger] sorted[j], out@[j]),
            forall|j: int| 0 <= j < i ==> (#[trigger] out@[j]).algorithm@ == mark_at(sorted, j, *p, *e),
            all_keep == forall|j: int| 0 <= j < i ==> #[trigger] mark_at(sorted, j, *p, *e).contains(Algorithm::Keep),
        decreases g@.len(),
    {
        let x = g.remove(0);
        assert(x == sorted[i as int]);
        assert(g@ =~= sorted.skip(i + 1));
        let y = marked(x, i == 0, p, e);
        assert(y.algorithm@ == mark_at(sorted, i as int, *p, *e));
        let ghost ak = all_keep;
        if !y.algorithm.contains(Algorithm::Keep) {
            all_keep = false;
        }
        out.push(y);
        proof {
            if all_keep {
                assert forall|j: int| 0 <= j < i + 1 implies #[trigger] mark_at(sorted, j, *p, *e).contains(Algorithm::Keep) by {
                    if j < i {
                        assert(ak);
                    }
                }
            } else if ak {
                assert(!mark_at(sorted, i as int, *p, *e).contains(Algorithm::Keep));
            } else {
                let w = choose|w: int| 0 <= w < i && !#[trigger] mark_at(sorted, w, *p, *e).contains(Algorithm::Keep);
                assert(!mark_at(sorted, w, *p, *e).contains(Algorithm::Keep));
            }
        }
        i = i + 1;
    }
    if all_keep {
        let ghost firsts = out@;
        let mut done: Vec<FileRecord> = Vec::new();
        let mut k: usize = 0;
        let mut rest = reversed(out);
        while rest.len() > 0
            invariant
                k + rest@.len() == firsts.len(),
                firsts.len() == sorted.len(),
                firsts.len() <= usize::MAX,
                rest@ == firsts.skip(k as int).reverse(),
                done@.len() == k,
                forall|j: int| 0 <= j < firsts.len() ==> same_but_marks(#[trigger] sorted[j], firsts[j]),
                forall|j: int| 0 <= j < k ==> same_but_marks(#[trigger] sorted[j], done@[j]),
                forall|j: int| 0 <= j < k ==> (#[trigger] done@[j]).algorithm@ == set![Algorithm::Keep],
            decreases rest@.len(),
        {
            let ghost n = rest@.len();
            let mut x = rest.pop().unwrap();
            assert(x == firsts.skip(k as int).reverse()[n - 1]);
            assert(x == firsts[k as int]);
            assert(rest@ =~= firsts.skip(k + 1).reverse());
            x.algorithm.clear();
            x.algorithm.insert(Algorithm::Keep);
            assert(x.algorithm@ =~= set![Algorithm::Keep]);
            done.push(x);
            k = k + 1;
        }
        return done;
    }
    out
}

/// Marks the duplicates among the records: groups them by their key, and in
/// each group of two or more sorts the records for keeping, marks why each
/// is a duplicate and takes `Keep` from all but the first.
pub fn dupe_search(records: &mut Vec<FileRecord>, p: &Preferences, e: &Enabled)
    requires
        groups_sortable(p.preservation_order@, groups_of(old(records)@, *p, *e, GroupBy::Criteria)),
    ensures
        dupes_marked(old(records)@, final(records)@, *p, *e),
{
    let ghost orig = records@;
    let mut all: Vec<FileRecord> = Vec::new();
    std::mem::swap(&mut all, records);
    let groups = group_records(all, p, e, GroupBy::Criteria);
    let ghost gs = groups_of(orig, *p, *e, GroupBy::Criteria);
    let ghost total = groups@;
    assert(total.len() == groups.len());
    let mut rest = reversed(groups);
    let mut out: Vec<FileRecord> = Vec::new();
    let ghost mut chunks: Seq<Seq<FileRecord>> = Seq::empty();
    let mut j: usize = 0;
    while rest.len() > 0
        invariant
            j + rest@.len() == total.len(),
            total.len() <= usize::MAX,
            total.len() == gs.len(),
            gs == groups_of(orig, *p, *e, GroupBy::Criteria),
            forall|w: int| 0 <= w < total.len() ==> (#[trigger] total[w])@ == gs[w],
            rest@ == total.skip(j as int).reverse(),
            chunks.len() == j,
            out@ == chunks.flatten(),
            forall|w: int| 0 <= w < j ==> chunk_ok(#[trigger] gs[w], chunks[w], *p, *e),
            groups_sortable(p.preservation_order@, gs),
        decreases rest@.len(),
    {
        let ghost n = rest@.len();
        let g = rest.pop().unwrap();
        assert(g == total.skip(j as int).reverse()[n - 1]);
        assert(g == total[j as int]);
        assert(rest@ =~= total.skip(j + 1).reverse());
        assert(g@ == gs[j as int]);
        let mut chunk = mark_group(g, p, e);
        let ghost c = chunk@;
        proof {
            chunks.lemma_flatten_push(c);
            chunks = chunks.push(c);
        }
        out.append(&mut chunk);
        j = j + 1;
    }
    assert(chunks.len() == groups_of(orig, *p, *e, GroupBy::Criteria).len());
    *records = out;
}

/// The ids of the records, in order.
pub open spec fn ids_of(s: Seq<FileRecord>) -> Seq<usize> {
    s.map_values(|r: FileRecord| r.id)
}

/// The records of a list of groups, counted together.
pub open spec fn msum(gs: Seq<Seq<FileRecord>>) -> Multiset<FileRecord>
    decreases gs.len(),
{
    if gs.len() == 0 {
        Multiset::empty()
    } else {
        msum(gs.drop_last()).add(gs.last().to_multiset())
    }
}

pub(crate) proof fn lemma_flatten_msum(gs: Seq<Seq<FileRecord>>)
    ensures
        gs.flatten().to_multiset() =~= msum(gs),
    decreases gs.len(),
{
    broadcast use vstd::seq_lib::group_to_multiset_ensures, vstd::multiset::group_multiset_axioms;

    if gs.len() == 0 {
        assert(gs.flatten() =~= Seq::<FileRecord>::empty());
    } else {
        lemma_flatten_msum(gs.drop_last());
        assert(gs =~= gs.drop_last().push(gs.last()));
        gs.drop_last().lemma_flatten_push(gs.last());
        vstd::seq_lib::lemma_multiset_commutative(gs.drop_last().flatten(), gs.last());
    }
}

proof fn lemma_msum_update(gs: Seq<Seq<FileRecord>>, w: int, g: Seq<FileRecord>, x: FileRecord)
    requires
        0 <= w < gs.len(),
        g.to_multiset() =~= gs[w].to_multiset().insert(x),
    ensures
        msum(gs.update(w, g)) =~= msum(gs).insert(x),
    decreases gs.len(),
{
    broadcast use vstd::multiset::group_multiset_axioms;

    let u = gs.update(w, g);
    if w == gs.len() - 1 {
        assert(u.drop_last() =~= gs.drop_last());
        assert(u.last() == g);
    } else {
        lemma_msum_update(gs.drop_last(), w, g, x);
        assert(u.drop_last() =~= gs.drop_last().update(w, g));
        assert(u.last() == gs.last());
    }
}

pub(crate) proof fn lemma_groups_partition(s: Seq<FileRecord>, p: Preferences, e: Enabled, by: GroupBy)
    ensures
        msum(groups_of(s, p, e, by)) =~= s.to_multiset(),
    decreases s.len(),
{
    broadcast use vstd::seq_lib::group_to_multiset_ensures, vstd::multiset::group_multiset_axioms;

    if s.len() == 0 {
        assert(groups_of(s, p, e, by) =~= Seq::<Seq<FileRecord>>::empty());
    } else {
        let t = s.drop_last();
        let x = s.last();
        let k = record_key(x, p, e, by);
        lemma_groups_partition(t, p, e, by);
        let kt = keys_in_order(t, p, e, by);
        let gt = groups_of(t, p, e, by);
        let gs = groups_of(s, p, e, by);
        assert(s =~= t.push(x));
        assert forall|k2: Seq<Seq<char>>| #[trigger] group_of(s, p, e, by, k2) == if k2 == k {
            group_of(t, p, e, by, k2).push(x)
        } else {
            group_of(t, p, e, by, k2)
        } by {
            reveal_with_fuel(Seq::filter, 1);
        }
        if kt.contains(k) {
            let w = choose|w: int| 0 <= w < kt.len() && kt[w] == k;
            lemma_keys_distinct(t, p, e, by);
            assert(keys_in_order(s, p, e, by) == kt);
            assert forall|i: int| 0 <= i < gs.len() implies #[trigger] gs[i] == gt.update(w, group_of(t, p, e, by, k).push(x))[i] by {
                if i != w {
                    assert(kt[i] != k);
                }
            }
            assert(gs =~= gt.update(w, group_of(t, p, e, by, k).push(x)));
            lemma_msum_update(gt, w, group_of(t, p, e, by, k).push(x), x);
        } else {
            lemma_unlisted_key_group_empty(t, p, e, by, k);
            assert(gs.drop_last() =~= gt);
            assert(gs.last() =~= seq![x]);
            assert(seq![x] =~= Seq::<FileRecord>::empty().push(x));
        }
    }
}

pub(crate) proof fn lemma_ids_perm(a: Seq<FileRecord>, b: Seq<FileRecord>)
    requires
        a.to_multiset() =~= b.to_multiset(),
    ensures
        ids_of(a).to_multiset() =~= ids_of(b).to_multiset(),
    decreases a.len(),
{
    broadcast use vstd::seq_lib::group_to_multiset_ensures, vstd::multiset::group_multiset_axioms;

    if a.len() == 0 {
        a.to_multiset_ensures();
        b.to_multiset_ensures();
        assert(a.to_multiset().len() == 0);
        assert(b.len() == 0);
        assert(ids_of(a) =~= Seq::<usize>::empty());
        assert(ids_of(b) =~= Seq::<usize>::empty());
    } else {
        let x = a.last();
        assert(a =~= a.drop_last().push(x));
        assert(b.to_multiset().count(x) > 0);
        assert(b.contains(x));
        let j = choose|j: int| 0 <= j < b.len() && b[j] == x;
        let b2 = b.remove(j);
        assert(b2.to_multiset() =~= a.drop_last().to_multiset());
        lemma_ids_perm(a.drop_last(), b2);
        assert(ids_of(a) =~= ids_of(a.drop_last()).push(x.id));
        assert(ids_of(b) =~= ids_of(b2).insert(j, x.id));
    }
}

pub(crate) proof fn lemma_ids_same(a: Seq<FileRecord>, b: Seq<FileRecord>)
    requires
        a.len() == b.len(),
        forall|i: int| 0 <= i < a.len() ==> same_but_marks(#[trigger] a[i], b[i]),
    ensures
        ids_of(a) == ids_of(b),
{
    assert(ids_of(a) =~= ids_of(b));
}

proof fn lemma_chunk_ids(g: Seq<FileRecord>, c: Seq<FileRecord>, p: Preferences, e: Enabled)
    requires
        chunk_ok(g, c, p, e),
    ensures
        ids_of(c).to_multiset() =~= ids_of(g).to_multiset(),
{
    if g.len() >= 2 {
        let sorted = sorted_for_keeping(p, g);
        crate::order::lemma_sorted_for_keeping_perm(p, g);
        lemma_ids_same(sorted, c);
        lemma_ids_perm(sorted, g);
    }
}

/// The ids of a list of groups, counted together.
pub open spec fn id_sum(gs: Seq<Seq<FileRecord>>) -> Multiset<usize>
    decreases gs.len(),
{
    if gs.len() == 0 {
        Multiset::empty()
    } else {
        id_sum(gs.drop_last()).add(ids_of(gs.last()).to_multiset())
    }
}

pub(crate) proof fn lemma_flatten_ids(gs: Seq<Seq<FileRecord>>)
    ensures
        ids_of(gs.flatten()).to_multiset() =~= id_sum(gs),
    decreases gs.len(),
{
    broadcast use vstd::seq_lib::group_to_multiset_ensures, vstd::multiset::group_multiset_axioms;

    if gs.len() == 0 {
        assert(ids_of(gs.flatten()) =~= Seq::<usize>::empty());
    } else {
        lemma_flatten_ids(gs.drop_last());
        assert(gs =~= gs.drop_last().push(gs.last()));
        gs.drop_last().lemma_flatten_push(gs.last());
        assert(ids_of(gs.flatten()) =~= ids_of(gs.drop_last().flatten()) + ids_of(gs.last()));
        vstd::seq_lib::lemma_multiset_commutative(ids_of(gs.drop_last().flatten()), ids_of(gs.last()));
    }
}

pub(crate) proof fn lemma_id_sum_pointwise(a: Seq<Seq<FileRecord>>, b: Seq<Seq<FileRecord>>)
    requires
        a.len() == b.len(),
        forall|j: int| 0 <= j < a.len() ==> ids_of(#[trigger] a[j]).to_multiset() == ids_of(b[j]).to_multiset(),
    ensures
        id_sum(a) == id_sum(b),
    decreases a.len(),
{
    if a.len() > 0 {
        lemma_id_sum_pointwise(a.drop_last(), b.drop_last());
        assert(ids_of(a.last()).to_multiset() == ids_of(b.last()).to_multiset());
    }
}

/// Law: the duplicate search loses no record and adds none: the marked
/// records carry the ids of the records searched, each as often as before.
pub proof fn lemma_dupe_search_keeps_records(s: Seq<FileRecord>, out: Seq<FileRecord>, p: Preferences, e: Enabled)
    requires
        dupes_marked(s, out, p, e),
    ensures
        ids_of(out).to_multiset() =~= ids_of(s).to_multiset(),
{
    let gs = groups_of(s, p, e, GroupBy::Criteria);
    let chunks = choose|chunks: Seq<Seq<FileRecord>>|
        #![trigger chunks.flatten()]
        chunks.len() == gs.len() && out == chunks.flatten() && forall|j: int|
            0 <= j < chunks.len() ==> chunk_ok(#[trigger] gs[j], chunks[j], p, e);
    assert forall|j: int| 0 <= j < chunks.len() implies ids_of(#[trigger] chunks[j]).to_multiset() == ids_of(gs[j]).to_multiset() by {
        lemma_chunk_ids(gs[j], chunks[j], p, e);
    }
    lemma_id_sum_pointwise(chunks, gs);
    lemma_flatten_ids(chunks);
    lemma_flatten_ids(gs);
    lemma_groups_partition(s, p, e, GroupBy::Criteria);
    lemma_flatten_msum(gs);
    lemma_ids_perm(gs.flatten(), s);
}

/// Law: the duplicate search marks every copy after the first for removal.
/// In a group of two or more duplicates, sorted for keeping, a record after
/// the first that is a plain duplicate is marked `Basic`, one whose name
/// carries an AudioSuite tag (with that search on) is marked `Tags`, and any
/// other (with the file name search on) is marked `SimilarFilename`; each of
/// them loses `Keep`.
pub proof fn lemma_later_copies_lose_keep(g: Seq<FileRecord>, out: Seq<FileRecord>, p: Preferences, e: Enabled)
    requires
        g.len() >= 2,
        chunk_ok(g, out, p, e),
    ensures
        forall|i: int|
            0 < i < out.len() && is_basic_dupe(#[trigger] out[i], e) ==> out[i].algorithm@.contains(
                Algorithm::Basic,
            ) && !out[i].algorithm@.contains(Algorithm::Keep),
        forall|i: int|
            0 < i < out.len() && !is_basic_dupe(#[trigger] out[i], e) && has_tag(
                filestem_of(out[i]),
                views(p.tags@),
            ) && e.audiosuite ==> out[i].algorithm@.contains(Algorithm::Tags) && !out[i].algorithm@.contains(
                Algorithm::Keep,
            ),
        forall|i: int|
            0 < i < out.len() && !is_basic_dupe(#[trigger] out[i], e) && !has_tag(
                filestem_of(out[i]),
                views(p.tags@),
            ) && e.filename ==> out[i].algorithm@.contains(Algorithm::SimilarFilename)
                && !out[i].algorithm@.contains(Algorithm::Keep),
{
    let s = sorted_for_keeping(p, g);
    assert(group_marked(s, out, p, e));
    assert forall|i: int|
        0 < i < out.len() && (is_basic_dupe(#[trigger] out[i], e) || (has_tag(filestem_of(out[i]), views(p.tags@))
            && e.audiosuite) || (!has_tag(filestem_of(out[i]), views(p.tags@)) && e.filename)) implies (out[i].algorithm@ == mark_at(s, i, p, e)
        && !mark_at(s, i, p, e).contains(Algorithm::Keep)) by {
        assert(same_but_marks(s[i], out[i]));
        assert(filestem_of(s[i]) == filestem_of(out[i]));
        assert(filename_of(s[i]) == filename_of(out[i]));
        assert(is_basic_dupe(s[i], e) == is_basic_dupe(out[i], e));
        assert(!mark_at(s, i, p, e).contains(Algorithm::Keep));
        assert(!all_kept(s, p, e));
    }
}

} // verus!
