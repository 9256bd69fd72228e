use vstd::prelude::*;
use crate::marks::{display_order, Algorithm};
use crate::records::{filename_of, folder_of, FileRecord};

verus! {

/// A record as the results list shows it.
#[derive(Debug, Clone)]
pub struct FileRecordFrontend {
    pub id: usize,
    pub path: String,
    pub filename: String,
    pub algorithm: Vec<Algorithm>,
    pub channels: i64,
    pub bitdepth: i64,
    pub samplerate: i64,
    pub duration: String,
    pub description: String,
}

/// A record whose two channels hold the same audio, as the removal step
/// receives it.
#[derive(Debug, Clone)]
pub struct DualMono {
    pub id: usize,
    pub path: String,
}

/// Whether `f` shows the record `r`: its id, folder, file name, marks in
/// display order and its audio properties.
pub open spec fn shows(f: FileRecordFrontend, r: FileRecord) -> bool {
    &&& f.id == r.id
    &&& f.path@ == folder_of(r)
    &&& f.filename@ == filename_of(r)
    &&& f.algorithm@ == display_order().filter(|a: Algorithm| r.algorithm@.contains(a))
    &&& f.channels == r.channels
    &&& f.bitdepth == r.bitdepth
    &&& f.samplerate == r.samplerate
    &&& f.duration@ == r.duration@
    &&& f.description@ == r.description@
}

/// Whether the list `fs` shows the records `rs`, one for one.
pub open spec fn shows_all(fs: Seq<FileRecordFrontend>, rs: Seq<FileRecord>) -> bool {
    fs.len() == rs.len() && forall|i: int| 0 <= i < rs.len() ==> shows(#[trigger] fs[i], rs[i])
}

/// Whether a shown record is marked to keep.
pub open spec fn shown_kept(f: FileRecordFrontend) -> bool {
    f.algorithm@.contains(Algorithm::Keep)
}

/// The record as the results list shows it.
pub fn to_frontend(r: &FileRecord) -> (f: FileRecordFrontend)
    ensures
        shows(f, *r),
{
    FileRecordFrontend {
        id: r.id,
        path: r.get_path(),
        filename: r.get_filename(),
        algorithm: r.algorithm.to_display_list(),
        duration: r.duration.clone(),
        description: r.description.clone(),
        bitdepth: r.bitdepth,
        samplerate: r.samplerate,
        channels: r.channels,
    }
}

proof fn lemma_shown_kept(f: FileRecordFrontend, r: FileRecord)
    requires
        shows(f, r),
    ensures
        shown_kept(f) == r.algorithm@.contains(Algorithm::Keep),
{
    let p = |a: Algorithm| r.algorithm@.contains(a);
    let d = display_order();
    assert(d[1] == Algorithm::Keep);
    if r.algorithm@.contains(Algorithm::Keep) {
        d.lemma_filter_contains(p, 1);
    }
    if f.algorithm@.contains(Algorithm::Keep) {
        let k = choose|k: int| 0 <= k < f.algorithm@.len() && f.algorithm@[k] == Algorithm::Keep;
        d.lemma_filter_pred(p, k);
    }
}

/// The records as the results list shows them, one for one.
pub fn get_results(records: &Vec<FileRecord>) -> (r: Vec<FileRecordFrontend>)
    ensures
        shows_all(r@, records@),
{
    let mut out: Vec<FileRecordFrontend> = Vec::new();
    let mut i: usize = 0;
    while i < records.len()
        invariant
            0 <= i <= records.len(),
            out@.len() == i,
            forall|k: int| 0 <= k < i ==> shows(#[trigger] out@[k], records@[k]),
        decreases records.len() - i,
    {
        out.push(to_frontend(&records[i]));
        i = i + 1;
    }
    out
}

/// The shown records of a list of groups, in order.
pub open spec fn flat(groups: Seq<Vec<FileRecordFrontend>>) -> Seq<FileRecordFrontend> {
    groups.map_values(|g: Vec<FileRecordFrontend>| g@).flatten()
}

/// Whether `groups` cuts a list into groups that each start at a record
/// marked to keep: every group is non-empty, every group but the first
/// starts with a kept record, and no group holds a kept record after its
/// first.
pub open spec fn grouped_at_kept(groups: Seq<Vec<FileRecordFrontend>>) -> bool {
    &&& forall|g: int| 0 <= g < groups.len() ==> (#[trigger] groups[g])@.len() > 0
    &&& forall|g: int| 0 < g < groups.len() ==> shown_kept((#[trigger] groups[g])@[0])
    &&& forall|g: int, k: int|
        0 <= g < groups.len() && 0 < k < groups[g]@.len() ==> !shown_kept(#[trigger] groups[g]@[k])
}

/// The records as the results list shows them, cut into groups of
/// duplicates: a new group starts at each record marked to keep.
pub fn records_2_frontend(records: &Vec<FileRecord>) -> (r: Vec<Vec<FileRecordFrontend>>)
    ensures
        shows_all(flat(r@), records@),
        grouped_at_kept(r@),
{
    let mut results: Vec<Vec<FileRecordFrontend>> = Vec::new();
    let mut current: Vec<FileRecordFrontend> = Vec::new();
    let mut i: usize = 0;
    while i < records.len()
        invariant
            0 <= i <= records.len(),
            shows_all(flat(results@) + current@, records@.take(i as int)),
            grouped_at_kept(results@),
            results@.len() > 0 ==> current@.len() > 0,
            current@.len() > 0 && results@.len() > 0 ==> shown_kept(current@[0]),
            forall|k: int| 0 < k < current@.len() ==> !shown_kept(#[trigger] current@[k]),
            i == 0 <==> (results@.len() == 0 && current@.len() == 0),
        decreases records.len() - i,
    {
        let f = to_frontend(&records[i]);
        proof {
            lemma_shown_kept(f, records@[i as int]);
        }
        let kept = records[i].algorithm.contains(Algorithm::Keep);
        let ghost before = flat(results@) + current@;
        if kept && i > 0 {
            let ghost cur = current@;
            let ghost res = results@;
            let mut g: Vec<FileRecordFrontend> = Vec::new();
            std::mem::swap(&mut g, &mut current);
            results.push(g);
            proof {
                assert(results@.map_values(|g: Vec<FileRecordFrontend>| g@) =~= res.map_values(
                    |g: Vec<FileRecordFrontend>| g@,
                ).push(cur));
                res.map_values(|g: Vec<FileRecordFrontend>| g@).lemma_flatten_push(cur);
                assert(flat(results@) + current@ =~= before);
                assert forall|g: int, k: int|
                    0 <= g < results@.len() && 0 < k < results@[g]@.len() implies !shown_kept(
                    #[trigger] results@[g]@[k],
                ) by {
                    if g < res.len() {
                        assert(results@[g] == res[g]);
                    }
                }
            }
        }
        current.push(f);
        proof {
            assert(flat(results@) + current@ =~= before.push(f));
            assert(records@.take(i + 1) =~= records@.take(i as int).push(records@[i as int]));
        }
        i = i + 1;
    }
    if current.len() > 0 {
        let ghost cur = current@;
        let ghost res = results@;
        results.push(current);
        proof {
            assert(results@.map_values(|g: Vec<FileRecordFrontend>| g@) =~= res.map_values(
                |g: Vec<FileRecordFrontend>| g@,
            ).push(cur));
            res.map_values(|g: Vec<FileRecordFrontend>| g@).lemma_flatten_push(cur);
            assert forall|g: int, k: int|
                0 <= g < results@.len() && 0 < k < results@[g]@.len() implies !shown_kept(
                #[trigger] results@[g]@[k],
            ) by {
                if g < res.len() {
                    assert(results@[g] == res[g]);
                }
            }
        }
    } else {
        proof {
            assert(flat(results@) + current@ =~= flat(results@));
        }
    }
    assert(records@.take(i as int) =~= records@);
    results
}

} // verus!
