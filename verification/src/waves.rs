use vstd::prelude::*;
use crate::dupes::{
    drop_keep, group_records, groups_of, ids_of, keys_in_order, lemma_flatten_ids, lemma_flatten_msum,
    lemma_groups_partition, lemma_id_sum_pointwise, lemma_ids_perm, lemma_ids_same, record_key, reversed,
    same_but_marks, GroupBy,
};
use crate::marks::Algorithm;
use crate::order::{groups_sortable, rules_sortable, sorted_for_keeping};
use crate::prefs::{Enabled, Preferences};
use crate::records::{opt_chars, FileRecord};

verus! {

/// Whether a record carries a fingerprint, failed or not.
pub open spec fn has_fingerprint(r: FileRecord) -> bool {
    r.fingerprint is Some
}

/// Whether a record has no usable fingerprint: none, or a failed one.
pub open spec fn lacks_fingerprint(r: FileRecord) -> bool {
    r.fingerprint is None || opt_chars(r.fingerprint) == Some("FAILED"@)
}

/// The marks of record `i` of a sorted group of matching audio: `mark`, and
/// no `Keep` but for the first.
pub open spec fn audio_marks(g: Seq<FileRecord>, i: int, mark: Algorithm) -> Set<Algorithm> {
    drop_keep(g[i].algorithm@, i == 0).insert(mark)
}

/// What the exact audio search makes of one group of records with the same
/// fingerprint: a single record stays as it is; a larger group is sorted for
/// keeping and marked.
pub open spec fn wave_chunk_ok(g: Seq<FileRecord>, out: Seq<FileRecord>, p: Preferences) -> bool {
    audio_chunk_ok(g, out, p, Algorithm::Waveforms)
}

/// What an audio search makes of one group of matching records: a single
/// record stays as it is; a larger group is sorted for keeping and marked
/// with `mark`.
pub open spec fn audio_chunk_ok(g: Seq<FileRecord>, out: Seq<FileRecord>, p: Preferences, mark: Algorithm) -> bool {
    if g.len() < 2 {
        out == g
    } else {
        sorted_marked(g, out, p, mark)
    }
}

/// Whether `out` is the group `g` sorted for keeping, each record marked
/// with `mark` and all but the first without `Keep`.
pub open spec fn sorted_marked(g: Seq<FileRecord>, out: Seq<FileRecord>, p: Preferences, mark: Algorithm) -> bool {
    let s = sorted_for_keeping(p, g);
    &&& out.len() == s.len()
    &&& forall|i: int| 0 <= i < s.len() ==> same_but_marks(#[trigger] s[i], out[i])
    &&& forall|i: int| 0 <= i < s.len() ==> (#[trigger] out[i]).algorithm@ == audio_marks(s, i, mark)
}

/// The records without a usable fingerprint, in order.
pub open spec fn unfingerprinted(s: Seq<FileRecord>) -> Seq<FileRecord> {
    s.filter(|r: FileRecord| lacks_fingerprint(r))
}

/// Whether `b` holds copies of the records of `a`, one for one.
pub open spec fn copies(a: Seq<FileRecord>, b: Seq<FileRecord>) -> bool {
    &&& a.len() == b.len()
    &&& forall|i: int| 0 <= i < a.len() ==> same_but_marks(#[trigger] a[i], b[i])
    &&& forall|i: int| 0 <= i < a.len() ==> (#[trigger] a[i]).algorithm == b[i].algorithm
}

/// Whether `out` is the outcome of the exact audio search on `s`: the
/// records with a fingerprint grouped by it, each group made into its
/// chunk, then copies of the records without a usable fingerprint.
pub open spec fn waves_marked(s: Seq<FileRecord>, out: Seq<FileRecord>, p: Preferences, e: Enabled) -> bool {
    let gs = groups_of(s.filter(|r: FileRecord| has_fingerprint(r)), p, e, GroupBy::Fingerprint);
    exists|chunks: Seq<Seq<FileRecord>>, tail: Seq<FileRecord>|
        #![trigger chunks.flatten(), copies(unfingerprinted(s), tail)]
        chunks.len() == gs.len() && out == chunks.flatten() + tail && copies(unfingerprinted(s), tail)
            && forall|j: int| 0 <= j < chunks.len() ==> wave_chunk_ok(#[trigger] gs[j], chunks[j], p)
}

pub(crate) fn copy_option(o: &Option<String>) -> (r: Option<String>)
    ensures
        r == *o,
{
    match o {
        Some(s) => Some(s.clone()),
        None => None,
    }
}

fn copy_data(d: &Vec<(String, String)>) -> (r: Vec<(String, String)>)
    ensures
        r@ == d@,
{
    let mut out: Vec<(String, String)> = Vec::new();
    let mut i: usize = 0;
    while i < d.len()
        invariant
            0 <= i <= d.len(),
            out@ == d@.take(i as int),
        decreases d.len() - i,
    {
        let (a, b) = (d[i].0.clone(), d[i].1.clone());
        out.push((a, b));
        assert(out@ =~= d@.take(i + 1));
        i = i + 1;
    }
    assert(d@.take(i as int) =~= d@);
    out
}

/// A copy of a record.
pub fn copy_record(r: &FileRecord) -> (c: FileRecord)
    ensures
        same_but_marks(*r, c),
        c.algorithm == r.algorithm,
{
    FileRecord {
        id: r.id,
        path: r.path.clone(),
        root: r.root.clone(),
        duration: r.duration.clone(),
        samplerate: r.samplerate,
        bitdepth: r.bitdepth,
        channels: r.channels,
        description: r.description.clone(),
        data: copy_data(&r.data),
        fingerprint: copy_option(&r.fingerprint),
        dual_mono: r.dual_mono,
        algorithm: r.algorithm,
    }
}

/// Sorts a group of records with matching audio for keeping, marks each
/// with `mark` and takes `Keep` from all but the first.
pub fn mark_audio_group(g: Vec<FileRecord>, p: &Preferences, mark: Algorithm) -> (out: Vec<FileRecord>)
    requires
        g@.len() >= 2 ==> rules_sortable(p.preservation_order@, g@),
    ensures
        audio_chunk_ok(g@, out@, *p, mark),
{
    if g.len() < 2 {
        return g;
    }
    mark_sorted_group(g, p, mark)
}

/// Sorts records for keeping, marks each with `mark` and takes `Keep` from
/// all but the first, whatever their number.
pub(crate) fn mark_sorted_group(g: Vec<FileRecord>, p: &Preferences, mark: Algorithm) -> (out: Vec<FileRecord>)
    requires
        g@.len() >= 2 ==> rules_sortable(p.preservation_order@, g@),
    ensures
        sorted_marked(g@, out@, *p, mark),
{
    let mut g = g;
    p.sort_vec(&mut g);
    let ghost sorted = g@;
    assert(sorted.len() == g.len());
    let mut rest = reversed(g);
    let mut out: Vec<FileRecord> = Vec::new();
    let mut i: usize = 0;
    while rest.len() > 0
        invariant
            i + rest@.len() == sorted.len(),
            sorted.len() <= usize::MAX,
            rest@ == sorted.skip(i as int).reverse(),
            out@.len() == i,
            forall|j: int| 0 <= j < i ==> same_but_marks(#[trigger] sorted[j], out@[j]),
            forall|j: int| 0 <= j < i ==> (#[trigger] out@[j]).algorithm@ == audio_marks(sorted, j, mark),
        decreases rest@.len(),
    {
        let ghost n = rest@.len();
        let mut x = rest.pop().unwrap();
        assert(x == sorted.skip(i as int).reverse()[n - 1]);
        assert(x == sorted[i as int]);
        assert(rest@ =~= sorted.skip(i + 1).reverse());
        if i > 0 {
            x.algorithm.remove(Algorithm::Keep);
        }
        x.algorithm.insert(mark);
        out.push(x);
        i = i + 1;
    }
    out
}

fn is_failed(f: &Option<String>) -> (b: bool)
    ensures
        b == (opt_chars(*f) == Some("FAILED"@)),
{
    match f {
        Some(s) => crate::text::str_eq(s.as_str(), "FAILED"),
        None => false,
    }
}

/// Marks records with the same audio fingerprint: groups the records that
/// carry one by it, and in each group of two or more sorts the records for
/// keeping, marks them `Waveforms` and takes `Keep` from all but the first;
/// the records without a usable fingerprint follow.
pub fn exact_match(records: &mut Vec<FileRecord>, p: &Preferences, e: &Enabled)
    requires
        groups_sortable(
            p.preservation_order@,
            groups_of(old(records)@.filter(|r: FileRecord| has_fingerprint(r)), *p, *e, GroupBy::Fingerprint),
        ),
    ensures
        waves_marked(old(records)@, final(records)@, *p, *e),
{
    let ghost orig = records@;
    let ghost fwith = |r: FileRecord| has_fingerprint(r);
    let ghost fwithout = |r: FileRecord| lacks_fingerprint(r);
    let mut all: Vec<FileRecord> = Vec::new();
    std::mem::swap(&mut all, records);
    assert(orig.len() == all.len());
    let mut with: Vec<FileRecord> = Vec::new();
    let mut without: Vec<FileRecord> = Vec::new();
    let mut rest = reversed(all);
    let mut i: usize = 0;
    assert(orig.take(0) =~= Seq::<FileRecord>::empty());
    while rest.len() > 0
        invariant
            i + rest@.len() == orig.len(),
            orig.len() <= usize::MAX,
            rest@ == orig.skip(i as int).reverse(),
            fwith == (|r: FileRecord| has_fingerprint(r)),
            fwithout == (|r: FileRecord| lacks_fingerprint(r)),
            with@ == orig.take(i as int).filter(fwith),
            copies(orig.take(i as int).filter(fwithout), without@),
        decreases rest@.len(),
    {
        let ghost n = rest@.len();
        let x = rest.pop().unwrap();
        proof {
            assert(x == orig.skip(i as int).reverse()[n - 1]);
            assert(x == orig[i as int]);
            assert(rest@ =~= orig.skip(i + 1).reverse());
            reveal_with_fuel(Seq::filter, 1);
            assert(orig.take(i + 1).drop_last() =~= orig.take(i as int));
            assert(orig.take(i + 1).last() == x);
        }
        let lacks = x.fingerprint.is_none() || is_failed(&x.fingerprint);
        let ghost wbefore = without@;
        if lacks {
            let c = copy_record(&x);
            without.push(c);
        }
        proof {
            let a = orig.take(i + 1).filter(fwithout);
            if lacks {
                assert(a == orig.take(i as int).filter(fwithout).push(x));
                assert forall|k: int| 0 <= k < a.len() implies same_but_marks(#[trigger] a[k], without@[k]) by {
                    if k < wbefore.len() {
                        assert(without@[k] == wbefore[k]);
                    }
                }
                assert forall|k: int| 0 <= k < a.len() implies (#[trigger] a[k]).algorithm == without@[k].algorithm by {
                    if k < wbefore.len() {
                        assert(without@[k] == wbefore[k]);
                    }
                }
            }
        }
        if x.fingerprint.is_some() {
            with.push(x);
        }
        i = i + 1;
    }
    assert(orig.take(i as int) =~= orig);
    let ghost wseq = with@;
    assert(wseq == orig.filter(|r: FileRecord| has_fingerprint(r)));
    let groups = group_records(with, p, e, GroupBy::Fingerprint);
    let ghost gs = groups_of(wseq, *p, *e, GroupBy::Fingerprint);
    let ghost total = groups@;
    assert(total.len() == groups.len());
    let mut grest = reversed(groups);
    let mut out: Vec<FileRecord> = Vec::new();
    let ghost mut chunks: Seq<Seq<FileRecord>> = Seq::empty();
    let mut j: usize = 0;
    while grest.len() > 0
        invariant
            j + grest@.len() == total.len(),
            total.len() <= usize::MAX,
            total.len() == gs.len(),
            gs == groups_of(wseq, *p, *e, GroupBy::Fingerprint),
            forall|w: int| 0 <= w < total.len() ==> (#[trigger] total[w])@ == gs[w],
            grest@ == total.skip(j as int).reverse(),
            chunks.len() == j,
            out@ == chunks.flatten(),
            forall|w: int| 0 <= w < j ==> wave_chunk_ok(#[trigger] gs[w], chunks[w], *p),
            groups_sortable(p.preservation_order@, gs),
        decreases grest@.len(),
    {
        let ghost n = grest@.len();
        let g = grest.pop().unwrap();
        assert(g == total.skip(j as int).reverse()[n - 1]);
        assert(g == total[j as int]);
        assert(grest@ =~= total.skip(j + 1).reverse());
        assert(g@ == gs[j as int]);
        let mut chunk = mark_audio_group(g, p, Algorithm::Waveforms);
        let ghost c = chunk@;
        proof {
            chunks.lemma_flatten_push(c);
            chunks = chunks.push(c);
        }
        out.append(&mut chunk);
        j = j + 1;
    }
    let ghost tail = without@;
    out.append(&mut without);
    assert(out@ == chunks.flatten() + tail);
    assert(wseq == orig.filter(|r: FileRecord| has_fingerprint(r)));
    assert(copies(unfingerprinted(orig), tail));
    assert(chunks.len() == groups_of(orig.filter(|r: FileRecord| has_fingerprint(r)), *p, *e, GroupBy::Fingerprint).len());
    *records = out;
}

pub(crate) proof fn lemma_wave_chunk_ids(g: Seq<FileRecord>, c: Seq<FileRecord>, p: Preferences)
    requires
        wave_chunk_ok(g, c, p),
    ensures
        ids_of(c).to_multiset() =~= ids_of(g).to_multiset(),
{
    if g.len() >= 2 {
        let sorted = sorted_for_keeping(p, g);
        crate::order::lemma_sorted_for_keeping_perm(p, g);
        lemma_ids_same(sorted, c);
        lemma_ids_perm(sorted, g);
    }
}

pub(crate) proof fn lemma_filter_split_ids(s: Seq<FileRecord>, f: spec_fn(FileRecord) -> bool)
    ensures
        ids_of(s.filter(f)).to_multiset().add(ids_of(s.filter(|r: FileRecord| !f(r))).to_multiset())
            =~= ids_of(s).to_multiset(),
    decreases s.len(),
{
    broadcast use vstd::seq_lib::group_to_multiset_ensures, vstd::multiset::group_multiset_axioms;

    let g = |r: FileRecord| !f(r);
    if s.len() == 0 {
        assert(s.filter(f) =~= Seq::<FileRecord>::empty());
        assert(s.filter(g) =~= Seq::<FileRecord>::empty());
        assert(ids_of(s) =~= Seq::<usize>::empty());
        assert(ids_of(s.filter(f)) =~= Seq::<usize>::empty());
        assert(ids_of(s.filter(g)) =~= Seq::<usize>::empty());
    } else {
        let t = s.drop_last();
        let x = s.last();
        lemma_filter_split_ids(t, f);
        reveal_with_fuel(Seq::filter, 1);
        assert(s =~= t.push(x));
        assert(ids_of(s) =~= ids_of(t).push(x.id));
        if f(x) {
            assert(s.filter(f) == t.filter(f).push(x));
            assert(s.filter(g) == t.filter(g));
            assert(ids_of(s.filter(f)) =~= ids_of(t.filter(f)).push(x.id));
        } else {
            assert(s.filter(f) == t.filter(f));
            assert(s.filter(g) == t.filter(g).push(x));
            assert(ids_of(s.filter(g)) =~= ids_of(t.filter(g)).push(x.id));
        }
    }
}

/// Law: where no record carries the failure mark as its fingerprint, the
/// exact audio search loses no record and adds none: the records it gives
/// back carry the ids of the records searched, each as often as before.
pub proof fn lemma_exact_match_keeps_records(s: Seq<FileRecord>, out: Seq<FileRecord>, p: Preferences, e: Enabled)
    requires
        waves_marked(s, out, p, e),
        forall|i: int| 0 <= i < s.len() ==> opt_chars(#[trigger] s[i].fingerprint) != Some("FAILED"@),
    ensures
        ids_of(out).to_multiset() =~= ids_of(s).to_multiset(),
{
    broadcast use vstd::multiset::group_multiset_axioms;

    let f = |r: FileRecord| has_fingerprint(r);
    let w = s.filter(f);
    let gs = groups_of(w, p, e, GroupBy::Fingerprint);
    let (chunks, tail) = choose|chunks: Seq<Seq<FileRecord>>, tail: Seq<FileRecord>|
        #![trigger chunks.flatten(), copies(unfingerprinted(s), tail)]
        chunks.len() == gs.len() && out == chunks.flatten() + tail && copies(unfingerprinted(s), tail)
            && forall|j: int| 0 <= j < chunks.len() ==> wave_chunk_ok(#[trigger] gs[j], chunks[j], p);
    assert forall|j: int| 0 <= j < chunks.len() implies ids_of(#[trigger] chunks[j]).to_multiset() == ids_of(gs[j]).to_multiset() by {
        lemma_wave_chunk_ids(gs[j], chunks[j], p);
    }
    lemma_id_sum_pointwise(chunks, gs);
    lemma_flatten_ids(chunks);
    lemma_flatten_ids(gs);
    lemma_groups_partition(w, p, e, GroupBy::Fingerprint);
    lemma_flatten_msum(gs);
    lemma_ids_perm(gs.flatten(), w);
    let u = unfingerprinted(s);
    assert(u == s.filter(|r: FileRecord| !f(r))) by {
        assert(s.filter(|r: FileRecord| lacks_fingerprint(r)) =~= s.filter(|r: FileRecord| !f(r))) by {
            assert forall|i: int| 0 <= i < s.len() implies lacks_fingerprint(#[trigger] s[i]) == !f(s[i]) by {
                assert(opt_chars(s[i].fingerprint) != Some("FAILED"@));
            }
            lemma_filter_same(s, |r: FileRecord| lacks_fingerprint(r), |r: FileRecord| !f(r));
        }
    }
    lemma_ids_same(u, tail);
    lemma_filter_split_ids(s, f);
    assert(ids_of(out) =~= ids_of(chunks.flatten()) + ids_of(tail));
    vstd::seq_lib::lemma_multiset_commutative(ids_of(chunks.flatten()), ids_of(tail));
}

pub(crate) proof fn lemma_filter_same(s: Seq<FileRecord>, f: spec_fn(FileRecord) -> bool, g: spec_fn(FileRecord) -> bool)
    requires
        forall|i: int| 0 <= i < s.len() ==> f(#[trigger] s[i]) == g(s[i]),
    ensures
        s.filter(f) == s.filter(g),
    decreases s.len(),
{
    reveal_with_fuel(Seq::filter, 1);
    if s.len() > 0 {
        lemma_filter_same(s.drop_last(), f, g);
        assert(f(s[s.len() - 1]) == g(s[s.len() - 1]));
    }
}

/// Whether a record still needs a fingerprint: it has none, or a failed one.
pub fn needs_fingerprint(r: &FileRecord) -> (b: bool)
    ensures
        b == lacks_fingerprint(*r),
{
    r.fingerprint.is_none() || is_failed(&r.fingerprint)
}

/// How many records need a fingerprint, and the size of the batches in which
/// they are fingerprinted: `batch_size`, but no more than that number.
pub fn fingerprint_batches(records: &Vec<FileRecord>, batch_size: usize) -> (r: (usize, usize))
    ensures
        r.0 == records@.filter(|x: FileRecord| lacks_fingerprint(x)).len(),
        r.1 == if batch_size > r.0 {
            r.0
        } else {
            batch_size
        },
{
    let ghost f = |x: FileRecord| lacks_fingerprint(x);
    let mut count: usize = 0;
    let mut i: usize = 0;
    assert(records@.take(0) =~= Seq::<FileRecord>::empty());
    while i < records.len()
        invariant
            0 <= i <= records@.len(),
            f == (|x: FileRecord| lacks_fingerprint(x)),
            count == records@.take(i as int).filter(f).len(),
            count <= i,
        decreases records.len() - i,
    {
        proof {
            reveal_with_fuel(Seq::filter, 1);
            assert(records@.take(i + 1).drop_last() =~= records@.take(i as int));
            assert(records@.take(i + 1).last() == records@[i as int]);
        }
        if needs_fingerprint(&records[i]) {
            count = count + 1;
        }
        i = i + 1;
    }
    assert(records@.take(i as int) =~= records@);
    let batch = if batch_size > count {
        count
    } else {
        batch_size
    };
    (count, batch)
}

/// Keeps the fingerprint that fingerprinting gave for a record, where there
/// is one: a usable one (not empty, not the failure mark) is stored in the
/// record and given back; otherwise the record stays as it was and nothing is
/// given back.
pub fn keep_fingerprint(r: &mut FileRecord, fingerprint: Option<String>) -> (kept: Option<String>)
    ensures
        match fingerprint {
            Some(f) => if f@.len() > 0 && f@ != "FAILED"@ {
                &&& kept == Some(f)
                &&& *final(r) == (FileRecord { fingerprint: Some(f), ..*old(r) })
            } else {
                kept is None && *final(r) == *old(r)
            },
            None => kept is None && *final(r) == *old(r),
        },
{
    match fingerprint {
        Some(f) => {
            let chars = crate::text::str_chars(f.as_str());
            if chars.len() > 0 && !crate::text::str_eq(f.as_str(), "FAILED") {
                r.fingerprint = Some(f.clone());
                Some(f)
            } else {
                None
            }
        },
        None => None,
    }
}

/// The fingerprint stored for a record once fingerprinting is done: the one
/// kept, or the failure mark.
pub fn stored_fingerprint(kept: Option<String>) -> (s: String)
    ensures
        s@ == match kept {
            Some(f) => f@,
            None => "FAILED"@,
        },
{
    match kept {
        Some(f) => f,
        None => String::from_str("FAILED"),
    }
}

/// Law: a marked group of matching audio keeps one copy. When a group of
/// two or more records is sorted for keeping and marked, every record
/// carries the mark, no record after the first carries `Keep`, and the first
/// carries `Keep` exactly when the record sorted first did.
pub proof fn lemma_one_copy_kept(g: Seq<FileRecord>, out: Seq<FileRecord>, p: Preferences, mark: Algorithm)
    requires
        mark != Algorithm::Keep,
        sorted_marked(g, out, p, mark),
    ensures
        forall|i: int| 0 <= i < out.len() ==> (#[trigger] out[i]).algorithm@.contains(mark),
        forall|i: int| 0 < i < out.len() ==> !(#[trigger] out[i]).algorithm@.contains(Algorithm::Keep),
        out.len() > 0 ==> (out[0].algorithm@.contains(Algorithm::Keep) <==> sorted_for_keeping(p, g)[0].algorithm@.contains(
            Algorithm::Keep,
        )),
{
    let s = sorted_for_keeping(p, g);
    assert forall|i: int| 0 <= i < out.len() implies (#[trigger] out[i]).algorithm@.contains(mark) by {
        assert(out[i].algorithm@ == audio_marks(s, i, mark));
    }
    assert forall|i: int| 0 < i < out.len() implies !(#[trigger] out[i]).algorithm@.contains(Algorithm::Keep) by {
        assert(out[i].algorithm@ == audio_marks(s, i, mark));
    }
    if out.len() > 0 {
        assert(out[0].algorithm@ == audio_marks(s, 0, mark));
    }
}

/// Law: the exact audio search keeps one copy of each group of two or more
/// records with the same fingerprint: all are marked `Waveforms`, and none
/// but the first keeps `Keep`.
pub proof fn lemma_exact_group_keeps_one(g: Seq<FileRecord>, out: Seq<FileRecord>, p: Preferences)
    requires
        g.len() >= 2,
        wave_chunk_ok(g, out, p),
    ensures
        out.len() == g.len(),
        forall|i: int| 0 <= i < out.len() ==> (#[trigger] out[i]).algorithm@.contains(Algorithm::Waveforms),
        forall|i: int| 0 < i < out.len() ==> !(#[trigger] out[i]).algorithm@.contains(Algorithm::Keep),
{
    broadcast use vstd::seq_lib::group_to_multiset_ensures;

    lemma_one_copy_kept(g, out, p, Algorithm::Waveforms);
    crate::order::lemma_sorted_for_keeping_perm(p, g);
    assert(sorted_for_keeping(p, g).to_multiset().len() == g.to_multiset().len());
}

} // verus!
