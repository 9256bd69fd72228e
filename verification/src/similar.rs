use vstd::prelude::*;
use crate::dupes::{group_records, groups_of, ids_of, keys_in_order, record_key, reversed, same_but_marks, GroupBy};
use crate::marks::Algorithm;
use crate::order::{column_text, groups_sortable, rules_sortable, sortable};
use crate::prefs::{Enabled, Preferences};
use crate::records::{opt_chars, FileRecord};
use crate::text::{has_prefix, starts_with, str_chars};
use crate::waves::{copies, copy_record, mark_audio_group, mark_sorted_group, sorted_marked, wave_chunk_ok};
use bit_set::BitSet;
use vstd::multiset::Multiset;

verus! {

/// `bit_set::BitSet`, the set of record identifiers that the search has
/// handled.
#[verifier::external_type_specification]
#[verifier::external_body]
#[verifier::reject_recursive_types(B)]
pub struct ExBitSet<B>(BitSet<B>);

/// The values that a bit set holds.
pub uninterp spec fn bitset_items(s: BitSet) -> Set<usize>;

/// `BitSet::with_capacity`: a set that holds nothing, with room for `nbits`
/// values. The memory that it takes is not stated.
#[verifier::external_body]
fn bitset_with_capacity(nbits: usize) -> (s: BitSet)
    ensures
        bitset_items(s) == Set::<usize>::empty(),
{
    BitSet::with_capacity(nbits)
}

/// `BitSet::insert`: adds `value`, and tells whether it was not there
/// before. The set grows to `value + 1` bits, whose sum would overflow for
/// the largest `usize`; the memory that it takes is not stated.
#[verifier::external_body]
fn bitset_insert(s: &mut BitSet, value: usize) -> (added: bool)
    requires
        value < usize::MAX,
    ensures
        bitset_items(*final(s)) == bitset_items(*old(s)).insert(value),
        added == !bitset_items(*old(s)).contains(value),
{
    s.insert(value)
}

/// `BitSet::contains`: whether the set holds `value`.
#[verifier::external_body]
fn bitset_contains(s: &BitSet, value: usize) -> (b: bool)
    ensures
        b == bitset_items(*s).contains(value),
{
    s.contains(value)
}

/// The prefix of a fingerprint that is a hash of the raw samples rather than
/// a Chromaprint fingerprint.
pub open spec fn pcm_prefix() -> Seq<char> {
    seq!['P', 'C', 'M', ':']
}

/// Whether a fingerprint can be compared: not empty and not the failure mark.
pub open spec fn usable_fingerprint(f: Seq<char>) -> bool {
    f.len() > 0 && f != "FAILED"@
}

/// Whether a record carries a usable hash of its raw samples.
pub open spec fn is_pcm_hash(r: FileRecord) -> bool {
    match opt_chars(r.fingerprint) {
        Some(f) => usable_fingerprint(f) && has_prefix(f, pcm_prefix()),
        None => false,
    }
}

/// Whether a record carries a usable Chromaprint fingerprint.
pub open spec fn is_chromaprint(r: FileRecord) -> bool {
    match opt_chars(r.fingerprint) {
        Some(f) => usable_fingerprint(f) && !has_prefix(f, pcm_prefix()),
        None => false,
    }
}

/// The most members of one similarity group that are marked.
pub const MAX_GROUP_SIZE: usize = 1000;

/// The members of a similarity group that are marked: the first
/// `MAX_GROUP_SIZE` of them.
pub open spec fn capped(ids: Seq<usize>) -> Seq<usize> {
    if ids.len() > MAX_GROUP_SIZE {
        ids.take(MAX_GROUP_SIZE as int)
    } else {
        ids
    }
}

/// Whether `i` is the first position of a record with identifier `id`.
pub open spec fn is_first_id(s: Seq<FileRecord>, i: int, id: usize) -> bool {
    &&& 0 <= i < s.len()
    &&& s[i].id == id
    &&& forall|j: int| 0 <= j < i ==> (#[trigger] s[j]).id != id
}

/// The first record with identifier `id`.
pub open spec fn first_with_id(s: Seq<FileRecord>, id: usize) -> Option<FileRecord> {
    if exists|i: int| is_first_id(s, i, id) {
        Some(s[choose|i: int| is_first_id(s, i, id)])
    } else {
        None
    }
}

/// The records that the identifiers of a group name, in the group's order;
/// an identifier that no record has is passed over.
pub open spec fn group_found(s: Seq<FileRecord>, ids: Seq<usize>) -> Seq<FileRecord>
    decreases ids.len(),
{
    if ids.len() == 0 {
        Seq::empty()
    } else {
        let rest = group_found(s, ids.drop_last());
        match first_with_id(s, ids.last()) {
            Some(r) => rest.push(r),
            None => rest,
        }
    }
}

/// The similarity groups of more than one member.
pub open spec fn big_groups(groups: Seq<Vec<usize>>) -> Seq<Vec<usize>> {
    groups.filter(|g: Vec<usize>| g@.len() > 1)
}

/// Whether identifier `id` is one of a PCM-hashed record.
pub open spec fn pcm_id(s: Seq<FileRecord>, id: usize) -> bool {
    exists|k: int| 0 <= k < s.len() && is_pcm_hash(#[trigger] s[k]) && s[k].id == id
}

/// Whether identifier `id` is among the marked members of one of the first
/// `n` similarity groups of more than one member, and some record has it.
pub open spec fn in_big_group(s: Seq<FileRecord>, groups: Seq<Vec<usize>>, n: int, id: usize) -> bool {
    &&& first_with_id(s, id) is Some
    &&& exists|g: int| 0 <= g < n && (#[trigger] groups[g])@.len() > 1 && capped(groups[g]@).contains(id)
}

/// Whether the similar-audio search handles the records of identifier `id`
/// itself, rather than passing them through: a PCM-hashed record's, or one
/// marked as a member of a similarity group.
pub open spec fn similar_processed(s: Seq<FileRecord>, groups: Seq<Vec<usize>>, id: usize) -> bool {
    pcm_id(s, id) || in_big_group(s, groups, groups.len() as int, id)
}

/// Whether the records that each similarity group of more than one member
/// marks can be ordered by the rules without a panic, where they are two or
/// more and so get sorted.
pub open spec fn similar_groups_sortable(
    rules: Seq<crate::prefs::PreservationLogic>,
    s: Seq<FileRecord>,
    groups: Seq<Vec<usize>>,
) -> bool {
    forall|i: int|
        0 <= i < groups.len() && (#[trigger] groups[i])@.len() > 1 && group_found(s, capped(groups[i]@)).len()
            >= 2 ==> rules_sortable(rules, group_found(s, capped(groups[i]@)))
}

/// Whether `out` is what marking copies of the records `g` gives: sorted for
/// keeping, all marked `SimilarAudio`, all but the first without `Keep`.
pub open spec fn similar_chunk_ok(g: Seq<FileRecord>, out: Seq<FileRecord>, p: Preferences) -> bool {
    exists|c: Seq<FileRecord>| copies(g, c) && sorted_marked(c, out, p, Algorithm::SimilarAudio)
}

/// Whether `out` is the outcome of the similar-audio search on `s`, given
/// the similarity groups (identifiers of records whose Chromaprint
/// fingerprints were found alike): first the PCM-hashed records grouped by
/// hash, each group made into its chunk as the exact search does; then, for
/// each group of more than one member, copies of the records of its first
/// `MAX_GROUP_SIZE` members, sorted for keeping and marked `SimilarAudio`;
/// then copies of the records not handled, in their order.
pub open spec fn similar_marked(
    s: Seq<FileRecord>,
    groups: Seq<Vec<usize>>,
    out: Seq<FileRecord>,
    p: Preferences,
    e: Enabled,
) -> bool {
    let gs = groups_of(s.filter(|r: FileRecord| is_pcm_hash(r)), p, e, GroupBy::Fingerprint);
    let big = big_groups(groups);
    exists|pc: Seq<Seq<FileRecord>>, sc: Seq<Seq<FileRecord>>, tail: Seq<FileRecord>|
        #![trigger pc.flatten(), sc.flatten(), tail.len()]
        {
            &&& pc.len() == gs.len()
            &&& sc.len() == big.len()
            &&& out == pc.flatten() + sc.flatten() + tail
            &&& copies(s.filter(|r: FileRecord| !similar_processed(s, groups, r.id)), tail)
            &&& forall|j: int| 0 <= j < pc.len() ==> wave_chunk_ok(#[trigger] gs[j], pc[j], p)
            &&& forall|j: int|
                0 <= j < sc.len() ==> similar_chunk_ok(group_found(s, capped(big[j]@)), #[trigger] sc[j], p)
        }
}

fn fingerprint_kinds(f: &Option<String>) -> (r: (bool, bool))
    ensures
        r.0 == match opt_chars(*f) {
            Some(t) => usable_fingerprint(t) && has_prefix(t, pcm_prefix()),
            None => false,
        },
        r.1 == match opt_chars(*f) {
            Some(t) => usable_fingerprint(t) && !has_prefix(t, pcm_prefix()),
            None => false,
        },
{
    match f {
        Some(s) => {
            let v = str_chars(s.as_str());
            let usable = v.len() > 0 && !crate::text::str_eq(s.as_str(), "FAILED");
            let prefix = ['P', 'C', 'M', ':'];
            assert(prefix@ =~= pcm_prefix());
            let pcm = starts_with(&v, &prefix);
            (usable && pcm, usable && !pcm)
        },
        None => (false, false),
    }
}

/// Whether a record carries a usable hash of its raw samples, one that the
/// similar-audio search groups by hash.
pub fn is_pcm_record(r: &FileRecord) -> (b: bool)
    ensures
        b == is_pcm_hash(*r),
{
    fingerprint_kinds(&r.fingerprint).0
}

/// Whether a record carries a usable Chromaprint fingerprint, one that the
/// similarity comparison reads.
pub fn is_chromaprint_record(r: &FileRecord) -> (b: bool)
    ensures
        b == is_chromaprint(*r),
{
    fingerprint_kinds(&r.fingerprint).1
}

proof fn lemma_first_unique(s: Seq<FileRecord>, i: int, id: usize)
    requires
        is_first_id(s, i, id),
    ensures
        first_with_id(s, id) == Some(s[i]),
{
    let k = choose|k: int| is_first_id(s, k, id);
    assert(is_first_id(s, k, id));
    if k < i {
        assert(s[k].id != id);
    }
    if i < k {
        assert(s[i].id != id);
    }
}

proof fn lemma_copy_column(a: FileRecord, b: FileRecord, col: Seq<char>)
    requires
        same_but_marks(a, b),
    ensures
        column_text(a, col) == column_text(b, col),
{
}

/// A copy of the first record with identifier `id` among `all`, copies of
/// the records `s`.
fn find_copy(all: &Vec<FileRecord>, id: usize, Ghost(s): Ghost<Seq<FileRecord>>) -> (r: Option<FileRecord>)
    requires
        copies(s, all@),
    ensures
        r is None <==> first_with_id(s, id) is None,
        r matches Some(c) ==> copies(seq![first_with_id(s, id)->0], seq![c]),
        r matches Some(c) ==> exists|i: int| is_first_id(s, i, id) && s[i] == first_with_id(s, id)->0,
{
    let mut i: usize = 0;
    while i < all.len()
        invariant
            0 <= i <= all.len(),
            copies(s, all@),
            forall|j: int| 0 <= j < i ==> (#[trigger] s[j]).id != id,
        decreases all.len() - i,
    {
        if all[i].id == id {
            assert(same_but_marks(s[i as int], all@[i as int]));
            assert(is_first_id(s, i as int, id));
            proof {
                lemma_first_unique(s, i as int, id);
            }
            let c = copy_record(&all[i]);
            assert(same_but_marks(s[i as int], c));
            return Some(c);
        }
        assert(same_but_marks(s[i as int], all@[i as int]));
        i = i + 1;
    }
    assert forall|k: int| !is_first_id(s, k, id) by {
        if 0 <= k < s.len() {
            assert(s[k].id != id);
        }
    }
    None
}

fn copy_all(v: &Vec<FileRecord>) -> (r: Vec<FileRecord>)
    ensures
        copies(v@, r@),
{
    let mut r: Vec<FileRecord> = Vec::new();
    let mut i: usize = 0;
    while i < v.len()
        invariant
            0 <= i <= v.len(),
            copies(v@.take(i as int), r@),
        decreases v.len() - i,
    {
        let c = copy_record(&v[i]);
        r.push(c);
        assert(v@.take(i + 1)[i as int] == v@[i as int]);
        assert forall|k: int| 0 <= k < i + 1 implies same_but_marks(#[trigger] v@.take(i + 1)[k], r@[k]) by {
            if k < i {
                assert(v@.take(i + 1)[k] == v@.take(i as int)[k]);
            }
        }
        assert forall|k: int| 0 <= k < i + 1 implies (#[trigger] v@.take(i + 1)[k]).algorithm == r@[k].algorithm by {
            if k < i {
                assert(v@.take(i + 1)[k] == v@.take(i as int)[k]);
            }
        }
        i = i + 1;
    }
    assert(v@.take(i as int) =~= v@);
    r
}

/// Takes out the PCM-hashed records, in order, and adds their identifiers
/// to `ids`.
fn take_pcm(records: Vec<FileRecord>, ids: &mut BitSet) -> (pcm: Vec<FileRecord>)
    requires
        forall|k: int| 0 <= k < records@.len() && is_pcm_hash(#[trigger] records@[k]) ==> records@[k].id < usize::MAX,
        bitset_items(*old(ids)) == Set::<usize>::empty(),
    ensures
        pcm@ == records@.filter(|r: FileRecord| is_pcm_hash(r)),
        forall|id: usize| bitset_items(*final(ids)).contains(id) <==> pcm_id(records@, id),
{
    let ghost orig = records@;
    let ghost f = |r: FileRecord| is_pcm_hash(r);
    assert(orig.len() == records.len());
    let mut rest = reversed(records);
    let mut pcm: Vec<FileRecord> = Vec::new();
    let mut i: usize = 0;
    while rest.len() > 0
        invariant
            i + rest@.len() == orig.len(),
            orig.len() <= usize::MAX,
            rest@ == orig.skip(i as int).reverse(),
            forall|k: int| 0 <= k < orig.len() && is_pcm_hash(#[trigger] orig[k]) ==> orig[k].id < usize::MAX,
            f == (|r: FileRecord| is_pcm_hash(r)),
            pcm@ == orig.take(i as int).filter(f),
            forall|id: usize|
                bitset_items(*ids).contains(id) <==> exists|k: int|
                    0 <= k < i && is_pcm_hash(#[trigger] orig[k]) && orig[k].id == id,
        decreases rest@.len(),
    {
        let ghost n = rest@.len();
        let x = rest.pop().unwrap();
        proof {
            assert(x == orig.skip(i as int).reverse()[n - 1]);
            assert(x == orig[i as int]);
            assert(rest@ =~= orig.skip(i + 1).reverse());
            reveal_with_fuel(Seq::filter, 1);
            assert(orig.take(i + 1).drop_last() =~= orig.take(i as int));
            assert(orig.take(i + 1).last() == x);
        }
        let ghost before = bitset_items(*ids);
        let kinds = fingerprint_kinds(&x.fingerprint);
        if kinds.0 {
            bitset_insert(ids, x.id);
            pcm.push(x);
        }
        proof {
            assert forall|id: usize|
                bitset_items(*ids).contains(id) <==> exists|k: int|
                    0 <= k < i + 1 && is_pcm_hash(#[trigger] orig[k]) && orig[k].id == id by {
                if bitset_items(*ids).contains(id) && !before.contains(id) {
                    assert(is_pcm_hash(orig[i as int]) && orig[i as int].id == id);
                }
                if before.contains(id) {
                    let k = choose|k: int| 0 <= k < i && is_pcm_hash(#[trigger] orig[k]) && orig[k].id == id;
                    assert(0 <= k < i + 1 && is_pcm_hash(orig[k]) && orig[k].id == id);
                }
                if exists|k: int| 0 <= k < i + 1 && is_pcm_hash(#[trigger] orig[k]) && orig[k].id == id {
                    let k = choose|k: int| 0 <= k < i + 1 && is_pcm_hash(#[trigger] orig[k]) && orig[k].id == id;
                    if k < i {
                        assert(before.contains(id));
                    }
                }
            }
        }
        i = i + 1;
    }
    assert(orig.take(i as int) =~= orig);
    pcm
}

proof fn lemma_sortable_copies(l: crate::prefs::PreservationLogic, g: Seq<FileRecord>, c: Seq<FileRecord>)
    requires
        sortable(l, g),
        copies(g, c),
    ensures
        sortable(l, c),
{
    if l.operator == crate::prefs::OrderOperator::Largest {
        assert forall|i: int| 0 <= i < c.len() implies !crate::order::parse_panics(column_text(#[trigger] c[i], l.column@)) by {
            assert(!crate::order::parse_panics(column_text(g[i], l.column@)));
            lemma_copy_column(g[i], c[i], l.column@);
        }
    }
}

/// Makes the PCM-hashed records into their chunks: grouped by hash, each
/// group of two or more sorted for keeping and marked `Waveforms`.
fn mark_pcm_groups(pcm: Vec<FileRecord>, p: &Preferences, e: &Enabled) -> (out: Vec<FileRecord>)
    requires
        groups_sortable(p.preservation_order@, groups_of(pcm@, *p, *e, GroupBy::Fingerprint)),
    ensures
        exists|pc: Seq<Seq<FileRecord>>|
            #![trigger pc.flatten()]
            pc.len() == groups_of(pcm@, *p, *e, GroupBy::Fingerprint).len() && out@ == pc.flatten()
                && forall|j: int|
                0 <= j < pc.len() ==> wave_chunk_ok(
                    #[trigger] groups_of(pcm@, *p, *e, GroupBy::Fingerprint)[j],
                    pc[j],
                    *p,
                ),
{
    let ghost wseq = pcm@;
    let groups = group_records(pcm, p, e, GroupBy::Fingerprint);
    let ghost gs = groups_of(wseq, *p, *e, GroupBy::Fingerprint);
    let ghost total = groups@;
    assert(total.len() == groups.len());
    let mut grest = reversed(groups);
    let mut out: Vec<FileRecord> = Vec::new();
    let ghost mut chunks: Seq<Seq<FileRecord>> = Seq::empty();
    let mut j: usize = 0;
    while grest.len() > 0
        invariant
            j + grest@.len() == total.len(),
            total.len() <= usize::MAX,
            total.len() == gs.len(),
            gs == groups_of(wseq, *p, *e, GroupBy::Fingerprint),
            forall|w: int| 0 <= w < total.len() ==> (#[trigger] total[w])@ == gs[w],
            grest@ == total.skip(j as int).reverse(),
            chunks.len() == j,
            out@ == chunks.flatten(),
            forall|w: int| 0 <= w < j ==> wave_chunk_ok(#[trigger] gs[w], chunks[w], *p),
            groups_sortable(p.preservation_order@, gs),
        decreases grest@.len(),
    {
        let ghost n = grest@.len();
        let g = grest.pop().unwrap();
        assert(g == total.skip(j as int).reverse()[n - 1]);
        assert(g == total[j as int]);
        assert(grest@ =~= total.skip(j + 1).reverse());
        assert(g@ == gs[j as int]);
        let mut chunk = mark_audio_group(g, p, Algorithm::Waveforms);
        let ghost c = chunk@;
        proof {
            chunks.lemma_flatten_push(c);
            chunks = chunks.push(c);
        }
        out.append(&mut chunk);
        j = j + 1;
    }
    out
}

/// Copies of the records of the first `cap` identifiers of a group, found
/// among `all`, copies of `s`; the identifiers found are added to `ids`.
fn collect_group(
    all: &Vec<FileRecord>,
    g: &Vec<usize>,
    cap: usize,
    ids: &mut BitSet,
    Ghost(s): Ghost<Seq<FileRecord>>,
) -> (recs: Vec<FileRecord>)
    requires
        copies(s, all@),
        forall|id: usize| first_with_id(s, id) is Some && #[trigger] g@.take(cap as int).contains(id) ==> id < usize::MAX,
        cap <= g.len(),
    ensures
        copies(group_found(s, g@.take(cap as int)), recs@),
        forall|id: usize|
            bitset_items(*final(ids)).contains(id) <==> (bitset_items(*old(ids)).contains(id) || (
            first_with_id(s, id) is Some && g@.take(cap as int).contains(id))),
{
    let ghost ids0 = bitset_items(*ids);
    let mut recs: Vec<FileRecord> = Vec::new();
    let mut k: usize = 0;
    assert(g@.take(0) =~= Seq::<usize>::empty());
    while k < cap
        invariant
            0 <= k <= cap <= g.len(),
            copies(s, all@),
            forall|id: usize| first_with_id(s, id) is Some && #[trigger] g@.take(cap as int).contains(id) ==> id < usize::MAX,
            copies(group_found(s, g@.take(k as int)), recs@),
            ids0 == bitset_items(*old(ids)),
            forall|id: usize|
                bitset_items(*ids).contains(id) <==> (ids0.contains(id) || (first_with_id(s, id) is Some
                    && g@.take(k as int).contains(id))),
        decreases cap - k,
    {
        let id = g[k];
        let ghost before = bitset_items(*ids);
        let ghost rbefore = recs@;
        let ghost prev = group_found(s, g@.take(k as int));
        proof {
            assert(g@.take(k + 1).drop_last() =~= g@.take(k as int));
            assert(g@.take(k + 1).last() == id);
        }
        let found = find_copy(all, id, Ghost(s));
        let is_found = found.is_some();
        match found {
            Some(c) => {
                proof {
                    assert(g@.take(cap as int)[k as int] == id);
                    assert(g@.take(cap as int).contains(id));
                }
                bitset_insert(ids, id);
                recs.push(c);
                proof {
                    let x = first_with_id(s, id)->0;
                    assert(group_found(s, g@.take(k + 1)) == prev.push(x));
                    assert(same_but_marks(seq![x][0], seq![c][0]));
                    assert(seq![x][0].algorithm == seq![c][0].algorithm);
                    assert forall|i: int| 0 <= i < prev.len() + 1 implies same_but_marks(
                        #[trigger] prev.push(x)[i],
                        recs@[i],
                    ) by {
                        if i < prev.len() {
                            assert(recs@[i] == rbefore[i]);
                        }
                    }
                    assert forall|i: int| 0 <= i < prev.len() + 1 implies (
                    #[trigger] prev.push(x)[i]).algorithm == recs@[i].algorithm by {
                        if i < prev.len() {
                            assert(recs@[i] == rbefore[i]);
                        }
                    }
                }
            },
            None => {
                assert(group_found(s, g@.take(k + 1)) == prev);
            },
        }
        let ghost t0 = g@.take(k as int);
        let ghost t1 = g@.take(k + 1);
        proof {
            assert(is_found ==> bitset_items(*ids) == before.insert(id));
            assert(!is_found ==> bitset_items(*ids) == before);
            assert(is_found <==> first_with_id(s, id) is Some);
            assert forall|x: usize|
                bitset_items(*ids).contains(x) <==> (ids0.contains(x) || (first_with_id(s, x) is Some
                    && t1.contains(x))) by {
                assert(t1 == t0.push(id));
                assert(before.contains(x) <==> (ids0.contains(x) || (first_with_id(s, x) is Some
                    && t0.contains(x))));
                assert(t1.contains(x) <==> (t0.contains(x) || x == id)) by {
                    if t1.contains(x) {
                        let w = choose|w: int| 0 <= w < t1.len() && t1[w] == x;
                        if w < t0.len() {
                            assert(t0[w] == x);
                        }
                    }
                    if t0.contains(x) {
                        let w = choose|w: int| 0 <= w < t0.len() && t0[w] == x;
                        assert(t1[w] == x);
                    }
                    if x == id {
                        assert(t1[t0.len() as int] == x);
                    }
                }
            }
        }
        assert(t1 == g@.take(k + 1));
        k = k + 1;
    }
    recs
}

/// Marks the records of each similarity group of more than one member:
/// copies of the records of its first `MAX_GROUP_SIZE` members, sorted for
/// keeping and marked `SimilarAudio`; their identifiers are added to `ids`.
fn mark_similar_groups(
    all: &Vec<FileRecord>,
    groups: &Vec<Vec<usize>>,
    p: &Preferences,
    ids: &mut BitSet,
    Ghost(s): Ghost<Seq<FileRecord>>,
) -> (out: Vec<FileRecord>)
    requires
        copies(s, all@),
        !in_big_group(s, groups@, groups@.len() as int, usize::MAX),
        similar_groups_sortable(p.preservation_order@, s, groups@),
        forall|id: usize| bitset_items(*old(ids)).contains(id) <==> pcm_id(s, id),
    ensures
        forall|id: usize| bitset_items(*final(ids)).contains(id) <==> similar_processed(s, groups@, id),
        exists|sc: Seq<Seq<FileRecord>>|
            #![trigger sc.flatten()]
            sc.len() == big_groups(groups@).len() && out@ == sc.flatten() && forall|j: int|
                0 <= j < sc.len() ==> similar_chunk_ok(
                    group_found(s, capped(big_groups(groups@)[j]@)),
                    #[trigger] sc[j],
                    *p,
                ),
{
    let ghost gsq = groups@;
    let mut out: Vec<FileRecord> = Vec::new();
    let ghost mut sc: Seq<Seq<FileRecord>> = Seq::empty();
    let mut gi: usize = 0;
    assert(gsq.take(0) =~= Seq::<Vec<usize>>::empty());
    assert(big_groups(gsq.take(0)) =~= Seq::<Vec<usize>>::empty());
    while gi < groups.len()
        invariant
            0 <= gi <= groups.len(),
            gsq == groups@,
            copies(s, all@),
            !in_big_group(s, gsq, gsq.len() as int, usize::MAX),
            similar_groups_sortable(p.preservation_order@, s, gsq),
            forall|id: usize|
                bitset_items(*ids).contains(id) <==> (pcm_id(s, id) || in_big_group(s, gsq, gi as int, id)),
            sc.len() == big_groups(gsq.take(gi as int)).len(),
            out@ == sc.flatten(),
            forall|j: int|
                0 <= j < sc.len() ==> similar_chunk_ok(
                    group_found(s, capped(big_groups(gsq.take(gi as int))[j]@)),
                    #[trigger] sc[j],
                    *p,
                ),
        decreases groups.len() - gi,
    {
        let g = &groups[gi];
        let ghost before = bitset_items(*ids);
        assert(forall|id: usize| #[trigger] before.contains(id) <==> (pcm_id(s, id) || in_big_group(s, gsq, gi as int, id)));
        let ghost b0 = big_groups(gsq.take(gi as int));
        let ghost b1 = big_groups(gsq.take(gi + 1));
        proof {
            reveal_with_fuel(Seq::filter, 1);
            assert(gsq.take(gi + 1).drop_last() =~= gsq.take(gi as int));
            assert(gsq.take(gi + 1).last() == gsq[gi as int]);
        }
        if g.len() > 1 {
            let cap = if g.len() > MAX_GROUP_SIZE {
                MAX_GROUP_SIZE
            } else {
                g.len()
            };
            assert(g@.take(cap as int) =~= capped(g@));
            assert(gsq[gi as int] == *g);
            proof {
                assert forall|id: usize| first_with_id(s, id) is Some && #[trigger] g@.take(cap as int).contains(id) implies id
                    < usize::MAX by {
                    assert(0 <= gi < gsq.len() && gsq[gi as int]@.len() > 1 && capped(gsq[gi as int]@).contains(id));
                    if id == usize::MAX {
                        assert(in_big_group(s, gsq, gsq.len() as int, usize::MAX));
                    }
                }
            }
            let recs = collect_group(all, g, cap, ids, Ghost(s));
            proof {
                let gf = group_found(s, capped(g@));
                if recs@.len() >= 2 {
                    assert(rules_sortable(p.preservation_order@, gf));
                    assert forall|k: int| 0 <= k < p.preservation_order@.len() implies sortable(
                        #[trigger] p.preservation_order@[k],
                        recs@,
                    ) by {
                        lemma_sortable_copies(p.preservation_order@[k], gf, recs@);
                    }
                }
            }
            let ghost rv = recs@;
            let mut chunk = mark_sorted_group(recs, p, Algorithm::SimilarAudio);
            let ghost c = chunk@;
            proof {
                assert(b1 == b0.push(gsq[gi as int]));
                assert(similar_chunk_ok(group_found(s, capped(g@)), c, *p));
                sc.lemma_flatten_push(c);
                sc = sc.push(c);
                assert forall|j: int| 0 <= j < sc.len() implies similar_chunk_ok(
                    group_found(s, capped(b1[j]@)),
                    #[trigger] sc[j],
                    *p,
                ) by {
                    if j < b0.len() {
                        assert(b1[j] == b0[j]);
                    }
                }
                assert(gsq[gi as int] == *g);
                assert forall|id: usize|
                    bitset_items(*ids).contains(id) <==> (pcm_id(s, id) || in_big_group(s, gsq, gi + 1, id)) by {
                    assert(bitset_items(*ids).contains(id) <==> (before.contains(id) || (first_with_id(s, id) is Some
                        && capped(g@).contains(id))));
                    assert(before.contains(id) <==> (pcm_id(s, id) || in_big_group(s, gsq, gi as int, id)));
                    if in_big_group(s, gsq, gi + 1, id) {
                        let w = choose|w: int|
                            0 <= w < gi + 1 && (#[trigger] gsq[w])@.len() > 1 && capped(gsq[w]@).contains(id);
                        if w < gi {
                            assert(in_big_group(s, gsq, gi as int, id));
                        } else {
                            assert(w == gi);
                            assert(capped(g@).contains(id));
                        }
                    }
                    if in_big_group(s, gsq, gi as int, id) {
                        let w = choose|w: int|
                            0 <= w < gi && (#[trigger] gsq[w])@.len() > 1 && capped(gsq[w]@).contains(id);
                        assert(0 <= w < gi + 1 && gsq[w]@.len() > 1 && capped(gsq[w]@).contains(id));
                        assert(in_big_group(s, gsq, gi + 1, id));
                    }
                    if first_with_id(s, id) is Some && capped(g@).contains(id) {
                        assert(0 <= gi < gi + 1 && gsq[gi as int]@.len() > 1 && capped(gsq[gi as int]@).contains(id));
                        assert(in_big_group(s, gsq, gi + 1, id));
                    }
                }
            }
            out.append(&mut chunk);
        } else {
            proof {
                assert(b1 == b0);
                assert(gsq[gi as int] == *g);
                assert forall|id: usize|
                    bitset_items(*ids).contains(id) <==> (pcm_id(s, id) || in_big_group(s, gsq, gi + 1, id)) by {
                    assert(bitset_items(*ids).contains(id) <==> (pcm_id(s, id) || in_big_group(s, gsq, gi as int, id)));
                    if in_big_group(s, gsq, gi + 1, id) {
                        let w = choose|w: int|
                            0 <= w < gi + 1 && (#[trigger] gsq[w])@.len() > 1 && capped(gsq[w]@).contains(id);
                        assert(w < gi);
                        assert(in_big_group(s, gsq, gi as int, id));
                    }
                    if in_big_group(s, gsq, gi as int, id) {
                        let w = choose|w: int|
                            0 <= w < gi && (#[trigger] gsq[w])@.len() > 1 && capped(gsq[w]@).contains(id);
                        assert(0 <= w < gi + 1 && gsq[w]@.len() > 1 && capped(gsq[w]@).contains(id));
                        assert(in_big_group(s, gsq, gi + 1, id));
                    }
                }
            }
        }
        gi = gi + 1;
    }
    assert(gsq.take(gi as int) =~= gsq);
    out
}

/// Copies of the records whose identifier `ids` does not hold, in order.
fn pass_through(
    all: &Vec<FileRecord>,
    ids: &BitSet,
    Ghost(s): Ghost<Seq<FileRecord>>,
    Ghost(groups): Ghost<Seq<Vec<usize>>>,
) -> (tail: Vec<FileRecord>)
    requires
        copies(s, all@),
        forall|id: usize| bitset_items(*ids).contains(id) <==> similar_processed(s, groups, id),
    ensures
        copies(s.filter(|r: FileRecord| !similar_processed(s, groups, r.id)), tail@),
{
    let ghost f = |r: FileRecord| !similar_processed(s, groups, r.id);
    let mut tail: Vec<FileRecord> = Vec::new();
    let mut t: usize = 0;
    assert(s.take(0) =~= Seq::<FileRecord>::empty());
    while t < all.len()
        invariant
            0 <= t <= all.len(),
            copies(s, all@),
            forall|id: usize| bitset_items(*ids).contains(id) <==> similar_processed(s, groups, id),
            f == (|r: FileRecord| !similar_processed(s, groups, r.id)),
            copies(s.take(t as int).filter(f), tail@),
        decreases all.len() - t,
    {
        let ghost tb = tail@;
        let ghost prev = s.take(t as int).filter(f);
        proof {
            reveal_with_fuel(Seq::filter, 1);
            assert(s.take(t + 1).drop_last() =~= s.take(t as int));
            assert(s.take(t + 1).last() == s[t as int]);
            assert(same_but_marks(s[t as int], all@[t as int]));
        }
        if !bitset_contains(ids, all[t].id) {
            let c = copy_record(&all[t]);
            tail.push(c);
            proof {
                let x = s[t as int];
                assert(s.take(t + 1).filter(f) == prev.push(x));
                assert forall|i: int| 0 <= i < prev.len() + 1 implies same_but_marks(
                    #[trigger] prev.push(x)[i],
                    tail@[i],
                ) by {
                    if i < prev.len() {
                        assert(tail@[i] == tb[i]);
                    }
                }
                assert forall|i: int| 0 <= i < prev.len() + 1 implies (
                #[trigger] prev.push(x)[i]).algorithm == tail@[i].algorithm by {
                    if i < prev.len() {
                        assert(tail@[i] == tb[i]);
                    }
                }
            }
        } else {
            assert(s.take(t + 1).filter(f) == prev);
        }
        t = t + 1;
    }
    assert(s.take(t as int) =~= s);
    tail
}

/// Marks records with similar audio. `groups` holds the similarity groups,
/// as identifiers of records, that comparing the Chromaprint fingerprints
/// found. First the records whose fingerprint is a PCM hash are grouped by
/// hash and each group of two or more is sorted for keeping, marked
/// `Waveforms` and stripped of `Keep` but for its first record; then, for
/// each similarity group of more than one member, copies of the records of
/// its first `MAX_GROUP_SIZE` members are sorted for keeping, marked
/// `SimilarAudio` and stripped of `Keep` but for the first; last come the
/// records handled by neither, in their order.
pub fn similar_match(records: &mut Vec<FileRecord>, p: &Preferences, e: &Enabled, groups: &Vec<Vec<usize>>)
    requires
        groups_sortable(
            p.preservation_order@,
            groups_of(old(records)@.filter(|r: FileRecord| is_pcm_hash(r)), *p, *e, GroupBy::Fingerprint),
        ),
        similar_groups_sortable(p.preservation_order@, old(records)@, groups@),
        !similar_processed(old(records)@, groups@, usize::MAX),
    ensures
        similar_marked(old(records)@, groups@, final(records)@, *p, *e),
{
    let ghost orig = records@;
    let all = copy_all(records);
    let mut taken: Vec<FileRecord> = Vec::new();
    std::mem::swap(&mut taken, records);
    assert(taken@ == orig);
    let mut ids = bitset_with_capacity(taken.len());
    proof {
        assert forall|k: int| 0 <= k < orig.len() && is_pcm_hash(#[trigger] orig[k]) implies orig[k].id < usize::MAX by {
            if orig[k].id == usize::MAX {
                assert(pcm_id(orig, usize::MAX));
            }
        }
    }
    let pcm = take_pcm(taken, &mut ids);
    let ghost pseq = pcm@;
    let mut out = mark_pcm_groups(pcm, p, e);
    let ghost pout = out@;
    let mut sim = mark_similar_groups(&all, groups, p, &mut ids, Ghost(orig));
    let ghost sout = sim@;
    let mut tail = pass_through(&all, &ids, Ghost(orig), Ghost(groups@));
    let ghost tseq = tail@;
    out.append(&mut sim);
    out.append(&mut tail);
    proof {
        let gs = groups_of(pseq, *p, *e, GroupBy::Fingerprint);
        let big = big_groups(groups@);
        let pc = choose|pc: Seq<Seq<FileRecord>>|
            #![trigger pc.flatten()]
            pc.len() == gs.len() && pout == pc.flatten() && forall|j: int|
                0 <= j < pc.len() ==> wave_chunk_ok(#[trigger] gs[j], pc[j], *p);
        let sc = choose|sc: Seq<Seq<FileRecord>>|
            #![trigger sc.flatten()]
            sc.len() == big.len() && sout == sc.flatten() && forall|j: int|
                0 <= j < sc.len() ==> similar_chunk_ok(group_found(orig, capped(big[j]@)), #[trigger] sc[j], *p);
        assert(out@ == pc.flatten() + sc.flatten() + tseq);
    }
    *records = out;
}

/// The number of one bits of `x`.
pub open spec fn ones(x: nat) -> nat
    decreases x,
{
    if x == 0 {
        0
    } else {
        x % 2 + ones(x / 2)
    }
}

/// The number of equal bits of the first `n` words of two fingerprints,
/// word against word.
pub open spec fn same_bits(a: Seq<u32>, b: Seq<u32>, n: int) -> int
    decreases n,
{
    if n <= 0 {
        0
    } else {
        same_bits(a, b, n - 1) + 32 - ones((a[n - 1] ^ b[n - 1]) as nat)
    }
}

proof fn lemma_ones_bound(x: nat, n: nat)
    requires
        x < crate::aiff::two_pow(n),
    ensures
        ones(x) <= n,
    decreases n,
{
    if x > 0 {
        assert(n > 0);
        assert(crate::aiff::two_pow(n) == 2 * crate::aiff::two_pow((n - 1) as nat));
        lemma_ones_bound(x / 2, (n - 1) as nat);
    }
}

fn count_ones(x: u32) -> (c: u32)
    ensures
        c == ones(x as nat),
        c <= 32,
{
    proof {
        assert(crate::aiff::two_pow(32) == 0x1_0000_0000) by {
            reveal_with_fuel(crate::aiff::two_pow, 33);
        }
        lemma_ones_bound(x as nat, 32);
    }
    let mut v = x;
    let mut c: u32 = 0;
    while v > 0
        invariant
            c + ones(v as nat) == ones(x as nat),
            ones(x as nat) <= 32,
        decreases v,
    {
        c = c + v % 2;
        v = v / 2;
    }
    c
}

/// How alike two fingerprints are, as a count of bits: the equal bits of
/// their common length compared word against word, and the number of bits
/// compared.
pub fn matching_bits(fp1: &[u32], fp2: &[u32]) -> (r: (u64, u64))
    requires
        fp1@.len() < 0x0800_0000_0000_0000 || fp2@.len() < 0x0800_0000_0000_0000,
    ensures
        r.0 == same_bits(fp1@, fp2@, if fp1@.len() < fp2@.len() { fp1@.len() as int } else { fp2@.len() as int }),
        r.1 == 32 * (if fp1@.len() < fp2@.len() { fp1@.len() as int } else { fp2@.len() as int }),
        r.0 <= r.1,
{
    let n = if fp1.len() < fp2.len() {
        fp1.len()
    } else {
        fp2.len()
    };
    let mut total: u64 = 0;
    let mut i: usize = 0;
    while i < n
        invariant
            0 <= i <= n,
            n <= fp1@.len(),
            n <= fp2@.len(),
            n < 0x0800_0000_0000_0000,
            total == same_bits(fp1@, fp2@, i as int),
            total <= 32 * i,
        decreases n - i,
    {
        let c = count_ones(fp1[i] ^ fp2[i]);
        total = total + 32 - c as u64;
        i = i + 1;
    }
    (total, 32 * n as u64)
}

/// The identifiers that the similarity groups of more than one member mark,
/// group by group: the first `MAX_GROUP_SIZE` of each.
pub open spec fn marked_ids(groups: Seq<Vec<usize>>) -> Seq<usize>
    decreases groups.len(),
{
    if groups.len() == 0 {
        Seq::empty()
    } else {
        marked_ids(groups.drop_last()) + if groups.last()@.len() > 1 {
            capped(groups.last()@)
        } else {
            Seq::empty()
        }
    }
}

/// Whether no two records have the same identifier.
pub open spec fn ids_unique(s: Seq<FileRecord>) -> bool {
    forall|i: int, j: int| 0 <= i < j < s.len() ==> (#[trigger] s[i]).id != (#[trigger] s[j]).id
}

proof fn lemma_marked_contains(groups: Seq<Vec<usize>>, id: usize)
    ensures
        marked_ids(groups).contains(id) <==> exists|g: int|
            0 <= g < groups.len() && (#[trigger] groups[g])@.len() > 1 && capped(groups[g]@).contains(id),
    decreases groups.len(),
{
    if groups.len() > 0 {
        let t = groups.drop_last();
        let l = groups.last();
        let mt = marked_ids(t);
        let add = if l@.len() > 1 {
            capped(l@)
        } else {
            Seq::<usize>::empty()
        };
        lemma_marked_contains(t, id);
        let m = mt + add;
        assert(marked_ids(groups) == m);
        if m.contains(id) {
            let w = choose|w: int| 0 <= w < m.len() && m[w] == id;
            if w < mt.len() {
                assert(mt[w] == id);
                assert(mt.contains(id));
                let g = choose|g: int| 0 <= g < t.len() && (#[trigger] t[g])@.len() > 1 && capped(t[g]@).contains(id);
                assert(groups[g] == t[g]);
            } else {
                assert(add[w - mt.len()] == id);
                assert(groups[groups.len() - 1] == l);
            }
        }
        if exists|g: int| 0 <= g < groups.len() && (#[trigger] groups[g])@.len() > 1 && capped(groups[g]@).contains(id) {
            let g = choose|g: int| 0 <= g < groups.len() && (#[trigger] groups[g])@.len() > 1 && capped(groups[g]@).contains(id);
            if g < t.len() {
                assert(t[g] == groups[g]);
                assert(mt.contains(id));
                let w = choose|w: int| 0 <= w < mt.len() && mt[w] == id;
                assert(m[w] == id);
            } else {
                assert(groups[g] == l);
                let w = choose|w: int| 0 <= w < add.len() && add[w] == id;
                assert(m[mt.len() + w] == id);
            }
        }
    }
}

proof fn lemma_first_of_unique(s: Seq<FileRecord>, k: int)
    requires
        ids_unique(s),
        0 <= k < s.len(),
    ensures
        first_with_id(s, s[k].id) == Some(s[k]),
{
    assert(is_first_id(s, k, s[k].id)) by {
        assert forall|j: int| 0 <= j < k implies (#[trigger] s[j]).id != s[k].id by {
            assert(s[j].id != s[k].id);
        }
    }
    lemma_first_unique(s, k, s[k].id);
}

proof fn lemma_group_found_ids(s: Seq<FileRecord>, ids: Seq<usize>)
    requires
        ids_unique(s),
        forall|x: usize| ids.contains(x) ==> exists|k: int| 0 <= k < s.len() && (#[trigger] s[k]).id == x,
    ensures
        crate::dupes::ids_of(group_found(s, ids)) == ids,
    decreases ids.len(),
{
    if ids.len() > 0 {
        let t = ids.drop_last();
        let x = ids.last();
        assert forall|y: usize| t.contains(y) implies exists|k: int| 0 <= k < s.len() && (#[trigger] s[k]).id == y by {
            let w = choose|w: int| 0 <= w < t.len() && t[w] == y;
            assert(ids[w] == y);
            assert(ids.contains(y));
        }
        lemma_group_found_ids(s, t);
        assert(ids[ids.len() - 1] == x);
        assert(ids.contains(x));
        let k = choose|k: int| 0 <= k < s.len() && (#[trigger] s[k]).id == x;
        lemma_first_of_unique(s, k);
        assert(crate::dupes::ids_of(group_found(s, ids)) =~= crate::dupes::ids_of(group_found(s, t)).push(x));
        assert(ids =~= t.push(x));
    }
}

/// The marked identifiers of some groups, counted together.
pub open spec fn capped_sum(big: Seq<Vec<usize>>) -> Multiset<usize>
    decreases big.len(),
{
    if big.len() == 0 {
        Multiset::empty()
    } else {
        capped_sum(big.drop_last()).add(capped(big.last()@).to_multiset())
    }
}

proof fn lemma_marked_sum(groups: Seq<Vec<usize>>)
    ensures
        marked_ids(groups).to_multiset() =~= capped_sum(big_groups(groups)),
    decreases groups.len(),
{
    broadcast use vstd::seq_lib::group_to_multiset_ensures, vstd::multiset::group_multiset_axioms;

    if groups.len() == 0 {
        assert(big_groups(groups) =~= Seq::<Vec<usize>>::empty());
        assert(marked_ids(groups) =~= Seq::<usize>::empty());
        assert(Seq::<usize>::empty().to_multiset() =~= Multiset::<usize>::empty());
    } else {
        let t = groups.drop_last();
        let l = groups.last();
        lemma_marked_sum(t);
        reveal_with_fuel(Seq::filter, 1);
        assert(groups =~= t.push(l));
        assert(groups.drop_last() == t && groups.last() == l);
        if l@.len() > 1 {
            let bt = big_groups(t);
            assert(big_groups(groups) == bt.push(l));
            assert(bt.push(l).drop_last() =~= bt);
            assert(bt.push(l).last() == l);
            assert(capped_sum(bt.push(l)) == capped_sum(bt).add(capped(l@).to_multiset()));
            assert(marked_ids(groups) == marked_ids(t) + capped(l@));
            vstd::seq_lib::lemma_multiset_commutative(marked_ids(t), capped(l@));
        } else {
            assert(big_groups(groups) == big_groups(t));
            assert(marked_ids(groups) =~= marked_ids(t));
        }
    }
}

proof fn lemma_similar_chunk_ids(g: Seq<FileRecord>, c: Seq<FileRecord>, p: Preferences)
    requires
        similar_chunk_ok(g, c, p),
    ensures
        crate::dupes::ids_of(c).to_multiset() =~= crate::dupes::ids_of(g).to_multiset(),
{
    let cp = choose|cp: Seq<FileRecord>| copies(g, cp) && sorted_marked(cp, c, p, Algorithm::SimilarAudio);
    let sorted = crate::order::sorted_for_keeping(p, cp);
    crate::order::lemma_sorted_for_keeping_perm(p, cp);
    crate::dupes::lemma_ids_same(sorted, c);
    crate::dupes::lemma_ids_perm(sorted, cp);
    crate::dupes::lemma_ids_same(g, cp);
}

proof fn lemma_chunks_sum(sc: Seq<Seq<FileRecord>>, big: Seq<Vec<usize>>)
    requires
        sc.len() == big.len(),
        forall|j: int|
            0 <= j < sc.len() ==> crate::dupes::ids_of(#[trigger] sc[j]).to_multiset() == capped(
                big[j]@,
            ).to_multiset(),
    ensures
        crate::dupes::id_sum(sc) == capped_sum(big),
    decreases sc.len(),
{
    if sc.len() > 0 {
        lemma_chunks_sum(sc.drop_last(), big.drop_last());
        assert(crate::dupes::ids_of(sc.last()).to_multiset() == capped(big.last()@).to_multiset());
    }
}

proof fn lemma_filter_filter(s: Seq<FileRecord>, f: spec_fn(FileRecord) -> bool, g: spec_fn(FileRecord) -> bool)
    ensures
        s.filter(f).filter(g) == s.filter(|r: FileRecord| f(r) && g(r)),
    decreases s.len(),
{
    reveal_with_fuel(Seq::filter, 1);
    if s.len() > 0 {
        lemma_filter_filter(s.drop_last(), f, g);
        let x = s.last();
        if f(x) {
            assert(s.filter(f) == s.drop_last().filter(f).push(x));
            assert(s.filter(f).drop_last() =~= s.drop_last().filter(f));
        } else {
            assert(s.filter(f) == s.drop_last().filter(f));
        }
    }
}

proof fn lemma_no_dup_multiset(a: Seq<usize>, b: Seq<usize>)
    requires
        a.no_duplicates(),
        b.no_duplicates(),
        forall|x: usize| a.contains(x) <==> b.contains(x),
    ensures
        a.to_multiset() =~= b.to_multiset(),
{
    broadcast use vstd::seq_lib::group_to_multiset_ensures, vstd::multiset::group_multiset_axioms;

    a.lemma_multiset_has_no_duplicates();
    b.lemma_multiset_has_no_duplicates();
    assert forall|x: usize| a.to_multiset().count(x) == b.to_multiset().count(x) by {
        if a.contains(x) {
            assert(a.to_multiset().contains(x));
            assert(b.to_multiset().contains(x));
        } else {
            assert(!b.contains(x));
        }
    }
}

/// Law: where the records have distinct identifiers and the similarity
/// groups mark each identifier at most once, and only identifiers of
/// records with a Chromaprint fingerprint, the similar-audio search loses
/// no record and adds none: the records it gives back carry the ids of the
/// records searched, each as often as before.
pub proof fn lemma_similar_match_keeps_records(
    s: Seq<FileRecord>,
    groups: Seq<Vec<usize>>,
    out: Seq<FileRecord>,
    p: Preferences,
    e: Enabled,
)
    requires
        similar_marked(s, groups, out, p, e),
        ids_unique(s),
        marked_ids(groups).no_duplicates(),
        forall|x: usize|
            marked_ids(groups).contains(x) ==> exists|k: int|
                0 <= k < s.len() && (#[trigger] s[k]).id == x && is_chromaprint(s[k]),
    ensures
        crate::dupes::ids_of(out).to_multiset() =~= crate::dupes::ids_of(s).to_multiset(),
{
    broadcast use vstd::seq_lib::group_to_multiset_ensures, vstd::multiset::group_multiset_axioms;

    let fp = |r: FileRecord| is_pcm_hash(r);
    let m = marked_ids(groups);
    let fm = |r: FileRecord| m.contains(r.id);
    let np = |r: FileRecord| !similar_processed(s, groups, r.id);
    let pcm = s.filter(fp);
    let gs = groups_of(pcm, p, e, GroupBy::Fingerprint);
    let big = big_groups(groups);
    let (pc, sc, tail) = choose|pc: Seq<Seq<FileRecord>>, sc: Seq<Seq<FileRecord>>, tail: Seq<FileRecord>|
        #![trigger pc.flatten(), sc.flatten(), tail.len()]
        {
            &&& pc.len() == gs.len()
            &&& sc.len() == big.len()
            &&& out == pc.flatten() + sc.flatten() + tail
            &&& copies(s.filter(np), tail)
            &&& forall|j: int| 0 <= j < pc.len() ==> wave_chunk_ok(#[trigger] gs[j], pc[j], p)
            &&& forall|j: int|
                0 <= j < sc.len() ==> similar_chunk_ok(group_found(s, capped(big[j]@)), #[trigger] sc[j], p)
        };
    // the PCM-hashed records
    assert forall|j: int| 0 <= j < pc.len() implies ids_of(#[trigger] pc[j]).to_multiset() == ids_of(gs[j]).to_multiset() by {
        crate::waves::lemma_wave_chunk_ids(gs[j], pc[j], p);
    }
    crate::dupes::lemma_id_sum_pointwise(pc, gs);
    crate::dupes::lemma_flatten_ids(pc);
    crate::dupes::lemma_flatten_ids(gs);
    crate::dupes::lemma_groups_partition(pcm, p, e, GroupBy::Fingerprint);
    crate::dupes::lemma_flatten_msum(gs);
    crate::dupes::lemma_ids_perm(gs.flatten(), pcm);
    // the marked members of the similarity groups
    assert forall|j: int| 0 <= j < sc.len() implies ids_of(#[trigger] sc[j]).to_multiset() == capped(
        big[j]@,
    ).to_multiset() by {
        let gid = capped(big[j]@);
        assert(big.contains(big[j]));
        groups.lemma_filter_contains_rev(|g: Vec<usize>| g@.len() > 1, big[j]);
        let gi = choose|gi: int| 0 <= gi < groups.len() && groups[gi] == big[j];
        assert forall|x: usize| gid.contains(x) implies exists|k: int| 0 <= k < s.len() && (#[trigger] s[k]).id == x by {
            lemma_marked_contains(groups, x);
            assert(groups[gi]@.len() > 1 && capped(groups[gi]@).contains(x));
            assert(m.contains(x));
        }
        lemma_group_found_ids(s, gid);
        lemma_similar_chunk_ids(group_found(s, gid), sc[j], p);
    }
    lemma_chunks_sum(sc, big);
    crate::dupes::lemma_flatten_ids(sc);
    lemma_marked_sum(groups);
    // the records passed through
    crate::dupes::lemma_ids_same(s.filter(np), tail);
    let nfp = |r: FileRecord| !fp(r);
    let nfm = |r: FileRecord| !fm(r);
    let rest = s.filter(nfp);
    lemma_filter_filter(s, nfp, nfm);
    assert forall|i: int| 0 <= i < s.len() implies (|r: FileRecord| nfp(r) && nfm(r))(#[trigger] s[i]) == np(s[i]) by {
        let r = s[i];
        lemma_first_of_unique(s, i);
        lemma_marked_contains(groups, r.id);
        if pcm_id(s, r.id) {
            let k = choose|k: int| 0 <= k < s.len() && is_pcm_hash(#[trigger] s[k]) && s[k].id == r.id;
            if k != i {
                if k < i {
                    assert(s[k].id != s[i].id);
                } else {
                    assert(s[i].id != s[k].id);
                }
            }
        }
        if is_pcm_hash(r) {
            assert(pcm_id(s, r.id));
        }
        if m.contains(r.id) {
            let g = choose|g: int| 0 <= g < groups.len() && (#[trigger] groups[g])@.len() > 1 && capped(groups[g]@).contains(r.id);
            assert(in_big_group(s, groups, groups.len() as int, r.id));
        }
    }
    crate::waves::lemma_filter_same(s, |r: FileRecord| nfp(r) && nfm(r), np);
    // the split of the records
    crate::waves::lemma_filter_split_ids(s, fp);
    assert(s.filter(|r: FileRecord| !fp(r)) == rest);
    crate::waves::lemma_filter_split_ids(rest, fm);
    assert(rest.filter(|r: FileRecord| !fm(r)) == rest.filter(nfm));
    let chosen = rest.filter(fm);
    lemma_filter_unique(s, nfp);
    lemma_filter_unique(rest, fm);
    assert(ids_of(chosen).no_duplicates()) by {
        assert forall|a: int, b: int| 0 <= a < ids_of(chosen).len() && 0 <= b < ids_of(chosen).len() && a != b implies ids_of(
            chosen,
        )[a] != ids_of(chosen)[b] by {
            if a < b {
                assert(chosen[a].id != chosen[b].id);
            } else {
                assert(chosen[b].id != chosen[a].id);
            }
        }
    }
    assert forall|x: usize| ids_of(chosen).contains(x) <==> m.contains(x) by {
        if ids_of(chosen).contains(x) {
            let w = choose|w: int| 0 <= w < ids_of(chosen).len() && ids_of(chosen)[w] == x;
            assert(chosen.contains(chosen[w]));
            rest.lemma_filter_contains_rev(fm, chosen[w]);
        }
        if m.contains(x) {
            let k = choose|k: int| 0 <= k < s.len() && (#[trigger] s[k]).id == x && is_chromaprint(s[k]);
            assert(!is_pcm_hash(s[k]));
            s.lemma_filter_contains(nfp, k);
            assert(rest.contains(s[k]));
            let kr = choose|kr: int| 0 <= kr < rest.len() && rest[kr] == s[k];
            rest.lemma_filter_contains(fm, kr);
            assert(chosen.contains(s[k]));
            let kc = choose|kc: int| 0 <= kc < chosen.len() && chosen[kc] == s[k];
            assert(ids_of(chosen)[kc] == x);
        }
    }
    lemma_no_dup_multiset(ids_of(chosen), m);
    assert(ids_of(out) =~= ids_of(pc.flatten()) + ids_of(sc.flatten()) + ids_of(tail));
    vstd::seq_lib::lemma_multiset_commutative(ids_of(pc.flatten()) + ids_of(sc.flatten()), ids_of(tail));
    vstd::seq_lib::lemma_multiset_commutative(ids_of(pc.flatten()), ids_of(sc.flatten()));
}

proof fn lemma_filter_unique(s: Seq<FileRecord>, f: spec_fn(FileRecord) -> bool)
    requires
        ids_unique(s),
    ensures
        ids_unique(s.filter(f)),
    decreases s.len(),
{
    reveal_with_fuel(Seq::filter, 1);
    if s.len() > 0 {
        let t = s.drop_last();
        let x = s.last();
        assert(ids_unique(t)) by {
            assert forall|i: int, j: int| 0 <= i < j < t.len() implies (#[trigger] t[i]).id != (#[trigger] t[j]).id by {
                assert(t[i] == s[i] && t[j] == s[j]);
            }
        }
        lemma_filter_unique(t, f);
        if f(x) {
            let u = t.filter(f);
            let v = u.push(x);
            assert(s.filter(f) == v);
            assert forall|i: int, j: int| 0 <= i < j < v.len() implies (#[trigger] v[i]).id != (#[trigger] v[j]).id by {
                if j == u.len() {
                    assert(u.contains(u[i]));
                    t.lemma_filter_contains_rev(f, u[i]);
                    let k = choose|k: int| 0 <= k < t.len() && t[k] == u[i];
                    assert(s[k] == t[k]);
                    assert(s[k].id != s[s.len() - 1].id);
                } else {
                    assert(v[i] == u[i] && v[j] == u[j]);
                }
            }
        } else {
            assert(s.filter(f) == t.filter(f));
        }
    }
}

/// Law: the similar-audio search keeps one copy of each similarity group it
/// marks: every record of the group is marked `SimilarAudio`, and none but
/// the first keeps `Keep`.
pub proof fn lemma_similar_group_keeps_one(g: Seq<FileRecord>, out: Seq<FileRecord>, p: Preferences)
    requires
        similar_chunk_ok(g, out, p),
    ensures
        forall|i: int| 0 <= i < out.len() ==> (#[trigger] out[i]).algorithm@.contains(Algorithm::SimilarAudio),
        forall|i: int| 0 < i < out.len() ==> !(#[trigger] out[i]).algorithm@.contains(Algorithm::Keep),
{
    let c = choose|c: Seq<FileRecord>| copies(g, c) && sorted_marked(c, out, p, Algorithm::SimilarAudio);
    crate::waves::lemma_one_copy_kept(c, out, p, Algorithm::SimilarAudio);
}

} // verus!
