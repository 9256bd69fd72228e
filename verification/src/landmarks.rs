use vstd::prelude::*;

verus! {

/// A peak of a spectrogram: its frame and its frequency bin.
#[derive(Debug, Clone, Copy, PartialEq, Eq, Structural)]
pub struct ConstellationPoint {
    pub time_idx: u32,
    pub freq_idx: u16,
}

/// A window, relative to an anchor point, in which later points are paired
/// with it: a range of frames after it and a range of bins around it.
#[derive(Debug, Clone, Copy, PartialEq, Eq, Structural)]
pub struct TargetZone {
    pub time_offset_min: u32,
    pub time_offset_max: u32,
    pub freq_offset_min: i32,
    pub freq_offset_max: i32,
}

/// The hash of a pair of points: the anchor's bin, the target's bin and the
/// frames between them.
#[derive(Debug, Clone, Copy, PartialEq, Eq, Structural)]
pub struct AudioHash {
    pub anchor_freq: u16,
    pub target_freq: u16,
    pub delta_time: u16,
}

/// A zone of the given frame and bin ranges.
pub open spec fn zone(tmin: u32, tmax: u32, fmin: i32, fmax: i32) -> TargetZone {
    TargetZone { time_offset_min: tmin, time_offset_max: tmax, freq_offset_min: fmin, freq_offset_max: fmax }
}

/// The three zones in which targets are sought: 1 to 3, 3 to 6 and 6 to 10
/// frames after the anchor, each within 30 bins of it.
pub open spec fn target_zones() -> Seq<TargetZone> {
    seq![zone(1, 3, -30i32, 30), zone(3, 6, -30i32, 30), zone(6, 10, -30i32, 30)]
}

/// Whether `t` lies in zone `z` of anchor `a`.
pub open spec fn in_zone(z: TargetZone, a: ConstellationPoint, t: ConstellationPoint) -> bool {
    let dt = t.time_idx - a.time_idx;
    let df = t.freq_idx - a.freq_idx;
    &&& z.time_offset_min <= dt <= z.time_offset_max
    &&& z.freq_offset_min <= df <= z.freq_offset_max
}

/// The hash of anchor `a` and target `t`.
pub open spec fn hash_of(a: ConstellationPoint, t: ConstellationPoint) -> AudioHash {
    AudioHash {
        anchor_freq: a.freq_idx,
        target_freq: t.freq_idx,
        delta_time: (t.time_idx - a.time_idx) as u16,
    }
}

/// The hashes, each with its anchor's frame, that anchor `i` makes in zone
/// `z` with the points after it and before `n`, in order.
pub open spec fn zone_hashes(p: Seq<ConstellationPoint>, i: int, z: TargetZone, n: int) -> Seq<(AudioHash, u32)>
    decreases n - i,
{
    if n <= i + 1 {
        Seq::empty()
    } else {
        let r = zone_hashes(p, i, z, n - 1);
        if in_zone(z, p[i], p[n - 1]) {
            r.push((hash_of(p[i], p[n - 1]), p[i].time_idx))
        } else {
            r
        }
    }
}

/// The hashes that anchor `i` makes in the first `k` zones.
pub open spec fn anchor_hashes(p: Seq<ConstellationPoint>, i: int, k: int) -> Seq<(AudioHash, u32)>
    decreases k,
{
    if k <= 0 {
        Seq::empty()
    } else {
        anchor_hashes(p, i, k - 1) + zone_hashes(p, i, target_zones()[k - 1], p.len() as int)
    }
}

/// The hashes that the first `n` points make as anchors, in order: anchor by
/// anchor, zone by zone, target by target.
pub open spec fn hash_list(p: Seq<ConstellationPoint>, n: int) -> Seq<(AudioHash, u32)>
    decreases n,
{
    if n <= 0 {
        Seq::empty()
    } else {
        hash_list(p, n - 1) + anchor_hashes(p, n - 1, 3)
    }
}

/// The anchor frames listed with hash `h`, in order.
pub open spec fn times_of(list: Seq<(AudioHash, u32)>, h: AudioHash) -> Seq<u32>
    decreases list.len(),
{
    if list.len() == 0 {
        Seq::empty()
    } else {
        let r = times_of(list.drop_last(), h);
        if list.last().0 == h {
            r.push(list.last().1)
        } else {
            r
        }
    }
}

/// Whether `index` has an entry for hash `h`.
pub open spec fn indexed(index: Seq<(AudioHash, Vec<u32>)>, h: AudioHash) -> bool {
    exists|k: int| 0 <= k < index.len() && (#[trigger] index[k]).0 == h
}

/// Whether `list` holds hash `h`.
pub open spec fn listed(list: Seq<(AudioHash, u32)>, h: AudioHash) -> bool {
    exists|e: int| 0 <= e < list.len() && (#[trigger] list[e]).0 == h
}

/// Whether `index` maps each hash of `list` to its anchor frames: one entry
/// per hash, no other.
pub open spec fn indexes(index: Seq<(AudioHash, Vec<u32>)>, list: Seq<(AudioHash, u32)>) -> bool {
    &&& forall|a: int, b: int| 0 <= a < b < index.len() ==> (#[trigger] index[a]).0 != (#[trigger] index[b]).0
    &&& forall|k: int| 0 <= k < index.len() ==> (#[trigger] index[k]).1@ == times_of(list, index[k].0)
    &&& forall|h: AudioHash| #[trigger] indexed(index, h) <==> #[trigger] listed(list, h)
}

/// Whether the points come in order of time.
pub open spec fn time_ordered(p: Seq<ConstellationPoint>) -> bool {
    forall|a: int, b: int| 0 <= a <= b < p.len() ==> (#[trigger] p[a]).time_idx <= (#[trigger] p[b]).time_idx
}

fn zones() -> (r: [TargetZone; 3])
    ensures
        r@ == target_zones(),
{
    let r = [
        TargetZone { time_offset_min: 1, time_offset_max: 3, freq_offset_min: -30, freq_offset_max: 30 },
        TargetZone { time_offset_min: 3, time_offset_max: 6, freq_offset_min: -30, freq_offset_max: 30 },
        TargetZone { time_offset_min: 6, time_offset_max: 10, freq_offset_min: -30, freq_offset_max: 30 },
    ];
    assert(r@ =~= target_zones());
    r
}

fn push_zone_hashes(out: &mut Vec<(AudioHash, u32)>, points: &[ConstellationPoint], i: usize, z: TargetZone)
    requires
        i < points@.len(),
        time_ordered(points@),
    ensures
        final(out)@ == old(out)@ + zone_hashes(points@, i as int, z, points@.len() as int),
{
    let anchor = points[i];
    let mut j: usize = i + 1;
    assert(zone_hashes(points@, i as int, z, j as int) =~= Seq::<(AudioHash, u32)>::empty());
    while j < points.len()
        invariant
            i < j <= points@.len(),
            anchor == points@[i as int],
            time_ordered(points@),
            out@ == old(out)@ + zone_hashes(points@, i as int, z, j as int),
        decreases points.len() - j,
    {
        let target = points[j];
        assert(anchor.time_idx <= target.time_idx);
        let time_delta: u32 = target.time_idx - anchor.time_idx;
        let freq_delta: i32 = target.freq_idx as i32 - anchor.freq_idx as i32;
        if time_delta >= z.time_offset_min && time_delta <= z.time_offset_max && freq_delta
            >= z.freq_offset_min && freq_delta <= z.freq_offset_max {
            let hash = AudioHash {
                anchor_freq: anchor.freq_idx,
                target_freq: target.freq_idx,
                delta_time: time_delta as u16,
            };
            out.push((hash, anchor.time_idx));
        }
        assert(out@ =~= old(out)@ + zone_hashes(points@, i as int, z, j + 1));
        j = j + 1;
    }
}

/// The hashes of a constellation map: each point as an anchor paired with
/// every later point in each of its three target zones. Gives the hashes with
/// their anchors' frames in order, and an index from each hash to the frames
/// of its anchors.
pub fn generate_hashes(points: &[ConstellationPoint]) -> (r: (Vec<(AudioHash, Vec<u32>)>, Vec<(AudioHash, u32)>))
    requires
        time_ordered(points@),
    ensures
        r.1@ == hash_list(points@, points@.len() as int),
        indexes(r.0@, r.1@),
{
    let zs = zones();
    let mut list: Vec<(AudioHash, u32)> = Vec::new();
    let mut i: usize = 0;
    while i < points.len()
        invariant
            0 <= i <= points@.len(),
            time_ordered(points@),
            zs@ == target_zones(),
            list@ == hash_list(points@, i as int),
        decreases points.len() - i,
    {
        let ghost start = list@;
        let mut k: usize = 0;
        assert(anchor_hashes(points@, i as int, 0) =~= Seq::<(AudioHash, u32)>::empty());
        while k < 3
            invariant
                0 <= k <= 3,
                i < points@.len(),
                time_ordered(points@),
                zs@ == target_zones(),
                list@ == start + anchor_hashes(points@, i as int, k as int),
            decreases 3 - k,
        {
            push_zone_hashes(&mut list, points, i, zs[k]);
            assert(list@ =~= start + anchor_hashes(points@, i as int, k + 1));
            k = k + 1;
        }
        i = i + 1;
    }
    let index = index_hashes(&list);
    (index, list)
}

fn find_hash(index: &Vec<(AudioHash, Vec<u32>)>, h: AudioHash) -> (r: Option<usize>)
    ensures
        r matches Some(k) ==> k < index@.len() && index@[k as int].0 == h,
        r is None ==> forall|k: int| 0 <= k < index@.len() ==> (#[trigger] index@[k]).0 != h,
{
    let mut k: usize = 0;
    while k < index.len()
        invariant
            0 <= k <= index@.len(),
            forall|j: int| 0 <= j < k ==> (#[trigger] index@[j]).0 != h,
        decreases index.len() - k,
    {
        if index[k].0 == h {
            return Some(k);
        }
        k = k + 1;
    }
    None
}

/// The index from each hash of `list` to the frames of its anchors, hashes
/// in the order of their first appearance.
fn index_hashes(list: &Vec<(AudioHash, u32)>) -> (index: Vec<(AudioHash, Vec<u32>)>)
    ensures
        indexes(index@, list@),
{
    let mut index: Vec<(AudioHash, Vec<u32>)> = Vec::new();
    let mut m: usize = 0;
    assert(list@.take(0) =~= Seq::<(AudioHash, u32)>::empty());
    while m < list.len()
        invariant
            0 <= m <= list@.len(),
            indexes(index@, list@.take(m as int)),
        decreases list.len() - m,
    {
        let (h, t) = list[m];
        let ghost before = index@;
        let ghost pre = list@.take(m as int);
        let ghost post = list@.take(m + 1);
        assert(post.drop_last() =~= pre);
        assert(post.last() == (h, t));
        assert(indexes(before, pre));
        assert(forall|g: AudioHash| #[trigger] indexed(before, g) <==> #[trigger] listed(pre, g));
        match find_hash(&index, h) {
            Some(k) => {
                index[k].1.push(t);
                proof {
                    assert forall|j: int| 0 <= j < index@.len() implies (#[trigger] index@[j]).1@ == times_of(
                        post,
                        index@[j].0,
                    ) by {
                        if j != k {
                            assert(index@[j] == before[j]);
                        }
                    }
                    assert forall|g: AudioHash| #[trigger] indexed(index@, g) <==> #[trigger] listed(post, g) by {
                        if exists|j: int| 0 <= j < index@.len() && (#[trigger] index@[j]).0 == g {
                            let j = choose|j: int| 0 <= j < index@.len() && (#[trigger] index@[j]).0 == g;
                            assert(index@.len() == before.len());
                            assert(before[j].0 == g);
                            assert(indexed(before, g));
                            assert(listed(pre, g));
                            let e = choose|e: int| 0 <= e < pre.len() && (#[trigger] pre[e]).0 == g;
                            assert(post[e] == pre[e]);
                            assert(listed(post, g));
                        }
                        if exists|e: int| 0 <= e < post.len() && (#[trigger] post[e]).0 == g {
                            let e = choose|e: int| 0 <= e < post.len() && (#[trigger] post[e]).0 == g;
                            if e < pre.len() {
                                assert(pre[e] == post[e]);
                                assert(listed(pre, g));
                                assert(indexed(before, g));
                                let j = choose|j: int| 0 <= j < before.len() && (#[trigger] before[j]).0 == g;
                                assert(index@[j].0 == g);
                            } else {
                                assert(index@[k as int].0 == g);
                            }
                            assert(indexed(index@, g));
                        }
                    }
                }
            },
            None => {
                let mut v: Vec<u32> = Vec::new();
                v.push(t);
                index.push((h, v));
                proof {
                    assert(!indexed(before, h));
                    assert(!listed(pre, h));
                    assert(times_of(pre, h) =~= Seq::<u32>::empty()) by {
                        assert forall|e: int| 0 <= e < pre.len() implies (#[trigger] pre[e]).0 != h by {
                            if pre[e].0 == h {
                                assert(listed(pre, h));
                            }
                        }
                        lemma_times_of_absent(pre, h);
                    }
                    assert forall|j: int| 0 <= j < index@.len() implies (#[trigger] index@[j]).1@ == times_of(
                        post,
                        index@[j].0,
                    ) by {
                        if j < before.len() {
                            assert(index@[j] == before[j]);
                        }
                    }
                    assert forall|g: AudioHash| #[trigger] indexed(index@, g) <==> #[trigger] listed(post, g) by {
                        if exists|j: int| 0 <= j < index@.len() && (#[trigger] index@[j]).0 == g {
                            let j = choose|j: int| 0 <= j < index@.len() && (#[trigger] index@[j]).0 == g;
                            if j < before.len() {
                                assert(before[j].0 == g);
                                assert(indexed(before, g));
                                assert(listed(pre, g));
                                let e = choose|e: int| 0 <= e < pre.len() && (#[trigger] pre[e]).0 == g;
                                assert(post[e] == pre[e]);
                            } else {
                                assert(post[m as int].0 == g);
                            }
                            assert(listed(post, g));
                        }
                        if exists|e: int| 0 <= e < post.len() && (#[trigger] post[e]).0 == g {
                            let e = choose|e: int| 0 <= e < post.len() && (#[trigger] post[e]).0 == g;
                            if e < pre.len() {
                                assert(pre[e] == post[e]);
                                assert(listed(pre, g));
                                assert(indexed(before, g));
                                let j = choose|j: int| 0 <= j < before.len() && (#[trigger] before[j]).0 == g;
                                assert(index@[j].0 == g);
                            } else {
                                assert(index@[before.len() as int].0 == g);
                            }
                            assert(indexed(index@, g));
                        }
                    }
                }
            },
        }
        m = m + 1;
    }
    assert(list@.take(m as int) =~= list@);
    index
}

proof fn lemma_times_of_absent(list: Seq<(AudioHash, u32)>, h: AudioHash)
    requires
        forall|e: int| 0 <= e < list.len() ==> (#[trigger] list[e]).0 != h,
    ensures
        times_of(list, h) == Seq::<u32>::empty(),
    decreases list.len(),
{
    if list.len() > 0 {
        assert forall|e: int| 0 <= e < list.drop_last().len() implies (#[trigger] list.drop_last()[e]).0 != h by {
            assert(list.drop_last()[e] == list[e]);
        }
        lemma_times_of_absent(list.drop_last(), h);
        assert(list.last() == list[list.len() - 1]);
    }
}

} // verus!
