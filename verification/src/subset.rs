use vstd::prelude::*;
use crate::dupes::same_but_marks;
use crate::marks::Algorithm;
use crate::records::FileRecord;
use crate::waves::copy_record;

verus! {

/// The pattern that two neighbouring words of a fingerprint make: the bits
/// they share.
pub open spec fn pair_pattern(fp: Seq<u32>, i: int) -> u32 {
    fp[i] & fp[i + 1]
}

/// The patterns of all neighbouring pairs of a fingerprint, in order.
pub open spec fn pair_patterns(fp: Seq<u32>) -> Seq<u32> {
    if fp.len() < 2 {
        Seq::empty()
    } else {
        Seq::new((fp.len() - 1) as nat, |i: int| pair_pattern(fp, i))
    }
}

/// The number of the first `n` neighbouring pairs of `long` whose pattern is
/// one of `patterns`.
pub open spec fn pattern_hits(patterns: Seq<u32>, long: Seq<u32>, n: int) -> nat
    decreases n,
{
    if n <= 0 {
        0
    } else {
        pattern_hits(patterns, long, n - 1) + if patterns.contains(pair_pattern(long, n - 1)) {
            1nat
        } else {
            0nat
        }
    }
}

/// How well a very short fingerprint is found in a longer one: the number of
/// neighbouring pairs of `long_fp` whose shared bits are those of some pair of
/// `short_fp`, and the number of pairs of `short_fp`.
pub fn feature_matches(short_fp: &[u32], long_fp: &[u32]) -> (r: (usize, usize))
    ensures
        r.0 == pattern_hits(pair_patterns(short_fp@), long_fp@, if long_fp@.len() < 2 {
            0
        } else {
            long_fp@.len() - 1
        }),
        r.1 == pair_patterns(short_fp@).len(),
{
    let mut patterns: Vec<u32> = Vec::new();
    let mut i: usize = 0;
    while i + 1 < short_fp.len()
        invariant
            0 <= i,
            i + 1 <= short_fp.len() || i == 0,
            patterns@.len() == i,
            forall|j: int| 0 <= j < i ==> patterns@[j] == pair_pattern(short_fp@, j),
        decreases short_fp.len() - i,
    {
        patterns.push(short_fp[i] & short_fp[i + 1]);
        i = i + 1;
    }
    assert(patterns@ =~= pair_patterns(short_fp@));
    let ghost ps = pair_patterns(short_fp@);
    let n: usize = if long_fp.len() < 2 {
        0
    } else {
        long_fp.len() - 1
    };
    let mut hits: usize = 0;
    let mut k: usize = 0;
    while k < n
        invariant
            0 <= k <= n,
            n + 1 <= long_fp.len() || n == 0,
            patterns@ == ps,
            hits == pattern_hits(ps, long_fp@, k as int),
            hits <= k,
        decreases n - k,
    {
        let pattern = long_fp[k] & long_fp[k + 1];
        let mut found = false;
        let mut j: usize = 0;
        while j < patterns.len()
            invariant
                0 <= j <= patterns.len(),
                !found ==> forall|w: int| 0 <= w < j ==> patterns@[w] != pattern,
                found ==> ps.contains(pattern),
                patterns@ == ps,
            decreases patterns.len() - j,
        {
            if patterns[j] == pattern {
                assert(ps[j as int] == pattern);
                found = true;
            }
            j = j + 1;
        }
        assert(pattern == pair_pattern(long_fp@, k as int));
        if found {
            hits = hits + 1;
        }
        k = k + 1;
    }
    (hits, patterns.len())
}

/// Whether `links` links each of `n` records either to nothing, the record
/// then heading a family of its own, or to an earlier record that heads one.
pub open spec fn links_ok(n: int, links: Seq<Option<usize>>) -> bool {
    &&& links.len() == n
    &&& forall|i: int|
        0 <= i < n ==> (#[trigger] links[i] matches Some(k) ==> k < i && links[k as int] is None)
}

/// Whether record `k` heads a family with at least one other record in it.
pub open spec fn has_child(links: Seq<Option<usize>>, k: int) -> bool {
    exists|i: int| 0 <= i < links.len() && #[trigger] links[i] == Some(k as usize)
}

/// The marks that the subset search gives record `i`: a record linked to
/// another is marked `Waveforms` and loses `Keep`; a record that heads a
/// family with others in it is marked `Waveforms` and `Keep`; any other
/// keeps its marks.
pub open spec fn subset_mark(s: Seq<FileRecord>, links: Seq<Option<usize>>, i: int) -> Set<Algorithm> {
    match links[i] {
        Some(_) => s[i].algorithm@.insert(Algorithm::Waveforms).remove(Algorithm::Keep),
        None => if has_child(links, i) {
            s[i].algorithm@.insert(Algorithm::Waveforms).insert(Algorithm::Keep)
        } else {
            s[i].algorithm@
        },
    }
}

/// The positions among the first `n` records that are linked to record `k`,
/// in order.
pub open spec fn children(links: Seq<Option<usize>>, k: int, n: int) -> Seq<int>
    decreases n,
{
    if n <= 0 {
        Seq::empty()
    } else {
        let c = children(links, k, n - 1);
        if links[n - 1] == Some(k as usize) {
            c.push(n - 1)
        } else {
            c
        }
    }
}

/// The order in which the subset search gives back the first `n` heads of
/// families: each head followed by the records linked to it.
pub open spec fn subset_order(links: Seq<Option<usize>>, n: int) -> Seq<int>
    decreases n,
{
    if n <= 0 {
        Seq::empty()
    } else {
        let o = subset_order(links, n - 1);
        if links[n - 1] is None {
            o + seq![n - 1] + children(links, n - 1, links.len() as int)
        } else {
            o
        }
    }
}

/// Whether `out` is what the subset search gives for records `s` with the
/// families `links`: the records in the subset order, with their marks.
pub open spec fn subset_marked(s: Seq<FileRecord>, links: Seq<Option<usize>>, out: Seq<FileRecord>) -> bool {
    let order = subset_order(links, s.len() as int);
    &&& out.len() == order.len()
    &&& forall|j: int| 0 <= j < order.len() ==> 0 <= #[trigger] order[j] < s.len()
    &&& forall|j: int| 0 <= j < order.len() ==> same_but_marks(s[order[j]], #[trigger] out[j])
    &&& forall|j: int|
        0 <= j < order.len() ==> (#[trigger] out[j]).algorithm@ == subset_mark(s, links, order[j])
}

fn heads_family(links: &Vec<Option<usize>>, k: usize) -> (b: bool)
    ensures
        b == has_child(links@, k as int),
{
    let mut i: usize = 0;
    while i < links.len()
        invariant
            0 <= i <= links.len(),
            forall|j: int| 0 <= j < i ==> links@[j] != Some(k),
        decreases links.len() - i,
    {
        if links[i] == Some(k) {
            assert(links@[i as int] == Some(k));
            return true;
        }
        i = i + 1;
    }
    false
}

fn marked_copy(records: &Vec<FileRecord>, links: &Vec<Option<usize>>, i: usize) -> (c: FileRecord)
    requires
        i < records.len(),
        links@.len() == records@.len(),
    ensures
        same_but_marks(records@[i as int], c),
        c.algorithm@ == subset_mark(records@, links@, i as int),
{
    let mut c = copy_record(&records[i]);
    match links[i] {
        Some(_) => {
            c.algorithm.insert(Algorithm::Waveforms);
            c.algorithm.remove(Algorithm::Keep);
        },
        None => {
            if heads_family(links, i) {
                c.algorithm.insert(Algorithm::Waveforms);
                c.algorithm.insert(Algorithm::Keep);
            }
        },
    }
    c
}

/// Orders and marks records after the subset search: `links[i]` is the
/// position of the earlier record whose audio holds that of record `i`, or
/// nothing where none does. Each record that no other holds comes out
/// followed by the records linked to it; a linked record is marked
/// `Waveforms` and loses `Keep`, and a record with records linked to it is
/// marked `Waveforms` and `Keep`.
pub fn subset_match(records: &mut Vec<FileRecord>, links: &Vec<Option<usize>>)
    requires
        links_ok(old(records)@.len() as int, links@),
    ensures
        subset_marked(old(records)@, links@, final(records)@),
{
    let ghost s = records@;
    let ghost ls = links@;
    let n = records.len();
    let mut out: Vec<FileRecord> = Vec::new();
    let mut k: usize = 0;
    while k < n
        invariant
            0 <= k <= n,
            n == s.len(),
            records@ == s,
            links@ == ls,
            links_ok(n as int, ls),
            out@.len() == subset_order(ls, k as int).len(),
            forall|j: int| 0 <= j < out@.len() ==> 0 <= #[trigger] subset_order(ls, k as int)[j] < n,
            forall|j: int|
                0 <= j < out@.len() ==> same_but_marks(
                    s[subset_order(ls, k as int)[j]],
                    #[trigger] out@[j],
                ),
            forall|j: int|
                0 <= j < out@.len() ==> (#[trigger] out@[j]).algorithm@ == subset_mark(
                    s,
                    ls,
                    subset_order(ls, k as int)[j],
                ),
        decreases n - k,
    {
        let ghost o = subset_order(ls, k as int);
        let ghost before = out@;
        assert(subset_order(ls, k + 1) == if ls[k as int] is None {
            o + seq![k as int] + children(ls, k as int, n as int)
        } else {
            o
        });
        if links[k].is_none() {
            let head = marked_copy(records, links, k);
            out.push(head);
            let mut i: usize = 0;
            while i < n
                invariant
                    0 <= i <= n,
                    k < n,
                    n == s.len(),
                    records@ == s,
                    links@ == ls,
                    links_ok(n as int, ls),
                    out@.len() == o.len() + 1 + children(ls, k as int, i as int).len(),
                    out@.take(o.len() + 1int) == before.push(head),
                    forall|j: int|
                        0 <= j < children(ls, k as int, i as int).len() ==> 0 <= #[trigger] children(
                            ls,
                            k as int,
                            i as int,
                        )[j] < i,
                    forall|j: int|
                        0 <= j < children(ls, k as int, i as int).len() ==> same_but_marks(
                            s[children(ls, k as int, i as int)[j]],
                            #[trigger] out@[o.len() + 1 + j],
                        ),
                    forall|j: int|
                        0 <= j < children(ls, k as int, i as int).len() ==> (#[trigger] out@[o.len()
                            + 1 + j]).algorithm@ == subset_mark(
                            s,
                            ls,
                            children(ls, k as int, i as int)[j],
                        ),
                decreases n - i,
            {
                let ghost c0 = children(ls, k as int, i as int);
                let ghost ob = out@;
                if links[i] == Some(k) {
                    let child = marked_copy(records, links, i);
                    out.push(child);
                    proof {
                        assert(children(ls, k as int, i + 1) == c0.push(i as int));
                        assert(out@.take(o.len() + 1int) =~= ob.take(o.len() + 1int));
                        assert forall|j: int| 0 <= j < c0.len() + 1 implies same_but_marks(
                            s[c0.push(i as int)[j]],
                            #[trigger] out@[o.len() + 1 + j],
                        ) && out@[o.len() + 1 + j].algorithm@ == subset_mark(s, ls, c0.push(i as int)[j]) by {
                            if j < c0.len() {
                                assert(out@[o.len() + 1 + j] == ob[o.len() + 1 + j]);
                            }
                        }
                    }
                } else {
                    assert(children(ls, k as int, i + 1) == c0);
                }
                i = i + 1;
            }
            proof {
                let c = children(ls, k as int, n as int);
                let o1 = o + seq![k as int] + c;
                assert forall|j: int| 0 <= j < out@.len() implies 0 <= #[trigger] o1[j] < n
                    && same_but_marks(s[o1[j]], out@[j]) && out@[j].algorithm@ == subset_mark(s, ls, o1[j]) by {
                    if j < o.len() {
                        assert(o1[j] == o[j]);
                        assert(out@[j] == out@.take(o.len() + 1int)[j]);
                        assert(out@[j] == before[j]);
                    } else if j == o.len() {
                        assert(o1[j] == k);
                        assert(out@[j] == out@.take(o.len() + 1int)[j]);
                    } else {
                        let w = j - o.len() - 1;
                        assert(o1[j] == c[w]);
                        assert(out@[o.len() + 1 + w] == out@[j]);
                    }
                }
            }
        }
        k = k + 1;
    }
    *records = out;
}

proof fn lemma_children(links: Seq<Option<usize>>, k: int, n: int)
    requires
        0 <= n <= links.len(),
    ensures
        children(links, k, n).no_duplicates(),
        forall|x: int| #[trigger] children(links, k, n).contains(x) <==> 0 <= x < n && links[x] == Some(k as usize),
    decreases n,
{
    if n > 0 {
        lemma_children(links, k, n - 1);
        let c = children(links, k, n - 1);
        if links[n - 1] == Some(k as usize) {
            let c1 = c.push(n - 1);
            assert(!c.contains(n - 1));
            assert forall|x: int| c1.contains(x) <==> 0 <= x < n && links[x] == Some(k as usize) by {
                if c1.contains(x) && x != n - 1 {
                    let w = choose|w: int| 0 <= w < c1.len() && c1[w] == x;
                    assert(c[w] == x);
                }
                if c.contains(x) {
                    let w = choose|w: int| 0 <= w < c.len() && c[w] == x;
                    assert(c1[w] == x);
                }
                if x == n - 1 {
                    assert(c1[c.len() as int] == x);
                }
            }
            assert forall|i: int, j: int| 0 <= i < c1.len() && 0 <= j < c1.len() && i != j implies c1[i] != c1[j] by {
                if i < c.len() && j < c.len() {
                    assert(c1[i] == c[i] && c1[j] == c[j]);
                } else if i < c.len() {
                    assert(c1[i] == c[i]);
                    assert(c.contains(c[i]));
                } else if j < c.len() {
                    assert(c1[j] == c[j]);
                    assert(c.contains(c[j]));
                }
            }
        }
    }
}

proof fn lemma_subset_order(links: Seq<Option<usize>>, m: int)
    requires
        links_ok(links.len() as int, links),
        links.len() <= usize::MAX,
        0 <= m <= links.len(),
    ensures
        subset_order(links, m).no_duplicates(),
        forall|x: int|
            subset_order(links, m).contains(x) <==> 0 <= x < links.len() && (match links[x] {
                Some(k) => k < m,
                None => x < m,
            }),
    decreases m,
{
    let n = links.len() as int;
    if m > 0 {
        lemma_subset_order(links, m - 1);
        let o = subset_order(links, m - 1);
        if links[m - 1] is None {
            let c = children(links, m - 1, n);
            lemma_children(links, m - 1, n);
            let o1 = o + seq![m - 1] + c;
            assert(subset_order(links, m) == o1);
            assert forall|x: int|
                o1.contains(x) <==> 0 <= x < n && (match links[x] {
                    Some(k) => k < m,
                    None => x < m,
                }) by {
                if o1.contains(x) {
                    let w = choose|w: int| 0 <= w < o1.len() && o1[w] == x;
                    if w < o.len() {
                        assert(o[w] == x);
                        assert(o.contains(x));
                    } else if w > o.len() {
                        assert(c[w - o.len() - 1] == x);
                        assert(c.contains(x));
                    }
                }
                if 0 <= x < n && (match links[x] {
                    Some(k) => k < m,
                    None => x < m,
                }) {
                    if o.contains(x) {
                        let w = choose|w: int| 0 <= w < o.len() && o[w] == x;
                        assert(o1[w] == x);
                    } else if x == m - 1 {
                        assert(o1[o.len() as int] == x);
                    } else {
                        assert(links[x] == Some((m - 1) as usize));
                        assert(c.contains(x));
                        let w = choose|w: int| 0 <= w < c.len() && c[w] == x;
                        assert(o1[o.len() + 1 + w] == x);
                    }
                }
            }
            assert forall|i: int, j: int| 0 <= i < o1.len() && 0 <= j < o1.len() && i != j implies o1[i]
                != o1[j] by {
                let ol = o.len() as int;
                if i < ol && j < ol {
                    assert(o1[i] == o[i] && o1[j] == o[j]);
                } else if i > ol && j > ol {
                    assert(o1[i] == c[i - ol - 1] && o1[j] == c[j - ol - 1]);
                } else {
                    let (p, q) = if i < j {
                        (i, j)
                    } else {
                        (j, i)
                    };
                    let a = o1[p];
                    let b = o1[q];
                    if p < ol {
                        assert(a == o[p]);
                        assert(o.contains(a));
                        assert(0 <= a < n && (match links[a] {
                            Some(k) => k < m - 1,
                            None => a < m - 1,
                        }));
                        if q == ol {
                            assert(b == m - 1);
                            assert(links[m - 1] is None);
                        } else {
                            assert(b == c[q - ol - 1]);
                            assert(c.contains(b));
                            assert(0 <= b < n && links[b] == Some((m - 1) as usize));
                        }
                    } else {
                        assert(p == ol);
                        assert(a == m - 1);
                        assert(b == c[q - ol - 1]);
                        assert(c.contains(b));
                        assert(0 <= b < n && links[b] == Some((m - 1) as usize));
                    }
                    assert(a != b);
                }
            }
        }
    }
}

/// Law: the subset search gives back every record exactly once: the order
/// in which it puts the records holds each position once and no other.
pub proof fn lemma_subset_order_complete(links: Seq<Option<usize>>)
    requires
        links_ok(links.len() as int, links),
        links.len() <= usize::MAX,
    ensures
        subset_order(links, links.len() as int).no_duplicates(),
        forall|x: int| subset_order(links, links.len() as int).contains(x) <==> 0 <= x < links.len(),
        subset_order(links, links.len() as int).len() == links.len(),
{
    let n = links.len() as int;
    let o = subset_order(links, n);
    lemma_subset_order(links, n);
    assert forall|x: int| o.contains(x) <==> 0 <= x < n by {
        if 0 <= x < n {
            if let Some(k) = links[x] {
                assert(k < x);
            }
        }
    }
    o.unique_seq_to_set();
    assert(o.to_set() =~= vstd::set_lib::set_int_range(0, n));
    vstd::set_lib::lemma_int_range(0, n);
}

} // verus!
