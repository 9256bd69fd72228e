use vstd::prelude::*;
use base64::Engine;
use vstd::utf8::encode_utf8;
use crate::bytes::{le32, read_le32};

verus! {

/// The features of one pair of neighbouring fingerprint words: the low half
/// of the first XOR the high half of the second.
pub open spec fn pair_feature(a: u32, b: u32) -> u16 {
    ((a & 0xFFFF) ^ (b >> 16)) as u16
}

/// The feature of a window of four words: the low byte of the first and the
/// low byte of the last.
pub open spec fn wide_feature(a: u32, d: u32) -> u16 {
    ((a & 0xFF) | ((d & 0xFF) << 8)) as u16
}

/// The features of a fingerprint: one for each pair of neighbouring words,
/// then, when it has at least four words, one for each window of four.
pub open spec fn features(fp: Seq<u32>) -> Seq<u16> {
    if fp.len() < 2 {
        seq![]
    } else {
        Seq::new((fp.len() - 1) as nat, |i: int| pair_feature(fp[i], fp[i + 1])) + if fp.len()
            >= 4 {
            Seq::new((fp.len() - 3) as nat, |i: int| wide_feature(fp[i], fp[i + 3]))
        } else {
            seq![]
        }
    }
}

/// Extracts the features of a fingerprint.
pub fn extract_features(fp: &[u32]) -> (r: Vec<u16>)
    ensures
        r@ == features(fp@),
{
    let mut features_v: Vec<u16> = Vec::new();
    if fp.len() < 2 {
        assert(features_v@ =~= features(fp@));
        return features_v;
    }
    let mut i: usize = 0;
    while i + 1 < fp.len()
        invariant
            fp.len() >= 2,
            0 <= i <= fp.len() - 1,
            features_v@ =~= Seq::new(i as nat, |k: int| pair_feature(fp@[k], fp@[k + 1])),
        decreases fp.len() - i,
    {
        let f = ((fp[i] & 0xFFFF) ^ (fp[i + 1] >> 16)) as u16;
        features_v.push(f);
        i = i + 1;
    }
    let ghost pairs = features_v@;
    if fp.len() >= 4 {
        let mut j: usize = 0;
        while j + 3 < fp.len()
            invariant
                fp.len() >= 4,
                0 <= j <= fp.len() - 3,
                features_v@ =~= pairs + Seq::new(j as nat, |k: int| wide_feature(fp@[k], fp@[k + 3])),
            decreases fp.len() - j,
        {
            let f = ((fp[j] & 0xFF) | ((fp[j + 3] & 0xFF) << 8)) as u16;
            features_v.push(f);
            j = j + 1;
        }
    } else {
        assert(features_v@ =~= pairs + Seq::<u16>::empty());
    }
    features_v
}

/// The length of a longest common subsequence of two sequences.
pub open spec fn lcs(a: Seq<u16>, b: Seq<u16>) -> nat
    decreases a.len() + b.len(),
{
    if a.len() == 0 || b.len() == 0 {
        0
    } else if a.last() == b.last() {
        lcs(a.drop_last(), b.drop_last()) + 1
    } else {
        let x = lcs(a.drop_last(), b);
        let y = lcs(a, b.drop_last());
        if x >= y {
            x
        } else {
            y
        }
    }
}

proof fn lemma_lcs_bound(a: Seq<u16>, b: Seq<u16>)
    ensures
        lcs(a, b) <= a.len(),
    decreases a.len() + b.len(),
{
    if a.len() > 0 && b.len() > 0 {
        lemma_lcs_bound(a.drop_last(), b.drop_last());
        lemma_lcs_bound(a.drop_last(), b);
        lemma_lcs_bound(a, b.drop_last());
    }
}

/// Law: the longest common subsequence does not depend on the order of its
/// arguments.
pub proof fn lemma_lcs_symmetric(a: Seq<u16>, b: Seq<u16>)
    ensures
        lcs(a, b) == lcs(b, a),
    decreases a.len() + b.len(),
{
    if a.len() > 0 && b.len() > 0 {
        lemma_lcs_symmetric(a.drop_last(), b.drop_last());
        lemma_lcs_symmetric(a.drop_last(), b);
        lemma_lcs_symmetric(a, b.drop_last());
    }
}

/// The number of elements of `longer` that occur in `shorter`, counted four
/// fifths, rounded down.
pub open spec fn approx_lcs(shorter: Seq<u16>, longer: Seq<u16>) -> nat {
    longer.filter(|x: u16| shorter.contains(x)).len() * 4 / 5
}

/// Estimates the common subsequence length of long sequences: the elements of
/// the longer one that occur in the shorter one, counted four fifths.
pub fn approximate_lcs(seq1: &[u16], seq2: &[u16]) -> (r: usize)
    ensures
        r == (if seq1.len() <= seq2.len() {
            approx_lcs(seq1@, seq2@)
        } else {
            approx_lcs(seq2@, seq1@)
        }),
{
    let (shorter, longer) = if seq1.len() <= seq2.len() {
        (seq1, seq2)
    } else {
        (seq2, seq1)
    };
    let mut matches: usize = 0;
    let mut i: usize = 0;
    assert(longer@.take(0).filter(|x: u16| shorter@.contains(x)).len() == 0) by {
        reveal(Seq::filter);
    }
    while i < longer.len()
        invariant
            0 <= i <= longer.len(),
            matches == longer@.take(i as int).filter(|x: u16| shorter@.contains(x)).len(),
            matches <= i,
        decreases longer.len() - i,
    {
        let x = longer[i];
        let mut found = false;
        let mut j: usize = 0;
        while j < shorter.len()
            invariant
                0 <= j <= shorter.len(),
                found == exists|k: int| 0 <= k < j && shorter@[k] == x,
            decreases shorter.len() - j,
        {
            if shorter[j] == x {
                found = true;
            }
            j = j + 1;
        }
        proof {
            assert(longer@.take(i + 1).drop_last() =~= longer@.take(i as int));
            assert(longer@.take(i + 1).last() == x);
            reveal(Seq::filter);
            if found {
                let k = choose|k: int| 0 <= k < j && shorter@[k] == x;
                assert(shorter@.contains(x));
            } else {
                assert(!shorter@.contains(x));
            }
        }
        if found {
            matches = matches + 1;
        }
        i = i + 1;
    }
    assert(longer@.take(longer.len() as int) =~= longer@);
    assert(longer@.take(0) =~= Seq::<u16>::empty());
    matches / 5 * 4 + matches % 5 * 4 / 5
}


/// The length of a longest common subsequence, by dynamic programming.
fn lcs_table(a: &[u16], b: &[u16]) -> (r: usize)
    ensures
        r == lcs(a@, b@),
{
    let n = a.len();
    let m = b.len();
    let mut prev: Vec<usize> = Vec::new();
    prev.push(0);
    let mut j: usize = 0;
    while j < m
        invariant
            0 <= j <= m,
            m == b.len(),
            prev@.len() == j + 1,
            forall|k: int| 0 <= k <= j ==> prev@[k] == lcs(a@.take(0), b@.take(k)),
        decreases m - j,
    {
        prev.push(0);
        j = j + 1;
    }
    let mut i: usize = 0;
    while i < n
        invariant
            0 <= i <= n,
            n == a.len(),
            m == b.len(),
            prev@.len() == m + 1,
            forall|k: int| 0 <= k <= m ==> prev@[k] == lcs(a@.take(i as int), b@.take(k)),
        decreases n - i,
    {
        let mut cur: Vec<usize> = Vec::new();
        cur.push(0);
        let mut j: usize = 0;
        while j < m
            invariant
                0 <= i < n,
                0 <= j <= m,
                n == a.len(),
                m == b.len(),
                prev@.len() == m + 1,
                forall|k: int| 0 <= k <= m ==> prev@[k] == lcs(a@.take(i as int), b@.take(k)),
                cur@.len() == j + 1,
                forall|k: int| 0 <= k <= j ==> cur@[k] == lcs(a@.take(i + 1), b@.take(k)),
            decreases m - j,
        {
            let ghost x = a@.take(i + 1);
            let ghost y = b@.take(j + 1);
            proof {
                assert(x.drop_last() =~= a@.take(i as int));
                assert(y.drop_last() =~= b@.take(j as int));
                assert(x.last() == a@[i as int]);
                assert(y.last() == b@[j as int]);
                lemma_lcs_bound(a@.take(i as int), b@.take(j as int));
            }
            let v = if a[i] == b[j] {
                prev[j] + 1
            } else {
                let up = prev[j + 1];
                let left = cur[j];
                if up >= left {
                    up
                } else {
                    left
                }
            };
            cur.push(v);
            j = j + 1;
        }
        prev = cur;
        i = i + 1;
    }
    assert(a@.take(n as int) =~= a@);
    assert(b@.take(m as int) =~= b@);
    prev[m]
}

/// The length of a longest common subsequence of two feature sequences;
/// sequences whose lengths multiply to more than a million are estimated by
/// `approximate_lcs`.
pub fn longest_common_subsequence(seq1: &[u16], seq2: &[u16]) -> (r: usize)
    requires
        seq1.len() * seq2.len() <= usize::MAX,
    ensures
        seq1.len() == 0 || seq2.len() == 0 ==> r == 0,
        seq1.len() * seq2.len() <= 1_000_000 ==> r == lcs(seq1@, seq2@),
        seq1.len() > 0 && seq2.len() > 0 && seq1.len() * seq2.len() > 1_000_000 ==> r == (if seq1.len()
            <= seq2.len() {
            approx_lcs(seq1@, seq2@)
        } else {
            approx_lcs(seq2@, seq1@)
        }),
{
    if seq1.len() == 0 || seq2.len() == 0 {
        return 0;
    }
    if seq1.len() * seq2.len() > 1_000_000 {
        return approximate_lcs(seq1, seq2);
    }
    lcs_table(seq1, seq2)
}


/// The hash of a pair of spectral peaks: the frequency difference modulo
/// 2^16 in the upper half of the low 48 bits, the time difference modulo 2^16
/// in the low 16 bits.
pub open spec fn peak_hash(freq1: u32, time1: u32, freq2: u32, time2: u32) -> int {
    ((freq2 - freq1) % 65536) * 0x1_0000_0000 + (time2 - time1) % 65536
}

/// Combines two spectral peaks into a hash.
pub fn compute_hash(freq1: u32, time1: u32, freq2: u32, time2: u32) -> (h: u64)
    ensures
        h == peak_hash(freq1, time1, freq2, time2),
{
    let freq_diff: i64 = freq2 as i64 - freq1 as i64;
    let time_diff: i64 = time2 as i64 - time1 as i64;
    let f: i64 = freq_diff & 0xFFFF;
    let t: i64 = time_diff & 0xFFFF;
    assert(f == freq_diff % 65536 && 0 <= f < 65536) by (bit_vector)
        requires
            f == freq_diff & 0xFFFF,
    ;
    assert(t == time_diff % 65536 && 0 <= t < 65536) by (bit_vector)
        requires
            t == time_diff & 0xFFFF,
    ;
    let h: u64 = ((f as u64) << 32) | (t as u64);
    let fu = f as u64;
    let tu = t as u64;
    assert((fu << 32) | tu == fu * 0x1_0000_0000 + tu) by (bit_vector)
        requires
            fu < 65536,
            tu < 65536,
    ;
    h
}

/// The words that a byte sequence holds, four little-endian bytes each; a
/// trailing part of fewer than four bytes is dropped.
pub open spec fn le_words(b: Seq<u8>) -> Seq<u32> {
    Seq::new(b.len() / 4, |i: int| le32(b, 4 * i) as u32)
}

/// What standard Base64 decoding of some text gives, or `None` where the text
/// is not valid Base64.
pub uninterp spec fn base64_standard_decode(s: Seq<u8>) -> Option<Seq<u8>>;

/// `base64::engine::general_purpose::STANDARD.decode`: the bytes that the
/// Base64 text decodes to, or `None` where it is not valid Base64 (with
/// padding, canonical). The decoding is named, not spelled out.
#[verifier::external_body]
fn base64_decode(s: &[u8]) -> (r: Option<Vec<u8>>)
    ensures
        r matches Some(v) ==> base64_standard_decode(s@) == Some(v@),
        r is None ==> base64_standard_decode(s@) is None,
{
    base64::engine::general_purpose::STANDARD.decode(s).ok()
}

/// What `decode_chromaprint` gives for a stored fingerprint: a `PCM:` hash is
/// refused, any other text is Base64-decoded and read as little-endian words.
pub open spec fn chromaprint_words(raw: Seq<char>) -> Result<Seq<u32>, Seq<char>> {
    if crate::text::has_prefix(raw, "PCM:"@) {
        Err("Not a Chromaprint fingerprint"@)
    } else {
        match base64_standard_decode(encode_utf8(raw)) {
            Some(b) => Ok(le_words(b)),
            None => Err("Failed to decode fingerprint"@),
        }
    }
}

/// Decodes a stored Chromaprint fingerprint into its words.
pub fn decode_chromaprint(raw_fp: &str) -> (r: Result<Vec<u32>, &'static str>)
    ensures
        r matches Ok(v) ==> chromaprint_words(raw_fp@) == Ok::<Seq<u32>, Seq<char>>(v@),
        r matches Err(e) ==> chromaprint_words(raw_fp@) == Err::<Seq<u32>, Seq<char>>(e@),
{
    let chars = crate::text::str_chars(raw_fp);
    let pcm = crate::text::str_chars("PCM:");
    if crate::text::starts_with(&chars, &pcm) {
        return Err("Not a Chromaprint fingerprint");
    }
    match base64_decode(raw_fp.as_bytes()) {
        Some(fp_bytes) => {
            let mut fp: Vec<u32> = Vec::new();
            let mut i: usize = 0;
            while i < fp_bytes.len() / 4
                invariant
                    0 <= i <= fp_bytes.len() / 4,
                    fp@ =~= Seq::new(i as nat, |k: int| le32(fp_bytes@, 4 * k) as u32),
                decreases fp_bytes.len() / 4 - i,
            {
                let w = read_le32(&fp_bytes, 4 * i);
                fp.push(w);
                i = i + 1;
            }
            Ok(fp)
        },
        None => Err("Failed to decode fingerprint"),
    }
}

} // verus!
