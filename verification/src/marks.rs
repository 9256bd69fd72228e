use vstd::prelude::*;

verus! {

/// Why a record was marked by a search, or `Keep` for a record that stays.
#[derive(Debug, Clone, Copy, PartialEq, Eq, Structural, Hash)]
pub enum Algorithm {
    All,
    Basic,
    SimilarFilename,
    Waveforms,
    SimilarAudio,
    Compare,
    Tags,
    FileTags,
    InvalidPath,
    DualMono,
    Duration,
    Replace,
    Manual,
    Keep,
}

impl Default for Algorithm {
    fn default() -> (r: Self)
        ensures
            r == Algorithm::Keep,
    {
        Algorithm::Keep
    }
}

/// The position of a mark in the declaration order of `Algorithm`.
pub open spec fn rank(a: Algorithm) -> u16 {
    match a {
        Algorithm::All => 0,
        Algorithm::Basic => 1,
        Algorithm::SimilarFilename => 2,
        Algorithm::Waveforms => 3,
        Algorithm::SimilarAudio => 4,
        Algorithm::Compare => 5,
        Algorithm::Tags => 6,
        Algorithm::FileTags => 7,
        Algorithm::InvalidPath => 8,
        Algorithm::DualMono => 9,
        Algorithm::Duration => 10,
        Algorithm::Replace => 11,
        Algorithm::Manual => 12,
        Algorithm::Keep => 13,
    }
}

fn rank_of(a: Algorithm) -> (r: u16)
    ensures
        r == rank(a),
        r < 14,
{
    match a {
        Algorithm::All => 0,
        Algorithm::Basic => 1,
        Algorithm::SimilarFilename => 2,
        Algorithm::Waveforms => 3,
        Algorithm::SimilarAudio => 4,
        Algorithm::Compare => 5,
        Algorithm::Tags => 6,
        Algorithm::FileTags => 7,
        Algorithm::InvalidPath => 8,
        Algorithm::DualMono => 9,
        Algorithm::Duration => 10,
        Algorithm::Replace => 11,
        Algorithm::Manual => 12,
        Algorithm::Keep => 13,
    }
}

proof fn lemma_rank_injective(a: Algorithm, b: Algorithm)
    ensures
        rank(a) == rank(b) <==> a == b,
{
}

/// Whether bit `k` of `bits` is set.
pub open spec fn bit_set(bits: u16, k: u16) -> bool {
    bits & (1u16 << k) != 0
}

proof fn lemma_bits_insert(b: u16, r: u16, k: u16)
    requires
        r < 16,
        k < 16,
    ensures
        bit_set(b | (1u16 << r), k) == (k == r || bit_set(b, k)),
{
    assert(((b | (1u16 << r)) & (1u16 << k) != 0) == (k == r || b & (1u16 << k) != 0)) by (bit_vector)
        requires
            r < 16,
            k < 16,
    ;
}

proof fn lemma_bits_remove(b: u16, r: u16, k: u16)
    requires
        r < 16,
        k < 16,
    ensures
        bit_set(b & !(1u16 << r), k) == (k != r && bit_set(b, k)),
{
    assert(((b & !(1u16 << r)) & (1u16 << k) != 0) == (k != r && b & (1u16 << k) != 0)) by (bit_vector)
        requires
            r < 16,
            k < 16,
    ;
}

proof fn lemma_bits_empty(k: u16)
    requires
        k < 16,
    ensures
        !bit_set(0, k),
{
    assert(0u16 & (1u16 << k) == 0) by (bit_vector);
}

/// A set of marks.
#[derive(Debug, Clone, Copy, PartialEq, Eq, Structural)]
pub struct AlgorithmSet {
    bits: u16,
}

impl View for AlgorithmSet {
    type V = Set<Algorithm>;

    closed spec fn view(&self) -> Set<Algorithm> {
        Set::new(|a: Algorithm| bit_set(self.bits, rank(a)))
    }
}

impl AlgorithmSet {
    /// The empty set.
    pub fn new() -> (s: Self)
        ensures
            s@ == Set::<Algorithm>::empty(),
    {
        let s = AlgorithmSet { bits: 0 };
        proof {
            assert forall|a: Algorithm| !s@.contains(a) by {
                lemma_bits_empty(rank(a));
            }
            assert(s@ =~= Set::<Algorithm>::empty());
        }
        s
    }

    /// The set holding `a` alone.
    pub fn only(a: Algorithm) -> (s: Self)
        ensures
            s@ == set![a],
    {
        let mut s = AlgorithmSet::new();
        s.insert(a);
        proof {
            assert(s@ =~= set![a]);
        }
        s
    }

    /// Whether `a` is in the set.
    pub fn contains(&self, a: Algorithm) -> (b: bool)
        ensures
            b == self@.contains(a),
    {
        let r = rank_of(a);
        self.bits & (1u16 << r) != 0
    }

    /// Adds `a`.
    pub fn insert(&mut self, a: Algorithm)
        ensures
            final(self)@ == old(self)@.insert(a),
    {
        let r = rank_of(a);
        let ghost before = *self;
        self.bits = self.bits | (1u16 << r);
        proof {
            assert forall|x: Algorithm| #[trigger] self@.contains(x) == before@.insert(a).contains(x) by {
                lemma_bits_insert(before.bits, r, rank(x));
                lemma_rank_injective(x, a);
            }
            assert(self@ =~= before@.insert(a));
        }
    }

    /// Takes `a` out.
    pub fn remove(&mut self, a: Algorithm)
        ensures
            final(self)@ == old(self)@.remove(a),
    {
        let r = rank_of(a);
        let ghost before = *self;
        self.bits = self.bits & !(1u16 << r);
        proof {
            assert forall|x: Algorithm| #[trigger] self@.contains(x) == before@.remove(a).contains(x) by {
                lemma_bits_remove(before.bits, r, rank(x));
                lemma_rank_injective(x, a);
            }
            assert(self@ =~= before@.remove(a));
        }
    }

    /// Empties the set.
    pub fn clear(&mut self)
        ensures
            final(self)@ == Set::<Algorithm>::empty(),
    {
        *self = AlgorithmSet::new();
    }
}

/// The order in which marks are shown: `Waveforms` first, then the others
/// from the last declared to the first.
pub open spec fn display_order() -> Seq<Algorithm> {
    seq![
        Algorithm::Waveforms,
        Algorithm::Keep,
        Algorithm::Manual,
        Algorithm::Replace,
        Algorithm::Duration,
        Algorithm::DualMono,
        Algorithm::InvalidPath,
        Algorithm::FileTags,
        Algorithm::Tags,
        Algorithm::Compare,
        Algorithm::SimilarAudio,
        Algorithm::SimilarFilename,
        Algorithm::Basic,
        Algorithm::All,
    ]
}

fn display_order_vec() -> (v: Vec<Algorithm>)
    ensures
        v@ == display_order(),
{
    let v = vec![
        Algorithm::Waveforms,
        Algorithm::Keep,
        Algorithm::Manual,
        Algorithm::Replace,
        Algorithm::Duration,
        Algorithm::DualMono,
        Algorithm::InvalidPath,
        Algorithm::FileTags,
        Algorithm::Tags,
        Algorithm::Compare,
        Algorithm::SimilarAudio,
        Algorithm::SimilarFilename,
        Algorithm::Basic,
        Algorithm::All,
    ];
    assert(v@ =~= display_order());
    v
}

impl AlgorithmSet {
    /// The marks of the set as a list in display order.
    pub fn to_display_list(&self) -> (r: Vec<Algorithm>)
        ensures
            r@ == display_order().filter(|a: Algorithm| self@.contains(a)),
    {
        let order = display_order_vec();
        let mut out: Vec<Algorithm> = Vec::new();
        let mut i: usize = 0;
        while i < order.len()
            invariant
                0 <= i <= order.len(),
                order@ == display_order(),
                out@ == order@.take(i as int).filter(|a: Algorithm| self@.contains(a)),
            decreases order.len() - i,
        {
            let a = order[i];
            proof {
                reveal_with_fuel(Seq::filter, 1);
                assert(order@.take(i + 1).drop_last() =~= order@.take(i as int));
            }
            if self.contains(a) {
                out.push(a);
            }
            i = i + 1;
        }
        assert(order@.take(order.len() as int) =~= order@);
        out
    }
}

} // verus!
