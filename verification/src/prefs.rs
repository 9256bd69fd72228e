use vstd::prelude::*;
use crate::text::{contains_sub, str_chars, str_contains, string_from_chars, str_eq};

verus! {

/// How a preservation rule orders the records of a group.
#[derive(Debug, Clone, Copy, PartialEq, Eq, Structural)]
pub enum OrderOperator {
    Largest,
    Smallest,
    Contains,
    DoesNotContain,
    Is,
    IsNot,
    IsEmpty,
    IsNotEmpty,
}

impl Default for OrderOperator {
    fn default() -> (r: Self)
        ensures
            r == OrderOperator::Contains,
    {
        OrderOperator::Contains
    }
}

/// One rule of the preservation order: which records of a group of
/// duplicates are preferred, judged by the value of `column`.
#[derive(Debug, Clone)]
pub struct PreservationLogic {
    pub column: String,
    pub operator: OrderOperator,
    pub variable: String,
}

/// Which searches are switched on.
#[derive(Debug, Clone, Default)]
pub struct Enabled {
    pub basic: bool,
    pub invalidpath: bool,
    pub filename: bool,
    pub filetags: bool,
    pub audiosuite: bool,
    pub waveform: bool,
    pub duration: bool,
    pub dbcompare: bool,
    pub dual_mono: bool,
    pub compare_db: String,
}

/// The user's preferences for a search.
#[derive(Debug, Clone, Default)]
pub struct Preferences {
    pub columns: Vec<String>,
    pub match_criteria: Vec<String>,
    pub ignore_filetype: bool,
    pub tags: Vec<String>,
    pub autoselects: Vec<String>,
    pub preservation_order: Vec<PreservationLogic>,
    pub display_all_records: bool,
    pub exact_waveform: bool,
    pub store_waveforms: bool,
    pub fetch_waveforms: bool,
    pub safe_folders: Vec<String>,
    pub batch_size: usize,
}

/// The characters of each string of a list.
pub open spec fn views(v: Seq<String>) -> Seq<Seq<char>> {
    v.map_values(|s: String| s@)
}

/// Whether one of `tags` occurs in `name`.
pub open spec fn has_tag(name: Seq<char>, tags: Seq<Seq<char>>) -> bool {
    exists|i: int| 0 <= i < tags.len() && contains_sub(name, #[trigger] tags[i])
}

/// Whether one of `tags` occurs in `name`.
pub fn checktags(name: &str, tags: &Vec<String>) -> (b: bool)
    ensures
        b == has_tag(name@, views(tags@)),
{
    let mut i: usize = 0;
    while i < tags.len()
        invariant
            0 <= i <= tags.len(),
            forall|j: int| 0 <= j < i ==> !contains_sub(name@, #[trigger] views(tags@)[j]),
        decreases tags.len() - i,
    {
        if str_contains(name, &tags[i]) {
            assert(contains_sub(name@, views(tags@)[i as int]));
            return true;
        }
        i = i + 1;
    }
    false
}

impl Preferences {
    /// Whether one of the AudioSuite tags occurs in `item`.
    pub fn check_tags(&self, item: &str) -> (b: bool)
        ensures
            b == has_tag(item@, views(self.tags@)),
    {
        checktags(item, &self.tags)
    }
}

/// The columns that a search reads: the match criteria, then the columns of
/// the preservation rules, each once, in the order of first mention.
pub open spec fn required_columns(p: Preferences) -> Seq<Seq<char>> {
    distinct(views(p.match_criteria@) + p.preservation_order@.map_values(|l: PreservationLogic| l.column@))
}

/// `s` with every item after its first occurrence dropped.
pub open spec fn distinct(s: Seq<Seq<char>>) -> Seq<Seq<char>>
    decreases s.len(),
{
    if s.len() == 0 {
        s
    } else {
        let rest = distinct(s.drop_last());
        if rest.contains(s.last()) {
            rest
        } else {
            rest.push(s.last())
        }
    }
}

/// `parts` joined with `sep` between each two.
pub open spec fn join(parts: Seq<Seq<char>>, sep: Seq<char>) -> Seq<char>
    decreases parts.len(),
{
    if parts.len() == 0 {
        Seq::empty()
    } else if parts.len() == 1 {
        parts[0]
    } else {
        join(parts.drop_last(), sep) + sep + parts.last()
    }
}

fn contains_string(list: &Vec<String>, s: &str) -> (b: bool)
    ensures
        b == views(list@).contains(s@),
{
    let mut i: usize = 0;
    while i < list.len()
        invariant
            0 <= i <= list.len(),
            forall|j: int| 0 <= j < i ==> views(list@)[j] != s@,
        decreases list.len() - i,
    {
        if str_eq(list[i].as_str(), s) {
            assert(views(list@)[i as int] == s@);
            return true;
        }
        i = i + 1;
    }
    proof {
        if views(list@).contains(s@) {
            let k = choose|k: int| 0 <= k < views(list@).len() && views(list@)[k] == s@;
            assert(views(list@)[k] != s@);
        }
    }
    false
}

fn push_distinct(seen: &mut Vec<String>, s: &str)
    ensures
        views(final(seen)@) == if views(old(seen)@).contains(s@) {
            views(old(seen)@)
        } else {
            views(old(seen)@).push(s@)
        },
{
    if !contains_string(seen, s) {
        seen.push(s.to_string());
        assert(views(final(seen)@) =~= views(old(seen)@).push(s@));
    }
}

impl Preferences {
    /// The columns that a search reads, separated by commas: each column of
    /// the match criteria and of the preservation rules, once.
    pub fn get_data_requirements(&self) -> (r: String)
        ensures
            r@ == join(required_columns(*self), ","@),
    {
        let ghost all = views(self.match_criteria@) + self.preservation_order@.map_values(
            |l: PreservationLogic| l.column@,
        );
        let mut seen: Vec<String> = Vec::new();
        let mut i: usize = 0;
        while i < self.match_criteria.len()
            invariant
                0 <= i <= self.match_criteria.len(),
                all == views(self.match_criteria@) + self.preservation_order@.map_values(
                    |l: PreservationLogic| l.column@,
                ),
                views(seen@) == distinct(all.take(i as int)),
            decreases self.match_criteria.len() - i,
        {
            push_distinct(&mut seen, self.match_criteria[i].as_str());
            assert(all.take(i + 1).drop_last() =~= all.take(i as int));
            assert(all.take(i + 1).last() == self.match_criteria@[i as int]@);
            i = i + 1;
        }
        let n = self.match_criteria.len();
        let mut j: usize = 0;
        while j < self.preservation_order.len()
            invariant
                0 <= j <= self.preservation_order.len(),
                n == self.match_criteria.len(),
                all == views(self.match_criteria@) + self.preservation_order@.map_values(
                    |l: PreservationLogic| l.column@,
                ),
                views(seen@) == distinct(all.take(n + j)),
            decreases self.preservation_order.len() - j,
        {
            push_distinct(&mut seen, self.preservation_order[j].column.as_str());
            assert(all.take(n + j + 1).drop_last() =~= all.take(n + j));
            assert(all.take(n + j + 1).last() == self.preservation_order@[j as int].column@);
            j = j + 1;
        }
        assert(all.take(n + j) =~= all);
        let mut out: Vec<char> = Vec::new();
        let mut k: usize = 0;
        while k < seen.len()
            invariant
                0 <= k <= seen.len(),
                out@ == join(views(seen@).take(k as int), ","@),
            decreases seen.len() - k,
        {
            proof {
                reveal_strlit(",");
            }
            if k > 0 {
                crate::text::append_chars(&mut out, ",");
            }
            crate::text::append_chars(&mut out, seen[k].as_str());
            assert(views(seen@).take(k + 1).drop_last() =~= views(seen@).take(k as int));
            k = k + 1;
        }
        assert(views(seen@).take(k as int) =~= views(seen@));
        string_from_chars(&out)
    }
}

/// Law: `distinct` keeps each item once: the list it gives has no
/// duplicates and holds exactly the items of `s`.
pub proof fn lemma_distinct(s: Seq<Seq<char>>)
    ensures
        distinct(s).no_duplicates(),
        forall|x: Seq<char>| distinct(s).contains(x) <==> s.contains(x),
    decreases s.len(),
{
    if s.len() > 0 {
        let t = s.drop_last();
        lemma_distinct(t);
        assert forall|x: Seq<char>| distinct(s).contains(x) <==> s.contains(x) by {
            if s.contains(x) && x != s.last() {
                let i = choose|i: int| 0 <= i < s.len() && s[i] == x;
                assert(t[i] == x);
            }
            if t.contains(x) {
                let i = choose|i: int| 0 <= i < t.len() && t[i] == x;
                assert(s[i] == x);
            }
            if x == s.last() {
                assert(s[s.len() - 1] == x);
            }
            let r = distinct(t);
            if !r.contains(s.last()) {
                assert(r.push(s.last())[r.len() as int] == s.last());
                if r.push(s.last()).contains(x) && x != s.last() {
                    let i = choose|i: int| 0 <= i < r.len() + 1 && r.push(s.last())[i] == x;
                    assert(r[i] == x);
                }
                if r.contains(x) {
                    let i = choose|i: int| 0 <= i < r.len() && r[i] == x;
                    assert(r.push(s.last())[i] == x);
                }
            }
        }
    }
}

/// Law: the data requirements name every required column once.
pub proof fn lemma_required_columns_distinct(p: Preferences)
    ensures
        required_columns(p).no_duplicates(),
        forall|c: Seq<char>| required_columns(p).contains(c) <==> (views(p.match_criteria@)
            + p.preservation_order@.map_values(|l: PreservationLogic| l.column@)).contains(c),
{
    lemma_distinct(
        views(p.match_criteria@) + p.preservation_order@.map_values(|l: PreservationLogic| l.column@),
    );
}

} // verus!
