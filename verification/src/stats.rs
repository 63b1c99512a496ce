//! The aggregation result: per-domain counts plus a grand total.

use vstd::prelude::*;

verus! {

/// One domain with the number of shortened URLs pointing at it.
#[derive(Debug)]
pub struct DomainTemplate {
    pub domain: String,
    pub count: i32,
}

/// One day's aggregation result: per-domain counts sorted by count
/// (descending), and the grand total over all domains.
#[derive(Debug)]
pub struct IndexTemplate {
    pub stats: Vec<DomainTemplate>,
    pub total: i32,
}

/// Mathematical model of one `DomainTemplate`.
pub ghost struct DomainCountView {
    pub domain: Seq<char>,
    pub count: int,
}

/// Mathematical model of one `IndexTemplate`.
pub ghost struct IndexView {
    pub stats: Seq<DomainCountView>,
    pub total: int,
}

impl View for DomainTemplate {
    type V = DomainCountView;

    open spec fn view(&self) -> DomainCountView {
        DomainCountView { domain: self.domain@, count: self.count as int }
    }
}

/// Models of a sequence of entries.
pub open spec fn stat_views(s: Seq<DomainTemplate>) -> Seq<DomainCountView> {
    s.map_values(|d: DomainTemplate| d@)
}

impl View for IndexTemplate {
    type V = IndexView;

    open spec fn view(&self) -> IndexView {
        IndexView { stats: stat_views(self.stats@), total: self.total as int }
    }
}

impl Clone for DomainTemplate {
    fn clone(&self) -> (r: Self)
        ensures
            r@ == self@,
    {
        DomainTemplate { domain: self.domain.clone(), count: self.count }
    }
}

impl Clone for IndexTemplate {
    fn clone(&self) -> (r: Self)
        ensures
            r@ == self@,
    {
        let mut stats: Vec<DomainTemplate> = Vec::new();
        let mut i: usize = 0;
        while i < self.stats.len()
            invariant
                i <= self.stats@.len(),
                stats@.len() == i as int,
                forall|j: int| 0 <= j < i ==> #[trigger] stats@[j]@ == self.stats@[j]@,
            decreases self.stats@.len() - i,
        {
            stats.push(self.stats[i].clone());
            i = i + 1;
        }
        assert(stat_views(stats@) =~= stat_views(self.stats@));
        IndexTemplate { stats, total: self.total }
    }
}

/// Sum of the per-domain counts of a model sequence.
pub open spec fn sum_counts(stats: Seq<DomainCountView>) -> int
    decreases stats.len(),
{
    if stats.len() == 0 {
        0
    } else {
        sum_counts(stats.drop_last()) + stats.last().count
    }
}

/// Summing a concatenation sums the parts.
pub proof fn lemma_sum_counts_concat(a: Seq<DomainCountView>, b: Seq<DomainCountView>)
    ensures
        sum_counts(a + b) == sum_counts(a) + sum_counts(b),
    decreases b.len(),
{
    if b.len() == 0 {
        assert(a + b =~= a);
    } else {
        lemma_sum_counts_concat(a, b.drop_last());
        assert((a + b).drop_last() =~= a + b.drop_last());
        assert((a + b).last() == b.last());
    }
}

/// A sum of non-negative counts is non-negative.
pub proof fn lemma_sum_counts_nonneg(stats: Seq<DomainCountView>)
    requires
        forall|i: int| 0 <= i < stats.len() ==> #[trigger] stats[i].count >= 0,
    ensures
        sum_counts(stats) >= 0,
    decreases stats.len(),
{
    if stats.len() > 0 {
        assert(forall|i: int|
            0 <= i < stats.len() - 1 ==> #[trigger] stats.drop_last()[i] == stats[i]);
        lemma_sum_counts_nonneg(stats.drop_last());
    }
}

/// Every count is a non-negative `i32` value.
pub open spec fn counts_in_range(stats: Seq<DomainCountView>) -> bool {
    forall|i: int| 0 <= i < stats.len() ==> 0 <= #[trigger] stats[i].count <= i32::MAX
}

/// No domain occurs twice.
pub open spec fn unique_domains(stats: Seq<DomainCountView>) -> bool {
    forall|i: int, j: int|
        0 <= i < j < stats.len() ==> #[trigger] stats[i].domain != #[trigger] stats[j].domain
}

/// Counts never increase along the sequence.
pub open spec fn sorted_desc(stats: Seq<DomainCountView>) -> bool {
    forall|i: int, j: int| 0 <= i < j < stats.len() ==> #[trigger] stats[i].count >= #[trigger] stats[j].count
}

/// The invariant of a finished aggregation result: the total is the sum of
/// the per-domain counts, every count is a representable non-negative
/// number, domains are unique, and the sequence is sorted by count,
/// descending.
pub open spec fn valid_result(v: IndexView) -> bool {
    &&& v.total == sum_counts(v.stats)
    &&& 0 <= v.total <= i32::MAX
    &&& counts_in_range(v.stats)
    &&& unique_domains(v.stats)
    &&& sorted_desc(v.stats)
}

/// Look a domain up in an aggregation result, returning its entry.
///
/// Returns the first (and, under `unique_domains`, only) entry for
/// `domain`; `None` exactly when the domain is absent.
pub fn find_domain(stats: &Vec<DomainTemplate>, domain: &String) -> (r: Option<DomainTemplate>)
    ensures
        match r {
            Some(d) => exists|i: int|
                0 <= i < stats@.len() && #[trigger] stats@[i]@ == d@ && d@.domain == domain@
                    && (forall|j: int| 0 <= j < i ==> #[trigger] stats@[j]@.domain != domain@),
            None => forall|i: int|
                0 <= i < stats@.len() ==> #[trigger] stats@[i]@.domain != domain@,
        },
{
    let mut i: usize = 0;
    while i < stats.len()
        invariant
            i <= stats@.len(),
            forall|j: int| 0 <= j < i ==> #[trigger] stats@[j]@.domain != domain@,
        decreases stats@.len() - i,
    {
        if stats[i].domain == *domain {
            let found = stats[i].clone();
            proof {
                assert(0 <= i < stats@.len() && stats@[i as int]@ == found@ && found@.domain
                    == domain@ && (forall|j: int|
                    0 <= j < i ==> #[trigger] stats@[j]@.domain != domain@));
            }
            return Some(found);
        }
        i = i + 1;
    }
    None
}

} // verus!
