//! The time-series builder: walks the snapshot history in date order and
//! extracts chart data — a `(date, total)` point per snapshot, and, for a
//! requested domain, a `(date, count)` point for each snapshot where the
//! domain appears. Days where the domain is absent contribute no point at
//! all, so the domain series may be sparser than the total series.

use vstd::prelude::*;

use crate::aggregate::{count_of, first_idx, has_domain, lemma_first_idx};
use crate::date::{date_key, Date};
use crate::stats::{find_domain, DomainTemplate, IndexTemplate};
use crate::StatsError;

verus! {

/// One snapshot's date together with its aggregation result.
pub struct DatedSnapshot {
    pub date: Date,
    pub info: IndexTemplate,
}

/// One chart point.
#[derive(Clone, Copy, Debug, PartialEq, Eq, Structural)]
pub struct TimeSeriesPoint {
    pub date: Date,
    pub value: i32,
}

/// Model of one dated snapshot.
pub ghost struct DatedView {
    pub date: Date,
    pub stats: Seq<crate::stats::DomainCountView>,
    pub total: int,
}

impl View for DatedSnapshot {
    type V = DatedView;

    open spec fn view(&self) -> DatedView {
        DatedView { date: self.date, stats: self.info@.stats, total: self.info@.total }
    }
}

/// Models of a snapshot sequence.
pub open spec fn dated_views(s: Seq<DatedSnapshot>) -> Seq<DatedView> {
    s.map_values(|d: DatedSnapshot| d@)
}

/// Snapshots stand in strictly ascending date order.
pub open spec fn dates_ascending(s: Seq<DatedView>) -> bool {
    forall|i: int, j: int|
        0 <= i < j < s.len() ==> date_key(#[trigger] s[i].date) < date_key(#[trigger] s[j].date)
}

/// The total series: one point per snapshot, in order.
pub open spec fn total_series(s: Seq<DatedView>) -> Seq<TimeSeriesPoint>
    decreases s.len(),
{
    if s.len() == 0 {
        Seq::empty()
    } else {
        total_series(s.drop_last()).push(
            TimeSeriesPoint { date: s.last().date, value: s.last().total as i32 },
        )
    }
}

/// The domain series: a point for each snapshot where the domain appears,
/// with that day's count; nothing — not zero — where it is absent.
pub open spec fn domain_series(s: Seq<DatedView>, h: Seq<char>) -> Seq<TimeSeriesPoint>
    decreases s.len(),
{
    if s.len() == 0 {
        Seq::empty()
    } else {
        let rest = domain_series(s.drop_last(), h);
        if has_domain(s.last().stats, h) {
            rest.push(
                TimeSeriesPoint {
                    date: s.last().date,
                    value: count_of(s.last().stats, h) as i32,
                },
            )
        } else {
            rest
        }
    }
}

/// The point `p` carries the date of a snapshot where the domain appears.
pub open spec fn point_dated(s: Seq<DatedView>, h: Seq<char>, p: TimeSeriesPoint) -> bool {
    exists|i: int| 0 <= i < s.len() && p.date == #[trigger] s[i].date && has_domain(s[i].stats, h)
}

/// Every point of the domain series carries the date of a snapshot where
/// the domain appears.
proof fn lemma_domain_series_dates(s: Seq<DatedView>, h: Seq<char>)
    ensures
        forall|j: int|
            0 <= j < domain_series(s, h).len() ==> point_dated(
                s,
                h,
                #[trigger] domain_series(s, h)[j],
            ),
    decreases s.len(),
{
    if s.len() > 0 {
        let rest = domain_series(s.drop_last(), h);
        assert forall|j: int| 0 <= j < domain_series(s, h).len() implies point_dated(
            s,
            h,
            #[trigger] domain_series(s, h)[j],
        ) by {
            lemma_domain_series_dates(s.drop_last(), h);
            if j < rest.len() {
                assert(domain_series(s, h)[j] == rest[j]);
                assert(point_dated(s.drop_last(), h, rest[j]));
                let i = choose|i: int|
                    0 <= i < s.drop_last().len() && rest[j].date == #[trigger] s.drop_last()[
                        i
                    ].date && has_domain(s.drop_last()[i].stats, h);
                assert(s.drop_last()[i] == s[i]);
                assert(domain_series(s, h)[j].date == s[i].date && has_domain(s[i].stats, h));
            } else {
                assert(has_domain(s.last().stats, h));
                assert(domain_series(s, h)[j].date == s[s.len() - 1].date);
            }
        }
    }
}

/// Domain-series sparsity: a snapshot without the domain contributes no
/// point — no point of the domain series carries its date — while the
/// total series still has a point for that date.
pub proof fn lemma_series_sparsity(s: Seq<DatedView>, h: Seq<char>, i: int)
    requires
        dates_ascending(s),
        0 <= i < s.len(),
        !has_domain(s[i].stats, h),
    ensures
        forall|j: int|
            0 <= j < domain_series(s, h).len() ==> #[trigger] domain_series(s, h)[j].date
                != s[i].date,
        total_series(s).len() == s.len(),
        exists|j: int|
            0 <= j < total_series(s).len() && #[trigger] total_series(s)[j].date == s[i].date,
{
    lemma_series_shape(s);
    assert forall|j: int| 0 <= j < domain_series(s, h).len() implies #[trigger] domain_series(
        s,
        h,
    )[j].date != s[i].date by {
        lemma_domain_series_dates(s, h);
        assert(point_dated(s, h, domain_series(s, h)[j]));
        let w = choose|w: int|
            0 <= w < s.len() && domain_series(s, h)[j].date == #[trigger] s[w].date
                && has_domain(s[w].stats, h);
        if w != i {
            if w < i {
                assert(date_key(s[w].date) < date_key(s[i].date));
            } else {
                assert(date_key(s[i].date) < date_key(s[w].date));
            }
        }
    }
    assert(total_series(s)[i].date == s[i].date) by {
        lemma_series_shape(s);
    }
}

/// The total series has one point per snapshot, carrying its date and
/// total.
pub proof fn lemma_series_shape(s: Seq<DatedView>)
    ensures
        total_series(s).len() == s.len(),
        forall|i: int|
            0 <= i < s.len() ==> #[trigger] total_series(s)[i] == (TimeSeriesPoint {
                date: s[i].date,
                value: s[i].total as i32,
            }),
    decreases s.len(),
{
    if s.len() > 0 {
        lemma_series_shape(s.drop_last());
        assert(forall|i: int|
            0 <= i < s.len() - 1 ==> #[trigger] s.drop_last()[i] == s[i]);
    }
}

/// Build chart data from the snapshot history, in ascending date order.
///
/// The total series has one strictly date-increasing point per snapshot;
/// the domain series, built when a domain is requested, has one for each
/// snapshot where that domain appears. With no snapshots there is no axis
/// range to build, which is the no-data failure.
pub fn build_series(snaps: &Vec<DatedSnapshot>, domain: Option<&String>) -> (r: Result<
    (Vec<TimeSeriesPoint>, Vec<TimeSeriesPoint>),
    StatsError,
>)
    requires
        dates_ascending(dated_views(snaps@)),
    ensures
        match r {
            Ok(series) => snaps@.len() > 0 && series.0@ == total_series(dated_views(snaps@))
                && series.1@ == match domain {
                Some(h) => domain_series(dated_views(snaps@), h@),
                None => Seq::<TimeSeriesPoint>::empty(),
            } && (forall|i: int|
                0 <= i && i + 1 < series.0@.len() ==> date_key(#[trigger] series.0@[i].date)
                    < date_key(series.0@[i + 1].date)) && (forall|i: int|
                0 <= i && i + 1 < series.1@.len() ==> date_key(#[trigger] series.1@[i].date)
                    < date_key(series.1@[i + 1].date)),
            Err(e) => e == StatsError::NoDataError && snaps@.len() == 0,
        },
{
    if snaps.len() == 0 {
        return Err(StatsError::NoDataError);
    }
    let ghost sm = dated_views(snaps@);
    let mut totals: Vec<TimeSeriesPoint> = Vec::new();
    let mut domains: Vec<TimeSeriesPoint> = Vec::new();
    let mut i: usize = 0;
    proof {
        assert(sm.take(0) =~= Seq::<DatedView>::empty());
    }
    while i < snaps.len()
        invariant
            i <= snaps@.len(),
            sm == dated_views(snaps@),
            sm.len() == snaps@.len(),
            dates_ascending(sm),
            totals@ == total_series(sm.take(i as int)),
            match domain {
                Some(h) => domains@ == domain_series(sm.take(i as int), h@),
                None => domains@ == Seq::<TimeSeriesPoint>::empty(),
            },
        decreases snaps@.len() - i,
    {
        proof {
            assert(sm.take(i + 1).drop_last() =~= sm.take(i as int));
            assert(sm.take(i + 1).last() == sm[i as int]);
            assert(sm[i as int] == snaps@[i as int]@);
        }
        let snap = &snaps[i];
        totals.push(TimeSeriesPoint { date: snap.date, value: snap.info.total });
        if let Some(h) = domain {
            let ghost prev = domain_series(sm.take(i as int), h@);
            match find_domain(&snap.info.stats, h) {
                Some(entry) => {
                    proof {
                        let stats = sm[i as int].stats;
                        let w = choose|w: int|
                            0 <= w < snap.info.stats@.len() && #[trigger] snap.info.stats@[w]@
                                == entry@ && entry@.domain == h@ && (forall|j: int|
                                0 <= j < w ==> #[trigger] snap.info.stats@[j]@.domain != h@);
                        assert(stats[w] == snap.info.stats@[w]@);
                        assert(forall|j: int|
                            0 <= j < w ==> #[trigger] stats[j] == snap.info.stats@[j]@);
                        lemma_first_idx(stats, h@);
                        let k = first_idx(stats, h@);
                        assert(k >= 0) by {
                            if k == -1 {
                                assert(stats[w].domain == h@);
                            }
                        }
                        assert(k == w) by {
                            if k < w {
                                assert(stats[k].domain == h@);
                                assert(snap.info.stats@[k]@.domain != h@);
                            } else if k > w {
                                assert(stats[w].domain != h@);
                            }
                        }
                        assert(has_domain(stats, h@));
                        assert(count_of(stats, h@) == entry@.count);
                    }
                    domains.push(TimeSeriesPoint { date: snap.date, value: entry.count });
                    proof {
                        let stats = sm[i as int].stats;
                        assert(domains@ =~= prev.push(
                            TimeSeriesPoint {
                                date: sm[i as int].date,
                                value: count_of(stats, h@) as i32,
                            },
                        ));
                    }
                },
                None => {
                    proof {
                        let stats = sm[i as int].stats;
                        assert(forall|j: int|
                            0 <= j < stats.len() ==> #[trigger] stats[j] == snap.info.stats@[
                                j
                            ]@);
                        lemma_first_idx(stats, h@);
                        assert(!has_domain(stats, h@)) by {
                            if first_idx(stats, h@) >= 0 {
                                assert(stats[first_idx(stats, h@)].domain == h@);
                                assert(snap.info.stats@[first_idx(stats, h@)]@.domain != h@);
                            }
                        }
                    }
                },
            }
        }
        i = i + 1;
    }
    proof {
        assert(sm.take(snaps@.len() as int) =~= sm);
        lemma_series_shape(sm);
        assert(totals@ == total_series(sm));
        assert(totals@.len() == sm.len());
        assert forall|j: int| 0 <= j && j + 1 < totals@.len() implies date_key(
            #[trigger] totals@[j].date,
        ) < date_key(totals@[j + 1].date) by {
            lemma_series_shape(sm);
            assert(total_series(sm)[j] == (TimeSeriesPoint {
                date: sm[j].date,
                value: sm[j].total as i32,
            }));
            assert(total_series(sm)[j + 1] == (TimeSeriesPoint {
                date: sm[j + 1].date,
                value: sm[j + 1].total as i32,
            }));
            assert(date_key(sm[j].date) < date_key(sm[j + 1].date));
        }
        match domain {
            Some(h) => {
                assert(domains@ == domain_series(sm, h@));
                assert forall|j: int| 0 <= j && j + 1 < domains@.len() implies date_key(
                    #[trigger] domains@[j].date,
                ) < date_key(domains@[j + 1].date) by {
                    lemma_domain_series_ascending(sm, h@);
                    assert(date_key(domain_series(sm, h@)[j].date) < date_key(
                        domain_series(sm, h@)[j + 1].date,
                    ));
                }
            },
            None => {},
        }
    }
    Ok((totals, domains))
}

/// Points of the domain series keep the snapshots' strict date order.
proof fn lemma_domain_series_ascending(s: Seq<DatedView>, h: Seq<char>)
    requires
        dates_ascending(s),
    ensures
        forall|i: int, j: int|
            0 <= i < j < domain_series(s, h).len() ==> date_key(
                #[trigger] domain_series(s, h)[i].date,
            ) < date_key(#[trigger] domain_series(s, h)[j].date),
    decreases s.len(),
{
    if s.len() > 0 {
        assert(dates_ascending(s.drop_last())) by {
            assert(forall|i: int|
                0 <= i < s.len() - 1 ==> #[trigger] s.drop_last()[i] == s[i]);
        }
        lemma_domain_series_ascending(s.drop_last(), h);
        let rest = domain_series(s.drop_last(), h);
        let whole = domain_series(s, h);
        if has_domain(s.last().stats, h) {
            assert forall|i: int, j: int| 0 <= i < j < whole.len() implies date_key(
                #[trigger] whole[i].date,
            ) < date_key(#[trigger] whole[j].date) by {
                lemma_domain_series_ascending(s.drop_last(), h);
                lemma_domain_series_dates(s.drop_last(), h);
                if j == whole.len() - 1 {
                    assert(whole[i] == rest[i]);
                    assert(point_dated(s.drop_last(), h, rest[i]));
                    let w = choose|w: int|
                        0 <= w < s.drop_last().len() && rest[i].date == #[trigger] s.drop_last()[
                            w
                        ].date && has_domain(s.drop_last()[w].stats, h);
                    assert(s.drop_last()[w] == s[w]);
                    assert(date_key(s[w].date) < date_key(s[s.len() - 1].date));
                } else {
                    assert(whole[i] == rest[i] && whole[j] == rest[j]);
                }
            }
        }
    }
}

/// Look one domain up in the latest aggregation result, as the domain
/// page does: an absent domain is unknown.
pub fn build_domain(info: &IndexTemplate, domain: &String) -> (r: Result<
    DomainTemplate,
    StatsError,
>)
    ensures
        match r {
            Ok(d) => exists|i: int|
                0 <= i < info@.stats.len() && #[trigger] info@.stats[i] == d@ && d@.domain
                    == domain@,
            Err(e) => e == StatsError::NotFoundError && forall|i: int|
                0 <= i < info@.stats.len() ==> #[trigger] info@.stats[i].domain != domain@,
        },
{
    match find_domain(&info.stats, domain) {
        Some(d) => {
            proof {
                let i = choose|i: int|
                    0 <= i < info.stats@.len() && #[trigger] info.stats@[i]@ == d@ && d@.domain
                        == domain@ && (forall|j: int|
                        0 <= j < i ==> #[trigger] info.stats@[j]@.domain != domain@);
                assert(info@.stats[i] == info.stats@[i]@);
            }
            Ok(d)
        },
        None => {
            proof {
                assert forall|i: int| 0 <= i < info@.stats.len() implies #[trigger] info@.stats[
                    i
                ].domain != domain@ by {
                    assert(info@.stats[i] == info.stats@[i]@);
                }
            }
            Err(StatsError::NotFoundError)
        },
    }
}

} // verus!
