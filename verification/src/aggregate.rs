//! The domain aggregator: turns one raw dump (gzip-compressed
//! newline-delimited `<id>|<url>` records) into per-domain counts and a
//! grand total. Malformed records — no separator, an unparseable URL, or a
//! URL without a host — are skipped silently; the total counts exactly the
//! lines that contributed a host.

use vstd::prelude::*;

use crate::stats::{DomainCountView, DomainTemplate, IndexTemplate};
use crate::StatsError;

verus! {

/// The host component of an absolute URL, as `url::Url` extracts it:
/// `None` when the text does not parse as an absolute URL or the parsed
/// URL has no host. The result depends on the text alone.
pub uninterp spec fn host_of(url: Seq<char>) -> Option<Seq<char>>;

/// The text obtained by gzip-decompressing `data`, or `None` when `data`
/// is not a well-formed gzip stream of UTF-8 text. The result depends on
/// the bytes alone.
pub uninterp spec fn gunzip_of(data: Seq<u8>) -> Option<Seq<char>>;

/// Relies on `url::Url::parse` and `url::Url::host_str`: parsing is a pure
/// function of the input text, and `host_str` reads the host component of
/// the parsed URL, so the pair is a pure function of the text too.
#[verifier::external_body]
fn url_host(s: &str) -> (r: Option<String>)
    ensures
        match r {
            Some(h) => host_of(s@) == Some(h@),
            None => host_of(s@) is None,
        },
{
    match url::Url::parse(s) {
        Ok(u) => u.host_str().map(|h| h.to_owned()),
        Err(_) => None,
    }
}

/// Relies on `flate2::read::GzDecoder`: decompression of an in-memory gzip
/// stream is a pure function of the bytes; decoding or UTF-8 failures
/// surface as an `Err` from `read_to_string`.
#[verifier::external_body]
fn gunzip_to_string(data: &[u8]) -> (r: Option<String>)
    ensures
        match r {
            Some(s) => gunzip_of(data@) == Some(s@),
            None => gunzip_of(data@) is None,
        },
{
    let mut gz = flate2::read::GzDecoder::new(data);
    let mut s = String::new();
    match std::io::Read::read_to_string(&mut gz, &mut s) {
        Ok(_) => Some(s),
        Err(_) => None,
    }
}

/// Index of the first occurrence of `c` at or after `from`, or the length
/// if none.
pub open spec fn find_char(s: Seq<char>, c: char, from: int) -> int
    decreases s.len() - from,
{
    if from < 0 || from >= s.len() {
        s.len() as int
    } else if s[from] == c {
        from
    } else {
        find_char(s, c, from + 1)
    }
}

/// Drop one trailing carriage return, as reading lines does.
pub open spec fn strip_cr(line: Seq<char>) -> Seq<char> {
    if line.len() > 0 && line.last() == '\r' {
        line.drop_last()
    } else {
        line
    }
}

/// The lines of `s`: split on `\n`, dropping the newline and one trailing
/// `\r` per line; a final newline does not open an empty last line.
pub open spec fn split_lines(s: Seq<char>) -> Seq<Seq<char>>
    decreases s.len(),
{
    if s.len() == 0 {
        Seq::empty()
    } else {
        let k = find_char(s, '\n', 0);
        let line = strip_cr(s.take(k));
        if 0 <= k < s.len() {
            seq![line] + split_lines(s.skip(k + 1))
        } else {
            seq![line]
        }
    }
}

/// Models of a sequence of lines.
pub open spec fn line_views(v: Seq<String>) -> Seq<Seq<char>> {
    v.map_values(|l: String| l@)
}

/// `find_char` finds `i` exactly when nothing before `i` matches and `i`
/// matches or is the end.
proof fn lemma_find_char(s: Seq<char>, c: char, from: int, i: int)
    requires
        0 <= from <= i <= s.len(),
        forall|j: int| from <= j < i ==> s[j] != c,
        i == s.len() || s[i] == c,
    ensures
        find_char(s, c, from) == i,
    decreases i - from,
{
    if from < i {
        lemma_find_char(s, c, from + 1, i);
    }
}

/// Split a string into its lines.
pub fn split_into_lines(s: &str) -> (r: Vec<String>)
    ensures
        line_views(r@) == split_lines(s@),
{
    let len = s.unicode_len();
    let mut out: Vec<String> = Vec::new();
    let mut pos: usize = 0;
    proof {
        assert(s@.skip(0) =~= s@);
        assert(line_views(out@) + split_lines(s@) =~= split_lines(s@));
    }
    while pos < len
        invariant
            len == s@.len(),
            pos <= len,
            split_lines(s@) =~= line_views(out@) + split_lines(s@.skip(pos as int)),
        decreases len - pos,
    {
        let ghost suffix = s@.skip(pos as int);
        let mut i: usize = pos;
        while i < len && s.get_char(i) != '\n'
            invariant
                len == s@.len(),
                pos <= i <= len,
                forall|j: int| pos <= j < i ==> s@[j] != '\n',
            decreases len - i,
        {
            i = i + 1;
        }
        proof {
            assert(forall|j: int|
                0 <= j < i - pos ==> #[trigger] suffix[j] == s@[pos + j] && suffix[j] != '\n');
            if i < len {
                assert(suffix[i - pos] == s@[i as int]);
            }
            lemma_find_char(suffix, '\n', 0, i - pos);
        }
        let mut end = i;
        if end > pos && s.get_char(end - 1) == '\r' {
            end = end - 1;
        }
        proof {
            let raw = suffix.take(i - pos);
            assert(raw =~= s@.subrange(pos as int, i as int));
            if i > pos && s@[i - 1] == '\r' {
                assert(raw.last() == s@[i - 1]);
                assert(strip_cr(raw) =~= s@.subrange(pos as int, end as int));
            } else {
                if raw.len() > 0 {
                    assert(raw.last() == s@[i - 1]);
                }
                assert(strip_cr(raw) =~= s@.subrange(pos as int, end as int));
            }
        }
        let line = s.substring_char(pos, end).to_owned();
        let ghost old_out = out@;
        out.push(line);
        proof {
            assert(line_views(out@) =~= line_views(old_out).push(line@));
        }
        if i < len {
            proof {
                assert(suffix.skip((i - pos) + 1) =~= s@.skip(i + 1));
                assert(line_views(old_out) + split_lines(suffix) =~= line_views(out@)
                    + split_lines(s@.skip(i + 1)));
            }
            pos = i + 1;
        } else {
            proof {
                assert(split_lines(suffix) =~= seq![strip_cr(suffix.take(i - pos))]);
                assert(s@.skip(len as int) =~= Seq::<char>::empty());
                assert(line_views(old_out) + split_lines(suffix) =~= line_views(out@)
                    + split_lines(s@.skip(len as int)));
            }
            pos = len;
        }
    }
    proof {
        assert(s@.skip(len as int) =~= Seq::<char>::empty());
        assert(line_views(out@) =~= split_lines(s@));
    }
    out
}

/// The URL field of a record: everything after the first `|`. A record
/// without a separator is malformed and carries no URL.
pub open spec fn url_part(line: Seq<char>) -> Option<Seq<char>> {
    let k = find_char(line, '|', 0);
    if k < line.len() {
        Some(line.skip(k + 1))
    } else {
        None
    }
}

/// The domain one record contributes: the host of its URL field, if the
/// record is well-formed, parses, and has a host.
pub open spec fn line_host(line: Seq<char>) -> Option<Seq<char>> {
    match url_part(line) {
        Some(u) => host_of(u),
        None => None,
    }
}

/// Extract the domain of one record, or `None` for a record to skip.
pub fn extract_host(line: &str) -> (r: Option<String>)
    ensures
        match r {
            Some(h) => line_host(line@) == Some(h@),
            None => line_host(line@) is None,
        },
{
    let len = line.unicode_len();
    let mut k: usize = 0;
    while k < len && line.get_char(k) != '|'
        invariant
            len == line@.len(),
            k <= len,
            forall|j: int| 0 <= j < k ==> line@[j] != '|',
        decreases len - k,
    {
        k = k + 1;
    }
    proof {
        lemma_find_char(line@, '|', 0, k as int);
    }
    if k == len {
        return None;
    }
    let url = line.substring_char(k + 1, len);
    proof {
        assert(url@ =~= line@.skip(k + 1));
    }
    url_host(url)
}

/// How many records of `lines` contribute a domain.
pub open spec fn valid_count(lines: Seq<Seq<char>>) -> int
    decreases lines.len(),
{
    if lines.len() == 0 {
        0
    } else {
        valid_count(lines.drop_last()) + if line_host(lines.last()) is Some {
            1int
        } else {
            0
        }
    }
}

/// How many records of `lines` contribute exactly the domain `h`.
pub open spec fn host_count(lines: Seq<Seq<char>>, h: Seq<char>) -> int
    decreases lines.len(),
{
    if lines.len() == 0 {
        0
    } else {
        host_count(lines.drop_last(), h) + if line_host(lines.last()) == Some(h) {
            1int
        } else {
            0
        }
    }
}

/// Index of the first entry with domain `h`, or `-1` if there is none.
pub open spec fn first_idx(t: Seq<DomainCountView>, h: Seq<char>) -> int
    decreases t.len(),
{
    if t.len() == 0 {
        -1
    } else if t[0].domain == h {
        0
    } else {
        let r = first_idx(t.skip(1), h);
        if r < 0 {
            -1
        } else {
            r + 1
        }
    }
}

/// Some entry carries the domain `h`.
pub open spec fn has_domain(t: Seq<DomainCountView>, h: Seq<char>) -> bool {
    first_idx(t, h) >= 0
}

/// The count recorded for domain `h`, or zero if it is absent.
pub open spec fn count_of(t: Seq<DomainCountView>, h: Seq<char>) -> int {
    if first_idx(t, h) >= 0 {
        t[first_idx(t, h)].count
    } else {
        0
    }
}

/// `first_idx` is in bounds, points at `h`, and nothing before it does;
/// `-1` means no entry carries `h`.
pub proof fn lemma_first_idx(t: Seq<DomainCountView>, h: Seq<char>)
    ensures
        -1 <= first_idx(t, h) < t.len(),
        first_idx(t, h) >= 0 ==> t[first_idx(t, h)].domain == h,
        forall|j: int| 0 <= j < first_idx(t, h) ==> t[j].domain != h,
        first_idx(t, h) == -1 ==> forall|j: int| 0 <= j < t.len() ==> t[j].domain != h,
    decreases t.len(),
{
    if t.len() > 0 && t[0].domain != h {
        lemma_first_idx(t.skip(1), h);
        let r = first_idx(t.skip(1), h);
        assert forall|j: int| 0 <= j < first_idx(t, h) implies t[j].domain != h by {
            if j > 0 {
                assert(t.skip(1)[j - 1] == t[j]);
            }
        }
        if first_idx(t, h) == -1 {
            assert forall|j: int| 0 <= j < t.len() implies t[j].domain != h by {
                if j > 0 {
                    assert(t.skip(1)[j - 1] == t[j]);
                }
            }
        }
    }
}

/// `first_idx` is determined by the position of the first match.
proof fn lemma_first_idx_is(t: Seq<DomainCountView>, h: Seq<char>, i: int)
    requires
        0 <= i < t.len(),
        t[i].domain == h,
        forall|j: int| 0 <= j < i ==> #[trigger] t[j].domain != h,
    ensures
        first_idx(t, h) == i,
{
    lemma_first_idx(t, h);
    let k = first_idx(t, h);
    if k < i && k >= 0 {
        assert(t[k].domain == h);
    }
}

/// `first_idx` depends only on the entries' domains.
proof fn lemma_first_idx_same_domains(t: Seq<DomainCountView>, u: Seq<DomainCountView>, h: Seq<
    char,
>)
    requires
        t.len() == u.len(),
        forall|i: int| 0 <= i < t.len() ==> #[trigger] t[i].domain == #[trigger] u[i].domain,
    ensures
        first_idx(t, h) == first_idx(u, h),
{
    lemma_first_idx(t, h);
    lemma_first_idx(u, h);
    let k = first_idx(t, h);
    let l = first_idx(u, h);
    if k >= 0 {
        assert(u[k].domain == h);
        if l >= 0 && l < k {
            assert(t[l].domain == h);
        }
        if l == -1 {
            assert(u[k].domain != h);
        }
    } else {
        if l >= 0 {
            assert(t[l].domain == h);
        }
    }
}

/// One tally step: a record with no domain changes nothing; a seen domain
/// is bumped in place; a new domain is appended with count one.
pub open spec fn tally_step(t: Seq<DomainCountView>, host: Option<Seq<char>>) -> Seq<
    DomainCountView,
> {
    match host {
        None => t,
        Some(h) => {
            let k = first_idx(t, h);
            if k >= 0 {
                t.update(k, DomainCountView { domain: h, count: t[k].count + 1 })
            } else {
                t.push(DomainCountView { domain: h, count: 1 })
            }
        },
    }
}

/// Domain counts of a record sequence, in first-seen order.
pub open spec fn spec_tally(lines: Seq<Seq<char>>) -> Seq<DomainCountView>
    decreases lines.len(),
{
    if lines.len() == 0 {
        Seq::empty()
    } else {
        tally_step(spec_tally(lines.drop_last()), line_host(lines.last()))
    }
}

/// Updating one entry adjusts the sum by the difference at that entry.
proof fn lemma_sum_counts_update(t: Seq<DomainCountView>, k: int, e: DomainCountView)
    requires
        0 <= k < t.len(),
    ensures
        crate::stats::sum_counts(t.update(k, e)) == crate::stats::sum_counts(t) - t[k].count
            + e.count,
    decreases t.len(),
{
    let u = t.update(k, e);
    if k == t.len() - 1 {
        assert(u.drop_last() =~= t.drop_last());
        assert(u.last() == e);
    } else {
        assert(u.drop_last() =~= t.drop_last().update(k, e));
        assert(u.last() == t.last());
        lemma_sum_counts_update(t.drop_last(), k, e);
    }
}

/// The tally of any record sequence has unique domains, counts between one
/// and the number of records, and a total equal to the number of
/// contributing records.
pub proof fn lemma_tally_props(lines: Seq<Seq<char>>)
    ensures
        crate::stats::unique_domains(spec_tally(lines)),
        crate::stats::sum_counts(spec_tally(lines)) == valid_count(lines),
        forall|k: int|
            0 <= k < spec_tally(lines).len() ==> 1 <= #[trigger] spec_tally(lines)[k].count
                <= lines.len(),
    decreases lines.len(),
{
    if lines.len() > 0 {
        lemma_tally_props(lines.drop_last());
        let prev = spec_tally(lines.drop_last());
        let cur = spec_tally(lines);
        match line_host(lines.last()) {
            None => {
                assert(cur == prev);
            },
            Some(h) => {
                lemma_first_idx(prev, h);
                let k = first_idx(prev, h);
                if k >= 0 {
                    let e = DomainCountView { domain: h, count: prev[k].count + 1 };
                    assert(cur == prev.update(k, e));
                    lemma_sum_counts_update(prev, k, e);
                    assert(forall|j: int|
                        0 <= j < cur.len() ==> #[trigger] cur[j].domain == prev[j].domain);
                    assert(crate::stats::unique_domains(cur));
                } else {
                    let e = DomainCountView { domain: h, count: 1 };
                    assert(cur == prev.push(e));
                    assert(cur.drop_last() =~= prev);
                    assert(crate::stats::sum_counts(cur) == crate::stats::sum_counts(prev)
                        + 1);
                    assert(forall|j: int| 0 <= j < prev.len() ==> prev[j].domain != h);
                    assert(forall|j: int|
                        0 <= j < prev.len() ==> #[trigger] cur[j] == prev[j]);
                    assert(crate::stats::unique_domains(cur));
                }
            },
        }
    }
}

/// The tally records, for every domain, exactly how many records
/// contributed it, and holds exactly the domains some record contributed.
pub proof fn lemma_tally_counts(lines: Seq<Seq<char>>)
    ensures
        forall|h: Seq<char>| #[trigger] count_of(spec_tally(lines), h) == host_count(lines, h),
        forall|h: Seq<char>| #[trigger] has_domain(spec_tally(lines), h) <==> host_count(lines, h)
            > 0,
    decreases lines.len(),
{
    if lines.len() > 0 {
        let prev = spec_tally(lines.drop_last());
        let cur = spec_tally(lines);
        assert forall|h: Seq<char>| #[trigger] count_of(spec_tally(lines), h) == host_count(
            lines,
            h,
        ) by {
            assert(cur == spec_tally(lines));
            lemma_tally_counts(lines.drop_last());
            lemma_tally_props(lines.drop_last());
            assert(count_of(prev, h) == host_count(lines.drop_last(), h));
            lemma_first_idx(prev, h);
            match line_host(lines.last()) {
                None => {
                    assert(cur == prev);
                    assert(host_count(lines, h) == host_count(lines.drop_last(), h));
                },
                Some(h0) => {
                    lemma_first_idx(prev, h0);
                    let k = first_idx(prev, h0);
                    if k >= 0 {
                        let e = DomainCountView { domain: h0, count: prev[k].count + 1 };
                        assert(cur == prev.update(k, e));
                        assert(forall|i: int|
                            0 <= i < cur.len() ==> #[trigger] cur[i].domain == prev[i].domain);
                        lemma_first_idx_same_domains(prev, cur, h);
                        if h == h0 {
                            assert(first_idx(cur, h) == k);
                            assert(count_of(cur, h) == prev[k].count + 1);
                        } else {
                            if first_idx(prev, h) >= 0 {
                                assert(prev[first_idx(prev, h)].domain == h);
                                assert(first_idx(prev, h) != k);
                                assert(cur[first_idx(prev, h)] == prev[first_idx(prev, h)]);
                            }
                        }
                    } else {
                        let e = DomainCountView { domain: h0, count: 1 };
                        assert(cur == prev.push(e));
                        assert(forall|i: int|
                            0 <= i < prev.len() ==> #[trigger] cur[i] == prev[i]);
                        if h == h0 {
                            assert(forall|j: int|
                                0 <= j < prev.len() ==> #[trigger] cur[j].domain != h);
                            assert(cur[prev.len() as int].domain == h);
                            lemma_first_idx_is(cur, h, prev.len() as int);
                            assert(count_of(cur, h) == 1);
                            assert(count_of(prev, h) == 0);
                        } else {
                            lemma_first_idx(cur, h);
                            if first_idx(prev, h) >= 0 {
                                lemma_first_idx_is(cur, h, first_idx(prev, h));
                            } else {
                                assert(forall|j: int|
                                    0 <= j < cur.len() ==> #[trigger] cur[j].domain != h);
                                if first_idx(cur, h) >= 0 {
                                    assert(cur[first_idx(cur, h)].domain == h);
                                }
                            }
                        }
                    }
                },
            }
        }
    } else {
        assert forall|h: Seq<char>| #[trigger] count_of(spec_tally(lines), h) == host_count(
            lines,
            h,
        ) by {
            lemma_first_idx(spec_tally(lines), h);
        }
    }
    assert forall|h: Seq<char>| #[trigger] has_domain(spec_tally(lines), h) <==> host_count(
        lines,
        h,
    ) > 0 by {
        lemma_tally_props(lines);
        lemma_first_idx(spec_tally(lines), h);
        assert(count_of(spec_tally(lines), h) == host_count(lines, h));
        let t = spec_tally(lines);
        if first_idx(t, h) >= 0 {
            assert(1 <= t[first_idx(t, h)].count);
        }
    }
}

/// Every entry of the sorted sequence is an entry of the input.
proof fn lemma_sort_desc_elements(t: Seq<DomainCountView>)
    ensures
        forall|j: int|
            0 <= j < sort_desc(t).len() ==> exists|i: int|
                0 <= i < t.len() && #[trigger] sort_desc(t)[j] == t[i],
    decreases t.len(),
{
    if t.len() > 0 {
        let head = t.drop_last();
        let d = t.last();
        let prev = sort_desc(head);
        lemma_sort_desc_props(head);
        assert forall|j: int| 0 <= j < sort_desc(t).len() implies exists|i: int|
            0 <= i < t.len() && #[trigger] sort_desc(t)[j] == t[i] by {
            lemma_sort_desc_elements(head);
            let p = desc_pos(prev, d.count);
            lemma_desc_pos(prev, d.count);
            lemma_insert_desc_at(prev, d, p);
            assert(sort_desc(t) == prev.take(p) + seq![d] + prev.skip(p));
            if j == p {
                assert(sort_desc(t)[j] == t[t.len() - 1]);
            } else {
                let jp = if j < p {
                    j
                } else {
                    j - 1
                };
                assert(sort_desc(t)[j] == prev[jp]);
                let i = choose|i: int| 0 <= i < head.len() && #[trigger] prev[jp] == head[i];
                assert(head[i] == t[i]);
                assert(sort_desc(t)[j] == t[i]);
            }
        }
    }
}

/// The aggregator's counts are per-domain record counts: every entry of
/// the sorted result counts exactly the records that contributed its
/// domain, and a domain has an entry exactly when some record contributed
/// it.
pub proof fn lemma_aggregate_counts(lines: Seq<Seq<char>>)
    ensures
        forall|j: int|
            0 <= j < sort_desc(spec_tally(lines)).len() ==> #[trigger] sort_desc(
                spec_tally(lines),
            )[j].count == host_count(lines, sort_desc(spec_tally(lines))[j].domain),
        forall|h: Seq<char>|
            #[trigger] domain_present(sort_desc(spec_tally(lines)), h) <==> host_count(lines, h)
                > 0,
{
    let t = spec_tally(lines);
    lemma_tally_props(lines);
    lemma_tally_counts(lines);
    lemma_sort_desc_props(t);
    assert forall|j: int| 0 <= j < sort_desc(t).len() implies #[trigger] sort_desc(t)[j].count
        == host_count(lines, sort_desc(t)[j].domain) by {
        lemma_sort_desc_elements(t);
        let i = choose|i: int| 0 <= i < t.len() && #[trigger] sort_desc(t)[j] == t[i];
        assert(forall|q: int| 0 <= q < i ==> #[trigger] t[q].domain != t[i].domain);
        lemma_first_idx_is(t, t[i].domain, i);
        assert(count_of(t, t[i].domain) == t[i].count);
    }
    assert forall|h: Seq<char>| #[trigger] domain_present(sort_desc(t), h) <==> host_count(
        lines,
        h,
    ) > 0 by {
        lemma_first_idx(t, h);
        assert(domain_present(sort_desc(t), h) == domain_present(t, h));
        if domain_present(t, h) {
            let i = choose|i: int| 0 <= i < t.len() && #[trigger] t[i].domain == h;
            if first_idx(t, h) == -1 {
                assert(t[i].domain != h);
            }
            assert(has_domain(t, h));
        }
        if has_domain(t, h) {
            assert(t[first_idx(t, h)].domain == h);
            assert(domain_present(t, h));
        }
    }
}

/// Count the domains of a batch of records, in first-seen order.
pub fn tally_lines(lines: &Vec<String>) -> (r: Vec<DomainTemplate>)
    requires
        lines@.len() <= i32::MAX,
    ensures
        crate::stats::stat_views(r@) == spec_tally(line_views(lines@)),
{
    let ghost lm = line_views(lines@);
    let mut counts: Vec<DomainTemplate> = Vec::new();
    let mut i: usize = 0;
    proof {
        assert(lm.take(0) =~= Seq::<Seq<char>>::empty());
        assert(crate::stats::stat_views(counts@) =~= spec_tally(lm.take(0)));
    }
    while i < lines.len()
        invariant
            i <= lines@.len(),
            lines@.len() <= i32::MAX,
            lm == line_views(lines@),
            crate::stats::stat_views(counts@) =~= spec_tally(lm.take(i as int)),
        decreases lines@.len() - i,
    {
        let ghost prefix = lm.take(i as int);
        let ghost prev = spec_tally(prefix);
        proof {
            lemma_tally_props(prefix);
            assert(lm.take(i + 1).drop_last() =~= prefix);
            assert(lm.take(i + 1).last() == lm[i as int]);
            assert(lm[i as int] == lines@[i as int]@);
        }
        let host = extract_host(&lines[i]);
        match host {
            None => {
                proof {
                    assert(spec_tally(lm.take(i + 1)) == prev);
                }
            },
            Some(h) => {
                let ghost hm = h@;
                proof {
                    lemma_first_idx(prev, hm);
                }
                let mut j: usize = 0;
                let mut found = false;
                while j < counts.len() && !found
                    invariant
                        hm == h@,
                        j <= counts@.len(),
                        crate::stats::stat_views(counts@) == prev,
                        prev.len() == counts@.len(),
                        forall|q: int|
                            0 <= q < counts@.len() ==> #[trigger] prev[q]
                                == counts@[q]@,
                        !found ==> forall|q: int| 0 <= q < j ==> prev[q].domain != hm,
                        found ==> j < counts@.len() && prev[j as int].domain == hm
                            && (forall|q: int| 0 <= q < j ==> prev[q].domain != hm),
                    decreases counts@.len() - j + (if found {
                        0int
                    } else {
                        1int
                    }),
                {
                    let same = counts[j].domain == h;
                    proof {
                        assert(same == (counts@[j as int].domain@ == h@));
                        assert(prev[j as int] == counts@[j as int]@);
                        assert(prev[j as int].domain == counts@[j as int].domain@);
                        assert(same == (prev[j as int].domain == hm));
                    }
                    if same {
                        found = true;
                    } else {
                        j = j + 1;
                    }
                }
                if found {
                    proof {
                        assert(first_idx(prev, hm) == j as int) by {
                            lemma_first_idx(prev, hm);
                        }
                        assert(1 <= prev[j as int].count <= i as int);
                    }
                    let ghost old_counts = counts@;
                    counts[j].count = counts[j].count + 1;
                    proof {
                        assert(crate::stats::stat_views(counts@) =~= prev.update(
                            j as int,
                            DomainCountView { domain: hm, count: prev[j as int].count + 1 },
                        ));
                    }
                } else {
                    proof {
                        assert(first_idx(prev, hm) == -1) by {
                            lemma_first_idx(prev, hm);
                        }
                    }
                    counts.push(DomainTemplate { domain: h, count: 1 });
                    proof {
                        assert(crate::stats::stat_views(counts@) =~= prev.push(
                            DomainCountView { domain: hm, count: 1 },
                        ));
                    }
                }
            },
        }
        i = i + 1;
    }
    proof {
        assert(lm.take(lines@.len() as int) =~= lm);
    }
    counts
}

/// Some entry of `t` carries the domain `h`.
pub open spec fn domain_present(t: Seq<DomainCountView>, h: Seq<char>) -> bool {
    exists|i: int| 0 <= i < t.len() && #[trigger] t[i].domain == h
}

/// Insert `d` behind every entry whose count is at least `d.count`: the
/// stable insertion position for a descending sort.
pub open spec fn insert_desc(t: Seq<DomainCountView>, d: DomainCountView) -> Seq<DomainCountView>
    decreases t.len(),
{
    if t.len() == 0 {
        seq![d]
    } else if t[0].count >= d.count {
        seq![t[0]] + insert_desc(t.skip(1), d)
    } else {
        seq![d] + t
    }
}

/// Stable insertion sort by count, descending: entries with equal counts
/// keep their first-seen order.
pub open spec fn sort_desc(t: Seq<DomainCountView>) -> Seq<DomainCountView>
    decreases t.len(),
{
    if t.len() == 0 {
        Seq::empty()
    } else {
        insert_desc(sort_desc(t.drop_last()), t.last())
    }
}

/// Inserting at the first position whose count is below `d.count` is what
/// `insert_desc` does.
proof fn lemma_insert_desc_at(t: Seq<DomainCountView>, d: DomainCountView, p: int)
    requires
        0 <= p <= t.len(),
        forall|j: int| 0 <= j < p ==> #[trigger] t[j].count >= d.count,
        p < t.len() ==> t[p].count < d.count,
    ensures
        insert_desc(t, d) == t.take(p) + seq![d] + t.skip(p),
    decreases t.len(),
{
    if p == 0 {
        if t.len() == 0 {
            assert(insert_desc(t, d) =~= t.take(0) + seq![d] + t.skip(0));
        } else {
            assert(t.take(0) + seq![d] + t.skip(0) =~= seq![d] + t);
        }
    } else {
        assert(t[0].count >= d.count);
        let rest = t.skip(1);
        assert(forall|j: int| 0 <= j < p - 1 ==> #[trigger] rest[j].count == t[j + 1].count);
        if p - 1 < rest.len() {
            assert(rest[p - 1] == t[p as int]);
        }
        lemma_insert_desc_at(rest, d, p - 1);
        assert(seq![t[0]] + (rest.take(p - 1) + seq![d] + rest.skip(p - 1)) =~= t.take(p)
            + seq![d] + t.skip(p));
    }
}

/// First position in `t` whose count is below `c`.
pub open spec fn desc_pos(t: Seq<DomainCountView>, c: int) -> int
    decreases t.len(),
{
    if t.len() == 0 {
        0
    } else if t[0].count >= c {
        1 + desc_pos(t.skip(1), c)
    } else {
        0
    }
}

proof fn lemma_desc_pos(t: Seq<DomainCountView>, c: int)
    ensures
        0 <= desc_pos(t, c) <= t.len(),
        forall|j: int| 0 <= j < desc_pos(t, c) ==> #[trigger] t[j].count >= c,
        desc_pos(t, c) < t.len() ==> t[desc_pos(t, c)].count < c,
    decreases t.len(),
{
    if t.len() > 0 && t[0].count >= c {
        lemma_desc_pos(t.skip(1), c);
        assert forall|j: int| 0 <= j < desc_pos(t, c) implies #[trigger] t[j].count >= c by {
            if j > 0 {
                assert(t.skip(1)[j - 1] == t[j]);
            }
        }
        if desc_pos(t, c) < t.len() {
            assert(t.skip(1)[desc_pos(t, c) - 1] == t[desc_pos(t, c)]);
        }
    }
}

/// Inserting into a descending sequence keeps it descending, adds the
/// count to the sum, adds exactly one domain, and preserves uniqueness and
/// count ranges.
pub proof fn lemma_insert_desc_props(t: Seq<DomainCountView>, d: DomainCountView)
    requires
        crate::stats::sorted_desc(t),
    ensures
        insert_desc(t, d).len() == t.len() + 1,
        crate::stats::sorted_desc(insert_desc(t, d)),
        crate::stats::sum_counts(insert_desc(t, d)) == crate::stats::sum_counts(t) + d.count,
        forall|h: Seq<char>|
            #[trigger] domain_present(insert_desc(t, d), h) <==> (domain_present(t, h) || h
                == d.domain),
        (crate::stats::unique_domains(t) && !domain_present(t, d.domain))
            ==> crate::stats::unique_domains(insert_desc(t, d)),
        (crate::stats::counts_in_range(t) && 0 <= d.count <= i32::MAX)
            ==> crate::stats::counts_in_range(insert_desc(t, d)),
{
    let p = desc_pos(t, d.count);
    lemma_desc_pos(t, d.count);
    lemma_insert_desc_at(t, d, p);
    let u = insert_desc(t, d);
    assert(u =~= t.take(p) + seq![d] + t.skip(p));
    assert(u.len() == t.len() + 1);
    assert(forall|j: int| 0 <= j < p ==> u[j] == #[trigger] t[j]);
    assert(u[p] == d);
    assert(forall|j: int| p < j < u.len() ==> u[j] == #[trigger] t[j - 1]);

    assert(crate::stats::sum_counts(u) == crate::stats::sum_counts(t) + d.count) by {
        crate::stats::lemma_sum_counts_concat(t.take(p) + seq![d], t.skip(p));
        crate::stats::lemma_sum_counts_concat(t.take(p), seq![d]);
        crate::stats::lemma_sum_counts_concat(t.take(p), t.skip(p));
        assert(t.take(p) + t.skip(p) =~= t);
        assert(crate::stats::sum_counts(seq![d]) == d.count) by {
            assert(seq![d].drop_last() =~= Seq::<DomainCountView>::empty());
            assert(crate::stats::sum_counts(Seq::<DomainCountView>::empty()) == 0);
            assert(seq![d].last() == d);
        }
    }

    assert(crate::stats::sorted_desc(u)) by {
        assert forall|i: int, j: int| 0 <= i < j < u.len() implies #[trigger] u[i].count
            >= #[trigger] u[j].count by {
            if i < p && j == p {
                assert(t[i].count >= d.count);
            } else if i == p && j > p {
                assert(p < t.len());
                assert(t[p].count < d.count);
                assert(t[p].count >= t[j - 1].count || p == j - 1);
            }
        }
    }

    assert forall|h: Seq<char>| #[trigger] domain_present(u, h) <==> (domain_present(t, h) || h
        == d.domain) by {
        if domain_present(u, h) {
            let i = choose|i: int| 0 <= i < u.len() && #[trigger] u[i].domain == h;
            if i < p {
                assert(t[i].domain == h);
            } else if i > p {
                assert(t[i - 1].domain == h);
            }
        }
        if domain_present(t, h) {
            let i = choose|i: int| 0 <= i < t.len() && #[trigger] t[i].domain == h;
            if i < p {
                assert(u[i].domain == h);
            } else {
                assert(u[i + 1].domain == h);
            }
        }
        if h == d.domain {
            assert(u[p].domain == h);
        }
    }

    if crate::stats::unique_domains(t) && !domain_present(t, d.domain) {
        assert forall|i: int, j: int| 0 <= i < j < u.len() implies #[trigger] u[i].domain
            != #[trigger] u[j].domain by {
            if i == p {
                assert(u[j].domain == t[j - 1].domain);
                assert(!(t[j - 1].domain == d.domain));
            } else if j == p {
                assert(u[i].domain == t[i].domain);
                assert(!(t[i].domain == d.domain));
            }
        }
    }
}

/// Sorting keeps length, sum, the set of domains, uniqueness and count
/// ranges, and yields a descending sequence.
pub proof fn lemma_sort_desc_props(t: Seq<DomainCountView>)
    ensures
        sort_desc(t).len() == t.len(),
        crate::stats::sorted_desc(sort_desc(t)),
        crate::stats::sum_counts(sort_desc(t)) == crate::stats::sum_counts(t),
        forall|h: Seq<char>| #[trigger] domain_present(sort_desc(t), h) == domain_present(t, h),
        crate::stats::unique_domains(t) ==> crate::stats::unique_domains(sort_desc(t)),
        crate::stats::counts_in_range(t) ==> crate::stats::counts_in_range(sort_desc(t)),
    decreases t.len(),
{
    if t.len() > 0 {
        let head = t.drop_last();
        let d = t.last();
        lemma_sort_desc_props(head);
        let prev = sort_desc(head);
        lemma_insert_desc_props(prev, d);
        assert(forall|i: int| 0 <= i < head.len() ==> #[trigger] head[i] == t[i]);
        assert forall|h: Seq<char>| #[trigger] domain_present(sort_desc(t), h) == domain_present(
            t,
            h,
        ) by {
            if domain_present(t, h) {
                let i = choose|i: int| 0 <= i < t.len() && #[trigger] t[i].domain == h;
                if i < t.len() - 1 {
                    assert(head[i].domain == h);
                    assert(domain_present(head, h));
                } else {
                    assert(h == d.domain);
                }
            }
            if domain_present(sort_desc(t), h) {
                if domain_present(head, h) {
                    let i = choose|i: int| 0 <= i < head.len() && #[trigger] head[i].domain == h;
                    assert(t[i].domain == h);
                } else {
                    assert(h == d.domain);
                    assert(t[t.len() - 1].domain == h);
                }
            }
        }
        if crate::stats::unique_domains(t) {
            assert(crate::stats::unique_domains(head));
            assert(!domain_present(head, d.domain)) by {
                if domain_present(head, d.domain) {
                    let i = choose|i: int|
                        0 <= i < head.len() && #[trigger] head[i].domain == d.domain;
                    assert(t[i].domain == t[t.len() - 1].domain);
                }
            }
        }
        if crate::stats::counts_in_range(t) {
            assert(crate::stats::counts_in_range(head));
        }
    }
}

/// Sort aggregation entries by count, descending and stable.
#[verifier::rlimit(30)]
pub fn sort_stats(v: Vec<DomainTemplate>) -> (r: Vec<DomainTemplate>)
    ensures
        crate::stats::stat_views(r@) == sort_desc(crate::stats::stat_views(v@)),
{
    let ghost vm = crate::stats::stat_views(v@);
    let mut out: Vec<DomainTemplate> = Vec::new();
    let mut i: usize = 0;
    proof {
        assert(vm.take(0) =~= Seq::<DomainCountView>::empty());
        assert(crate::stats::stat_views(out@) =~= sort_desc(vm.take(0)));
    }
    while i < v.len()
        invariant
            i <= v@.len(),
            vm == crate::stats::stat_views(v@),
            vm.len() == v@.len(),
            crate::stats::stat_views(out@) =~= sort_desc(vm.take(i as int)),
        decreases v@.len() - i,
    {
        let ghost prev = sort_desc(vm.take(i as int));
        proof {
            lemma_sort_desc_props(vm.take(i as int));
            assert(vm.take(i + 1).drop_last() =~= vm.take(i as int));
            assert(vm.take(i + 1).last() == vm[i as int]);
            assert(vm[i as int] == v@[i as int]@);
        }
        let d = v[i].clone();
        let mut p: usize = 0;
        while p < out.len() && out[p].count >= d.count
            invariant
                p <= out@.len(),
                crate::stats::stat_views(out@) == prev,
                prev.len() == out@.len(),
                forall|q: int| 0 <= q < out@.len() ==> #[trigger] prev[q] == out@[q]@,
                d@ == vm[i as int],
                i < vm.len(),
                forall|q: int| 0 <= q < p ==> #[trigger] prev[q].count >= d@.count,
            decreases out@.len() - p,
        {
            p = p + 1;
        }
        proof {
            if p < out@.len() {
                assert(prev[p as int].count < d@.count);
            }
            lemma_insert_desc_at(prev, d@, p as int);
        }
        let ghost old_out = out@;
        out.insert(p, d);
        proof {
            assert(crate::stats::stat_views(out@) =~= prev.take(p as int) + seq![vm[i as int]]
                + prev.skip(p as int));
            assert(crate::stats::stat_views(out@) =~= sort_desc(vm.take(i + 1)));
        }
        i = i + 1;
    }
    proof {
        assert(vm.take(v@.len() as int) =~= vm);
    }
    out
}

/// Records contribute at most one count each.
pub proof fn lemma_valid_count_bound(lines: Seq<Seq<char>>)
    ensures
        0 <= valid_count(lines) <= lines.len(),
    decreases lines.len(),
{
    if lines.len() > 0 {
        lemma_valid_count_bound(lines.drop_last());
    }
}

/// Aggregate a batch of records into per-domain counts, sorted by count
/// descending (stable on ties), and a total that counts exactly the
/// records that contributed a domain.
pub fn aggregate(lines: &Vec<String>) -> (r: IndexTemplate)
    requires
        lines@.len() <= i32::MAX,
    ensures
        r@.stats == sort_desc(spec_tally(line_views(lines@))),
        r@.total == valid_count(line_views(lines@)),
        crate::stats::valid_result(r@),
        forall|j: int|
            0 <= j < r@.stats.len() ==> #[trigger] r@.stats[j].count == host_count(
                line_views(lines@),
                r@.stats[j].domain,
            ),
        forall|h: Seq<char>|
            #[trigger] domain_present(r@.stats, h) <==> host_count(line_views(lines@), h) > 0,
{
    let ghost lm = line_views(lines@);
    proof {
        lemma_tally_props(lm);
        lemma_sort_desc_props(spec_tally(lm));
        lemma_valid_count_bound(lm);
        lemma_aggregate_counts(lm);
        assert(lm.len() == lines@.len());
        assert(crate::stats::counts_in_range(spec_tally(lm))) by {
            assert(forall|k: int|
                0 <= k < spec_tally(lm).len() ==> 1 <= #[trigger] spec_tally(lm)[k].count
                    <= lm.len());
        }
    }
    let tallied = tally_lines(lines);
    let sorted = sort_stats(tallied);
    let ghost sm = crate::stats::stat_views(sorted@);
    let mut total: i32 = 0;
    let mut k: usize = 0;
    proof {
        assert(sm.take(0) =~= Seq::<DomainCountView>::empty());
    }
    while k < sorted.len()
        invariant
            k <= sorted@.len(),
            sm == crate::stats::stat_views(sorted@),
            sm.len() == sorted@.len(),
            crate::stats::counts_in_range(sm),
            crate::stats::sum_counts(sm) <= i32::MAX,
            total == crate::stats::sum_counts(sm.take(k as int)),
        decreases sorted@.len() - k,
    {
        proof {
            assert(sm.take(k + 1).drop_last() =~= sm.take(k as int));
            assert(sm.take(k + 1).last() == sm[k as int]);
            assert(sm[k as int] == sorted@[k as int]@);
            assert(crate::stats::sum_counts(sm.take(k + 1)) <= crate::stats::sum_counts(sm)) by {
                crate::stats::lemma_sum_counts_concat(sm.take(k + 1), sm.skip(k + 1));
                assert(sm.take(k + 1) + sm.skip(k + 1) =~= sm);
                assert(forall|q: int|
                    0 <= q < sm.skip(k + 1).len() ==> #[trigger] sm.skip(k + 1)[q].count >= 0);
                crate::stats::lemma_sum_counts_nonneg(sm.skip(k + 1));
            }
            assert(crate::stats::sum_counts(sm.take(k as int)) >= 0) by {
                assert(forall|q: int|
                    0 <= q < sm.take(k as int).len() ==> #[trigger] sm.take(k as int)[q].count
                        >= 0);
                crate::stats::lemma_sum_counts_nonneg(sm.take(k as int));
            }
        }
        total = total + sorted[k].count;
        k = k + 1;
    }
    proof {
        assert(sm.take(sorted@.len() as int) =~= sm);
    }
    IndexTemplate { stats: sorted, total }
}

/// The record lines of a raw dump: the decompressed text split into lines,
/// or `None` when the bytes do not decompress.
pub open spec fn dump_model(data: Seq<u8>) -> Option<Seq<Seq<char>>> {
    match gunzip_of(data) {
        Some(c) => Some(split_lines(c)),
        None => None,
    }
}

/// Aggregate one raw (gzip-compressed) dump.
///
/// Succeeds exactly when the bytes decompress to text with a representable
/// number of lines; the result is then the sorted tally of that text's
/// records. A dump that cannot be decompressed is an unreadable source.
pub fn aggregate_dump(data: &[u8]) -> (r: Result<IndexTemplate, StatsError>)
    ensures
        match r {
            Ok(t) => dump_model(data@) matches Some(lines) && lines.len() <= i32::MAX && t@.stats
                == sort_desc(spec_tally(lines)) && t@.total == valid_count(lines)
                && crate::stats::valid_result(t@),
            Err(e) => e == StatsError::IOError && (dump_model(data@) is None || dump_model(
                data@,
            ).unwrap().len() > i32::MAX),
        },
{
    let content = match gunzip_to_string(data) {
        Some(c) => c,
        None => {
            return Err(StatsError::IOError);
        },
    };
    let lines = split_into_lines(content.as_str());
    if lines.len() > i32::MAX as usize {
        return Err(StatsError::IOError);
    }
    Ok(aggregate(&lines))
}

} // verus!
