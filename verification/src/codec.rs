//! The snapshot artifact codec: a canonical, self-delimiting text form of
//! one aggregation result, written by the snapshot store and the cache and
//! read back by both. The text carries the total first, then one line per
//! entry with the count, the domain's length in characters, and the domain
//! itself; the length prefix lets any domain round-trip exactly.

use vstd::prelude::*;

use crate::stats::{stat_views, DomainCountView, DomainTemplate, IndexTemplate, IndexView};
use crate::text::{
    all_digits, dec_digits, digits_val, digit_value, is_digit, is_digit_char, append_num,
    lemma_dec_digits, lemma_dec_digits_len, lemma_digits_val_bound, match_lit, pow10,
};
use crate::StatsError;

verus! {

/// The artifact header, before the total.
pub open spec fn header_text() -> Seq<char> {
    seq!['t', 'o', 't', 'a', 'l', ':']
}

/// One encoded entry: count, domain length, domain, each delimited.
pub open spec fn encode_entry(d: DomainCountView) -> Seq<char> {
    dec_digits(d.count as nat) + seq![':'] + dec_digits(d.domain.len()) + seq![':'] + d.domain
        + seq!['\n']
}

/// The encoded entry list, in order.
pub open spec fn encode_entries(stats: Seq<DomainCountView>) -> Seq<char>
    decreases stats.len(),
{
    if stats.len() == 0 {
        Seq::empty()
    } else {
        encode_entry(stats[0]) + encode_entries(stats.skip(1))
    }
}

/// The canonical artifact text of one aggregation result.
pub open spec fn spec_encode(m: IndexView) -> Seq<char> {
    header_text() + dec_digits(m.total as nat) + seq!['\n'] + encode_entries(m.stats)
}

/// The values the codec can write and read back: every number fits the
/// count type and every domain's length fits the length field.
pub open spec fn encodable(m: IndexView) -> bool {
    &&& 0 <= m.total <= i32::MAX
    &&& forall|i: int|
        0 <= i < m.stats.len() ==> (0 <= #[trigger] m.stats[i].count <= i32::MAX
            && m.stats[i].domain.len() <= i32::MAX)
}

proof fn lemma_encode_entries_snoc(stats: Seq<DomainCountView>, d: DomainCountView)
    ensures
        encode_entries(stats.push(d)) == encode_entries(stats) + encode_entry(d),
    decreases stats.len(),
{
    if stats.len() == 0 {
        assert(stats.push(d).skip(1) =~= Seq::<DomainCountView>::empty());
        assert(stats.push(d)[0] == d);
        assert(encode_entry(d) + encode_entries(Seq::empty()) =~= encode_entry(d));
        assert(encode_entries(stats) + encode_entry(d) =~= encode_entry(d));
    } else {
        lemma_encode_entries_snoc(stats.skip(1), d);
        assert(stats.push(d).skip(1) =~= stats.skip(1).push(d));
        assert(stats.push(d)[0] == stats[0]);
        assert(encode_entry(stats[0]) + (encode_entries(stats.skip(1)) + encode_entry(d)) =~= (
        encode_entry(stats[0]) + encode_entries(stats.skip(1))) + encode_entry(d));
    }
}

/// Render an aggregation result as canonical artifact text.
pub fn encode_index(t: &IndexTemplate) -> (r: String)
    requires
        t@.total >= 0,
        forall|i: int| 0 <= i < t@.stats.len() ==> #[trigger] t@.stats[i].count >= 0,
    ensures
        r@ == spec_encode(t@),
{
    let mut out = String::new();
    out.append("total:");
    proof {
        reveal_strlit("total:");
        assert(out@ =~= header_text());
    }
    append_num(&mut out, t.total as u64);
    out.append("\n");
    proof {
        reveal_strlit("\n");
    }
    let ghost base = header_text() + dec_digits(t@.total as nat) + seq!['\n'];
    proof {
        assert((t.total as u64) as nat == t@.total as nat);
        assert(out@ =~= base);
        assert(stat_views(t.stats@).take(0) =~= Seq::<DomainCountView>::empty());
        assert(out@ =~= base + encode_entries(stat_views(t.stats@).take(0)));
    }
    let mut i: usize = 0;
    while i < t.stats.len()
        invariant
            i <= t.stats@.len(),
            base == header_text() + dec_digits(t@.total as nat) + seq!['\n'],
            forall|j: int| 0 <= j < t@.stats.len() ==> #[trigger] t@.stats[j].count >= 0,
            t@.stats == stat_views(t.stats@),
            out@ =~= base + encode_entries(stat_views(t.stats@).take(i as int)),
        decreases t.stats@.len() - i,
    {
        let ghost sm = stat_views(t.stats@);
        let ghost before = out@;
        let d = &t.stats[i];
        proof {
            assert(d@ == sm[i as int]);
            assert(d@.count >= 0);
        }
        append_num(&mut out, d.count as u64);
        out.append(":");
        let dlen = d.domain.unicode_len();
        append_num(&mut out, dlen as u64);
        out.append(":");
        out.append(d.domain.as_str());
        out.append("\n");
        proof {
            reveal_strlit(":");
            reveal_strlit("\n");
            assert((d.count as u64) as nat == d@.count as nat);
            assert((dlen as u64) as nat == d@.domain.len());
            assert(out@ =~= before + encode_entry(sm[i as int]));
            lemma_encode_entries_snoc(sm.take(i as int), sm[i as int]);
            assert(sm.take(i + 1) =~= sm.take(i as int).push(sm[i as int]));
            assert(out@ =~= base + encode_entries(sm.take(i + 1)));
        }
        i = i + 1;
    }
    proof {
        let sm = stat_views(t.stats@);
        assert(sm.take(sm.len() as int) =~= sm);
        assert(out@ =~= spec_encode(t@));
    }
    out
}

/// First position at or after `from` that is not a digit, or the end.
pub open spec fn digit_run_end(s: Seq<char>, from: int) -> int
    decreases s.len() - from,
{
    if from < 0 || from >= s.len() {
        s.len() as int
    } else if !is_digit(s[from]) {
        from
    } else {
        digit_run_end(s, from + 1)
    }
}

proof fn lemma_digit_run_end(s: Seq<char>, from: int, i: int)
    requires
        0 <= from <= i <= s.len(),
        forall|j: int| from <= j < i ==> is_digit(#[trigger] s[j]),
        i == s.len() || !is_digit(s[i]),
    ensures
        digit_run_end(s, from) == i,
    decreases i - from,
{
    if from < i {
        lemma_digit_run_end(s, from + 1, i);
    }
}

/// Parse an unsigned decimal number at `pos`: the digit run there, read as
/// a value, provided there is at least one digit, at most ten, and the
/// value fits an `i32`.
pub open spec fn parse_num(s: Seq<char>, pos: int) -> Option<(int, int)> {
    let e = digit_run_end(s, pos);
    if pos < 0 || e <= pos || e - pos > 10 {
        None
    } else {
        let v = digits_val(s.subrange(pos, e));
        if v > i32::MAX {
            None
        } else {
            Some((v, e))
        }
    }
}

/// One entry at `pos`: count, `:`, domain length, `:`, exactly that many
/// domain characters, and a closing newline.
pub open spec fn parse_entry(s: Seq<char>, pos: int) -> Option<(DomainCountView, int)> {
    match parse_num(s, pos) {
        None => None,
        Some((count, p1)) => if p1 < s.len() && s[p1] == ':' {
            match parse_num(s, p1 + 1) {
                None => None,
                Some((dlen, p2)) => if p2 < s.len() && s[p2] == ':' {
                    let p3 = p2 + 1;
                    if p3 + dlen <= s.len() {
                        let p4 = p3 + dlen;
                        if p4 < s.len() && s[p4] == '\n' {
                            Some(
                                (
                                    DomainCountView { domain: s.subrange(p3, p4), count },
                                    p4 + 1,
                                ),
                            )
                        } else {
                            None
                        }
                    } else {
                        None
                    }
                } else {
                    None
                },
            }
        } else {
            None
        },
    }
}

/// All entries from `pos` to the end of the text.
pub open spec fn parse_entries(s: Seq<char>, pos: int) -> Option<Seq<DomainCountView>>
    decreases s.len() - pos,
{
    if pos == s.len() {
        Some(Seq::empty())
    } else if pos < 0 || pos > s.len() {
        None
    } else {
        match parse_entry(s, pos) {
            None => None,
            Some((d, n)) => if pos < n <= s.len() {
                match parse_entries(s, n) {
                    Some(t) => Some(seq![d] + t),
                    None => None,
                }
            } else {
                None
            },
        }
    }
}

/// The aggregation result an artifact text denotes, if it is well-formed:
/// the header, the total, a newline, then entries to the end.
pub open spec fn spec_parse(s: Seq<char>) -> Option<IndexView> {
    if s.len() >= 6 && s.subrange(0, 6) == header_text() {
        match parse_num(s, 6) {
            None => None,
            Some((total, p)) => if p < s.len() && s[p] == '\n' {
                match parse_entries(s, p + 1) {
                    Some(stats) => Some(IndexView { stats, total }),
                    None => None,
                }
            } else {
                None
            },
        }
    } else {
        None
    }
}

/// Parse a number as `parse_num` describes.
fn parse_num_at(s: &str, pos: usize) -> (r: Option<(i32, usize)>)
    requires
        pos <= s@.len(),
    ensures
        match r {
            Some((v, n)) => parse_num(s@, pos as int) == Some((v as int, n as int)) && pos < n
                <= s@.len() && 0 <= v,
            None => parse_num(s@, pos as int) is None,
        },
{
    let len = s.unicode_len();
    let mut e = pos;
    while e < len && is_digit_char(s.get_char(e))
        invariant
            len == s@.len(),
            pos <= e <= len,
            forall|j: int| pos <= j < e ==> is_digit(#[trigger] s@[j]),
        decreases len - e,
    {
        e = e + 1;
    }
    proof {
        lemma_digit_run_end(s@, pos as int, e as int);
    }
    if e == pos || e - pos > 10 {
        return None;
    }
    proof {
        assert(pow10(0) == 1);
        assert(pow10(1) == 10);
        assert(pow10(2) == 100);
        assert(pow10(3) == 1000);
        assert(pow10(4) == 10000);
        assert(pow10(5) == 100000);
        assert(pow10(6) == 1000000);
        assert(pow10(7) == 10000000);
        assert(pow10(8) == 100000000);
        assert(pow10(9) == 1000000000);
        assert(pow10(10) == 10000000000);
    }
    let mut val: u64 = 0;
    let mut k: usize = pos;
    proof {
        assert(s@.subrange(pos as int, pos as int) =~= Seq::<char>::empty());
    }
    while k < e
        invariant
            len == s@.len(),
            pos <= k <= e <= len,
            e - pos <= 10,
            forall|j: int| pos <= j < e ==> is_digit(#[trigger] s@[j]),
            val == digits_val(s@.subrange(pos as int, k as int)),
            pow10(9) == 1000000000,
            pow10(10) == 10000000000,
            val < pow10((k - pos) as nat),
        decreases e - k,
    {
        proof {
            crate::text::lemma_pow10_mono((k - pos) as nat, 9);
        }
        let c = s.get_char(k);
        let d = match digit_value(c) {
            Some(d) => d,
            None => {
                proof {
                    assert(is_digit(s@[k as int]));
                }
                return None;
            },
        };
        proof {
            let prefix = s@.subrange(pos as int, k as int);
            let next = s@.subrange(pos as int, k + 1);
            assert(next.drop_last() =~= prefix);
            assert(next.last() == s@[k as int]);
            assert(pow10(((k + 1) - pos as int) as nat) == 10 * pow10((k - pos) as nat));
        }
        val = val * 10 + (d as u64);
        k = k + 1;
    }
    if val > i32::MAX as u64 {
        return None;
    }
    proof {
        assert(s@.subrange(pos as int, e as int) == s@.subrange(pos as int, k as int));
    }
    Some((val as i32, e))
}

/// Parse one entry as `parse_entry` describes.
fn parse_entry_at(s: &str, pos: usize) -> (r: Option<(DomainTemplate, usize)>)
    requires
        pos <= s@.len(),
    ensures
        match r {
            Some((d, n)) => parse_entry(s@, pos as int) == Some((d@, n as int)) && pos < n
                <= s@.len() && d@.count >= 0,
            None => parse_entry(s@, pos as int) is None,
        },
{
    let len = s.unicode_len();
    let (count, p1) = match parse_num_at(s, pos) {
        Some(x) => x,
        None => {
            return None;
        },
    };
    if p1 == len || s.get_char(p1) != ':' {
        return None;
    }
    let (dlen, p2) = match parse_num_at(s, p1 + 1) {
        Some(x) => x,
        None => {
            return None;
        },
    };
    if p2 == len || s.get_char(p2) != ':' {
        return None;
    }
    let p3 = p2 + 1;
    let dlen_us = dlen as usize;
    if dlen_us > len - p3 {
        return None;
    }
    let p4 = p3 + dlen_us;
    if p4 == len || s.get_char(p4) != '\n' {
        return None;
    }
    let dom = s.substring_char(p3, p4).to_owned();
    let entry = DomainTemplate { domain: dom, count };
    proof {
        assert(entry@ == DomainCountView { domain: s@.subrange(p3 as int, p4 as int), count: count as int });
    }
    Some((entry, p4 + 1))
}

/// Read an aggregation result back from artifact text.
///
/// Succeeds exactly on well-formed artifact text, returning the result it
/// denotes; anything else is corrupt data.
pub fn decode_index(s: &str) -> (r: Result<IndexTemplate, StatsError>)
    ensures
        match r {
            Ok(t) => spec_parse(s@) == Some(t@) && t@.total >= 0 && forall|i: int|
                0 <= i < t@.stats.len() ==> #[trigger] t@.stats[i].count >= 0,
            Err(e) => e == StatsError::CorruptDataError && spec_parse(s@) is None,
        },
{
    let len = s.unicode_len();
    if len < 6 || !match_lit(s, 0, "total:") {
        proof {
            reveal_strlit("total:");
            if len >= 6 {
                assert("total:"@ =~= header_text());
            }
        }
        return Err(StatsError::CorruptDataError);
    }
    proof {
        reveal_strlit("total:");
        assert("total:"@ =~= header_text());
    }
    let (total, p) = match parse_num_at(s, 6) {
        Some(x) => x,
        None => {
            return Err(StatsError::CorruptDataError);
        },
    };
    if p == len || s.get_char(p) != '\n' {
        return Err(StatsError::CorruptDataError);
    }
    let q = p + 1;
    let mut cur = q;
    let mut stats: Vec<DomainTemplate> = Vec::new();
    proof {
        assert(stat_views(stats@) =~= Seq::<DomainCountView>::empty());
        if q < len {
            match parse_entries(s@, q as int) {
                Some(t) => {
                    assert(stat_views(stats@) + t =~= t);
                },
                None => {},
            }
        } else {
            assert(parse_entries(s@, q as int) == Some(Seq::<DomainCountView>::empty()));
        }
    }
    while cur < len
        invariant
            len == s@.len(),
            s@.len() >= 6,
            s@.subrange(0, 6) == header_text(),
            parse_num(s@, 6) == Some((total as int, p as int)),
            p < len,
            s@[p as int] == '\n',
            q == p + 1,
            q <= cur <= len,
            cur < len ==> match parse_entries(s@, cur as int) {
                Some(t) => parse_entries(s@, q as int) == Some(stat_views(stats@) + t),
                None => parse_entries(s@, q as int) is None,
            },
            cur == len ==> parse_entries(s@, q as int) == Some(stat_views(stats@)),
            0 <= total,
            forall|i: int| 0 <= i < stats@.len() ==> #[trigger] stats@[i]@.count >= 0,
        decreases len - cur,
    {
        let (d, n) = match parse_entry_at(s, cur) {
            Some(x) => x,
            None => {
                proof {
                    assert(parse_entry(s@, cur as int) is None);
                    assert(parse_entries(s@, cur as int) is None);
                }
                return Err(StatsError::CorruptDataError);
            },
        };
        let ghost old_stats = stats@;
        stats.push(d);
        proof {
            assert(stat_views(stats@) =~= stat_views(old_stats).push(d@));
            if n < len {
                match parse_entries(s@, n as int) {
                    Some(t) => {
                        assert(parse_entries(s@, cur as int) == Some(seq![d@] + t));
                        assert(stat_views(old_stats) + (seq![d@] + t) =~= stat_views(stats@)
                            + t);
                    },
                    None => {
                        assert(parse_entries(s@, cur as int) is None);
                    },
                }
            } else {
                assert(parse_entries(s@, n as int) == Some(Seq::<DomainCountView>::empty()));
                assert(parse_entries(s@, cur as int) == Some(
                    seq![d@] + Seq::<DomainCountView>::empty(),
                ));
                assert(stat_views(old_stats) + (seq![d@] + Seq::<DomainCountView>::empty())
                    =~= stat_views(stats@));
            }
        }
        cur = n;
    }
    proof {
        if q == len {
            assert(parse_entries(s@, q as int) == Some(Seq::<DomainCountView>::empty()));
            assert(stat_views(stats@) =~= Seq::<DomainCountView>::empty());
        }
    }
    let t = IndexTemplate { stats, total };
    proof {
        assert(spec_parse(s@) == Some(t@));
    }
    Ok(t)
}

proof fn lemma_parse_num_exact(s: Seq<char>, pos: int, v: int)
    requires
        0 <= v <= i32::MAX,
        0 <= pos,
        pos + dec_digits(v as nat).len() <= s.len(),
        s.subrange(pos, pos + dec_digits(v as nat).len()) == dec_digits(v as nat),
        pos + dec_digits(v as nat).len() == s.len() || !is_digit(
            s[pos + dec_digits(v as nat).len()],
        ),
    ensures
        parse_num(s, pos) == Some((v, pos + dec_digits(v as nat).len())),
{
    let dd = dec_digits(v as nat);
    let l = dd.len() as int;
    lemma_dec_digits(v as nat);
    assert forall|j: int| pos <= j < pos + l implies is_digit(#[trigger] s[j]) by {
        assert(s.subrange(pos, pos + l)[j - pos] == s[j]);
        assert(dd[j - pos] == s[j]);
    }
    lemma_digit_run_end(s, pos, pos + l);
    assert(pow10(0) == 1);
    assert(pow10(1) == 10);
    assert(pow10(2) == 100);
    assert(pow10(3) == 1000);
    assert(pow10(4) == 10000);
    assert(pow10(5) == 100000);
    assert(pow10(6) == 1000000);
    assert(pow10(7) == 10000000);
    assert(pow10(8) == 100000000);
    assert(pow10(9) == 1000000000);
    assert(pow10(10) == 10000000000);
    lemma_dec_digits_len(v as nat, 10);
    assert(digits_val(s.subrange(pos, pos + l)) == v);
}

proof fn lemma_parse_entry_exact(s: Seq<char>, pos: int, d: DomainCountView)
    requires
        0 <= d.count <= i32::MAX,
        d.domain.len() <= i32::MAX,
        0 <= pos,
        pos + encode_entry(d).len() <= s.len(),
        s.subrange(pos, pos + encode_entry(d).len()) == encode_entry(d),
    ensures
        parse_entry(s, pos) == Some((d, pos + encode_entry(d).len())),
        encode_entry(d).len() >= 5,
{
    let a = dec_digits(d.count as nat);
    let b = dec_digits(d.domain.len());
    let e = encode_entry(d);
    lemma_dec_digits(d.count as nat);
    lemma_dec_digits(d.domain.len());
    let la = a.len() as int;
    let lb = b.len() as int;
    let ld = d.domain.len() as int;
    assert(e.len() == la + 1 + lb + 1 + ld + 1);
    let pa = pos + la;
    let pb = pa + 1;
    let pc = pb + lb;
    let pd = pc + 1;
    let pe = pd + ld;
    assert(forall|j: int| 0 <= j < e.len() ==> #[trigger] s[pos + j] == e[j]) by {
        assert(forall|j: int|
            0 <= j < e.len() ==> #[trigger] s.subrange(pos, pos + e.len())[j] == s[pos + j]);
    }
    let e1 = a + seq![':'];
    let e2 = e1 + b;
    let e3 = e2 + seq![':'];
    let e4 = e3 + d.domain;
    let e5 = e4 + seq!['\n'];
    assert(e == e5);
    assert forall|j: int| 0 <= j < la implies s.subrange(pos, pa)[j] == a[j] by {
        assert(s.subrange(pos, pa)[j] == s[pos + j]);
        assert(e5[j] == e4[j]);
        assert(e4[j] == e3[j]);
        assert(e3[j] == e2[j]);
        assert(e2[j] == e1[j]);
        assert(e1[j] == a[j]);
    }
    assert(s.subrange(pos, pa) =~= a);
    assert(s[pa] == ':') by {
        assert(e5[la] == e4[la]);
        assert(e4[la] == e3[la]);
        assert(e3[la] == e2[la]);
        assert(e2[la] == e1[la]);
        assert(e1[la] == ':');
    }
    assert forall|j: int| 0 <= j < lb implies s.subrange(pb, pc)[j] == b[j] by {
        assert(s.subrange(pb, pc)[j] == s[pb + j]);
        assert(s[pb + j] == e[la + 1 + j]);
        assert(e5[la + 1 + j] == e4[la + 1 + j]);
        assert(e4[la + 1 + j] == e3[la + 1 + j]);
        assert(e3[la + 1 + j] == e2[la + 1 + j]);
        assert(e2[la + 1 + j] == b[j]);
    }
    assert(s.subrange(pb, pc) =~= b);
    assert(s[pc] == ':') by {
        assert(e5[pc - pos] == e4[pc - pos]);
        assert(e4[pc - pos] == e3[pc - pos]);
        assert(e3[pc - pos] == ':');
    }
    assert forall|j: int| 0 <= j < ld implies s.subrange(pd, pe)[j] == d.domain[j] by {
        assert(s.subrange(pd, pe)[j] == s[pd + j]);
        assert(s[pd + j] == e[pd - pos + j]);
        assert(e5[pd - pos + j] == e4[pd - pos + j]);
        assert(e4[pd - pos + j] == d.domain[j]);
    }
    assert(s.subrange(pd, pe) =~= d.domain);
    assert(s[pe] == '\n') by {
        assert(e5[pe - pos] == '\n');
    }
    assert(!is_digit(':')) by {
        assert(':' as u32 == 58);
    }
    assert(!is_digit('\n')) by {
        assert('\n' as u32 == 10);
    }
    lemma_parse_num_exact(s, pos, d.count);
    lemma_parse_num_exact(s, pb, ld);
    assert((ld as nat) == d.domain.len());
    assert(parse_num(s, pos) == Some((d.count, pa)));
    assert(parse_num(s, pb) == Some((ld, pc)));
    assert(parse_entry(s, pos) == Some(
        (DomainCountView { domain: s.subrange(pd, pe), count: d.count }, pe + 1),
    ));
    assert(DomainCountView { domain: s.subrange(pd, pe), count: d.count } == d);
}

proof fn lemma_parse_entries_exact(s: Seq<char>, pos: int, stats: Seq<DomainCountView>)
    requires
        forall|i: int|
            0 <= i < stats.len() ==> (0 <= #[trigger] stats[i].count <= i32::MAX
                && stats[i].domain.len() <= i32::MAX),
        0 <= pos <= s.len(),
        s.subrange(pos, s.len() as int) == encode_entries(stats),
    ensures
        parse_entries(s, pos) == Some(stats),
    decreases stats.len(),
{
    if stats.len() == 0 {
        assert(s.subrange(pos, s.len() as int).len() == 0);
        assert(pos == s.len());
        assert(stats =~= Seq::<DomainCountView>::empty());
    } else {
        let e0 = encode_entry(stats[0]);
        let rest = encode_entries(stats.skip(1));
        assert(s.subrange(pos, s.len() as int) == e0 + rest);
        assert(s.len() - pos == e0.len() + rest.len());
        let n = pos + e0.len() as int;
        assert(forall|j: int|
            0 <= j < e0.len() + rest.len() ==> #[trigger] s.subrange(pos, s.len() as int)[j]
                == s[pos + j]);
        assert forall|j: int| 0 <= j < e0.len() implies s.subrange(pos, n)[j] == e0[j] by {
            assert(s.subrange(pos, n)[j] == s[pos + j]);
            assert(s.subrange(pos, s.len() as int)[j] == s[pos + j]);
            assert((e0 + rest)[j] == e0[j]);
        }
        assert(s.subrange(pos, n) =~= e0);
        lemma_parse_entry_exact(s, pos, stats[0]);
        assert forall|j: int| 0 <= j < rest.len() implies s.subrange(n, s.len() as int)[j]
            == rest[j] by {
            assert(s.subrange(n, s.len() as int)[j] == s[n + j]);
            assert(s.subrange(pos, s.len() as int)[e0.len() + j] == s[n + j]);
            assert((e0 + rest)[e0.len() + j] == rest[j]);
        }
        assert(s.subrange(n, s.len() as int) =~= rest);
        assert(forall|i: int|
            0 <= i < stats.skip(1).len() ==> #[trigger] stats.skip(1)[i] == stats[i + 1]);
        lemma_parse_entries_exact(s, n, stats.skip(1));
        assert(parse_entries(s, pos) == Some(seq![stats[0]] + stats.skip(1)));
        assert(seq![stats[0]] + stats.skip(1) =~= stats);
    }
}

proof fn lemma_digit_run_digits(s: Seq<char>, from: int)
    requires
        0 <= from <= s.len(),
    ensures
        from <= digit_run_end(s, from) <= s.len(),
        forall|j: int| from <= j < digit_run_end(s, from) ==> is_digit(#[trigger] s[j]),
    decreases s.len() - from,
{
    if from < s.len() && is_digit(s[from]) {
        lemma_digit_run_digits(s, from + 1);
    }
}

/// A parsed number lies between zero and the count bound.
proof fn lemma_parse_num_range(s: Seq<char>, pos: int)
    requires
        0 <= pos <= s.len(),
    ensures
        parse_num(s, pos) matches Some((v, e)) ==> 0 <= v <= i32::MAX && pos < e <= s.len(),
{
    lemma_digit_run_digits(s, pos);
    let e = digit_run_end(s, pos);
    if pos < e && e - pos <= 10 {
        let sub = s.subrange(pos, e);
        assert(all_digits(sub)) by {
            assert(forall|j: int| 0 <= j < sub.len() ==> #[trigger] sub[j] == s[pos + j]);
        }
        lemma_digits_val_bound(sub);
    }
}

/// Every value a parsed entry list carries fits the codec's bounds.
proof fn lemma_parse_entries_encodable(s: Seq<char>, pos: int)
    requires
        0 <= pos <= s.len(),
    ensures
        parse_entries(s, pos) matches Some(t) ==> forall|i: int|
            0 <= i < t.len() ==> (0 <= #[trigger] t[i].count <= i32::MAX && t[i].domain.len()
                <= i32::MAX),
    decreases s.len() - pos,
{
    if pos == s.len() {
    } else {
        match parse_entry(s, pos) {
            None => {},
            Some((d, n)) => {
                lemma_parse_num_range(s, pos);
                let p1 = parse_num(s, pos).unwrap().1;
                if p1 < s.len() && s[p1] == ':' {
                    lemma_parse_num_range(s, p1 + 1);
                }
                if pos < n <= s.len() {
                    lemma_parse_entries_encodable(s, n);
                    match parse_entries(s, n) {
                        Some(t) => {
                            assert(parse_entries(s, pos) == Some(seq![d] + t));
                            assert(0 <= d.count <= i32::MAX && d.domain.len() <= i32::MAX);
                            assert forall|i: int|
                                0 <= i < (seq![d] + t).len() implies (0 <= #[trigger] (seq![d]
                                + t)[i].count <= i32::MAX && (seq![d] + t)[i].domain.len()
                                <= i32::MAX) by {
                                if i > 0 {
                                    assert((seq![d] + t)[i] == t[i - 1]);
                                }
                            }
                        },
                        None => {},
                    }
                }
            },
        }
    }
}

/// Everything a well-formed artifact text denotes can be encoded again:
/// parsed numbers and domain lengths all fit the codec's bounds.
pub proof fn lemma_parse_encodable(s: Seq<char>, m: IndexView)
    requires
        spec_parse(s) == Some(m),
    ensures
        encodable(m),
{
    lemma_parse_num_range(s, 6);
    let p = parse_num(s, 6).unwrap().1;
    lemma_parse_entries_encodable(s, p + 1);
}

/// The codec round trip: parsing the canonical text of any encodable
/// result yields that result back. A cache entry or artifact written by
/// `encode_index` therefore always reads back as the value it was written
/// from.
pub proof fn lemma_round_trip(m: IndexView)
    requires
        encodable(m),
    ensures
        spec_parse(spec_encode(m)) == Some(m),
{
    let s = spec_encode(m);
    let h = header_text();
    let t = dec_digits(m.total as nat);
    lemma_dec_digits(m.total as nat);
    assert(h.len() == 6);
    assert(s.len() == 6 + t.len() + 1 + encode_entries(m.stats).len());
    assert(forall|j: int| 0 <= j < 6 ==> #[trigger] s[j] == h[j]);
    assert(s.subrange(0, 6) =~= h);
    let p = 6 + t.len() as int;
    assert(forall|j: int| 0 <= j < t.len() ==> #[trigger] s[6 + j] == t[j]);
    assert(s.subrange(6, p) =~= t);
    assert(s[p] == '\n');
    assert(!is_digit('\n')) by {
        assert('\n' as u32 == 10);
    }
    lemma_parse_num_exact(s, 6, m.total);
    assert(parse_num(s, 6) == Some((m.total, p)));
    assert(forall|j: int|
        0 <= j < encode_entries(m.stats).len() ==> #[trigger] s[p + 1 + j] == encode_entries(
            m.stats,
        )[j]);
    assert(s.subrange(p + 1, s.len() as int) =~= encode_entries(m.stats));
    lemma_parse_entries_exact(s, p + 1, m.stats);
    assert(spec_parse(s) == Some(IndexView { stats: m.stats, total: m.total }));
    assert(IndexView { stats: m.stats, total: m.total } == m);
}

} // verus!
