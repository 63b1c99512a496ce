use std::collections::HashMap;
use std::io::Write;

use shorturls::aggregate::{aggregate, aggregate_dump};
use shorturls::cache::{from_cache, get_aggregation, CacheLookup};
use shorturls::codec::{decode_index, encode_index};
use shorturls::date::{parse_date, parse_dump_date, Date};
use shorturls::series::{build_series, build_domain, DatedSnapshot};
use shorturls::store::{find_data, find_dumps, get_latest_data, SnapshotStore};
use shorturls::text::commafy;
use shorturls::{healthz, DomainTemplate, IndexTemplate, StatsError};

fn gzip(text: &str) -> Vec<u8> {
    let mut enc = flate2::write::GzEncoder::new(Vec::new(), flate2::Compression::default());
    enc.write_all(text.as_bytes()).unwrap();
    enc.finish().unwrap()
}

fn lines(v: &[&str]) -> Vec<String> {
    v.iter().map(|s| s.to_string()).collect()
}

#[test]
fn test_commafy() {
    let mut map: HashMap<String, serde_json::Value> = HashMap::new();
    map.insert("num".to_string(), serde_json::Value::String("9999999".to_string()));
    let result = commafy(&map.get("num").unwrap().to_string());
    assert_eq!("\"9,999,999\"".to_string(), result);
}

#[test]
fn commafy_groups_of_three() {
    assert_eq!(commafy("1234567"), "1,234,567");
    assert_eq!(commafy("12"), "12");
    assert_eq!(commafy("123"), "123");
    assert_eq!(commafy("1234"), "1,234");
    assert_eq!(commafy("abc1234def"), "abc1,234def");
    assert_eq!(commafy(""), "");
}

#[test]
fn healthz_is_ok() {
    assert_eq!(healthz(), "OK");
}

#[test]
fn aggregate_example_dump() {
    let batch = lines(&[
        "1|https://en.wikipedia.org/wiki/Cat",
        "2|https://en.wikipedia.org/wiki/Dog",
        "3|not a url",
        "4|https://query.wikidata.org/",
    ]);
    let result = aggregate(&batch);
    assert_eq!(result.total, 3);
    assert_eq!(result.stats.len(), 2);
    assert_eq!(result.stats[0].domain, "en.wikipedia.org");
    assert_eq!(result.stats[0].count, 2);
    assert_eq!(result.stats[1].domain, "query.wikidata.org");
    assert_eq!(result.stats[1].count, 1);
}

#[test]
fn aggregate_dump_decompresses() {
    let data = gzip(
        "1|https://en.wikipedia.org/wiki/Cat\n2|https://en.wikipedia.org/wiki/Dog\n3|not a url\n4|https://query.wikidata.org/\n",
    );
    let result = aggregate_dump(&data).unwrap();
    assert_eq!(result.total, 3);
    assert_eq!(result.stats.len(), 2);
    assert_eq!(result.stats[0].domain, "en.wikipedia.org");
    assert_eq!(result.stats[0].count, 2);
}

#[test]
fn aggregate_dump_rejects_garbage() {
    let err = aggregate_dump(&b"not gzip at all".to_vec()).unwrap_err();
    assert_eq!(err, StatsError::IOError);
}

#[test]
fn aggregate_empty_dump() {
    let result = aggregate_dump(&gzip("")).unwrap();
    assert_eq!(result.total, 0);
    assert_eq!(result.stats.len(), 0);
}

#[test]
fn aggregate_skips_hostless_and_unseparated_lines() {
    let batch = lines(&[
        "1|mailto:someone@example.org",
        "no separator here",
        "2|https://example.org/a",
        "3|data:text/plain,hi",
        "4|https://example.org/b?x=a|b",
    ]);
    let result = aggregate(&batch);
    assert_eq!(result.total, 2);
    assert_eq!(result.stats.len(), 1);
    assert_eq!(result.stats[0].domain, "example.org");
    assert_eq!(result.stats[0].count, 2);
}

#[test]
fn aggregate_sorts_by_count_with_stable_ties() {
    let batch = lines(&[
        "1|https://b.example/x",
        "2|https://a.example/x",
        "3|https://c.example/x",
        "4|https://c.example/y",
    ]);
    let result = aggregate(&batch);
    assert_eq!(result.total, 4);
    assert_eq!(result.stats[0].domain, "c.example");
    assert_eq!(result.stats[0].count, 2);
    // b.example was seen before a.example; the tie keeps that order
    assert_eq!(result.stats[1].domain, "b.example");
    assert_eq!(result.stats[2].domain, "a.example");
}

#[test]
fn codec_round_trip() {
    let batch = lines(&["1|https://en.wikipedia.org/wiki/Cat", "2|https://query.wikidata.org/"]);
    let result = aggregate(&batch);
    let text = encode_index(&result);
    let back = decode_index(&text).unwrap();
    assert_eq!(back.total, result.total);
    assert_eq!(back.stats.len(), result.stats.len());
    for (a, b) in back.stats.iter().zip(result.stats.iter()) {
        assert_eq!(a.domain, b.domain);
        assert_eq!(a.count, b.count);
    }
}

#[test]
fn codec_rejects_corrupt_text() {
    assert_eq!(decode_index("").unwrap_err(), StatsError::CorruptDataError);
    assert_eq!(decode_index("not an artifact").unwrap_err(), StatsError::CorruptDataError);
    assert_eq!(decode_index("total:3\n2:bad").unwrap_err(), StatsError::CorruptDataError);
    assert_eq!(decode_index("total:3\n2:16:en.wikipedia.org").unwrap_err(), StatsError::CorruptDataError);
}

#[test]
fn codec_handles_empty_stats() {
    let empty = IndexTemplate { stats: Vec::new(), total: 0 };
    let text = encode_index(&empty);
    assert_eq!(text, "total:0\n");
    let back = decode_index(&text).unwrap();
    assert_eq!(back.total, 0);
    assert!(back.stats.is_empty());
}

#[test]
fn parse_date_reads_artifact_names() {
    let d = parse_date("shorturls-20200101.gz.data").unwrap();
    assert_eq!(d, Date { year: 2020, month: 1, day: 1 });
    let d = parse_date("shorturls-20200229.gz.data").unwrap();
    assert_eq!(d, Date { year: 2020, month: 2, day: 29 });
}

#[test]
fn parse_date_rejects_bad_names() {
    assert_eq!(parse_date("shorturls-20201301.gz.data").unwrap_err(), StatsError::ParseError);
    assert_eq!(parse_date("shorturls-20190229.gz.data").unwrap_err(), StatsError::ParseError);
    assert_eq!(parse_date("shorturls-20200101.gz").unwrap_err(), StatsError::ParseError);
    assert_eq!(parse_date("other-20200101.gz.data").unwrap_err(), StatsError::ParseError);
    assert_eq!(parse_date("shorturls-2020010a.gz.data").unwrap_err(), StatsError::ParseError);
}

#[test]
fn parse_dump_date_reads_dump_names() {
    let d = parse_dump_date("shorturls-20210630.gz").unwrap();
    assert_eq!(d, Date { year: 2021, month: 6, day: 30 });
    assert_eq!(parse_dump_date("shorturls-20210631.gz").unwrap_err(), StatsError::ParseError);
}

fn sample_result(domain: &str, count: i32) -> IndexTemplate {
    IndexTemplate {
        stats: vec![DomainTemplate { domain: domain.to_string(), count }],
        total: count,
    }
}

#[test]
fn store_write_is_idempotent() {
    let mut store = SnapshotStore::new();
    let dump = "shorturls-20200101.gz".to_string();
    let result = sample_result("en.wikipedia.org", 5);

    assert!(!store.has_snapshot_for(&dump));
    assert_eq!(store.write(&dump, &result), Ok(true));
    assert!(store.has_snapshot_for(&dump));
    let names_once = store.list_snapshots();

    // a second run over the same dump changes nothing
    assert_eq!(store.write(&dump, &result), Ok(false));
    assert_eq!(store.list_snapshots(), names_once);
    assert_eq!(names_once, vec!["shorturls-20200101.gz.data".to_string()]);
}

#[test]
fn store_write_rejects_undated_dump_names() {
    let mut store = SnapshotStore::new();
    let result = sample_result("example.org", 1);
    assert_eq!(
        store.write(&"backup-main.gz".to_string(), &result),
        Err(StatsError::ParseError)
    );
    assert_eq!(store.len(), 0);
}

#[test]
fn store_read_and_latest() {
    let mut store = SnapshotStore::new();
    assert_eq!(store.latest().unwrap_err(), StatsError::NoDataError);

    let second = "shorturls-20200102.gz".to_string();
    let first = "shorturls-20200101.gz".to_string();
    store.write(&second, &sample_result("b.example", 2)).unwrap();
    store.write(&first, &sample_result("a.example", 1)).unwrap();

    // chronological order regardless of insertion order
    assert_eq!(
        store.list_snapshots(),
        vec![
            "shorturls-20200101.gz.data".to_string(),
            "shorturls-20200102.gz.data".to_string()
        ]
    );
    assert_eq!(store.latest().unwrap(), "shorturls-20200102.gz.data".to_string());

    let read = store.read(&"shorturls-20200101.gz.data".to_string()).unwrap();
    assert_eq!(read.total, 1);
    assert_eq!(read.stats[0].domain, "a.example");
    assert_eq!(
        store.read(&"shorturls-20200103.gz.data".to_string()).unwrap_err(),
        StatsError::NotFoundError
    );
}

#[test]
fn find_data_orders_and_filters() {
    let names = lines(&[
        "shorturls-20200103.gz.data",
        "notes.txt",
        "shorturls-20200101.gz.data",
        "shorturls-20200102.gz",
        "shorturls-20200102.gz.data",
    ]);
    let sorted = find_data(&names).unwrap();
    assert_eq!(
        sorted,
        vec![
            "shorturls-20200101.gz.data".to_string(),
            "shorturls-20200102.gz.data".to_string(),
            "shorturls-20200103.gz.data".to_string()
        ]
    );
    assert_eq!(get_latest_data(&sorted).unwrap(), "shorturls-20200103.gz.data".to_string());
}

#[test]
fn find_data_surfaces_bad_artifact_names() {
    let names = lines(&["shorturls-2020010x.gz.data"]);
    assert_eq!(find_data(&names).unwrap_err(), StatsError::ParseError);
}

#[test]
fn get_latest_data_needs_data() {
    assert_eq!(get_latest_data(&Vec::new()).unwrap_err(), StatsError::NoDataError);
}

#[test]
fn find_dumps_orders_and_filters() {
    let names = lines(&[
        "shorturls-20200102.gz",
        "readme.md",
        "shorturls-20200101.gz",
        "shorturls-20200101.gz.data",
    ]);
    let sorted = find_dumps(&names);
    assert_eq!(
        sorted,
        vec!["shorturls-20200101.gz".to_string(), "shorturls-20200102.gz".to_string()]
    );
}

#[test]
fn cache_aside_miss_reads_disk_once_and_writes_back() {
    let mut store = SnapshotStore::new();
    let dump = "shorturls-20200101.gz".to_string();
    store.write(&dump, &sample_result("en.wikipedia.org", 7)).unwrap();
    let name = "shorturls-20200101.gz.data".to_string();

    // the cache alone yields nothing on a miss, so the store must be read
    assert!(from_cache(&CacheLookup::Miss).is_none());

    let (value, writeback) = get_aggregation(&store, &name, &CacheLookup::Miss);
    let value = value.unwrap();
    let on_disk = store.read(&name).unwrap();
    assert_eq!(value.total, on_disk.total);
    assert_eq!(value.stats[0].domain, on_disk.stats[0].domain);

    // exactly the canonical artifact text goes back into the cache
    let expected = encode_index(&on_disk);
    assert_eq!(writeback, Some(expected));
}

#[test]
fn cache_aside_hit_skips_writeback() {
    let mut store = SnapshotStore::new();
    let dump = "shorturls-20200101.gz".to_string();
    store.write(&dump, &sample_result("en.wikipedia.org", 7)).unwrap();
    let name = "shorturls-20200101.gz.data".to_string();

    let cached = encode_index(&store.read(&name).unwrap());
    let (value, writeback) = get_aggregation(&store, &name, &CacheLookup::Hit(cached));
    assert_eq!(value.unwrap().total, 7);
    assert_eq!(writeback, None);
}

#[test]
fn cache_aside_tolerates_corrupt_and_unreachable_cache() {
    let mut store = SnapshotStore::new();
    let dump = "shorturls-20200101.gz".to_string();
    store.write(&dump, &sample_result("en.wikipedia.org", 7)).unwrap();
    let name = "shorturls-20200101.gz.data".to_string();

    let corrupt = CacheLookup::Hit("{{{ not an artifact".to_string());
    let (value, writeback) = get_aggregation(&store, &name, &corrupt);
    assert_eq!(value.unwrap().total, 7);
    assert!(writeback.is_some());

    let (value, writeback) = get_aggregation(&store, &name, &CacheLookup::Unreachable);
    assert_eq!(value.unwrap().total, 7);
    assert_eq!(writeback, None);
}

#[test]
fn cache_aside_missing_snapshot_is_not_found() {
    let store = SnapshotStore::new();
    let (value, writeback) =
        get_aggregation(&store, &"shorturls-20200101.gz.data".to_string(), &CacheLookup::Miss);
    assert_eq!(value.unwrap_err(), StatsError::NotFoundError);
    assert_eq!(writeback, None);
}

#[test]
fn unknown_domain_is_not_found() {
    let info = sample_result("en.wikipedia.org", 3);
    let err = build_domain(&info, &"query.wikidata.org".to_string()).unwrap_err();
    assert_eq!(err, StatsError::NotFoundError);
    assert_eq!(err.describe(), "Unknown domain specified");

    let hit = build_domain(&info, &"en.wikipedia.org".to_string()).unwrap();
    assert_eq!(hit.count, 3);
}

fn snapshot(year: u32, month: u32, day: u32, stats: &[(&str, i32)]) -> DatedSnapshot {
    let total = stats.iter().map(|s| s.1).sum();
    DatedSnapshot {
        date: Date { year, month, day },
        info: IndexTemplate {
            stats: stats
                .iter()
                .map(|(d, c)| DomainTemplate { domain: d.to_string(), count: *c })
                .collect(),
            total,
        },
    }
}

#[test]
fn build_series_totals_and_sparse_domain() {
    let snaps = vec![
        snapshot(2020, 1, 1, &[("a.example", 2), ("b.example", 1)]),
        snapshot(2020, 1, 2, &[("b.example", 4)]),
        snapshot(2020, 1, 3, &[("a.example", 5), ("b.example", 2)]),
    ];
    let domain = "a.example".to_string();
    let (totals, domains) = build_series(&snaps, Some(&domain)).unwrap();

    assert_eq!(totals.len(), 3);
    assert_eq!(totals[0].value, 3);
    assert_eq!(totals[1].value, 4);
    assert_eq!(totals[2].value, 7);
    // strictly increasing dates
    assert!(totals[0].date.day < totals[1].date.day && totals[1].date.day < totals[2].date.day);

    // a.example is absent on the second day: no point at all for that date
    assert_eq!(domains.len(), 2);
    assert_eq!(domains[0].date, Date { year: 2020, month: 1, day: 1 });
    assert_eq!(domains[0].value, 2);
    assert_eq!(domains[1].date, Date { year: 2020, month: 1, day: 3 });
    assert_eq!(domains[1].value, 5);
    // while the total series still has a point for that date
    assert!(totals.iter().any(|p| p.date == Date { year: 2020, month: 1, day: 2 }));
    assert!(!domains.iter().any(|p| p.date == Date { year: 2020, month: 1, day: 2 }));
}

#[test]
fn build_series_needs_snapshots() {
    let err = build_series(&Vec::new(), None).unwrap_err();
    assert_eq!(err, StatsError::NoDataError);
    assert_eq!(err.describe(), "no data available yet");
}

#[test]
fn errors_are_classified() {
    assert_eq!(StatsError::IOError.describe(), "could not read source data");
    assert_eq!(StatsError::CorruptDataError.describe(), "snapshot data is corrupt");
    assert_eq!(StatsError::ParseError.describe(), "malformed snapshot name");
}

#[test]
fn build_series_without_domain() {
    let snaps = vec![
        snapshot(2020, 1, 1, &[("a.example", 2)]),
        snapshot(2020, 1, 2, &[("a.example", 3)]),
    ];
    let (totals, domains) = build_series(&snaps, None).unwrap();
    assert_eq!(totals.len(), 2);
    assert!(domains.is_empty());
}

#[test]
fn aggregate_handles_crlf_and_final_newline() {
    let result = aggregate_dump(&gzip("1|https://a.example/x\r\n2|https://a.example/y\r\n")).unwrap();
    assert_eq!(result.total, 2);
    assert_eq!(result.stats[0].domain, "a.example");
    let result = aggregate_dump(&gzip("1|https://a.example/x")).unwrap();
    assert_eq!(result.total, 1);
}

#[test]
fn cache_hit_wins_when_populated() {
    // the cache is consulted first: a populated, well-formed entry is
    // returned as it stands, with no disk read and no write-back
    let mut store = SnapshotStore::new();
    store.write(&"shorturls-20200101.gz".to_string(), &sample_result("a.example", 1)).unwrap();
    let name = "shorturls-20200101.gz.data".to_string();
    let entry = encode_index(&sample_result("a.example", 1));
    let (value, writeback) = get_aggregation(&store, &name, &CacheLookup::Hit(entry));
    assert_eq!(value.unwrap().total, 1);
    assert_eq!(writeback, None);
}

#[test]
fn pipeline_end_to_end() {
    // two daily dumps, aggregated and persisted, then charted
    let mut store = SnapshotStore::new();
    let day1 = aggregate_dump(&gzip("1|https://a.example/x\n2|https://b.example/y\n")).unwrap();
    let day2 = aggregate_dump(&gzip("3|https://a.example/z\n4|https://a.example/w\n5|bad\n")).unwrap();
    store.write(&"shorturls-20200101.gz".to_string(), &day1).unwrap();
    store.write(&"shorturls-20200102.gz".to_string(), &day2).unwrap();

    let mut snaps = Vec::new();
    let mut i = 0;
    while i < store.len() {
        let (name, date) = store.snapshot_at(i);
        let (info, _) = get_aggregation(&store, &name, &CacheLookup::Unreachable);
        snaps.push(DatedSnapshot { date, info: info.unwrap() });
        i += 1;
    }
    let domain = "a.example".to_string();
    let (totals, domains) = build_series(&snaps, Some(&domain)).unwrap();
    assert_eq!(totals.iter().map(|p| p.value).collect::<Vec<_>>(), vec![2, 2]);
    assert_eq!(domains.iter().map(|p| p.value).collect::<Vec<_>>(), vec![1, 2]);
}

#[test]
fn commafy_leaves_short_runs_alone() {
    assert_eq!(commafy("0"), "0");
    assert_eq!(commafy("total: 1000000"), "total: 1,000,000");
}
