use fscache::index::CacheIndex;
use fscache::timestamp::Timestamp;

fn ts(y: i32, mo: u8, d: u8, h: u8, mi: u8, s: u8) -> Timestamp {
    Timestamp { year: y, month: mo, day: d, hour: h, minute: mi, second: s }
}

#[test]
fn test_cache_creation() {
    let mut cache = CacheIndex::new("");
    cache.clear_cache();
    assert!(cache.get_entries().is_empty());
}

#[test]
fn parses_well_formed_lines() {
    let idx = CacheIndex::new("a%%%2020-01-02 03:04:05\nb%%%1999-12-31 23:59:59");
    let entries = idx.get_entries();
    assert_eq!(entries.len(), 2);
    assert_eq!(idx.lookup("a"), Some(ts(2020, 1, 2, 3, 4, 5)));
    assert_eq!(idx.lookup("b"), Some(ts(1999, 12, 31, 23, 59, 59)));
    assert_eq!(idx.lookup("c"), None);
}

#[test]
fn skips_malformed_lines() {
    let text = "\n\
                good%%%2020-01-02 03:04:05\n\
                no separator on this line\n\
                badtime%%%not a timestamp\n\
                badmonth%%%2020-13-01 00:00:00\n\
                baddate%%%2019-02-29 00:00:00\n\
                also-good%%%2020-02-29 00:00:00";
    let idx = CacheIndex::new(text);
    assert_eq!(idx.get_entries().len(), 2);
    assert_eq!(idx.lookup("good"), Some(ts(2020, 1, 2, 3, 4, 5)));
    assert_eq!(idx.lookup("also-good"), Some(ts(2020, 2, 29, 0, 0, 0)));
    assert_eq!(idx.lookup("badtime"), None);
    assert_eq!(idx.lookup("badmonth"), None);
    assert_eq!(idx.lookup("baddate"), None);
}

#[test]
fn later_line_wins_for_a_repeated_key() {
    let idx = CacheIndex::new("k%%%2020-01-01 00:00:00\nk%%%2021-06-07 08:09:10");
    assert_eq!(idx.get_entries().len(), 1);
    assert_eq!(idx.lookup("k"), Some(ts(2021, 6, 7, 8, 9, 10)));
}

#[test]
fn trims_keys_and_timestamps() {
    let idx = CacheIndex::new("  padded  %%%  2020-01-02 03:04:05  ");
    assert_eq!(idx.lookup("padded"), Some(ts(2020, 1, 2, 3, 4, 5)));
}

#[test]
fn renders_one_line_per_record() {
    let idx = CacheIndex::new("key%%%2020-01-02 03:04:05");
    assert_eq!(idx.update_file(), "\nkey%%%2020-01-02 03:04:05");
}

#[test]
fn index_round_trip() {
    let text = "a%%%2020-01-02 03:04:05\nb%%%1999-12-31 23:59:59\nc%%%0001-01-01 00:00:00";
    let idx = CacheIndex::new(text);
    assert_eq!(idx.get_entries().len(), 3);
    let persisted = idx.update_file();
    let reloaded = CacheIndex::new(&persisted);
    assert_eq!(idx.get_entries(), reloaded.get_entries());
}

#[test]
fn clear_cache_empties_the_index() {
    let mut idx = CacheIndex::new("a%%%2020-01-02 03:04:05");
    assert_eq!(idx.get_entries().len(), 1);
    idx.clear_cache();
    assert!(idx.get_entries().is_empty());
    assert_eq!(idx.update_file(), "");
}

#[test]
fn timestamp_parse_and_render_exactly() {
    let t = Timestamp::parse("2020-01-02 03:04:05").unwrap();
    assert_eq!(t, ts(2020, 1, 2, 3, 4, 5));
    assert_eq!(t.render(), "2020-01-02 03:04:05");
    assert_eq!(ts(7, 11, 30, 9, 8, 7).render(), "0007-11-30 09:08:07");
    assert_eq!(Timestamp::parse("2020-01-02T03:04:05"), None);
    assert_eq!(Timestamp::parse("2020-01-02 03:04:05 extra"), None);
    assert_eq!(Timestamp::parse("2020-01-02 25:00:00"), None);
    assert_eq!(Timestamp::parse("+99999-01-02 03:04:05"), None);
    assert_eq!(Timestamp::parse(""), None);
}
