use psffs::listing::DirEntry;
use psffs::listing::collect_readable;
use psffs::render::render_index;
use psffs::render::sort_entries;
use psffs::render::u64_to_dec;

fn entry(name: &str, size: u64, created: i64, display: &str) -> DirEntry {
    DirEntry {
        name: name.as_bytes().to_vec(),
        is_file: true,
        size,
        created,
        created_display: display.as_bytes().to_vec(),
    }
}

#[test]
fn collect_keeps_exactly_the_readable_entries() {
    let items = vec![
        Some(entry("a", 1, 10, "t")),
        None,
        Some(entry("b", 2, 20, "t")),
        None,
        None,
        Some(entry("c", 3, 30, "t")),
    ];
    let collected = collect_readable(items);
    assert_eq!(collected.len(), 3);
    let names: Vec<Vec<u8>> = collected.into_iter().map(|e| e.name).collect();
    assert_eq!(names, vec![b"a".to_vec(), b"b".to_vec(), b"c".to_vec()]);
}

#[test]
fn collect_of_only_unreadable_entries_is_empty() {
    let items: Vec<Option<DirEntry>> = vec![None, None];
    assert_eq!(collect_readable(items).len(), 0);
}

#[test]
fn sort_is_newest_first() {
    let entries = vec![
        entry("old", 1, 100, "t"),
        entry("newest", 2, 300, "t"),
        entry("mid", 3, 200, "t"),
    ];
    let sorted = sort_entries(entries);
    let names: Vec<Vec<u8>> = sorted.into_iter().map(|e| e.name).collect();
    assert_eq!(names, vec![b"newest".to_vec(), b"mid".to_vec(), b"old".to_vec()]);
}

#[test]
fn equal_times_break_ties_by_name() {
    let entries = vec![
        entry("zeta", 1, 100, "t"),
        entry("alpha", 2, 100, "t"),
        entry("mu", 3, 100, "t"),
    ];
    let sorted = sort_entries(entries);
    let names: Vec<Vec<u8>> = sorted.into_iter().map(|e| e.name).collect();
    assert_eq!(names, vec![b"alpha".to_vec(), b"mu".to_vec(), b"zeta".to_vec()]);
}

#[test]
fn decimal_digits_are_exact() {
    assert_eq!(u64_to_dec(0), b"0".to_vec());
    assert_eq!(u64_to_dec(7), b"7".to_vec());
    assert_eq!(u64_to_dec(1234567890), b"1234567890".to_vec());
    assert_eq!(u64_to_dec(u64::MAX), b"18446744073709551615".to_vec());
}

#[test]
fn renders_the_exact_table() {
    let base = "/static/pix/".as_bytes().to_vec();
    let listing = vec![
        entry("a b", 7, 100, "2020-01-01 10:00:00"),
        entry("new", 12, 200, "2021-06-01 09:30:00"),
    ];
    let html = render_index(Some(listing), &base);
    let expected = "<table><thead><tr><th>name</th><th>size</th><th>created</th></tr></thead><tbody><tr><td><a href=/static/pix/new>new</a></td><td>12</td><td>2021-06-01 09:30:00</td></tr><tr><td><a href=/static/pix/a%20b>a b</a></td><td>7</td><td>2020-01-01 10:00:00</td></tr></tbody></table>";
    assert_eq!(String::from_utf8(html).unwrap(), expected);
}

#[test]
fn empty_listing_renders_an_empty_table() {
    let base = "/static/pix/".as_bytes().to_vec();
    let html = render_index(Some(Vec::new()), &base);
    let expected =
        "<table><thead><tr><th>name</th><th>size</th><th>created</th></tr></thead><tbody></tbody></table>";
    assert_eq!(String::from_utf8(html).unwrap(), expected);
}

#[test]
fn failed_listing_renders_the_empty_fragment() {
    let base = "/static/pix/".as_bytes().to_vec();
    assert_eq!(render_index(None, &base), Vec::<u8>::new());
}

#[test]
fn rendering_twice_is_byte_identical() {
    let base = "/static/docs/".as_bytes().to_vec();
    let make = || {
        vec![
            entry("one", 1, 5, "a"),
            entry("two", 2, 5, "b"),
            entry("three", 3, 9, "c"),
        ]
    };
    let first = render_index(Some(make()), &base);
    let second = render_index(Some(make()), &base);
    assert_eq!(first, second);
}
