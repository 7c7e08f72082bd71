use psffs::listing::DirEntry;
use psffs::middleware::Decision;
use psffs::middleware::build_index_page;
use psffs::middleware::classify;
use psffs::mount::Mount;

fn mount(root: &str, segment: &str) -> Mount {
    Mount { root_dir: root.as_bytes().to_vec(), public_segment: segment.as_bytes().to_vec() }
}

fn mounts() -> Vec<Mount> {
    vec![mount("/data/photos", "pix"), mount("/data/docs", "docs")]
}

fn bytes(s: &str) -> Vec<u8> {
    s.as_bytes().to_vec()
}

fn entry(name: &str, size: u64, created: i64, display: &str) -> DirEntry {
    DirEntry {
        name: name.as_bytes().to_vec(),
        is_file: true,
        size,
        created,
        created_display: display.as_bytes().to_vec(),
    }
}

#[test]
fn success_passes_through() {
    let d = classify(200, &bytes("/pix/x"), &None, &mounts(), &bytes("/static"));
    assert!(matches!(d, Decision::Passthrough));
}

#[test]
fn other_statuses_pass_through() {
    for status in [201u16, 304, 308, 400, 403, 500] {
        let d = classify(status, &bytes("/pix/x"), &None, &mounts(), &bytes("/static"));
        assert!(matches!(d, Decision::Passthrough));
    }
}

#[test]
fn redirect_is_corrected() {
    let d = classify(
        307,
        &bytes("/pix/vacation"),
        &Some(bytes("/vacation/")),
        &mounts(),
        &bytes("/static"),
    );
    match d {
        Decision::Redirect(location) => {
            assert_eq!(location, bytes("/static/pix/vacation/"));
        }
        _ => panic!("expected a corrected redirect"),
    }
}

#[test]
fn unrecognized_redirect_shapes_pass_through() {
    let path = bytes("/pix/vacation");
    let prefix = bytes("/static");
    // Location that is no suffix of the request path.
    let d = classify(307, &path, &Some(bytes("/elsewhere/")), &mounts(), &prefix);
    assert!(matches!(d, Decision::Passthrough));
    // Location without a trailing slash.
    let d = classify(307, &path, &Some(bytes("/vacation")), &mounts(), &prefix);
    assert!(matches!(d, Decision::Passthrough));
    // No Location header at all.
    let d = classify(307, &path, &None, &mounts(), &prefix);
    assert!(matches!(d, Decision::Passthrough));
}

#[test]
fn not_found_under_a_mount_plans_an_index() {
    let d = classify(404, &bytes("/pix/vacation/"), &None, &mounts(), &bytes("/static"));
    match d {
        Decision::Index(plan) => {
            assert_eq!(plan.fs_dir, bytes("/data/photos/vacation/"));
            assert_eq!(plan.url_base, bytes("/static/pix/vacation/"));
            assert_eq!(plan.decoded_path, bytes("/pix/vacation/"));
            assert_eq!(plan.root_dir, bytes("/data/photos"));
        }
        _ => panic!("expected an index plan"),
    }
}

#[test]
fn not_found_decodes_the_request_path() {
    let d = classify(
        404,
        &bytes("/pix/vacation%20photos/"),
        &None,
        &mounts(),
        &bytes("/static"),
    );
    match d {
        Decision::Index(plan) => {
            assert_eq!(plan.fs_dir, bytes("/data/photos/vacation photos/"));
            assert_eq!(plan.decoded_path, bytes("/pix/vacation photos/"));
            // The URL base re-encodes what the request path had encoded.
            assert_eq!(plan.url_base, bytes("/static/pix/vacation%20photos/"));
        }
        _ => panic!("expected an index plan"),
    }
}

#[test]
fn url_base_joins_with_exactly_one_slash() {
    let d = classify(404, &bytes("/pix/a/"), &None, &mounts(), &bytes("/static/"));
    match d {
        Decision::Index(plan) => {
            assert_eq!(plan.url_base, bytes("/static/pix/a/"));
            assert_eq!(plan.fs_dir, bytes("/data/photos/a/"));
        }
        _ => panic!("expected an index plan"),
    }
}

#[test]
fn not_found_outside_every_mount_passes_through() {
    let d = classify(404, &bytes("/music/x"), &None, &mounts(), &bytes("/static"));
    assert!(matches!(d, Decision::Passthrough));
}

#[test]
fn not_found_picks_the_longest_matching_mount() {
    let table = vec![mount("/data/photos", "pix"), mount("/data/pixels", "pixel")];
    let d = classify(404, &bytes("/pixel/a/"), &None, &table, &bytes("/static"));
    match d {
        Decision::Index(plan) => {
            assert_eq!(plan.root_dir, bytes("/data/pixels"));
            assert_eq!(plan.fs_dir, bytes("/data/pixels/a/"));
        }
        _ => panic!("expected an index plan"),
    }
}

#[test]
fn synthesized_page_has_heading_root_and_rows_newest_first() {
    let d = classify(404, &bytes("/pix/vacation/"), &None, &mounts(), &bytes("/static"));
    let plan = match d {
        Decision::Index(plan) => plan,
        _ => panic!("expected an index plan"),
    };
    let listing = vec![
        entry("beach.jpg", 1000, 100, "2020-07-01 12:00:00"),
        entry("sunset.jpg", 2000, 300, "2021-07-01 12:00:00"),
    ];
    let page = String::from_utf8(build_index_page(&plan, Some(listing))).unwrap();
    let expected = "<!DOCTYPE html><html><head><meta charset=\"utf-8\"></head><body><h1><a href=/static/pix/vacation/>/pix/vacation/</a></h1> <p>/data/photos</p><table><thead><tr><th>name</th><th>size</th><th>created</th></tr></thead><tbody><tr><td><a href=/static/pix/vacation/sunset.jpg>sunset.jpg</a></td><td>2000</td><td>2021-07-01 12:00:00</td></tr><tr><td><a href=/static/pix/vacation/beach.jpg>beach.jpg</a></td><td>1000</td><td>2020-07-01 12:00:00</td></tr></tbody></table></body></html>";
    assert_eq!(page, expected);
}

#[test]
fn synthesized_page_survives_a_failed_listing() {
    let d = classify(404, &bytes("/docs/missing/"), &None, &mounts(), &bytes("/static"));
    let plan = match d {
        Decision::Index(plan) => plan,
        _ => panic!("expected an index plan"),
    };
    let page = String::from_utf8(build_index_page(&plan, None)).unwrap();
    let expected = "<!DOCTYPE html><html><head><meta charset=\"utf-8\"></head><body><h1><a href=/static/docs/missing/>/docs/missing/</a></h1> <p>/data/docs</p></body></html>";
    assert_eq!(page, expected);
}
