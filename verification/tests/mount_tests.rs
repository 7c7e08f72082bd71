use psffs::mount::Mount;
use psffs::mount::resolve_mount;

fn mount(root: &str, segment: &str) -> Mount {
    Mount { root_dir: root.as_bytes().to_vec(), public_segment: segment.as_bytes().to_vec() }
}

#[test]
fn resolves_the_unique_matching_mount() {
    let mounts = vec![mount("/data/photos", "pix"), mount("/data/docs", "docs")];
    let path = "/pix/vacation".as_bytes().to_vec();
    assert_eq!(resolve_mount(&mounts, &path), Some(0));
    let path = "/docs/report.txt".as_bytes().to_vec();
    assert_eq!(resolve_mount(&mounts, &path), Some(1));
}

#[test]
fn no_mount_matches() {
    let mounts = vec![mount("/data/photos", "pix"), mount("/data/docs", "docs")];
    let path = "/music/track".as_bytes().to_vec();
    assert_eq!(resolve_mount(&mounts, &path), None);
    assert_eq!(resolve_mount(&vec![], &path), None);
}

#[test]
fn longest_prefix_wins() {
    let mounts = vec![mount("/short", "pic"), mount("/long", "pictures")];
    let path = "/pictures/holiday".as_bytes().to_vec();
    assert_eq!(resolve_mount(&mounts, &path), Some(1));
    let mounts = vec![mount("/long", "pictures"), mount("/short", "pic")];
    assert_eq!(resolve_mount(&mounts, &path), Some(0));
}

#[test]
fn equal_segments_resolve_to_the_earliest() {
    let mounts = vec![mount("/a", "dup"), mount("/b", "dup")];
    let path = "/dup/x".as_bytes().to_vec();
    assert_eq!(resolve_mount(&mounts, &path), Some(0));
}

#[test]
fn segments_are_trimmed_of_slashes() {
    let mounts = vec![mount("/data", "/pix/")];
    let path = "///pix/x".as_bytes().to_vec();
    assert_eq!(resolve_mount(&mounts, &path), Some(0));
}

#[test]
fn empty_segment_never_matches() {
    let mounts = vec![mount("/data", ""), mount("/other", "/")];
    let path = "/anything".as_bytes().to_vec();
    assert_eq!(resolve_mount(&mounts, &path), None);
}
