use gen_rp_rs::{
    ends_with, is_pack_icon, is_png_name, Latest, Manifest, PackMcMeta, Version,
    OLDEST_PACK_FORMAT, PACK_FORMAT,
};

fn version(id: &str, kind: &str) -> Version {
    Version {
        id: id.to_string(),
        kind: kind.to_string(),
        url: format!("https://example.invalid/{id}.json"),
        time: String::new(),
        release_time: String::new(),
        sha1: String::new(),
        compliance_level: 1,
    }
}

fn manifest(versions: Vec<Version>) -> Manifest {
    Manifest {
        latest: Latest { release: "1.0".to_string(), snapshot: "1.1-a".to_string() },
        versions,
    }
}

#[test]
fn first_release_skips_snapshots() {
    let m = manifest(vec![
        version("1.1-a", "snapshot"),
        version("1.1-b", "old_beta"),
        version("1.0", "release"),
        version("0.9", "release"),
    ]);
    assert_eq!(m.first_release(), Some(2));
}

#[test]
fn first_release_of_a_listing_without_releases() {
    assert_eq!(manifest(vec![]).first_release(), None);
    let m = manifest(vec![version("a", "snapshot"), version("b", "Release"), version("c", "releases")]);
    assert_eq!(m.first_release(), None);
}

#[test]
fn first_release_may_be_the_first_entry() {
    let m = manifest(vec![version("1.0", "release"), version("0.9", "snapshot")]);
    assert_eq!(m.first_release(), Some(0));
}

#[test]
fn pack_metadata_declares_the_supported_formats() {
    let meta = PackMcMeta::new("All textures are inverted");
    assert_eq!(meta.pack.description, "All textures are inverted");
    assert_eq!(meta.pack.pack_format, 64);
    assert_eq!(meta.pack.supported_formats.min_inclusive, 3);
    assert_eq!(meta.pack.supported_formats.max_inclusive, 64);
    assert_eq!((OLDEST_PACK_FORMAT, PACK_FORMAT), (3, 64));
}

#[test]
fn ends_with_compares_the_tail() {
    assert!(ends_with(b"stone.png", b".png"));
    assert!(ends_with(b"stone.png", b""));
    assert!(ends_with(b"", b""));
    assert!(!ends_with(b"png", b".png"));
    assert!(!ends_with(b"stone.png.mcmeta", b".png"));
}

#[test]
fn png_names_end_in_the_extension() {
    assert!(is_png_name(b"dirt.png"));
    assert!(is_png_name(b".png"));
    assert!(!is_png_name(b"dirt.PNG"));
    assert!(!is_png_name(b"dirt.png "));
    assert!(!is_png_name(b""));
}

#[test]
fn the_pack_icon_is_named_exactly() {
    assert!(is_pack_icon(b"pack.png"));
    assert!(!is_pack_icon(b"a_pack.png"));
    assert!(!is_pack_icon(b"pack.pn"));
    assert!(!is_pack_icon(b"Pack.png"));
    assert!(!is_pack_icon(b""));
}
