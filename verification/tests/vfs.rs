//! Tests of the store of file contents.

use analyzer_core::disk::Disk;
use analyzer_core::vfs::Vfs;

/// A disk that holds one file.
fn disk(path: &str, text: &str) -> Disk {
    let mut disk = Disk::new();
    disk.add_file(path.to_string(), Some(text.to_string()));
    disk
}

#[test]
fn interns_same_path_to_same_id() {
    let mut vfs = Vfs::new();
    let a = vfs.file_id("/tmp/a.compact");
    let b = vfs.file_id("/tmp/b.compact");
    let a2 = vfs.file_id("/tmp/a.compact");
    assert_eq!(a, a2);
    assert_ne!(a, b);
    assert_eq!(vfs.path(a), "/tmp/a.compact");
}

#[test]
fn overlay_wins_over_disk() {
    let disk = disk("/t/doc.compact", "on disk");
    let mut vfs = Vfs::new();
    let file = vfs.file_id("/t/doc.compact");
    assert_eq!(vfs.read(file, &disk).unwrap(), "on disk");
    assert_eq!(vfs.overlay_version(file), None);

    vfs.set_overlay(file, "in editor".to_string(), 7);
    assert_eq!(vfs.read(file, &disk).unwrap(), "in editor");
    assert_eq!(vfs.overlay_version(file), Some(7));
}

#[test]
fn remove_overlay_falls_back_to_fresh_disk_read() {
    let v1 = disk("/t/doc.compact", "v1 on disk");
    let mut vfs = Vfs::new();
    let file = vfs.file_id("/t/doc.compact");
    vfs.set_overlay(file, "unsaved edit".to_string(), 2);
    assert_eq!(vfs.read(file, &v1).unwrap(), "unsaved edit");

    let v2 = disk("/t/doc.compact", "v2 on disk");
    vfs.remove_overlay(file);
    assert_eq!(vfs.read(file, &v2).unwrap(), "v2 on disk");
    assert_eq!(vfs.overlay_version(file), None);
}

#[test]
fn missing_file_reads_none() {
    let mut vfs = Vfs::new();
    let file = vfs.file_id("/nonexistent/nope.compact");
    assert!(vfs.read(file, &Disk::new()).is_none());
}

#[test]
fn generation_bumps_only_on_mutation() {
    let mut vfs = Vfs::new();
    let g0 = vfs.generation();
    let f = vfs.file_id("/t/a.compact");
    assert_eq!(vfs.generation(), g0);
    vfs.set_overlay(f, "x".to_string(), 1);
    let g1 = vfs.generation();
    assert!(g1 > g0);
    vfs.remove_overlay(f);
    assert!(vfs.generation() > g1);
}

#[test]
fn invalidate_disk_rereads_but_overlay_wins() {
    let path = "/t/d.compact";
    let mut vfs = Vfs::new();
    let f = vfs.file_id(path);
    assert_eq!(vfs.read(f, &disk(path, "v1")).unwrap(), "v1");

    let v2 = disk(path, "v2");
    vfs.invalidate_disk(f);
    assert_eq!(vfs.read(f, &v2).unwrap(), "v2");

    vfs.set_overlay(f, "edit".to_string(), 1);
    let v3 = disk(path, "v3");
    vfs.invalidate_disk(f);
    assert_eq!(vfs.read(f, &v3).unwrap(), "edit");
}

#[test]
fn a_text_is_kept_until_it_is_invalidated() {
    let path = "/t/d.compact";
    let mut vfs = Vfs::new();
    let f = vfs.file_id(path);
    assert_eq!(vfs.read(f, &disk(path, "v1")).unwrap(), "v1");
    assert_eq!(vfs.read(f, &disk(path, "v2")).unwrap(), "v1");
    assert_eq!(vfs.held_text(path), Some("v1"));
    assert_eq!(vfs.held_text("/t/other.compact"), None);
}

#[test]
fn an_unreadable_file_exists_without_a_text() {
    let mut disk = Disk::new();
    disk.add_file("/t/a.compact".to_string(), None);
    assert!(disk.has_file("/t/a.compact"));
    assert!(!disk.has_file("/t/b.compact"));
    assert_eq!(disk.text("/t/a.compact"), None);
    disk.add_file("/t/a.compact".to_string(), Some("now".to_string()));
    assert_eq!(disk.text("/t/a.compact"), Some("now"));
}

#[test]
fn changes_of_one_file_leave_the_others_alone() {
    let mut vfs = Vfs::new();
    let a = vfs.file_id("/w/a.compact");
    let b = vfs.file_id("/w/b.compact");
    let mut d = disk("/w/a.compact", "a on disk");
    d.add_file("/w/b.compact".to_string(), Some("b on disk".to_string()));
    vfs.set_overlay(b, "b".to_string(), 7);
    vfs.set_overlay(a, "a1".to_string(), 1);
    vfs.set_overlay(a, "a2".to_string(), 2);
    assert_eq!(vfs.read(a, &d).as_deref(), Some("a2"));
    assert_eq!(vfs.overlay_version(a), Some(2));
    vfs.invalidate_disk(a);
    assert_eq!(vfs.read(a, &d).as_deref(), Some("a2"));
    vfs.remove_overlay(a);
    assert_eq!(vfs.overlay_version(a), None);
    assert_eq!(vfs.read(a, &d).as_deref(), Some("a on disk"));
    assert_eq!(vfs.read(b, &d).as_deref(), Some("b"));
    assert_eq!(vfs.overlay_version(b), Some(7));
    assert_eq!(vfs.generation(), 5);
}
