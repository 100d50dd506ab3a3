use std::io::Write;

use grepgrep::archive::{project_archive_bytes, project_archive_files, project_file_name};
use grepgrep::project::ProjectError;

fn zip_of(entries: &[(&str, &[u8])], dirs: &[&str]) -> Vec<u8> {
    let mut writer = zip::ZipWriter::new(std::io::Cursor::new(Vec::new()));
    let options = zip::write::FileOptions::default();
    for dir in dirs {
        writer.add_directory(*dir, options).unwrap();
    }
    for (name, contents) in entries {
        writer.start_file(*name, options).unwrap();
        writer.write_all(contents).unwrap();
    }
    writer.finish().unwrap().into_inner()
}

#[test]
fn project_archive_yields_its_root_files_in_order() {
    let bytes = zip_of(&[("project.json", b"{}"), ("example.wav", b"audio")], &["extra/"]);
    let files = project_archive_files(&bytes).expect("archive should be read");
    assert_eq!(
        files,
        vec![
            ("project.json".to_string(), b"{}".to_vec()),
            ("example.wav".to_string(), b"audio".to_vec()),
        ]
    );
}

#[test]
fn archive_with_escaping_entry_is_refused() {
    let bytes = zip_of(&[("project.json", b"{}"), ("../outside.wav", b"audio")], &[]);
    assert_eq!(project_archive_files(&bytes), Err(ProjectError::UnsafeArchivePath));
}

#[test]
fn archive_with_nested_entry_is_refused() {
    let bytes = zip_of(&[("sub/example.wav", b"audio"), ("../outside.wav", b"x")], &[]);
    assert_eq!(project_archive_files(&bytes), Err(ProjectError::EntryNotAtRoot));
}

#[test]
fn bytes_that_are_not_a_zip_archive_are_refused() {
    assert_eq!(project_archive_files(&b"not a zip".to_vec()), Err(ProjectError::UnreadableArchive));
    assert_eq!(project_archive_files(&Vec::new()), Err(ProjectError::UnreadableArchive));
}

#[test]
fn empty_archive_yields_no_files() {
    let bytes = zip_of(&[], &[]);
    assert_eq!(project_archive_files(&bytes), Ok(Vec::new()));
}

#[test]
fn project_archive_round_trips_metadata_and_audio() {
    let bytes = project_archive_bytes(b"{\"version\":1}".to_vec(), "example.wav", b"audio".to_vec())
        .expect("archive should be written");
    let files = project_archive_files(&bytes).expect("archive should be read");
    assert_eq!(project_file_name(), "project.json");
    assert_eq!(
        files,
        vec![
            ("project.json".to_string(), b"{\"version\":1}".to_vec()),
            ("example.wav".to_string(), b"audio".to_vec()),
        ]
    );
}

#[test]
fn load_rejects_audio_paths_outside_the_project_archive() {
    let bytes = project_archive_bytes(b"{}".to_vec(), "../outside.wav", b"audio".to_vec())
        .expect("archive should be written");
    assert_eq!(project_archive_files(&bytes), Err(ProjectError::UnsafeArchivePath));
}

#[test]
fn project_archive_bytes_do_not_depend_on_when_they_are_written() {
    let first = project_archive_bytes(b"{}".to_vec(), "a.wav", b"xyz".to_vec());
    let second = project_archive_bytes(b"{}".to_vec(), "a.wav", b"xyz".to_vec());
    assert!(first.is_some());
    assert_eq!(first, second);
}

fn stored_zip_with_corrupt_data(name: &str, contents: &[u8]) -> Vec<u8> {
    let mut writer = zip::ZipWriter::new(std::io::Cursor::new(Vec::new()));
    let options = zip::write::FileOptions::default()
        .compression_method(zip::CompressionMethod::Stored);
    writer.start_file(name, options).unwrap();
    writer.write_all(contents).unwrap();
    let mut bytes = writer.finish().unwrap().into_inner();
    let at = bytes
        .windows(contents.len())
        .position(|w| w == contents)
        .expect("stored contents appear in the archive");
    bytes[at] ^= 0xFF;
    bytes
}

#[test]
fn entry_name_is_checked_before_its_data_is_used() {
    let bytes = stored_zip_with_corrupt_data("../bad.wav", b"stored payload bytes");
    assert_eq!(project_archive_files(&bytes), Err(ProjectError::UnsafeArchivePath));
}

#[test]
fn entry_whose_data_cannot_be_read_refuses_the_archive() {
    let bytes = stored_zip_with_corrupt_data("good.wav", b"stored payload bytes");
    assert_eq!(project_archive_files(&bytes), Err(ProjectError::UnreadableArchive));
}
