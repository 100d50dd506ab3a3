use grepgrep::paths::file_name_string;
use grepgrep::project::{
    archive_entry_target, default_project_file_name, locate_project_audio, plain_file_name,
    project_audio_path, ProjectError, PROJECT_VERSION,
};

#[test]
fn default_project_file_name_uses_audio_stem() {
    let name = default_project_file_name("/tmp/demo-song.mp3");
    assert_eq!(name, "demo-song.ggproj");
}

#[test]
fn default_project_file_name_falls_back_when_stem_is_blank() {
    assert_eq!(default_project_file_name("/"), "project.ggproj");
    assert_eq!(default_project_file_name("/tmp/   .wav"), "project.ggproj");
    assert_eq!(default_project_file_name("take.two.flac"), "take.two.ggproj");
}

#[test]
fn only_plain_file_names_locate_project_audio() {
    assert!(plain_file_name("example.wav"));
    assert!(!plain_file_name("../outside.wav"));
    assert!(!plain_file_name("/etc/passwd"));
    assert!(!plain_file_name("dir/example.wav"));
    assert!(!plain_file_name("."));
    assert!(!plain_file_name(""));
    assert_eq!(
        project_audio_path("/tmp/p", "example.wav").as_deref(),
        Ok("/tmp/p/example.wav")
    );
    assert_eq!(
        project_audio_path("/tmp/p", "../outside.wav"),
        Err(ProjectError::AudioNameNotPlain)
    );
}

#[test]
fn project_version_is_checked_first() {
    assert_eq!(
        locate_project_audio("/tmp/p", PROJECT_VERSION + 1, "example.wav"),
        Err(ProjectError::UnsupportedVersion(2))
    );
    assert_eq!(
        locate_project_audio("/tmp/p", PROJECT_VERSION, "example.wav").as_deref(),
        Ok("/tmp/p/example.wav")
    );
    assert_eq!(
        locate_project_audio("/tmp/p", PROJECT_VERSION, "a/b.wav"),
        Err(ProjectError::AudioNameNotPlain)
    );
}

#[test]
fn archive_entries_are_confined_to_the_root() {
    assert_eq!(archive_entry_target(true, Some("dir/")), Ok(None));
    assert_eq!(archive_entry_target(false, None), Err(ProjectError::UnsafeArchivePath));
    assert_eq!(
        archive_entry_target(false, Some("project.json")),
        Ok(Some("project.json".to_string()))
    );
    assert_eq!(
        archive_entry_target(false, Some("sub/example.wav")),
        Err(ProjectError::EntryNotAtRoot)
    );
}

#[test]
fn saved_audio_name_is_found_again_on_load() {
    for source in ["/tmp/x/example.wav", "song", "/a/b/c.d.e/", "../up/take 2.flac"] {
        let name = file_name_string(source).expect("source has a file name");
        assert!(plain_file_name(&name));
        for dir in ["/tmp/extract", "/tmp/extract/", "", "rel/dir"] {
            let located = locate_project_audio(dir, PROJECT_VERSION, &name).expect("name is plain");
            assert_eq!(file_name_string(&located), Some(name.clone()));
        }
    }
}
