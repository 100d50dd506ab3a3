use grepgrep::paths::{
    file_name_string, join_relative, path_components, path_extension, path_file_name,
    path_file_stem, Component,
};

fn chars(s: &str) -> Vec<char> {
    s.chars().collect()
}

fn shape(path: &str) -> Vec<String> {
    path_components(path)
        .iter()
        .map(|c| match c {
            Component::RootDir => "/".to_string(),
            Component::CurDir => ".".to_string(),
            Component::ParentDir => "..".to_string(),
            Component::Normal(v) => v.iter().collect(),
        })
        .collect()
}

#[test]
fn components_follow_std_path() {
    for p in ["/tmp/demo-song.mp3", "a//b/./c/", "./a", "../outside.wav", "/", "", ".", "a/..", "//x/.", "./"] {
        let expected: Vec<String> = std::path::Path::new(p)
            .components()
            .map(|c| c.as_os_str().to_string_lossy().to_string())
            .collect();
        assert_eq!(shape(p), expected, "components of {p:?}");
    }
}

#[test]
fn file_names_stems_and_extensions_follow_std_path() {
    for p in ["/tmp/demo-song.mp3", "archive.tar.gz", ".bashrc", "dir/", "a/..", "/", "x.", "..", "a/b/.c.d"] {
        let path = std::path::Path::new(p);
        let name = path.file_name().map(|s| chars(s.to_str().unwrap()));
        let stem = path.file_stem().map(|s| chars(s.to_str().unwrap()));
        let ext = path.extension().map(|s| chars(s.to_str().unwrap()));
        assert_eq!(path_file_name(p), name, "file name of {p:?}");
        assert_eq!(path_file_stem(p), stem, "stem of {p:?}");
        assert_eq!(path_extension(p), ext, "extension of {p:?}");
    }
    assert_eq!(file_name_string("/tmp/example.wav").as_deref(), Some("example.wav"));
    assert_eq!(file_name_string("/"), None);
}

#[test]
fn join_adds_one_separator() {
    assert_eq!(join_relative("/tmp/project", "example.wav"), "/tmp/project/example.wav");
    assert_eq!(join_relative("/tmp/project/", "example.wav"), "/tmp/project/example.wav");
    assert_eq!(join_relative("", "example.wav"), "example.wav");
}
