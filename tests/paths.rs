use std::path::PathBuf;
use ungelify::{archive_dir_name, archive_output_dir, path_file_name, ArchiveError};

#[test]
fn correct_archive_dir_names() {
    let archive_expectations = vec![
        ("script.mpk", "script"),
        ("chara.mpk", "chara"),
        ("bgm.cpk", "bgm"),
        ("no-ext", "no-ext.d"),
        ("two.ext.dots", "two.ext"),
    ];

    for pair in archive_expectations {
        let actual_dir_name = archive_dir_name(pair.0).unwrap();
        assert_eq!(PathBuf::from(actual_dir_name), PathBuf::from(pair.1));
    }
}

#[test]
fn file_path_names_work() {
    let filename_expectations = vec![
        ("resources/script.mpk", "script.mpk"),
        ("../gamedata/chara.mpk", "chara.mpk"),
        ("/home/stallman/games/cclcc/music/bgm.mpk", "bgm.mpk"),
        ("op18.mp4", "op18.mp4"),
    ];

    for pair in filename_expectations {
        let path = PathBuf::from(pair.0);
        let actual_filename = path_file_name(path.to_str().unwrap()).unwrap();
        assert_eq!(actual_filename, pair.1);
    }
}

#[test]
fn archive_dir_keeps_parent_directory() {
    assert_eq!(
        PathBuf::from(archive_dir_name("../mpk/script.mpk").unwrap()),
        PathBuf::from("../mpk/script")
    );
    assert_eq!(
        PathBuf::from(archive_dir_name("./archive_no_ext").unwrap()),
        PathBuf::from("./archive_no_ext.d")
    );
}

#[test]
fn path_without_file_name_is_rejected() {
    assert_eq!(path_file_name(".."), Err(ArchiveError::InvalidPath));
    assert_eq!(archive_dir_name("/"), Err(ArchiveError::InvalidPath));
}

#[test]
fn output_dir_is_stem_or_name_with_suffix() {
    assert_eq!(archive_output_dir("data/script.mpk"), Some("script".to_string()));
    assert_eq!(archive_output_dir("data/no-ext"), Some("no-ext.d".to_string()));
    assert_eq!(archive_output_dir("two.ext.dots"), Some("two.ext".to_string()));
    assert_eq!(archive_output_dir(".."), None);
}
