use spaceinsight::category::FileCategory;

#[test]
fn test_file_category_classification() {
    assert_eq!(FileCategory::from_path("image.jpg"), FileCategory::Media);
    assert_eq!(FileCategory::from_path("code.rs"), FileCategory::Code);
    assert_eq!(FileCategory::from_path("archive.zip"), FileCategory::Archive);
    assert_eq!(FileCategory::from_path("doc.pdf"), FileCategory::Document);
    assert_eq!(FileCategory::from_path(".gitignore"), FileCategory::System);
}

#[test]
fn category_ignores_extension_case() {
    assert_eq!(FileCategory::from_path("/photos/IMAGE.JPG"), FileCategory::Media);
    assert_eq!(FileCategory::from_path("/src/Main.RS"), FileCategory::Code);
}

#[test]
fn category_uses_last_extension_of_file_name() {
    assert_eq!(FileCategory::from_path("/tmp/backup.tar.gz"), FileCategory::Archive);
    assert_eq!(FileCategory::from_path("/a.b/readme"), FileCategory::Other);
    assert_eq!(FileCategory::from_path("/home/.config"), FileCategory::System);
    assert_eq!(FileCategory::from_path("/home/notes.unknown"), FileCategory::Other);
}
