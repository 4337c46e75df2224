use image_splitter::splitter::Splitter;

#[test]
fn add_file_suffix_before_extension() {
    assert_eq!(Splitter::add_file_suffix("page.png", "0"), "page_0.png");
}

#[test]
fn add_file_suffix_splits_at_last_dot() {
    assert_eq!(Splitter::add_file_suffix("archive.tar.gz", "2"), "archive.tar_2.gz");
}

#[test]
fn add_file_suffix_with_longer_suffix() {
    assert_eq!(Splitter::add_file_suffix("scan.jpeg", "12"), "scan_12.jpeg");
}
