use trail::images::ImageIndex;
use trail::site::ImageAsset;

const TEST_PNG: &[u8] = &[
    137, 80, 78, 71, 13, 10, 26, 10, 0, 0, 0, 13, 73, 72, 68, 82, 0, 0, 0, 2, 0, 0, 0, 1, 8, 2, 0, 0, 0, 123, 64,
    232, 221, 0, 0, 0, 13, 73, 68, 65, 84, 120, 156, 99, 248, 207, 192, 0, 68, 0, 8, 254, 1, 255, 198, 158, 121,
    247, 0, 0, 0, 0, 73, 69, 78, 68, 174, 66, 96, 130,
];

#[test]
fn resolution_normalizes_dotted_paths_and_tracks_use() {
    let assets = vec![ImageAsset { source: "/site/a/pic.svg".to_string(), url: "/alpha/a/pic.svg".to_string() }];
    let headers = vec![Some(b"<svg></svg>".to_vec())];
    let mut index = ImageIndex::new(&assets, &headers);
    assert!(index.resolve("/site/a", "missing.png").is_none());
    assert!(!index.is_used(&assets[0]));
    let info = index.resolve("/site/a/b", "../pic.svg").unwrap();
    assert_eq!(info.url, "/alpha/a/pic.svg");
    // SVG headers carry no fixed pixel size.
    assert_eq!(info.width, None);
    assert!(index.is_used(&assets[0]));
}

#[test]
fn raster_dimensions_come_from_the_file_header() {
    let assets = vec![ImageAsset { source: "/tmp/x/dot.png".to_string(), url: "/x/dot.png".to_string() }];
    let headers = vec![Some(TEST_PNG.to_vec())];
    let mut index = ImageIndex::new(&assets, &headers);
    let info = index.resolve("/tmp/x", "dot.png").unwrap();
    assert_eq!((info.width, info.height), (Some(2), Some(1)));
}

#[test]
fn unreadable_images_still_resolve_without_a_size() {
    let assets = vec![ImageAsset { source: "/s/gone.png".to_string(), url: "/p/gone.png".to_string() }];
    let mut index = ImageIndex::new(&assets, &vec![None]);
    let info = index.resolve("/s", "./gone.png").unwrap();
    assert_eq!(info.url, "/p/gone.png");
    assert_eq!((info.width, info.height), (None, None));
}
