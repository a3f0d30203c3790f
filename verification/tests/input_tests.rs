use gifmonster::input::{
    frame_read_advance, frame_read_start, is_image_extension, is_supported_image_file,
    order_image_files, FrameRead, ListedEntry,
};

fn file(name: &str) -> ListedEntry {
    let extension = name.rsplit_once('.').map(|(_, ext)| ext.to_owned());
    ListedEntry {
        is_file: true,
        file_name: Some(name.to_owned()),
        extension,
    }
}

fn directory(name: &str) -> ListedEntry {
    ListedEntry {
        is_file: false,
        ..file(name)
    }
}

#[test]
fn lower_case_image_extensions_are_recognised() {
    assert!(is_image_extension("png"));
    assert!(is_image_extension("jpg"));
    assert!(is_image_extension("jpeg"));
    assert!(!is_image_extension("PNG"));
    assert!(!is_image_extension("gif"));
    assert!(!is_image_extension(""));
    assert!(!is_image_extension("pngx"));
}

#[test]
fn supported_extensions_ignore_case() {
    assert!(is_supported_image_file(&Some("png".to_owned())));
    assert!(is_supported_image_file(&Some("PNG".to_owned())));
    assert!(is_supported_image_file(&Some("JpEg".to_owned())));
    assert!(is_supported_image_file(&Some("JPG".to_owned())));
    assert!(!is_supported_image_file(&Some("gif".to_owned())));
    assert!(!is_supported_image_file(&Some("png ".to_owned())));
    assert!(!is_supported_image_file(&None));
}

#[test]
fn image_files_are_ordered_by_lower_cased_name() {
    let entries = vec![
        file("b.PNG"),
        file("a.jpg"),
        file("notes.txt"),
        directory("C.jpeg"),
        file("A.png"),
        ListedEntry {
            is_file: true,
            file_name: Some("README".to_owned()),
            extension: None,
        },
        file("frame10.jpeg"),
        file("frame9.jpeg"),
    ];
    assert_eq!(order_image_files(&entries), vec![1, 4, 0, 6, 7]);
}

#[test]
fn equal_names_keep_their_listed_order() {
    let entries = vec![file("Frame.png"), file("x.gif"), file("frame.PNG"), file("FRAME.png")];
    assert_eq!(order_image_files(&entries), vec![0, 2, 3]);
}

#[test]
fn ordering_compares_characters_by_code_point() {
    let entries = vec![file("\u{c9}.png"), file("z.png"), file("e.png"), file("ab.png"), file("a.png")];
    // "\u{e9}.png" sorts after every ASCII name; "a.png" before "ab.png"
    // because '.' sorts before 'b'.
    assert_eq!(order_image_files(&entries), vec![4, 3, 2, 1, 0]);
}

#[test]
fn no_image_files_give_an_empty_order() {
    assert_eq!(order_image_files(&Vec::new()), Vec::<usize>::new());
    let entries = vec![file("a.txt"), directory("b.png")];
    assert_eq!(order_image_files(&entries), Vec::<usize>::new());
}

#[test]
fn frame_reading_starts_by_asking_for_bytes() {
    assert_eq!(frame_read_start(12), FrameRead::NeedMore { filled: 0 });
    assert_eq!(frame_read_start(0), FrameRead::Complete);
}

#[test]
fn frame_reading_follows_the_reads() {
    assert_eq!(frame_read_advance(0, 12, 5), FrameRead::NeedMore { filled: 5 });
    assert_eq!(frame_read_advance(5, 12, 6), FrameRead::NeedMore { filled: 11 });
    assert_eq!(frame_read_advance(11, 12, 1), FrameRead::Complete);
    assert_eq!(frame_read_advance(0, 12, 12), FrameRead::Complete);
    assert_eq!(frame_read_advance(4, 12, 20), FrameRead::Complete);
}

#[test]
fn an_empty_read_ends_the_stream() {
    assert_eq!(frame_read_advance(0, 12, 0), FrameRead::EndOfStream);
    assert_eq!(
        frame_read_advance(7, 12, 0),
        FrameRead::Truncated { filled: 7, expected: 12 }
    );
}
