use culler::decode::apply_orientation;
use culler::exif_data::{ascii_field, quotient_field, rational_field, uint_field, ExifValue};
use culler::paths::{
    extension_of, file_name_of, file_stem_of, join_path, parent_of, replace_file_name, same_path,
};
use culler::text::{
    ascii_lower_text, at_or_before, decimal_text, join_text, signed_text, split_text, trim_text,
};

fn some(s: &str) -> Option<String> {
    Some(s.to_string())
}

#[test]
fn numbers_are_written_in_decimal() {
    assert_eq!(decimal_text(0), "0");
    assert_eq!(decimal_text(u64::MAX), u64::MAX.to_string());
    assert_eq!(signed_text(-1), "-1");
    assert_eq!(signed_text(i32::MIN), i32::MIN.to_string());
}

#[test]
fn text_is_trimmed_split_and_joined() {
    assert_eq!(trim_text("\u{3000} a b \t\n"), "a b");
    assert_eq!(split_text(",a,,b", ','), vec!["", "a", "", "b"]);
    assert_eq!(split_text("", ','), vec![""]);
    assert_eq!(
        join_text(&vec!["a".to_string(), "b".to_string()], ", "),
        "a, b"
    );
    assert_eq!(ascii_lower_text("CR3\u{C4}"), "cr3\u{C4}");
}

#[test]
fn text_is_ordered_by_its_characters() {
    assert!(at_or_before("IMG_1", "IMG_10"));
    assert!(at_or_before("B", "a"));
    assert!(at_or_before("x", "x"));
    assert!(!at_or_before("z", "\u{61}"));
}

#[test]
fn paths_are_taken_apart() {
    assert_eq!(file_name_of("/a/b.JPG"), some("b.JPG"));
    assert_eq!(file_name_of("/a/b/"), some("b"));
    assert_eq!(file_name_of("/a/.."), None);
    assert_eq!(file_name_of("/"), None);
    assert_eq!(parent_of("/a/b"), some("/a"));
    assert_eq!(parent_of("/a"), some("/"));
    assert_eq!(parent_of("a"), some(""));
    assert_eq!(parent_of("/"), None);
    assert_eq!(file_stem_of("/a/IMG.CR3.xmp"), some("IMG.CR3"));
    assert_eq!(file_stem_of("/a/.hidden"), some(".hidden"));
    assert_eq!(extension_of("/a/IMG.CR3.xmp"), some("xmp"));
    assert_eq!(extension_of("/a/.hidden"), None);
}

#[test]
fn paths_are_put_together() {
    assert_eq!(join_path("/a", "b"), "/a/b");
    assert_eq!(join_path("/a/", "b"), "/a/b");
    assert_eq!(join_path("", "b"), "b");
    assert_eq!(join_path("/a", "/b"), "/b");
    assert_eq!(replace_file_name("/a/b.JPG", ".b.JPG.partial"), "/a/.b.JPG.partial");
    assert_eq!(replace_file_name("/", "b"), "/b");
}

#[test]
fn paths_are_compared_by_their_components() {
    assert!(same_path("/a//b/./c/", "/a/b/c"));
    assert!(!same_path("/a/b", "a/b"));
    assert!(!same_path("./a", "a"));
    assert!(!same_path("/a/../b", "/b"));
}

#[test]
fn turning_a_frame_there_and_back_restores_it() {
    let rgba: Vec<u8> = (0..24).collect();
    for (there, back) in [(2u16, 2u16), (3, 3), (4, 4), (5, 5), (6, 8), (7, 7), (8, 6)] {
        let (turned, w, h) = apply_orientation(rgba.clone(), 2, 3, there);
        let (again, w, h) = apply_orientation(turned, w, h, back);
        assert_eq!((w, h), (2, 3));
        assert_eq!(again, rgba);
    }
}

#[test]
fn exif_values_are_read_by_their_type() {
    let rational = Some(ExifValue::Rational(vec![(1, 250), (2, 3)]));
    assert_eq!(rational_field(&rational), Some((1, 250)));
    assert_eq!(quotient_field(&rational), Some((1, 250)));
    let broken = Some(ExifValue::Rational(vec![(28, 0)]));
    assert_eq!(rational_field(&broken), Some((28, 0)));
    assert_eq!(quotient_field(&broken), None);
    assert_eq!(rational_field(&Some(ExifValue::Rational(vec![]))), None);
    assert_eq!(uint_field(&Some(ExifValue::Byte(vec![7]))), Some(7));
    assert_eq!(uint_field(&Some(ExifValue::Short(vec![400, 1]))), Some(400));
    assert_eq!(uint_field(&Some(ExifValue::Long(vec![70000]))), Some(70000));
    assert_eq!(uint_field(&Some(ExifValue::Long(vec![]))), None);
    assert_eq!(uint_field(&rational), None);
    assert_eq!(uint_field(&None), None);
}

#[test]
fn exif_text_is_trimmed_and_bad_bytes_are_replaced() {
    let text = Some(ExifValue::Ascii(vec![b" 2024:01:02 \0".to_vec()]));
    assert_eq!(ascii_field(&text), some("2024:01:02 \0"));
    let odd = Some(ExifValue::Ascii(vec![vec![b'a', 0xFF, b'b']]));
    assert_eq!(ascii_field(&odd), some("a\u{FFFD}b"));
    assert_eq!(ascii_field(&Some(ExifValue::Ascii(vec![]))), None);
    assert_eq!(ascii_field(&Some(ExifValue::Other)), None);
}
