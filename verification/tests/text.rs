//! Spans and their boxes.
use chibipop::geom::PhysRect;
use chibipop::text::{byte_length, char_index, chars_join, union_chars, width_of, TextGeom};

fn boxed(char_count: usize, x: i32, y: i32, w: i32, h: i32) -> TextGeom {
    TextGeom { char_count, rect: PhysRect { x, y, w, h } }
}

#[test]
fn bytes_are_those_of_utf_8() {
    assert_eq!((width_of('a'), width_of('é'), width_of('猫'), width_of('𠮷')), (1, 2, 3, 4));
    assert_eq!(byte_length("aé猫𠮷"), "aé猫𠮷".len());
    let chars: Vec<char> = "a猫b".chars().collect();
    assert_eq!(char_index(&chars, 0), Some(0));
    assert_eq!(char_index(&chars, 1), Some(1));
    assert_eq!(char_index(&chars, 2), None, "inside a character");
    assert_eq!(char_index(&chars, 4), Some(2));
    assert_eq!(char_index(&chars, 6), None);
}

#[test]
fn a_box_covers_the_words_of_its_characters() {
    let geom = vec![boxed(2, 0, 0, 20, 10), boxed(3, 25, -2, 30, 12), boxed(1, 60, 0, 10, 10)];
    assert!(chars_join(&geom, 1, 2, 3));
    assert_eq!(union_chars(&geom, 1, 2, 3), Some(PhysRect { x: -3, y: -5, w: 61, h: 18 }));
    assert_eq!(union_chars(&geom, 5, 9, 0), Some(PhysRect { x: 60, y: 0, w: 10, h: 10 }));
    assert_eq!(union_chars(&geom, 6, 1, 0), None);
    assert_eq!(union_chars(&geom, 0, 0, 0), None);
}

#[test]
fn boxes_that_stand_too_far_apart_do_not_join() {
    let far = vec![boxed(1, i32::MIN, 0, 1, 1), boxed(1, i32::MAX - 1, 0, 1, 1)];
    assert!(!chars_join(&far, 0, 2, 0));
    assert!(chars_join(&far, 1, 1, 1), "only the boxes of the match count");
    assert_eq!(union_chars(&far, 1, 1, 1).unwrap().x, i32::MAX - 2);
    assert!(!chars_join(&far, 0, 1, 1));
    assert!(chars_join(&far, 0, 1, 0));
    assert!(chars_join(&far, 2, 5, 9), "no box, no rect");
}
