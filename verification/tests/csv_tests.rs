use toymc::event::{parse_event, Event};
use toymc::fixed::Fixed;
use toymc::rows::{header_as_str, img_as_str_1d, img_as_str_2d, row_as_str, split_spaces, vec_as_str};

#[test]
fn row() {
    let r = vec![1u64, 2, 3];
    let s = row_as_str(&r);
    assert_eq!(s, "1 2 3".to_owned());
}

#[test]
fn img_2d() {
    let m = vec![vec![1u64, 2, 3], vec![4, 5, 6]];
    let s = img_as_str_2d(&m);
    assert_eq!(s, "1 2 3\n4 5 6\n".to_owned());
}

#[test]
fn img_1d() {
    let m = vec![vec![1u64, 2, 3], vec![4, 5, 6]];
    let s = img_as_str_1d(&m);
    assert_eq!(s, "1 2 3 4 5 6".to_owned());
}

#[test]
fn img_2d_write() {
    let m = vec![vec![1u64, 2, 3], vec![4, 5, 6]];
    let contents = img_as_str_2d(&m);
    assert_eq!("1 2 3\n4 5 6\n", contents);
}

#[test]
fn img_1d_write() {
    let m = vec![vec![1u64, 2, 3], vec![4, 5, 6]];
    let contents = img_as_str_1d(&m) + "\n";
    assert_eq!("1 2 3 4 5 6\n", contents);
}

#[test]
fn header_write() {
    let line = header_as_str(3, 2);
    assert_eq!("event x0 y0 w_0 w_1 w_2 img_0_0 img_0_1 img_1_0 img_1_1\n", line);
}

#[test]
fn event_write() {
    let e = Event {
        number: 123,
        x: Fixed { scaled: 456, decimals: 2 },
        y: Fixed { scaled: 789, decimals: 2 },
        wire_q: vec![3, 1, 4, 15, 92, 65, 35, 89, 79],
        img: vec![vec![1u64, 10], vec![100, 1000]],
    };
    let line = e.as_text_row();
    assert_eq!("123 4.56 7.89 3 1 4 15 92 65 35 89 79 1 10 100 1000\n", line);
}

#[test]
fn vec_as_str_empty_and_single() {
    assert_eq!(vec_as_str(&vec![]), "".to_owned());
    assert_eq!(vec_as_str(&vec![42u64]), "42".to_owned());
}

#[test]
fn split_spaces_round_trips() {
    let parts = split_spaces("a bc  d");
    assert_eq!(parts, vec!["a".to_owned(), "bc".to_owned(), "".to_owned(), "d".to_owned()]);
    assert_eq!(split_spaces(""), vec!["".to_owned()]);
}

#[test]
fn event_text_round_trip() {
    let e = Event {
        number: 7,
        x: Fixed { scaled: -1250, decimals: 3 },
        y: Fixed { scaled: 0, decimals: 2 },
        wire_q: vec![0, 5, 0],
        img: vec![vec![9u64, 0], vec![1, 18446744073709551615]],
    };
    let line = e.as_text_row();
    assert_eq!("7 -1.250 0.00 0 5 0 9 0 1 18446744073709551615\n", line);
    let back = parse_event(&line, 3, 2).unwrap();
    assert_eq!(back.number, e.number);
    assert_eq!(back.x, e.x);
    assert_eq!(back.y, e.y);
    assert_eq!(back.wire_q, e.wire_q);
    assert_eq!(back.img, e.img);
}

#[test]
fn parse_event_rejects_malformed_rows() {
    assert!(parse_event("", 3, 2).is_none());
    assert!(parse_event("1 2 3", 3, 2).is_none());
    // no trailing line break
    assert!(parse_event("7 -1.250 0.00 0 5 0 9 0 1 2", 3, 2).is_none());
    // wrong token count for the dimensions
    assert!(parse_event("7 -1.250 0.00 0 5 0 9 0 1 2\n", 2, 2).is_none());
    // a field that is no numeral
    assert!(parse_event("7 -1.250 0.00 0 x 0 9 0 1 2\n", 3, 2).is_none());
    // a charge with a superfluous leading zero is not canonical
    assert!(parse_event("7 -1.250 0.00 0 05 0 9 0 1 2\n", 3, 2).is_none());
}
