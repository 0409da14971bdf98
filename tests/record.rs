use led_positions::fusion::Detection;
use led_positions::record::{correct_first, load_record, parse_i32, parse_line, RecordError};

fn lines(v: &[&str]) -> Vec<Vec<u8>> {
    v.iter().map(|l| l.as_bytes().to_vec()).collect()
}

#[test]
fn line_is_read_after_last_space() {
    assert_eq!(parse_line(b"3 = 10,50"), Some(Detection { x: 10, y: 50 }));
    assert_eq!(parse_line(b"12 = -7,+8"), Some(Detection { x: -7, y: 8 }));
    assert_eq!(parse_line(b"4,5"), Some(Detection { x: 4, y: 5 }));
    assert_eq!(parse_line(b"1 = 4,5,6"), Some(Detection { x: 4, y: 5 }));
}

#[test]
fn malformed_lines_are_refused() {
    assert_eq!(parse_line(b"3 = 10"), None);
    assert_eq!(parse_line(b"3 = 10,"), None);
    assert_eq!(parse_line(b"3 = a,5"), None);
    assert_eq!(parse_line(b"3 = 10,50 "), None);
    assert_eq!(parse_line(b""), None);
}

#[test]
fn integers_follow_i32_range() {
    assert_eq!(parse_i32(b"2147483647", 0, 10), Some(i32::MAX));
    assert_eq!(parse_i32(b"2147483648", 0, 10), None);
    assert_eq!(parse_i32(b"-2147483648", 0, 11), Some(i32::MIN));
    assert_eq!(parse_i32(b"-2147483649", 0, 11), None);
    assert_eq!(parse_i32(b"99999999999999999999", 0, 20), None);
    assert_eq!(parse_i32(b"-", 0, 1), None);
    assert_eq!(parse_i32(b"x0042y", 1, 5), Some(42));
}

#[test]
fn first_entry_takes_the_second() {
    let mut r = vec![Detection { x: 1, y: 2 }, Detection { x: 3, y: 4 }, Detection { x: 5, y: 6 }];
    correct_first(&mut r);
    assert_eq!(r, vec![Detection { x: 3, y: 4 }, Detection { x: 3, y: 4 }, Detection { x: 5, y: 6 }]);
}

#[test]
fn record_is_loaded_and_corrected() {
    let text = lines(&["0 = 11,21", "1 = 11,21", "2 = 30,40"]);
    assert_eq!(
        load_record(&text),
        Ok(vec![Detection { x: 11, y: 21 }, Detection { x: 11, y: 21 }, Detection { x: 30, y: 40 }])
    );
    let text = lines(&["0 = 99,99", "1 = 11,21"]);
    assert_eq!(
        load_record(&text),
        Ok(vec![Detection { x: 11, y: 21 }, Detection { x: 11, y: 21 }])
    );
}

#[test]
fn bad_records_are_refused() {
    assert_eq!(load_record(&lines(&["0 = 1,2"])), Err(RecordError::TooShort));
    assert_eq!(load_record(&lines(&[])), Err(RecordError::TooShort));
    assert_eq!(
        load_record(&lines(&["0 = 1,2", "1 = 1;2", "2 = x"])),
        Err(RecordError::Malformed(1))
    );
}

#[test]
fn written_record_reads_back_with_first_replaced() {
    let written = [(17, -4), (17, -4), (-2147483648, 2147483647), (0, 305)];
    let text: Vec<Vec<u8>> = written
        .iter()
        .enumerate()
        .map(|(k, (x, y))| format!("{} = {},{}", k, x, y).into_bytes())
        .collect();
    let expected: Vec<Detection> = written.iter().map(|&(x, y)| Detection { x, y }).collect();
    assert_eq!(load_record(&text), Ok(expected));
    let text = lines(&["0 = 5,6", "1 = 7,8"]);
    assert_eq!(
        load_record(&text),
        Ok(vec![Detection { x: 7, y: 8 }, Detection { x: 7, y: 8 }])
    );
}
