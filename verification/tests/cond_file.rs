use md5ium::cond_file::{
    build_condition_list, build_condition_list_block_2, parse_first_line, parse_i32, parse_unsigned, split_fields,
    CondFileError,
};

fn line(s: &str) -> Option<Vec<u8>> {
    Some(s.as_bytes().to_vec())
}

#[test]
fn fields_split_at_every_space() {
    let f = split_fields(&b"1 -2  3".to_vec());
    assert_eq!(f, vec![b"1".to_vec(), b"-2".to_vec(), Vec::new(), b"3".to_vec()]);
    assert_eq!(split_fields(&Vec::new()), vec![Vec::<u8>::new()]);
    assert_eq!(split_fields(&b"a ".to_vec()), vec![b"a".to_vec(), Vec::new()]);
}

#[test]
fn numbers_read_as_str_parse_reads_them() {
    assert_eq!(parse_unsigned(&b"42".to_vec(), u32::MAX as u64), Some(42));
    assert_eq!(parse_unsigned(&b"+42".to_vec(), u32::MAX as u64), Some(42));
    assert_eq!(parse_unsigned(&b"4294967295".to_vec(), u32::MAX as u64), Some(4294967295));
    assert_eq!(parse_unsigned(&b"4294967296".to_vec(), u32::MAX as u64), None);
    assert_eq!(parse_unsigned(&b"-1".to_vec(), u32::MAX as u64), None);
    assert_eq!(parse_unsigned(&b"".to_vec(), u32::MAX as u64), None);
    assert_eq!(parse_unsigned(&b"+".to_vec(), u32::MAX as u64), None);
    assert_eq!(parse_unsigned(&b"1x".to_vec(), u32::MAX as u64), None);
    assert_eq!(parse_unsigned(&b"18446744073709551615".to_vec(), u64::MAX), Some(u64::MAX));
    assert_eq!(parse_unsigned(&b"18446744073709551616".to_vec(), u64::MAX), None);
    assert_eq!(parse_i32(&b"-2147483648".to_vec()), Some(i32::MIN));
    assert_eq!(parse_i32(&b"2147483647".to_vec()), Some(i32::MAX));
    assert_eq!(parse_i32(&b"2147483648".to_vec()), None);
    assert_eq!(parse_i32(&b"-2147483649".to_vec()), None);
    assert_eq!(parse_i32(&b"-0".to_vec()), Some(0));
    assert_eq!(parse_i32(&b"-".to_vec()), None);
    assert_eq!(parse_i32(&b"+7".to_vec()), Some(7));
    for s in ["0", "17", "-17", "+3", "abc", "", "99999999999"] {
        assert_eq!(parse_i32(&s.as_bytes().to_vec()), s.parse::<i32>().ok());
        assert_eq!(parse_unsigned(&s.as_bytes().to_vec(), u32::MAX as u64), s.parse::<u32>().ok().map(|v| v as u64));
    }
}

#[test]
fn first_block_lines() {
    let (q, c) = parse_first_line(&b"3 5 -1 0 0".to_vec()).unwrap();
    assert_eq!(q, 7);
    assert_eq!((c.ind, c.cref, c.crind, c.add_const), (5, -1, 0, 0));
    assert_eq!(parse_first_line(&b"3 5 -1 0".to_vec()).unwrap_err(), CondFileError::MissingField);
    assert_eq!(parse_first_line(&b"3 5 x 0 0".to_vec()).unwrap_err(), CondFileError::BadNumber);
    assert_eq!(parse_first_line(&b"72 5 -1 0 0".to_vec()).unwrap_err(), CondFileError::IndexOutOfRange);
    assert_eq!(parse_first_line(&b"71 5 -1 0 0 extra".to_vec()).unwrap().0, 75);
    assert_eq!(parse_first_line(&b"-1 5 -1 0 0".to_vec()).unwrap_err(), CondFileError::BadNumber);
}

#[test]
fn first_table_keeps_each_list_sorted() {
    let lines = vec![
        line("0 9 -1 0 0"),
        line("0 3 -2 0 0"),
        None,
        line("0 9 2 9 0"),
        line("0 5 -1 0 0"),
        line("67 1 -1 0 0"),
    ];
    let t = build_condition_list(&lines).unwrap();
    let inds: Vec<(i32, i32)> = t[4].list.iter().map(|c| (c.ind, c.cref)).collect();
    assert_eq!(inds, vec![(3, -2), (5, -1), (9, -1), (9, 2)]);
    assert_eq!(t[71].list.len(), 1);
    for k in 0..76 {
        assert_eq!(t[k].val, 0);
        assert_eq!(t[k].tval, 0);
        assert_eq!(t[k].bf, [0, 0, 0, 0]);
        if k != 4 && k != 71 {
            assert!(t[k].list.is_empty());
        }
    }
}

#[test]
fn first_table_reports_the_first_bad_line() {
    let lines = vec![line("0 9 -1 0 0"), line("80 1 -1 0 0"), line("0 9")];
    assert_eq!(build_condition_list(&lines).unwrap_err(), CondFileError::IndexOutOfRange);
    let lines = vec![line("0 9 -1 0 0"), line("0 9"), line("80 1 -1 0 0")];
    assert_eq!(build_condition_list(&lines).unwrap_err(), CondFileError::MissingField);
}

#[test]
fn second_table_rows() {
    let lines = vec![line("1 2 3"), None, line("4 5 6 7")];
    let t = build_condition_list_block_2(&lines).unwrap();
    assert_eq!(t[0], [1, 2, 3]);
    assert_eq!(t[1], [0, 0, 0]);
    assert_eq!(t[2], [4, 5, 6]);
    assert_eq!(t[308], [0, 0, 0]);
    assert_eq!(build_condition_list_block_2(&vec![line("1 2")]).unwrap_err(), CondFileError::MissingField);
    assert_eq!(build_condition_list_block_2(&vec![line("1 -2 3")]).unwrap_err(), CondFileError::BadNumber);
}

#[test]
fn second_table_has_309_rows() {
    let mut lines: Vec<Option<Vec<u8>>> = (0..309).map(|_| line("1 1 1")).collect();
    assert!(build_condition_list_block_2(&lines).is_ok());
    lines.push(None);
    assert!(build_condition_list_block_2(&lines).is_ok());
    lines.push(line("1 1 1"));
    assert_eq!(build_condition_list_block_2(&lines).unwrap_err(), CondFileError::TooManyLines);
}
