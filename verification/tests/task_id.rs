use aplan::error::Error;
use aplan::task_id::TaskId;

#[test]
fn task_id_conversion() {
    let task_id = TaskId::new(vec![1, 1]);
    assert_eq!(task_id.as_vec(), &vec![1, 1]);
    assert_eq!(task_id.to_string(), "1.1");
    assert_eq!(TaskId::new(vec![1, 2, 3, 4]).to_string(), "1.2.3.4");
}

#[test]
fn task_id_parse() {
    assert_eq!(TaskId::parse("1.1").unwrap().as_vec(), &vec![1, 1]);
    assert_eq!(TaskId::parse("4.523.123").unwrap().as_vec(), &vec![4, 523, 123]);
    assert!(TaskId::parse(".1.1").is_err());
    assert!(TaskId::parse("1.1.").is_err());
}

#[test]
fn task_id_parent_id() {
    assert_eq!(TaskId::parse("1.1").unwrap().parent().unwrap().as_vec(), &vec![1]);
    assert_eq!(
        TaskId::parse("1.1.234.12").unwrap().parent().unwrap().as_vec(),
        &vec![1, 1, 234]
    );
    assert_eq!(
        TaskId::parse("2.534.234.12.243.123").unwrap().parent().unwrap().as_vec(),
        &vec![2, 534, 234, 12, 243]
    );
}

#[test]
fn parse_refuses_what_is_no_id() {
    for text in [
        "0",
        "00",
        "+1",
        "1..2",
        "a",
        "1.a",
        "4294967296",
        "04294967296",
        "99999999999999999999",
        "1.0",
        "1.000",
        " 1",
        "1 ",
        "-1",
        ".",
        "1.",
        ".1",
        "1.+2",
        "\u{0661}",
    ] {
        assert_eq!(
            TaskId::parse(text),
            Err(Error::BadTaskIdString(text.to_string())),
            "{text:?}"
        );
    }
    assert_eq!(TaskId::parse("4294967295").unwrap().as_vec(), &vec![u32::MAX]);
    assert_eq!(TaskId::parse("").unwrap(), TaskId::get_root_id());
}

#[test]
fn parse_reads_through_leading_zeros() {
    assert_eq!(TaskId::parse("01").unwrap().as_vec(), &vec![1]);
    assert_eq!(TaskId::parse("007.010").unwrap().as_vec(), &vec![7, 10]);
    assert_eq!(TaskId::parse("1.02.3").unwrap().as_vec(), &vec![1, 2, 3]);
    assert_eq!(TaskId::parse("0000000000000000000000001").unwrap().as_vec(), &vec![1]);
    assert_eq!(TaskId::parse("0004294967295").unwrap().as_vec(), &vec![u32::MAX]);
    // Writing gives the notation without them.
    assert_eq!(TaskId::parse("01.002").unwrap().to_string(), "1.2");
    assert_eq!(TaskId::parse("01.002").unwrap(), TaskId::parse("1.2").unwrap());
}
