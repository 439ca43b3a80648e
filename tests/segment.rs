use key_value_db::cli::{get_reply, rm_reply, set_reply};
use key_value_db::{decimal_string, log_path, parse_gen, sorted_gen_list};

#[test]
fn log_path_joins_directory_and_name() {
    assert_eq!(log_path("/tmp/db", 7), "/tmp/db/7.log");
    assert_eq!(log_path("/tmp/db/", 12), "/tmp/db/12.log");
    assert_eq!(log_path("", 0), "0.log");
    assert_eq!(log_path("d", u64::MAX), "d/18446744073709551615.log");
}

#[test]
fn decimal_of_numbers() {
    assert_eq!(decimal_string(0), "0");
    assert_eq!(decimal_string(10), "10");
    assert_eq!(decimal_string(1234567890), "1234567890");
}

#[test]
fn parse_gen_of_names() {
    assert_eq!(parse_gen("12.log"), Some(12));
    assert_eq!(parse_gen("007.log"), Some(7));
    assert_eq!(parse_gen("+3.log"), Some(3));
    assert_eq!(parse_gen("1.log.log"), Some(1));
    assert_eq!(parse_gen("18446744073709551615.log"), Some(u64::MAX));
    assert_eq!(parse_gen("18446744073709551616.log"), None);
    assert_eq!(parse_gen("a.log"), None);
    assert_eq!(parse_gen("5.txt"), None);
    assert_eq!(parse_gen(".log"), None);
    assert_eq!(parse_gen("5"), None);
    assert_eq!(parse_gen("-5.log"), None);
}

#[test]
fn sorted_gen_list_sorts_and_skips() {
    let names: Vec<String> = ["10.log", "notes.txt", "2.log", "x.log", "02.log", "1.log"]
        .iter()
        .map(|s| s.to_string())
        .collect();
    assert_eq!(sorted_gen_list(&names), vec![1, 2, 2, 10]);
    assert_eq!(sorted_gen_list(&Vec::new()), Vec::<u64>::new());
}

#[test]
fn sorted_gen_list_keeps_each_matching_name() {
    let names: Vec<String> = ["1.log", "01.log", "+1.log", "1.log.log", "dir"]
        .iter()
        .map(|s| s.to_string())
        .collect();
    assert_eq!(sorted_gen_list(&names), vec![1, 1, 1, 1]);
}

#[test]
fn command_line_replies() {
    let hit = get_reply(Some("value1".to_owned()));
    assert_eq!((hit.stdout.as_str(), hit.status), ("value1", 0));
    let miss = get_reply(None);
    assert_eq!((miss.stdout.as_str(), miss.status), ("Key not found", 0));
    let set = set_reply();
    assert_eq!((set.stdout.as_str(), set.status), ("", 0));
    let rm_ok = rm_reply(true);
    assert_eq!((rm_ok.stdout.as_str(), rm_ok.status), ("", 0));
    let rm_miss = rm_reply(false);
    assert_eq!((rm_miss.stdout.as_str(), rm_miss.status), ("Key not found", 1));
}
