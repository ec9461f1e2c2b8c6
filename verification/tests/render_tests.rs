use trod::history::DirEntry;
use trod::render::{home_from, list_line_with, picker_line_with, render_json, render_json_with, shorten_path_with};
use trod::text::{decimal_string, chars_of, string_of};
use trod::time::{relative_time_at, rfc3339, parse_rfc3339, seconds_between};

const SEC: i64 = 1_000_000_000;

fn entry(path: &str, visit_count: i64, last: i64) -> DirEntry {
    DirEntry { path: path.to_string(), visit_count, last_visited: last, first_visited: last }
}

#[test]
fn decimal_notation() {
    assert_eq!(decimal_string(0), "0");
    assert_eq!(decimal_string(7), "7");
    assert_eq!(decimal_string(1234567890), "1234567890");
    assert_eq!(decimal_string(-42), "-42");
    assert_eq!(decimal_string(i64::MIN), i64::MIN.to_string());
    assert_eq!(decimal_string(i64::MAX), i64::MAX.to_string());
}

#[test]
fn chars_round_trip() {
    let v = chars_of("héllo ~/ü");
    assert_eq!(v.len(), 9);
    assert_eq!(string_of(&v), "héllo ~/ü");
}

#[test]
fn shorten_replaces_leading_home() {
    let home = Some("/home/user".to_string());
    assert_eq!(shorten_path_with("/home/user/projects", &home), "~/projects");
    assert_eq!(shorten_path_with("/home/user", &home), "~");
    assert_eq!(shorten_path_with("/etc/nginx", &home), "/etc/nginx");
    assert_eq!(shorten_path_with("/home/username", &home), "/home/username");
    assert_eq!(shorten_path_with("/home/username/x", &home), "/home/username/x");
    assert_eq!(shorten_path_with("/home/user/", &home), "~/");
    assert_eq!(shorten_path_with("/home/use", &home), "/home/use");
    assert_eq!(shorten_path_with("/tmp", &home_from(Some(None))), "/tmp");
    assert_eq!(shorten_path_with("/home/user/x", &None), "/home/user/x");
    assert_eq!(shorten_path_with("/x", &Some(String::new())), "~/x");
}

#[test]
fn relative_time_labels() {
    let now = 1_000_000 * SEC;
    assert_eq!(relative_time_at(now, now), "just now");
    assert_eq!(relative_time_at(now, now - 59 * SEC), "just now");
    assert_eq!(relative_time_at(now, now + 3600 * SEC), "just now");
    assert_eq!(relative_time_at(now, now - 60 * SEC), "1m ago");
    assert_eq!(relative_time_at(now, now - 3599 * SEC), "59m ago");
    assert_eq!(relative_time_at(now, now - 3600 * SEC), "1h ago");
    assert_eq!(relative_time_at(now, now - 86399 * SEC), "23h ago");
    assert_eq!(relative_time_at(now, now - 86400 * SEC), "1d ago");
    assert_eq!(relative_time_at(now, now - 10 * 86400 * SEC - 5), "10d ago");
}

#[test]
fn seconds_round_toward_zero() {
    assert_eq!(seconds_between(2 * SEC - 1, 0), 1);
    assert_eq!(seconds_between(0, 2 * SEC - 1), -1);
    assert_eq!(seconds_between(i64::MAX, i64::MIN), (u64::MAX / 1_000_000_000) as i64);
}

#[test]
fn rfc3339_text_of_instants() {
    assert_eq!(rfc3339(0), "1970-01-01T00:00:00+00:00");
    assert_eq!(rfc3339(1_500_000_000), "1970-01-01T00:00:01.500+00:00");
    assert_eq!(rfc3339(-1), "1969-12-31T23:59:59.999999999+00:00");
    assert_eq!(parse_rfc3339("1970-01-01T00:00:00+00:00"), Some(0));
    assert_eq!(parse_rfc3339("not a time"), None);
    assert_eq!(parse_rfc3339("3000-01-01T00:00:00+00:00"), None);
    assert_eq!(parse_rfc3339(&rfc3339(123_456_789_012)), Some(123_456_789_012));
}

#[test]
fn list_line_layout() {
    let now = 100_000 * SEC;
    let e = entry("/home/user/p", 12, now - 120 * SEC);
    let line = list_line_with(&e, &Some("/home/user".to_string()), now);
    let expected = format!("{:<50} {:>10} {:>4}", "~/p", "2m ago", 12);
    assert_eq!(line, expected);
}

#[test]
fn list_line_keeps_long_paths_whole() {
    let now = 100_000 * SEC;
    let long = "/".repeat(60);
    let e = entry(&long, -3, now);
    let line = list_line_with(&e, &None, now);
    assert_eq!(line, format!("{:<50} {:>10} {:>4}", long, "just now", -3));
}

#[test]
fn picker_line_layout() {
    let now = 100_000 * SEC;
    let e = entry("/etc/nginx", 3, now - 2 * 3600 * SEC);
    let line = picker_line_with(&e, &None, now, 40);
    let right = format!("{:>10} {:>4}", "2h ago", 3);
    let left_width = 40usize.saturating_sub(right.len() + 2);
    assert_eq!(line, format!("  {:<left_width$}{}", "/etc/nginx", right));
    let narrow = picker_line_with(&e, &None, now, 5);
    assert_eq!(narrow, format!("  /etc/nginx{}", right));
}

#[test]
fn json_listing_escapes_and_separates() {
    let entries = vec![entry("/a\"b\\c", 2, 0), entry("/tmp", 1, 1_500_000_000)];
    let json = render_json(&entries);
    assert_eq!(
        json,
        "[\n  {\"path\":\"/a\\\"b\\\\c\",\"visit_count\":2,\"last_visited\":\"1970-01-01T00:00:00+00:00\"},\n  {\"path\":\"/tmp\",\"visit_count\":1,\"last_visited\":\"1970-01-01T00:00:01.500+00:00\"}\n]"
    );
    assert_eq!(render_json(&vec![]), "[\n]");
}

#[test]
fn json_listing_with_given_stamps() {
    let entries = vec![entry("/x", 3, 0)];
    let json = render_json_with(&entries, &vec!["T".to_string()]);
    assert_eq!(json, "[\n  {\"path\":\"/x\",\"visit_count\":3,\"last_visited\":\"T\"}\n]");
}

#[test]
fn home_read_from_what_was_found() {
    assert_eq!(home_from(Some(Some("/home/u".to_string()))), Some("/home/u".to_string()));
    assert_eq!(home_from(Some(None)), None);
    assert_eq!(home_from(None), None);
}

#[test]
fn clock_is_not_before_the_epoch() {
    assert!(trod::time::now() > 1_600_000_000 * SEC);
}

#[test]
fn json_escapes_control_characters() {
    let entries = vec![entry("/a\nb\tc\rd\u{1}e\u{1f}", 1, 0)];
    let json = render_json_with(&entries, &vec!["T".to_string()]);
    assert_eq!(
        json,
        "[\n  {\"path\":\"/a\\nb\\tc\\rd\\u0001e\\u001f\",\"visit_count\":1,\"last_visited\":\"T\"}\n]"
    );
    assert!(!json["[\n  ".len()..json.len() - 2].chars().any(|c| (c as u32) < 0x20));
}
