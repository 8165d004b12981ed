use rtorrent_status_file_modifier::{rewrite, RewriteError, RewriteResult};

fn run(content: &str, key: &str, search: &str, replace: &str) -> Result<RewriteResult, RewriteError> {
    rewrite(content.as_bytes(), key.as_bytes(), search.as_bytes(), replace.as_bytes())
}

fn rewritten(content: &str, key: &str, search: &str, replace: &str) -> String {
    let r = run(content, key, search, replace).expect("rewrite succeeds");
    assert!(r.matched);
    String::from_utf8(r.new_content.expect("content present when matched")).unwrap()
}

#[test]
fn end_to_end_scenario() {
    let out = rewritten(":directory9:/old/pathX", "directory", "/old", "/new/root");
    assert_eq!(out, ":directory14:/new/root/pathX");
}

#[test]
fn bencoded_record_keeps_surrounding_bytes() {
    let content = "d9:directory15:/data/old/films4:name3:fooe";
    let out = rewritten(content, "directory", "/old", "/archive");
    assert_eq!(out, "d9:directory19:/data/archive/films4:name3:fooe");
}

#[test]
fn length_grows_by_difference() {
    let value = "/srv/abc/0123456789x";
    assert_eq!(value.len(), 20);
    let content = format!(":directory20:{}", value);
    let out = rewritten(&content, "directory", "abc", "0123456789");
    assert_eq!(out, ":directory27:/srv/0123456789/0123456789x");
}

#[test]
fn length_shrinks_by_difference() {
    let out = rewritten(":directory12:/long/name/x", "directory", "/long/name", "/n");
    assert_eq!(out, ":directory4:/n/x");
}

#[test]
fn search_spanning_whole_value_leaves_replacement_length() {
    let out = rewritten(":directory4:/old", "directory", "/old", "");
    assert_eq!(out, ":directory0:");
}

#[test]
fn only_first_occurrence_in_value_replaced() {
    let out = rewritten(":directory8:/a/b/a/b", "directory", "/a", "/zz");
    assert_eq!(out, ":directory9:/zz/b/a/b");
}

#[test]
fn missing_key_is_no_such_field() {
    assert_eq!(run("d4:name3:fooe", "directory", "/old", "/new").err(), Some(RewriteError::NoSuchField));
    assert_eq!(run("", "directory", "/old", "/new").err(), Some(RewriteError::NoSuchField));
}

#[test]
fn key_without_length_marker_is_no_field() {
    assert_eq!(run(":directory:/old", "directory", "/old", "/new").err(), Some(RewriteError::NoSuchField));
    assert_eq!(run(":directory12x:/old", "directory", "/old", "/new").err(), Some(RewriteError::NoSuchField));
}

#[test]
fn no_match_reports_false_and_no_content() {
    let r = run(":directory9:/old/path", "directory", "/else", "/new").unwrap();
    assert!(!r.matched);
    assert!(r.new_content.is_none());
}

#[test]
fn identical_search_and_replace_keeps_content() {
    let content = "d9:directory9:/old/path4:name1:xe";
    let r = run(content, "directory", "/old", "/old").unwrap();
    assert!(r.matched);
    assert_eq!(r.new_content.unwrap(), content.as_bytes().to_vec());
    let other = run(content, "directory", "/old", "/different").unwrap();
    assert_eq!(other.matched, r.matched);
}

#[test]
fn leading_zero_marker_is_invalid_length() {
    assert_eq!(run(":directory09:/old/path", "directory", "/old", "/new").err(), Some(RewriteError::InvalidLength));
}

#[test]
fn zero_marker_is_valid() {
    let r = run(":directory0::directory4:/old", "directory", "/old", "/new").unwrap();
    assert!(r.matched);
    assert_eq!(r.new_content.unwrap(), b":directory0::directory4:/new".to_vec());
}

#[test]
fn truncated_value_is_malformed() {
    assert_eq!(run(":directory50:/old/path", "directory", "/old", "/new").err(), Some(RewriteError::MalformedField));
}

#[test]
fn huge_marker_is_malformed() {
    let content = ":directory99999999999999999999999999:/old";
    assert_eq!(run(content, "directory", "/old", "/new").err(), Some(RewriteError::MalformedField));
}

#[test]
fn every_matching_field_rewritten() {
    let content = ":directory8:/old/one:name1:a:directory8:/old/two:directory8:/etc/thr";
    let out = rewritten(content, "directory", "/old", "/newer");
    assert_eq!(out, ":directory10:/newer/one:name1:a:directory10:/newer/two:directory8:/etc/thr");
}

#[test]
fn identical_fields_each_rewritten() {
    let out = rewritten(":directory4:/old:directory4:/old", "directory", "/old", "/n");
    assert_eq!(out, ":directory2:/n:directory2:/n");
}

#[test]
fn colon_inside_value_delimited_by_length() {
    let out = rewritten(":directory15:C:\\torrents\\old", "directory", "old", "new2");
    assert_eq!(out, ":directory16:C:\\torrents\\new2");
}

#[test]
fn key_is_matched_literally() {
    assert_eq!(run(":dir.ctory4:/old", "dir.ctory", "/old", "/n").map(|r| r.matched), Ok(true));
    assert_eq!(run(":directory4:/old", "dir.ctory", "/old", "/n").err(), Some(RewriteError::NoSuchField));
}

#[test]
fn empty_search_inserts_at_value_start() {
    let out = rewritten(":directory4:/old", "directory", "", "/mnt");
    assert_eq!(out, ":directory8:/mnt/old");
}

#[test]
fn value_bytes_after_declared_length_are_not_searched() {
    let r = run(":directory3:abc/old", "directory", "/old", "/n").unwrap();
    assert!(!r.matched);
}

#[test]
fn marker_past_nine_rendered_in_full() {
    let value = "/old/aaaaaaaaaaaaaaaaaaaaaaaaaaaaaaaaaaaaaaaaaaaaaaaaaaaaaaaaaaaaaaaaaaaaaaaaaaaaaaaaaaaaaaaaaaaaaaaaaa";
    let content = format!(":directory{}:{}", value.len(), value);
    let out = rewritten(&content, "directory", "/old", "/new/root/x");
    assert_eq!(out, format!(":directory{}:/new/root/x{}", value.len() + 7, &value[4..]));
}

#[test]
fn replacement_does_not_change_matched_or_error() {
    for content in [":directory4:/old", ":directory4:/etc", ":directory05:/old/", ":name4:/old"] {
        let a = run(content, "directory", "/old", "/old").map(|r| r.matched);
        let b = run(content, "directory", "/old", "/somewhere/else").map(|r| r.matched);
        assert_eq!(a, b);
    }
}

#[test]
fn second_occurrence_survives_after_shift() {
    let out = rewritten(":directory12:/x/old/old/y", "directory", "old", "brand-new");
    assert_eq!(out, ":directory18:/x/brand-new/old/y");
}

#[test]
fn error_after_a_match_fails_whole_record() {
    let content = ":directory4:/old:directory40:/old";
    assert_eq!(run(content, "directory", "/old", "/new").err(), Some(RewriteError::MalformedField));
}
