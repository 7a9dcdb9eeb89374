use mutt_maildirs::expand::expand_path;
use mutt_maildirs::listing::list_maildirs;
use mutt_maildirs::maildir::{is_cur, is_excluded, is_initial, maildir_path, MaildirError};
use mutt_maildirs::output::format_line;
use mutt_maildirs::path::MailPath;

fn p(s: &str) -> MailPath {
    MailPath::from_bytes(s.as_bytes())
}

fn paths(v: &[&str]) -> Vec<MailPath> {
    v.iter().map(|s| p(s)).collect()
}

fn names(v: &[MailPath]) -> Vec<String> {
    v.iter().map(|m| String::from_utf8(m.to_bytes()).unwrap()).collect()
}

/// The directories a walk of `/mail` visits for the given mailboxes.
fn walk(mailboxes: &[&str]) -> Vec<MailPath> {
    let mut v = vec![p("/mail")];
    for m in mailboxes {
        v.push(p(&format!("/mail/{}", m)));
        v.push(p(&format!("/mail/{}/cur", m)));
        v.push(p(&format!("/mail/{}/new", m)));
    }
    v
}

fn run(mailboxes: &[&str], initial: &[&str], excluded: &[&str]) -> Vec<String> {
    let r = list_maildirs(&p("/mail"), &walk(mailboxes), &paths(initial), &paths(excluded));
    names(&r.unwrap())
}

#[test]
fn priority_first_then_sorted() {
    assert_eq!(run(&["INBOX", "Sent", "Archive"], &["Sent"], &[]), vec!["Sent", "Archive", "INBOX"]);
}

#[test]
fn missing_priority_is_dropped() {
    assert_eq!(run(&["A", "B"], &["Z"], &[]), vec!["A", "B"]);
}

#[test]
fn excluded_mailbox_is_left_out() {
    assert_eq!(run(&["A", "B"], &[], &["A"]), vec!["B"]);
}

#[test]
fn nested_mailboxes_both_listed() {
    assert_eq!(run(&["Parent", "Parent/Child"], &[], &[]), vec!["Parent", "Parent/Child"]);
}

#[test]
fn priority_order_is_kept_and_duplicates_once() {
    assert_eq!(
        run(&["A", "B", "C", "D"], &["C", "A", "C", "X", "A"], &[]),
        vec!["C", "A", "B", "D"]
    );
}

#[test]
fn remainder_is_sorted_by_components() {
    // `A-B` sorts after `A/B`: the component `A` is a prefix of `A-B`.
    assert_eq!(run(&["A-B", "A/B", "a", "B"], &[], &[]), vec!["A/B", "A-B", "B", "a"]);
}

#[test]
fn excluded_priority_is_not_listed() {
    assert_eq!(run(&["A", "B"], &["B"], &["B"]), vec!["A"]);
}

#[test]
fn exclusion_is_exact_not_prefix() {
    assert_eq!(run(&["A", "AB", "A/B"], &[], &["A"]), vec!["A/B", "AB"]);
}

#[test]
fn trailing_separator_matches() {
    assert_eq!(run(&["A", "B"], &["B/"], &["A//"]), vec!["B"]);
}

#[test]
fn empty_walk_lists_nothing() {
    assert_eq!(run(&[], &["A"], &["B"]), Vec::<String>::new());
}

#[test]
fn listing_twice_is_the_same() {
    assert_eq!(run(&["X", "M", "C"], &["M"], &[]), run(&["X", "M", "C"], &["M"], &[]));
}

#[test]
fn duplicate_entries_listed_once() {
    let mut entries = walk(&["A", "B"]);
    entries.push(p("/mail/A/cur"));
    let r = list_maildirs(&p("/mail"), &entries, &vec![], &vec![]).unwrap();
    assert_eq!(names(&r), vec!["A", "B"]);
}

#[test]
fn marker_outside_base_is_an_error() {
    let entries = vec![p("/mail"), p("/other/A/cur")];
    let r = list_maildirs(&p("/mail"), &entries, &vec![], &vec![]);
    assert_eq!(r, Err(MaildirError::OutsideBase));
}

#[test]
fn base_itself_a_mailbox() {
    let entries = vec![p("/mail"), p("/mail/cur")];
    let r = list_maildirs(&p("/mail"), &entries, &vec![], &vec![]).unwrap();
    assert_eq!(r.len(), 1);
    assert_eq!(r[0].len(), 0);
}

#[test]
fn cur_marker_recognised() {
    assert!(is_cur(&p("/mail/A/cur")));
    assert!(is_cur(&p("cur")));
    assert!(!is_cur(&p("/mail/A/new")));
    assert!(!is_cur(&p("/mail/A/curb")));
    assert!(!is_cur(&p("")));
}

#[test]
fn maildir_path_strips_base() {
    assert_eq!(names(&[maildir_path(&p("/mail"), &p("/mail/A/B/cur")).unwrap()]), vec!["A/B"]);
    assert_eq!(maildir_path(&p("/mail"), &p("/other/A/cur")), Err(MaildirError::OutsideBase));
    assert_eq!(maildir_path(&p("/mail"), &p("")), Err(MaildirError::NoParent));
    assert_eq!(maildir_path(&p("/mail/x"), &p("/mail/cur")), Err(MaildirError::OutsideBase));
}

#[test]
fn membership_checks() {
    let list = paths(&["A", "B/C"]);
    assert!(is_excluded(&p("B/C"), &list));
    assert!(!is_excluded(&p("B"), &list));
    assert!(is_initial(&p("A/"), &list));
    assert!(!is_initial(&p("C"), &list));
}

#[test]
fn path_bytes_round_trip() {
    assert_eq!(p("//a///b/").parts, vec![b"a".to_vec(), b"b".to_vec()]);
    assert_eq!(p("a/b").to_bytes(), b"a/b".to_vec());
    assert_eq!(p("").len(), 0);
}

#[test]
fn path_order() {
    assert!(p("A").less_than(&p("A/B")));
    assert!(p("A/B").less_than(&p("A-B")));
    assert!(p("B").less_than(&p("a")));
    assert!(!p("a").less_than(&p("a")));
    assert!(p("a/b").same_path(&p("a//b/")));
}

#[test]
fn expands_home_shorthand() {
    let home: Option<&[u8]> = Some(b"/home/u");
    assert_eq!(expand_path(b"~/Mail", home), Ok(b"/home/u/Mail".to_vec()));
    assert_eq!(expand_path(b"~Mail", home), Ok(b"/home/u/Mail".to_vec()));
    assert_eq!(expand_path(b"~", home), Ok(b"/home/u/".to_vec()));
    assert_eq!(expand_path(b"/var/Mail", home), Ok(b"/var/Mail".to_vec()));
    assert_eq!(expand_path(b"Mail/~", home), Ok(b"Mail/~".to_vec()));
    assert_eq!(expand_path(b"~//abs", home), Ok(b"/abs".to_vec()));
    assert_eq!(expand_path(b"~/x", Some(b"/home/u/")), Ok(b"/home/u/x".to_vec()));
}

#[test]
fn missing_home_is_an_error() {
    assert_eq!(expand_path(b"~/Mail", None), Err(MaildirError::NoHomeDir));
    assert_eq!(expand_path(b"/var/Mail", None), Ok(b"/var/Mail".to_vec()));
}

#[test]
fn formats_mailbox_line() {
    let line = format_line(&paths(&["Sent", "A/B"]));
    assert_eq!(String::from_utf8(line).unwrap(), "+'Sent' +'A/B'");
    assert_eq!(format_line(&vec![]), Vec::<u8>::new());
}
