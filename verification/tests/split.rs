use aligr::split::split_line;

#[test]
fn test_split_head_reassembles_line() {
    let line = "left middle right middle end";
    let word = "middle";

    let (left, right) = split_line(line, word, false);

    assert_eq!(format!("{}{}{}", left, word, right), line);
    assert!(!left.contains(word));
    assert_eq!(left, "left ");
    assert_eq!(right, " right middle end");
}

#[test]
fn test_split_tail_reassembles_line() {
    let line = "left middle right middle end";
    let word = "middle";

    let (left, right) = split_line(line, word, true);

    assert_eq!(format!("{}{}{}", left, word, right), line);
    assert!(!right.contains(word));
    assert_eq!(left, "left middle right ");
    assert_eq!(right, " end");
}

#[test]
fn test_split_fallback_head() {
    let (left, right) = split_line("no separator here", "xyz", false);

    assert_eq!(left, "no separator here");
    assert_eq!(right, "");
}

#[test]
fn test_split_fallback_taild() {
    let (left, right) = split_line("no separator here", "xyz", true);

    assert_eq!(left, "no separator here");
    assert_eq!(right, "");
}

#[test]
fn test_split_empty_delimiter() {
    let (left, right) = split_line("abc", "", false);
    assert_eq!(left, "");
    assert_eq!(right, "abc");

    let (left, right) = split_line("abc", "", true);
    assert_eq!(left, "abc");
    assert_eq!(right, "");
}

#[test]
fn test_split_empty_line() {
    let (left, right) = split_line("", "word", false);
    assert_eq!(left, "");
    assert_eq!(right, "");
}
