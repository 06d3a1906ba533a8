use aligr::align::aligr;
use aligr::render::write_on;

#[test]
fn test_align_normal() {
    let lines = vec![
        "Hello, world world!".to_string(),
        "Hello, world!".to_string(),
        "Hello, world!".to_string(),
    ];

    let (lines_split, max_align) = aligr(&lines, "world", false);

    assert_eq!(max_align, 7);

    assert_eq!(lines_split[0].0, "Hello, ");
    assert_eq!(lines_split[0].1, " world!");

    assert_eq!(lines_split[1].0, "Hello, ");
    assert_eq!(lines_split[1].1, "!");

    assert_eq!(lines_split[2].0, "Hello, ");
    assert_eq!(lines_split[2].1, "!");
}

#[test]
fn test_align_normal_taild() {
    let lines = vec![
        "Hello, world world!".to_string(),
        "Hello, world!".to_string(),
        "Hello, world!".to_string(),
    ];

    let (lines_split, max_align) = aligr(&lines, "world", true);

    assert_eq!(max_align, 13);

    assert_eq!(lines_split[0].0, "Hello, world ");
    assert_eq!(lines_split[0].1, "!");

    assert_eq!(lines_split[1].0, "Hello, ");
    assert_eq!(lines_split[1].1, "!");

    assert_eq!(lines_split[2].0, "Hello, ");
    assert_eq!(lines_split[2].1, "!");
}

#[test]
fn test_write_on() {
    let lines = vec![
        "Hello, world world!".to_string(),
        "Hello, world!".to_string(),
        "Hello, world!".to_string(),
    ];

    let aligr = aligr(&lines, "world", false);

    let mut output = String::new();

    write_on(&mut output, aligr, "world");

    assert_eq!(output, "Hello, world world!\nHello, world!\nHello, world!\n");
}

#[test]
fn test_write_on_taild() {
    let lines = vec![
        "Hello, world world!".to_string(),
        "Hello, world!".to_string(),
        "Hello, world!".to_string(),
    ];

    let aligr = aligr(&lines, "world", true);

    let mut output = String::new();

    write_on(&mut output, aligr, "world");

    assert_eq!(
        output,
        "Hello, world world!\nHello,       world!\nHello,       world!\n"
    );
}

#[test]
fn test_max_width_is_maximum() {
    let lines = vec![
        "a-b".to_string(),
        "long left-x".to_string(),
        "-starts".to_string(),
    ];

    let (pairs, max_align) = aligr(&lines, "-", false);

    let widths: Vec<usize> = pairs.iter().map(|p| p.0.chars().count()).collect();
    assert_eq!(widths, vec![1, 9, 0]);
    assert_eq!(max_align, *widths.iter().max().unwrap());
}

#[test]
fn test_empty_input() {
    let lines: Vec<String> = Vec::new();

    let (pairs, max_align) = aligr(&lines, "anything", false);
    assert_eq!(pairs.len(), 0);
    assert_eq!(max_align, 0);

    let mut output = String::new();
    write_on(&mut output, (pairs, max_align), "anything");
    assert_eq!(output, "");
}

#[test]
fn test_delimiter_at_line_start() {
    let lines = vec![":rest".to_string()];

    let (pairs, max_align) = aligr(&lines, ":", false);

    assert_eq!(pairs[0].0, "");
    assert_eq!(pairs[0].1, "rest");
    assert_eq!(max_align, 0);
}

#[test]
fn test_line_equal_to_delimiter() {
    let lines = vec!["world".to_string()];

    let (pairs, max_align) = aligr(&lines, "world", false);

    assert_eq!(pairs[0].0, "");
    assert_eq!(pairs[0].1, "");
    assert_eq!(max_align, 0);
}

#[test]
fn test_repeated_delimiter_head_keeps_rest_in_right() {
    let lines = vec!["a==b==c".to_string()];

    let (pairs, _) = aligr(&lines, "==", false);

    assert_eq!(pairs[0].0, "a");
    assert_eq!(pairs[0].1, "b==c");
}

#[test]
fn test_repeated_delimiter_tail_keeps_rest_in_left() {
    let lines = vec!["a==b==c".to_string()];

    let (pairs, _) = aligr(&lines, "==", true);

    assert_eq!(pairs[0].0, "a==b");
    assert_eq!(pairs[0].1, "c");
}

#[test]
fn test_rerun_output_identical() {
    let lines = vec![
        "one: 1".to_string(),
        "twenty two: 22".to_string(),
        "no delimiter here".to_string(),
    ];

    let mut first = String::new();
    write_on(&mut first, aligr(&lines, ":", false), ":");

    let mut second = String::new();
    write_on(&mut second, aligr(&lines, ":", false), ":");

    assert_eq!(first, second);
}
