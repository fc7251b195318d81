use punch::error::Error;
use punch::number::{digit, parse_small, read_number, write_number};
use punch::path::{resolve, Path};
use punch::text::{chars_of, ends_with_char, spells, split_names, starts_with_char};

fn strings(items: &[&str]) -> Vec<String> {
    items.iter().map(|s| s.to_string()).collect()
}

#[test]
fn names_are_the_stretches_between_separators() {
    assert_eq!(split_names("a/b/c"), strings(&["a", "b", "c"]));
    assert_eq!(split_names("/usr//local/"), strings(&["usr", "local"]));
    assert_eq!(split_names("./a/./b/."), strings(&["a", "b"]));
    assert_eq!(split_names("../x"), strings(&["..", "x"]));
    assert_eq!(split_names(".hidden"), strings(&[".hidden"]));
    assert_eq!(split_names("héllo/wörld"), strings(&["héllo", "wörld"]));
    assert!(split_names("").is_empty());
    assert!(split_names("/").is_empty());
    assert!(split_names("./").is_empty());
    assert!(split_names(".").is_empty());
    assert!(split_names("///").is_empty());
}

#[test]
fn first_and_last_characters() {
    assert!(starts_with_char("./a", '.'));
    assert!(!starts_with_char("a.", '.'));
    assert!(!starts_with_char("", '.'));
    assert!(ends_with_char("sub/", '/'));
    assert!(!ends_with_char("/sub", '/'));
    assert!(!ends_with_char("", '/'));
    assert_eq!(chars_of("añb"), vec!['a', 'ñ', 'b']);
    let chars = chars_of("xxMovexx");
    assert!(spells(&chars, 2, 6, "Move"));
    assert!(!spells(&chars, 2, 5, "Move"));
    assert!(!spells(&chars, 1, 5, "Move"));
}

#[test]
fn an_argument_that_begins_with_a_dot_is_anchored_at_the_working_directory() {
    let cwd = Path::from_text("/home/user");
    let t = resolve("./notes/today.txt", &cwd).unwrap();
    assert_eq!(t.path.render(), "/home/user/notes/today.txt");
    assert!(t.path.absolute);
    assert!(!t.directory);
    let hidden = resolve(".config", &cwd).unwrap();
    assert_eq!(hidden.path.render(), "/home/user/.config");
    let up = resolve("../other", &cwd).unwrap();
    assert_eq!(up.path.render(), "/home/user/../other");
}

#[test]
fn any_other_argument_is_taken_as_written() {
    let cwd = Path::from_text("/home/user");
    let rel = resolve("notes/./today.txt", &cwd).unwrap();
    assert_eq!(rel.path.render(), "notes/today.txt");
    assert!(!rel.path.absolute);
    let abs = resolve("/etc//hosts", &cwd).unwrap();
    assert_eq!(abs.path.render(), "/etc/hosts");
    assert!(abs.path.absolute);
}

#[test]
fn a_separator_at_the_end_marks_a_directory() {
    let cwd = Path::root();
    let dir = resolve("sub/", &cwd).unwrap();
    assert!(dir.directory);
    assert_eq!(dir.path.names, strings(&["sub"]));
    assert_eq!(dir.path.render(), "sub");
    let file = resolve("sub", &cwd).unwrap();
    assert!(!file.directory);
    assert_eq!(file.path, dir.path);
}

#[test]
fn an_argument_without_a_name_is_invalid() {
    let cwd = Path::from_text("/home/user");
    for raw in ["", ".", "/", "./", "//", "././/."] {
        assert_eq!(resolve(raw, &cwd), Err(Error::InvalidPath), "{:?}", raw);
    }
}

#[test]
fn paths_know_what_lies_within_what() {
    let a = Path::from_text("/a/b");
    let deep = Path::from_text("/a/b/c/d");
    let other = Path::from_text("/a/bc");
    let rel = Path::from_text("a/b/c");
    assert!(deep.is_within(&a));
    assert!(a.is_within(&a));
    assert!(!a.is_within(&deep));
    assert!(!other.is_within(&a));
    assert!(!rel.is_within(&a));
    assert_eq!(deep.below(&a), strings(&["c", "d"]));
    assert_eq!(a.extend(&strings(&["c", "d"])), deep);
    assert_eq!(a.child("c").child("d"), deep);
    assert_eq!(deep.parent().unwrap().render(), "/a/b/c");
    assert_eq!(deep.ancestor(1).render(), "/a");
    assert_eq!(deep.depth(), 4);
    assert_eq!(Path::root().parent(), None);
    assert!(deep.same(&deep.clone()));
    assert!(!deep.same(&rel));
    assert_eq!(deep.ancestor(9), deep);
    assert!(a.below(&deep).is_empty());
}

#[test]
fn rendering_spells_a_path_out() {
    assert_eq!(Path::root().render(), "/");
    assert_eq!(Path::working_directory().render(), ".");
    assert_eq!(Path::from_text("/a/b").render(), "/a/b");
    assert_eq!(Path::from_text("a//b/").render(), "a/b");
    for text in ["/", ".", "/a", "a", "/a/b/c", "x/y"] {
        assert_eq!(Path::from_text(&Path::from_text(text).render()), Path::from_text(text));
    }
}

#[test]
fn anchoring_leads_relative_paths_on_from_the_working_directory() {
    let cwd = Path::from_text("/home/user");
    assert_eq!(Path::from_text("a/b").anchor(&cwd).render(), "/home/user/a/b");
    assert_eq!(Path::from_text("/a/b").anchor(&cwd).render(), "/a/b");
    assert_eq!(Path::working_directory().anchor(&cwd), cwd);
}

#[test]
fn small_numbers_are_read_like_eight_bit_integers() {
    assert_eq!(parse_small("0"), Some(0));
    assert_eq!(parse_small("2"), Some(2));
    assert_eq!(parse_small("+7"), Some(7));
    assert_eq!(parse_small("-3"), Some(-3));
    assert_eq!(parse_small("007"), Some(7));
    assert_eq!(parse_small("127"), Some(127));
    assert_eq!(parse_small("128"), None);
    assert_eq!(parse_small("-128"), Some(-128));
    assert_eq!(parse_small("-129"), None);
    assert_eq!(parse_small("-0"), Some(0));
    assert_eq!(parse_small("99999999999999999999999"), None);
    for bad in ["", "+", "-", "1a", "a1", " 1", "1 ", "--1", "1.0", "docs"] {
        assert_eq!(parse_small(bad), None, "{:?}", bad);
        assert_eq!(parse_small(bad), bad.parse::<i8>().ok());
    }
    for n in -128i32..=127 {
        assert_eq!(parse_small(&n.to_string()), Some(n as i8));
    }
}

#[test]
fn numbers_are_written_and_read_in_the_shortest_way() {
    for n in [0u64, 7, 10, 99, 100, 1234567890, u64::MAX] {
        let mut text = String::from("x");
        write_number(&mut text, n);
        assert_eq!(text, format!("x{}", n));
        text.push(':');
        let chars = chars_of(&text);
        assert_eq!(read_number(&chars, 1), Some((n, text.len() - 1)));
    }
    assert_eq!(read_number(&chars_of("18446744073709551616"), 0), None);
    assert_eq!(read_number(&chars_of("007"), 0), None);
    assert_eq!(read_number(&chars_of("0"), 0), Some((0, 1)));
    assert_eq!(read_number(&chars_of(""), 0), None);
    assert_eq!(read_number(&chars_of("a1"), 0), None);
    assert_eq!(read_number(&chars_of("a12b"), 1), Some((12, 3)));
    assert_eq!(read_number(&chars_of("12"), 2), None);
    assert_eq!(read_number(&chars_of("12"), 3), None);
    assert_eq!(digit('0'), Some(0));
    assert_eq!(digit('9'), Some(9));
    assert_eq!(digit('/'), None);
    assert_eq!(digit(':'), None);
    assert_eq!(digit('٣'), None);
}
