use jabu::listing::{available_versions, holds, stem_of};
use jabu::text::{chars_of, find_from, split};

fn names(items: &[&str]) -> Vec<String> {
    items.iter().map(|item| item.to_string()).collect()
}

#[test]
fn versions_of_a_directory() {
    let listing = names(&["5.10.2.jar", "5.10.2.pom", "5.9.0.pom", "5.10.2.jar"]);
    assert_eq!(available_versions(&listing), names(&["5.10.2", "5.9.0"]));
}

#[test]
fn the_saved_binary_witnesses_its_version() {
    let versions = available_versions(&names(&["5.10.2.jar"]));
    assert!(versions.contains(&"5.10.2".to_string()));
    assert_eq!(versions.len(), 1);
}

#[test]
fn an_empty_directory_has_no_version() {
    assert!(available_versions(&Vec::new()).is_empty());
}

#[test]
fn stems() {
    assert_eq!(stem_of("1.0.0.jar"), "1.0.0");
    assert_eq!(stem_of("1.0.0.pom"), "1.0.0");
    assert_eq!(stem_of("readme"), "readme");
    assert_eq!(stem_of(".hidden"), ".hidden");
    assert_eq!(stem_of(".hidden.txt"), ".hidden");
    assert_eq!(stem_of("a."), "a");
    assert_eq!(stem_of(""), "");
    assert_eq!(stem_of("\u{e9}t\u{e9}.jar"), "\u{e9}t\u{e9}");
}

#[test]
fn membership() {
    let items = names(&["a", "b"]);
    assert!(holds(&items, &"b".to_string()));
    assert!(!holds(&items, &"c".to_string()));
    assert!(!holds(&Vec::new(), &"a".to_string()));
}

#[test]
fn splitting() {
    assert_eq!(split("org.junit.jupiter", '.'), names(&["org", "junit", "jupiter"]));
    assert_eq!(split("group", '.'), names(&["group"]));
    assert_eq!(split("", '.'), names(&[""]));
    assert_eq!(split(".", '.'), names(&["", ""]));
    assert_eq!(split("a..b.", '.'), names(&["a", "", "b", ""]));
    assert_eq!(split("\u{e9}.\u{e8}", '.'), names(&["\u{e9}", "\u{e8}"]));
}

#[test]
fn characters_and_positions() {
    let chars = chars_of("a\u{e9}.b.");
    assert_eq!(chars, vec!['a', '\u{e9}', '.', 'b', '.']);
    assert_eq!(find_from(&chars, 0, '.'), 2);
    assert_eq!(find_from(&chars, 3, '.'), 4);
    assert_eq!(find_from(&chars, 5, '.'), 5);
    assert_eq!(find_from(&chars, 0, 'x'), 5);
}
