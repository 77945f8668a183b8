//! Markdown marks: pairs go, the others stay.

use mission_control::markup::strip_markup;

fn stripped(text: &str) -> String {
    let chars: Vec<char> = text.chars().collect();
    strip_markup(&chars).into_iter().collect()
}

#[test]
fn pairs_of_marks_are_dropped() {
    assert_eq!(stripped("**bold** and *slanted* and `code`"), "bold and slanted and code");
    assert_eq!(stripped("**bold with *slanted* inside**"), "bold with slanted inside");
    assert_eq!(stripped("***both***, (*this*), \"*that*\""), "both, (this), \"that\"");
    assert_eq!(stripped("``a ` b``"), "a ` b");
}

#[test]
fn marks_without_a_partner_stay() {
    for text in ["a*b", "2 * 3 * 4", "src/*.rs", "*.rs", "a ` b", "** a **", "*open", "a*b*c"] {
        assert_eq!(stripped(text), text);
    }
    assert_eq!(stripped("src/*.rs and tests/*.rs"), "src/*.rs and tests/*.rs");
    assert_eq!(stripped(".*foo.*"), ".*foo.*");
}

#[test]
fn code_keeps_what_stands_in_it() {
    assert_eq!(stripped("`*a* **b**`"), "*a* **b**");
    assert_eq!(stripped("run `rm *` or `rm -r *`"), "run rm * or rm -r *");
}

#[test]
fn marks_pair_up_within_lines() {
    assert_eq!(stripped("*one\ntwo*\n*three*"), "*one\ntwo*\nthree");
    assert_eq!(stripped("`one\r\n**two**\r\n"), "`one\r\ntwo\r\n");
    assert_eq!(stripped(""), "");
    assert_eq!(stripped("\n"), "\n");
}
