use go_profile_lsp::text::begins_with;
use go_profile_lsp::text::find_from;
use go_profile_lsp::text::join_text;
use go_profile_lsp::text::push_decimal;
use go_profile_lsp::text::same_text;
use go_profile_lsp::text::split_text;
use go_profile_lsp::text::text_between;
use go_profile_lsp::text::to_chars;

#[test]
fn numerals_are_decimal() {
    let mut text = "n=".to_string();
    push_decimal(&mut text, 0);
    push_decimal(&mut text, 907);
    assert_eq!(text, "n=0907");
    let mut large = String::new();
    push_decimal(&mut large, u128::MAX);
    assert_eq!(large, "340282366920938463463374607431768211455");
}

#[test]
fn texts_are_compared_by_characters() {
    assert!(same_text("größe", "größe"));
    assert!(!same_text("a", "ab"));
    assert!(!same_text("a", "b"));
    assert!(same_text("", ""));
}

#[test]
fn characters_are_found_and_cut() {
    let chars = to_chars("aé{b}");
    assert_eq!(chars, vec!['a', 'é', '{', 'b', '}']);
    assert_eq!(find_from(&chars, '{', 0), Some(2));
    assert_eq!(find_from(&chars, 'a', 1), None);
    assert_eq!(find_from(&chars, 'a', 99), None);
    assert_eq!(text_between(&chars, 1, 4), "é{b");
    assert!(begins_with(&chars, &to_chars("aé")));
    assert!(begins_with(&chars, &to_chars("")));
    assert!(!begins_with(&chars, &to_chars("é")));
    assert!(!begins_with(&to_chars("a"), &to_chars("ab")));
}

#[test]
fn pieces_are_between_separators() {
    assert_eq!(split_text("a,b,,c", ','), vec!["a", "b", "", "c"]);
    assert_eq!(split_text("", ','), vec![""]);
    assert_eq!(split_text(",", ','), vec!["", ""]);
    assert_eq!(split_text("ab", ','), vec!["ab"]);
}

#[test]
fn joined_pieces_are_the_text() {
    for text in ["", "/", "a/b", "//a//", "abc", "é/ö"] {
        let parts = split_text(text, '/');
        assert_eq!(join_text(&parts, 0, parts.len(), '/'), text);
        for part in &parts {
            assert!(!part.contains('/'));
        }
    }
    let parts = split_text("a/b/c/d", '/');
    assert_eq!(join_text(&parts, 1, 3, '/'), "b/c");
    assert_eq!(join_text(&parts, 2, 2, '/'), "");
    let lone = vec!["x".to_string()];
    assert_eq!(split_text(&join_text(&lone, 0, 1, '/'), '/'), lone);
}
