use replique::runtime::NodeName;
use replique::RepliqueFile;

#[test]
fn a_file_with_an_unknown_jump_has_errors_and_no_dialogue() {
    let file = RepliqueFile::from_source(":= start\nAlice: Hi!\n=> nope\n---\n".to_string());
    assert!(file.has_errors());
    assert!(file.dialogue.is_none());
    let rendered = file.render_diagnostics(false);
    assert!(rendered.contains("jump-unknown-node"), "{rendered}");
}

#[test]
fn a_file_the_parser_accepts_compiles() {
    let src = ":= start\n[let $gold = 12]\nMerchant: You have [$gold] coins.\n[if $gold >= 10]\n    Merchant: The lantern is yours.\n[while $gold > 0]\n    [let $gold = $gold - 1]\n    [if $gold == 3]\n        [break]\n=> END\n---\n";
    let file = RepliqueFile::from_source(src.to_string());
    assert!(!file.has_errors());
    let dialogue = file.dialogue.expect("an accepted file compiles");
    assert!(dialogue.get_node(&NodeName::new("start")).is_some());
}

#[test]
fn warnings_alone_still_give_a_dialogue() {
    let file = RepliqueFile::from_source(":= start\n---\n".to_string());
    assert!(!file.has_errors());
    assert_eq!(file.diagnostics.warnings(), 1);
    assert!(file.dialogue.is_some());
}

#[test]
fn a_path_shows_in_the_short_rendering() {
    let file = RepliqueFile::from_source(":= start\n\tAlice: Hi\n---\n".to_string()).with_path("intro.rep");
    assert_eq!(file.path.as_deref(), Some("intro.rep"));
    let short = file.render_diagnostics_short(false);
    assert!(short.starts_with("intro.rep:2:"), "{short}");
}
