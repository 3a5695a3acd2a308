use workspace::title::{compare_titles, normalize_title, TitleComparison};

#[test]
fn normalization_trims_lowercases_and_drops_punctuation() {
    assert_eq!(normalize_title("  Main.rs — Project!  "), "mainrs — project");
    assert_eq!(normalize_title("Hello,   World"), "hello world");
    assert_eq!(normalize_title("...!!!"), "");
    assert_eq!(normalize_title("ÉCOLE"), "école");
}

#[test]
fn titles_compare_in_order_of_strength() {
    assert_eq!(compare_titles(Some("main.rs"), Some("main.rs")), TitleComparison::Identical);
    assert_eq!(compare_titles(Some("Main.rs"), Some("main.rs!")), TitleComparison::SameWhenNormalized);
    assert_eq!(compare_titles(Some("Main.rs"), Some("main rs")), TitleComparison::WordOverlap { shared: 0, total: 3 });
    assert_eq!(compare_titles(Some("!!!"), Some("docs")), TitleComparison::NormalizedBlank);
    assert_eq!(compare_titles(Some("main.rs — project"), Some("project")), TitleComparison::Contained);
    assert_eq!(
        compare_titles(Some("alpha beta gamma"), Some("beta delta beta")),
        TitleComparison::WordOverlap { shared: 1, total: 4 }
    );
    assert_eq!(compare_titles(None, None), TitleComparison::BothMissing);
    assert_eq!(compare_titles(Some("x"), None), TitleComparison::OneMissing);
    assert_eq!(compare_titles(None, Some("x")), TitleComparison::OneMissing);
}

#[test]
fn title_comparison_is_symmetric_on_examples() {
    for (a, b) in [("alpha beta", "beta gamma delta"), ("Docs", "docs!"), ("one", "one two")] {
        assert_eq!(compare_titles(Some(a), Some(b)), compare_titles(Some(b), Some(a)));
    }
}
