use trail::render::split_sitename;
use trail::validate::{appendix_letters, title_from_slug};

#[test]
fn splits_the_sitename_for_the_wordmark() {
    assert_eq!(split_sitename("Peios Learn"), ("Peios", Some("Learn")));
    assert_eq!(split_sitename("Docs"), ("Docs", None));
}

#[test]
fn appendix_letters_run_bijectively_past_z() {
    assert_eq!(appendix_letters(1), "A");
    assert_eq!(appendix_letters(26), "Z");
    assert_eq!(appendix_letters(27), "AA");
    assert_eq!(appendix_letters(52), "AZ");
    assert_eq!(appendix_letters(53), "BA");
}

#[test]
fn derives_topic_titles_by_capitalising_slug_words() {
    assert_eq!(title_from_slug("identity"), "Identity");
    assert_eq!(title_from_slug("the-two-gates"), "The Two Gates");
    assert_eq!(title_from_slug("well-known-principals"), "Well Known Principals");
}
