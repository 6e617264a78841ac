use nse_scraper::models::TimeFrame;

#[test]
fn from_str_reads_the_three_choices() {
    assert_eq!(TimeFrame::from_str("1"), Some(TimeFrame::Daily));
    assert_eq!(TimeFrame::from_str("2"), Some(TimeFrame::Weekly));
    assert_eq!(TimeFrame::from_str("3"), Some(TimeFrame::Monthly));
}

#[test]
fn from_str_ignores_surrounding_white_space() {
    assert_eq!(TimeFrame::from_str("  2\n"), Some(TimeFrame::Weekly));
    assert_eq!(TimeFrame::from_str("\t3 \r\n"), Some(TimeFrame::Monthly));
    assert_eq!(TimeFrame::from_str("\u{a0}1\u{3000}"), Some(TimeFrame::Daily));
}

#[test]
fn from_str_rejects_everything_else() {
    assert_eq!(TimeFrame::from_str(""), None);
    assert_eq!(TimeFrame::from_str("   "), None);
    assert_eq!(TimeFrame::from_str("4"), None);
    assert_eq!(TimeFrame::from_str("0"), None);
    assert_eq!(TimeFrame::from_str("12"), None);
    assert_eq!(TimeFrame::from_str("1 2"), None);
    assert_eq!(TimeFrame::from_str("daily"), None);
    assert_eq!(TimeFrame::from_str("+1"), None);
}

#[test]
fn from_str_trims_what_std_trims() {
    for code in 0u32..=0x10ffff {
        if let Some(c) = char::from_u32(code) {
            let text = format!("{}1{}", c, c);
            let expected = if text.trim() == "1" { Some(TimeFrame::Daily) } else { None };
            assert_eq!(TimeFrame::from_str(&text), expected, "code point {:#x}", code);
        }
    }
}

#[test]
fn as_str_gives_the_tags() {
    assert_eq!(TimeFrame::Daily.as_str(), "daily");
    assert_eq!(TimeFrame::Weekly.as_str(), "weekly");
    assert_eq!(TimeFrame::Monthly.as_str(), "monthly");
}
