use plainmark::daily::{expand_template, format_filename, LocalDate};

fn date(year: i32, month: u32, day: u32) -> LocalDate {
    LocalDate { year, month, day }
}

#[test]
fn format_filename_pads_and_substitutes_tokens() {
    let d = date(2026, 3, 5);
    assert_eq!(format_filename("YYYY-MM-DD", d), "2026-03-05");
    assert_eq!(format_filename("DD.MM.YYYY", d), "05.03.2026");
    assert_eq!(format_filename("daily-YYYYMMDD", d), "daily-20260305");
}

#[test]
fn expand_template_substitutes_only_the_date_token() {
    let d = date(2026, 6, 24);
    assert_eq!(expand_template("# {{date}}\n\n{{notatoken}}\n", d), "# 2026-06-24\n\n{{notatoken}}\n");
}
