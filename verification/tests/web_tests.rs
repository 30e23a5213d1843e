use heavy_metal_notifier::web::{calculate_calendar, contains_any_keywords, CalendarDay, Page};

#[test]
fn keywords_match_inside_genre_words() {
    assert!(contains_any_keywords("black death", "death"));
    assert!(contains_any_keywords("Melodic Death/Power", "death"));
    assert!(contains_any_keywords("atmospheric black", "doom@black"));
    assert!(!contains_any_keywords("power", "doom@black"));
    // The keyword need only occur inside a word.
    assert!(contains_any_keywords("blackened thrash", "black"));
    // Matching is case-insensitive on both sides.
    assert!(contains_any_keywords("DOOM", "doom"));
    assert!(contains_any_keywords("doom", "DOOM"));
    // Words are split on whitespace, commas and semicolons.
    assert!(contains_any_keywords("doom,stoner;sludge", "stoner"));
}

#[test]
fn empty_keywords_match_everything() {
    // `str::split` keeps empty pieces, and every word contains the empty
    // keyword, so an empty or trailing-`@` keyword list matches any genre.
    assert!(contains_any_keywords("", ""));
    assert!(contains_any_keywords("power", "doom@"));
}

#[test]
fn grid_shows_prev_current_and_next_month() {
    // A 30-day month whose first day is a Wednesday (2) and whose last day
    // is a Thursday (3), after a 31-day month.
    let counts: Vec<Option<i64>> = (0..30).map(|i| if i == 4 { Some(2) } else { None }).collect();

    let days: Vec<CalendarDay> = calculate_calendar(31, 30, 2, 3, &counts);

    assert_eq!(days.len(), 3 + 30 + 2);
    assert_eq!(days[0].day, 29);
    assert_eq!(days[1].day, 30);
    assert_eq!(days[2].day, 31);
    assert!(days[0].is_outside_month && days[0].num_releases.is_none());
    assert_eq!(days[3].day, 1);
    assert!(!days[3].is_outside_month);
    assert_eq!(days[3 + 4].num_releases, Some(2));
    assert_eq!(days[33].day, 1);
    assert_eq!(days[34].day, 2);
    assert!(days[33].is_outside_month && days[34].is_outside_month);
}

#[test]
fn grid_last_week_offsets() {
    let counts: Vec<Option<i64>> = (0..28).map(|_| None).collect();
    // A month ending on Sunday (6) shows five trailing cells.
    let days = calculate_calendar(31, 28, 0, 6, &counts);
    assert_eq!(days.len(), 1 + 28 + 5);
    // A month ending on Monday (0) shows none.
    let days = calculate_calendar(31, 28, 0, 0, &counts);
    assert_eq!(days.len(), 1 + 28);
}

#[test]
fn pages_compare_by_variant() {
    assert!(Page::About == Page::About);
    assert!(Page::Calendar != Page::Home);
    assert!(Page::Contact != Page::Other);
}
