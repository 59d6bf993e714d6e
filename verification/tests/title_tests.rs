use notes_site::title::format_title;
use notes_site::title::sort_key_chars;

fn chars(s: &str) -> Vec<char> {
    s.chars().collect()
}

#[test]
fn formats_numeric_prefixed_name() {
    assert_eq!(format_title("1) analog_circuits"), "Analog Circuits");
}

#[test]
fn formats_plain_name() {
    assert_eq!(format_title("overview"), "Overview");
}

#[test]
fn format_is_idempotent_on_formatted_names() {
    let once = format_title("overview");
    assert_eq!(format_title(&once), once);
    let once = format_title("analog circuits");
    assert_eq!(format_title(&once), once);
}

#[test]
fn consecutive_underscores_keep_empty_words() {
    assert_eq!(format_title("a__b"), "A  B");
}

#[test]
fn empty_name_stays_empty() {
    assert_eq!(format_title(""), "");
}

#[test]
fn prefix_without_space_is_stripped() {
    assert_eq!(format_title("2)x"), "X");
}

#[test]
fn prefix_needs_closing_paren() {
    assert_eq!(format_title("12 monkeys"), "12 monkeys");
}

#[test]
fn unicode_first_letter_is_uppercased() {
    assert_eq!(format_title("\u{fc}ber"), "\u{dc}ber");
}

#[test]
fn sort_key_of_prefixed_name() {
    let k = sort_key_chars(&chars("1) Alpha"));
    assert_eq!(k.rank, 1);
    let name: String = k.name.iter().collect();
    assert_eq!(name, "Alpha");
}

#[test]
fn sort_key_without_prefix_ranks_last() {
    let k = sort_key_chars(&chars("Zeta"));
    assert_eq!(k.rank, u64::MAX);
    let name: String = k.name.iter().collect();
    assert_eq!(name, "Zeta");
}

#[test]
fn sort_key_with_huge_prefix_ranks_last() {
    let k = sort_key_chars(&chars("99999999999999999999) big"));
    assert_eq!(k.rank, u64::MAX);
}
