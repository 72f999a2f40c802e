use m3u_emu::locator::{
    find_group_start, find_last_locator, locator_with_number, read_locator, Locator,
};
use m3u_emu::parser::{
    assemble, extract_number, number_with_run, parse_decimal, parse_filename, word_to_number,
};

#[test]
fn test_word_to_number_numerals() {
    assert_eq!(word_to_number("one"), Some(1));
    assert_eq!(word_to_number("two"), Some(2));
    assert_eq!(word_to_number("ten"), Some(10));
    assert_eq!(word_to_number("twenty-three"), Some(23));
    assert_eq!(word_to_number("thirty-one"), Some(31));
}

#[test]
fn test_word_to_number_case_insensitive() {
    assert_eq!(word_to_number("ONE"), Some(1));
    assert_eq!(word_to_number("Twenty-Three"), Some(23));
}

#[test]
fn test_word_to_number_alpha() {
    assert_eq!(word_to_number("A"), Some(1));
    assert_eq!(word_to_number("B"), Some(2));
    assert_eq!(word_to_number("Z"), Some(26));
}

#[test]
fn test_word_to_number_alpha_case_sensitive() {
    // Lowercase letters should NOT match (only uppercase A-Z)
    assert_eq!(word_to_number("a"), None);
    assert_eq!(word_to_number("b"), None);
}

#[test]
fn test_word_to_number_special() {
    assert_eq!(word_to_number("boot"), Some(0));
    assert_eq!(word_to_number("save"), Some(99));
    assert_eq!(word_to_number("BOOT"), Some(0));
}

#[test]
fn test_word_to_number_invalid() {
    assert_eq!(word_to_number("hello"), None);
    assert_eq!(word_to_number(""), None);
}

#[test]
fn test_extract_number_digits() {
    assert_eq!(extract_number("2"), Some(2));
    assert_eq!(extract_number("12"), Some(12));
    assert_eq!(extract_number("007"), Some(7)); // Leading zeros removed
}

#[test]
fn test_extract_number_with_text() {
    assert_eq!(extract_number("Disc 2"), Some(2));
    assert_eq!(extract_number("CD 12"), Some(12));
}

#[test]
fn test_extract_number_word() {
    assert_eq!(extract_number("Disc Two"), Some(2));
    assert_eq!(extract_number("CD Twenty-Three"), Some(23));
}

#[test]
fn test_extract_number_letter() {
    assert_eq!(extract_number("Disk A"), Some(1));
    assert_eq!(extract_number("Floppy B"), Some(2));
}

#[test]
fn test_extract_number_single_word() {
    assert_eq!(extract_number("boot"), Some(0));
    assert_eq!(extract_number("A"), Some(1));
}

#[test]
fn test_extract_number_none() {
    assert_eq!(extract_number(""), None);
    assert_eq!(extract_number("hello world"), None);
}

#[test]
fn word_to_number_knows_the_whole_table() {
    let words = [
        "zero", "one", "two", "three", "four", "five", "six", "seven", "eight", "nine", "ten",
        "eleven", "twelve", "thirteen", "fourteen", "fifteen", "sixteen", "seventeen", "eighteen",
        "nineteen", "twenty", "twenty-one", "twenty-two", "twenty-three", "twenty-four",
        "twenty-five", "twenty-six", "twenty-seven", "twenty-eight", "twenty-nine", "thirty",
        "thirty-one",
    ];
    for (n, word) in words.iter().enumerate() {
        assert_eq!(word_to_number(word), Some(n as u32));
        assert_eq!(word_to_number(&word.to_uppercase()), Some(n as u32));
    }
    assert_eq!(word_to_number("thirty-two"), None);
    assert_eq!(word_to_number("twenty one"), None);
    assert_eq!(word_to_number("SAVE"), Some(99));
}

#[test]
fn word_to_number_letters_are_one_based() {
    for (k, c) in ('A'..='Z').enumerate() {
        assert_eq!(word_to_number(&c.to_string()), Some(k as u32 + 1));
    }
    for c in 'a'..='z' {
        assert_eq!(word_to_number(&c.to_string()), None);
    }
    assert_eq!(word_to_number("AB"), None);
    assert_eq!(word_to_number("1"), None);
    assert_eq!(word_to_number("\u{c9}"), None);
}

#[test]
fn parse_decimal_reads_digit_runs() {
    let chars = |s: &str| s.chars().collect::<Vec<char>>();
    assert_eq!(parse_decimal(&chars("0")), Some(0));
    assert_eq!(parse_decimal(&chars("7")), Some(7));
    assert_eq!(parse_decimal(&chars("007")), Some(7));
    assert_eq!(parse_decimal(&chars("4294967295")), Some(u32::MAX));
    assert_eq!(parse_decimal(&chars("0004294967295")), Some(u32::MAX));
    assert_eq!(parse_decimal(&chars("4294967296")), None);
    assert_eq!(parse_decimal(&chars("99999999999999999999999999")), None);
    assert_eq!(parse_decimal(&chars("")), None);
    assert_eq!(parse_decimal(&chars("12a")), None);
    assert_eq!(parse_decimal(&chars("+12")), None);
    assert_eq!(parse_decimal(&chars("\u{663}")), None);
}

#[test]
fn number_with_run_prefers_the_digits() {
    assert_eq!(number_with_run("Disc Two", Some("3")), Some(3));
    assert_eq!(number_with_run("Disc Two", None), Some(2));
    // A run that does not read as a 32-bit number gives way to the words.
    assert_eq!(number_with_run("Disc Two", Some("99999999999")), Some(2));
    assert_eq!(number_with_run("Disc Two", Some("\u{663}")), Some(2));
    assert_eq!(number_with_run("A", None), Some(1));
    assert_eq!(number_with_run("  boot  ", None), Some(0));
    assert_eq!(number_with_run("one two three", None), Some(2));
    assert_eq!(number_with_run("Disk a", None), None);
    assert_eq!(number_with_run("   ", None), None);
    assert_eq!(number_with_run("", None), None);
}

#[test]
fn extract_number_takes_the_first_run_of_digits() {
    assert_eq!(extract_number("Disc 1 of 3"), Some(1));
    assert_eq!(extract_number("CD12b7"), Some(12));
    assert_eq!(extract_number("v0"), Some(0));
    assert_eq!(extract_number("Disc 4294967295"), Some(u32::MAX));
    // Too large for 32 bits: the words decide, and "4294967296" is no word.
    assert_eq!(extract_number("Disc 4294967296"), None);
    assert_eq!(extract_number("99999999999 B"), Some(2));
    // A digit that is not ASCII still counts as the first run.
    assert_eq!(extract_number("Disc \u{663} 2"), None);
    assert_eq!(extract_number("Disc\u{a0}Two"), Some(2));
    assert_eq!(extract_number("Disc\tTwo"), Some(2));
}

#[test]
fn leading_zeros_do_not_change_the_number() {
    assert_eq!(extract_number("007"), extract_number("7"));
    assert_eq!(extract_number("Disc 007"), Some(7));
    assert_eq!(extract_number("Disc 0"), Some(0));
    assert_eq!(extract_number("Disc 000"), Some(0));
}

#[test]
fn locator_needs_a_keyword_or_a_special_name() {
    let disc = |value: u32| Some(Locator { side: false, value });
    let side = |value: u32| Some(Locator { side: true, value });
    assert_eq!(locator_with_number("Disc 1", Some(1)), disc(1));
    assert_eq!(locator_with_number("disk 1", Some(1)), disc(1));
    assert_eq!(locator_with_number("CD1", Some(1)), disc(1));
    assert_eq!(locator_with_number("FLOPPY B", Some(2)), disc(2));
    assert_eq!(locator_with_number("  Part 3", Some(3)), disc(3));
    assert_eq!(locator_with_number("Side B", Some(2)), side(2));
    assert_eq!(locator_with_number("SIDE2", Some(2)), side(2));
    assert_eq!(locator_with_number("Boot", Some(0)), disc(0));
    assert_eq!(locator_with_number(" save ", Some(99)), disc(99));
    assert_eq!(locator_with_number("Disc 1", None), None);
    assert_eq!(locator_with_number("USA", Some(1)), None);
    assert_eq!(locator_with_number("Discs 2", Some(2)), None);
    assert_eq!(locator_with_number("Sides 2", Some(2)), None);
    assert_eq!(locator_with_number("v1", Some(1)), None);
    assert_eq!(locator_with_number("1", Some(1)), None);
    assert_eq!(locator_with_number("A", Some(1)), None);
    assert_eq!(locator_with_number("boot disk", Some(0)), None);
    assert_eq!(locator_with_number("", Some(0)), None);
}

#[test]
fn read_locator_reads_number_and_kind() {
    assert_eq!(read_locator("Disc 2"), Some(Locator { side: false, value: 2 }));
    assert_eq!(read_locator("Disk A"), Some(Locator { side: false, value: 1 }));
    assert_eq!(read_locator("Disk a"), None);
    assert_eq!(read_locator("Side B"), Some(Locator { side: true, value: 2 }));
    assert_eq!(read_locator("CD Twenty-Three"), Some(Locator { side: false, value: 23 }));
    assert_eq!(read_locator("Boot"), Some(Locator { side: false, value: 0 }));
    assert_eq!(read_locator("Save"), Some(Locator { side: false, value: 99 }));
    assert_eq!(read_locator("Disc"), None);
    assert_eq!(read_locator("Europe"), None);
    assert_eq!(read_locator("E"), None);
    assert_eq!(read_locator("1996"), None);
}

#[test]
fn groups_are_found_by_their_closing_delimiter() {
    let chars: Vec<char> = "a (b) [c] (d] ((e)) f)".chars().collect();
    assert_eq!(find_group_start(&chars, 4), Some(2));
    assert_eq!(find_group_start(&chars, 8), Some(6));
    assert_eq!(find_group_start(&chars, 12), None);
    assert_eq!(find_group_start(&chars, 17), Some(15));
    assert_eq!(find_group_start(&chars, 18), None);
    assert_eq!(find_group_start(&chars, 21), None);
    assert_eq!(find_group_start(&chars, 0), None);
    assert_eq!(find_group_start(&chars, 3), None);
    let empty: Vec<char> = "()".chars().collect();
    assert_eq!(find_group_start(&empty, 1), Some(0));
    assert_eq!(find_group_start(&empty, 0), None);
}

#[test]
fn the_last_locator_group_is_found() {
    let stem = "Game (Disc 2) (Side B) (USA)";
    let chars: Vec<char> = stem.chars().collect();
    let side = Locator { side: true, value: 2 };
    let disc = Locator { side: false, value: 2 };
    assert_eq!(find_last_locator(stem, &chars, chars.len(), false), Some((14, 21, side)));
    assert_eq!(find_last_locator(stem, &chars, chars.len(), true), Some((5, 12, disc)));
    assert_eq!(find_last_locator(stem, &chars, 21, false), Some((5, 12, disc)));
    assert_eq!(find_last_locator(stem, &chars, 14, true), Some((5, 12, disc)));
    assert_eq!(find_last_locator(stem, &chars, 12, false), None);
    assert_eq!(find_last_locator(stem, &chars, 0, false), None);
}

#[test]
fn assemble_cuts_the_groups_out() {
    let disc = Locator { side: false, value: 2 };
    let side = Locator { side: true, value: 1 };
    let stem = "Game (Disc 2) (Side A) (USA)";
    let parsed = assemble(stem, None, None);
    assert_eq!(parsed.base_name, stem);
    assert_eq!(parsed.disc_number.tenths, 0);
    let parsed = assemble(stem, Some((5, 12, disc)), None);
    assert_eq!(parsed.base_name, "Game (Side A) (USA)");
    assert_eq!(parsed.disc_number.tenths, 20);
    let parsed = assemble(stem, Some((14, 21, side)), Some((5, 12, disc)));
    assert_eq!(parsed.base_name, "Game (USA)");
    assert_eq!(parsed.disc_number.tenths, 21);
    // A disc group is only used beside a side group.
    let parsed = assemble(stem, Some((14, 21, disc)), Some((5, 12, disc)));
    assert_eq!(parsed.base_name, "Game (Disc 2) (USA)");
    assert_eq!(parsed.disc_number.tenths, 20);
    let parsed = assemble(stem, Some((14, 21, side)), None);
    assert_eq!(parsed.base_name, "Game (Disc 2) (USA)");
    assert_eq!(parsed.disc_number.tenths, 10);
    let big = Locator { side: true, value: u32::MAX };
    let parsed = assemble("(a)(b)", Some((3, 5, big)), Some((0, 2, Locator { side: false, value: u32::MAX })));
    assert_eq!(parsed.base_name, "");
    assert_eq!(parsed.disc_number.tenths, 47_244_640_245);
}

fn parsed(name: &str) -> (String, u64) {
    let p = parse_filename(name);
    (p.base_name, p.disc_number.tenths)
}

#[test]
fn parse_filename_reads_disc_groups() {
    assert_eq!(parsed("FF7 (Disc 1).cue"), ("FF7".to_string(), 10));
    assert_eq!(parsed("FF7 (Disc 2).cue"), ("FF7".to_string(), 20));
    assert_eq!(parsed("FF8 (Disc 1).cue"), ("FF8".to_string(), 10));
    assert_eq!(parsed("Final Fantasy VII (Disc 3).bin"), ("Final Fantasy VII".to_string(), 30));
    assert_eq!(parsed("Game (CD2).iso"), ("Game".to_string(), 20));
    assert_eq!(parsed("Game [Disk 12].chd"), ("Game".to_string(), 120));
    assert_eq!(parsed("Game (Part Two).iso"), ("Game".to_string(), 20));
    assert_eq!(parsed("Game (Floppy 007).adf"), ("Game".to_string(), 70));
    assert_eq!(parsed("Game (Disc 1 of 3).cue"), ("Game".to_string(), 10));
}

#[test]
fn parse_filename_letter_and_digit_agree() {
    let by_letter = parse_filename("Game (Disk A).adf");
    let by_digit = parse_filename("Game (Disk 1).adf");
    assert_eq!(by_letter.disc_number, by_digit.disc_number);
    assert_eq!(by_letter.disc_number.tenths as f32 / 10.0, 1.0);
    assert_eq!(by_letter.base_name, "Game");
    assert_eq!(by_digit.base_name, "Game");
    let by_word = parse_filename("Game (Disk One).adf");
    assert_eq!(by_word.disc_number, by_digit.disc_number);
    assert_eq!(parsed("Game (Disk B).adf"), ("Game".to_string(), 20));
    assert_eq!(parsed("Game (Disk Z).adf"), ("Game".to_string(), 260));
}

#[test]
fn parse_filename_small_letter_does_not_resolve() {
    assert_eq!(parsed("Game (Disk a).adf"), ("Game (Disk a)".to_string(), 0));
    assert_eq!(parsed("Game (Disk b).adf"), ("Game (Disk b)".to_string(), 0));
}

#[test]
fn parse_filename_without_locator_keeps_the_stem() {
    assert_eq!(parsed("Game.iso"), ("Game".to_string(), 0));
    assert_eq!(parsed("Game (USA).iso"), ("Game (USA)".to_string(), 0));
    assert_eq!(parsed("Game (E) [!].iso"), ("Game (E) [!]".to_string(), 0));
    assert_eq!(parsed("Game (1996).iso"), ("Game (1996)".to_string(), 0));
    assert_eq!(parsed("Game Disc 1.iso"), ("Game Disc 1".to_string(), 0));
    assert_eq!(parsed("Game (Disc).iso"), ("Game (Disc)".to_string(), 0));
    assert_eq!(parsed("Game (Disc 1.iso"), ("Game (Disc 1".to_string(), 0));
    assert_eq!(parsed(" Game .iso"), (" Game ".to_string(), 0));
    assert_eq!(parsed("Game"), ("Game".to_string(), 0));
    assert_eq!(parsed(""), ("".to_string(), 0));
    assert_eq!(parsed(".hidden"), (".hidden".to_string(), 0));
    assert_eq!(parsed("a.b.c"), ("a.b".to_string(), 0));
}

#[test]
fn parse_filename_sides_are_tenths() {
    assert_eq!(parsed("Game (Disc 2) (Side 1).adf"), ("Game".to_string(), 21));
    assert_eq!(parsed("Game (Disk 2) (Side A).adf"), ("Game".to_string(), 21));
    assert_eq!(parsed("Game (Disk 2) (Side B).adf"), ("Game".to_string(), 22));
    assert_eq!(parsed("Game (Disk 1) (USA) (Side B).d64"), ("Game (USA)".to_string(), 12));
    // A side without a disc before it counts whole.
    assert_eq!(parsed("Game (Side B).d64"), ("Game".to_string(), 20));
    assert_eq!(parsed("Game (Side A) (Disc 2).d64"), ("Game (Side A)".to_string(), 20));
    // An earlier side is passed over when the disc is looked for.
    assert_eq!(parsed("Game (Disc 3) (Side A) (Side B).d64"), ("Game (Side A)".to_string(), 32));
}

#[test]
fn parse_filename_special_names() {
    assert_eq!(parsed("Other (Boot).adf"), ("Other".to_string(), 0));
    assert_eq!(parsed("Other (Save).adf"), ("Other".to_string(), 990));
    assert_eq!(parsed("Other (SAVE).adf"), ("Other".to_string(), 990));
    assert_eq!(parsed("Other (Save Disk).adf"), ("Other (Save Disk)".to_string(), 0));
}

#[test]
fn parse_filename_takes_the_rightmost_group() {
    assert_eq!(parsed("Game (Disc 1) (Disc 2).cue"), ("Game (Disc 1)".to_string(), 20));
    assert_eq!(parsed("Game (Disc 2) (USA) (v1.1).cue"), ("Game (USA) (v1.1)".to_string(), 20));
    assert_eq!(parsed("(Disc 2) Game.cue"), ("Game".to_string(), 20));
    assert_eq!(parsed("Game (Disc 2)(USA).cue"), ("Game(USA)".to_string(), 20));
    assert_eq!(parsed("Game   (Disc 2)   .cue"), ("Game".to_string(), 20));
    assert_eq!(parsed("(Disc 2).cue"), ("".to_string(), 20));
    assert_eq!(parsed("Game ((Disc 2)).cue"), ("Game ()".to_string(), 20));
    assert_eq!(parsed("Game (Disc 2].cue"), ("Game (Disc 2]".to_string(), 0));
}
