use podgraph::cache::{find_in_cache, store_in_cache, Cache};
use podgraph::card::Card;
use podgraph::cost::cmc_f32_to_u8;
use podgraph::decklist::{
    card_from_record, card_name_trimmer, creature_of, fetch_card, split_type_line, store_record,
    CacheFailure, Diagnostic, FetchStep, LookupRecord, RecordError,
};

fn card(name: &str, cmc: u8, types: &[&str]) -> Card {
    Card { name: name.to_string(), cmc, types: types.iter().map(|t| t.to_string()).collect() }
}

fn record(name: &str, type_line: Option<&str>, cmc: Option<f32>) -> LookupRecord {
    LookupRecord {
        name: name.to_string(),
        type_line: type_line.map(|t| t.to_string()),
        cmc: cmc.map(f32::to_bits),
    }
}

#[test]
fn trimmer_strips_quantity() {
    assert_eq!(card_name_trimmer("2 Birds of Paradise"), "Birds of Paradise");
}

#[test]
fn trimmer_strips_surrounding_whitespace() {
    assert_eq!(card_name_trimmer("  Llanowar Elves  "), "Llanowar Elves");
}

#[test]
fn trimmer_consumes_only_the_digit_run() {
    assert_eq!(card_name_trimmer("10x Something"), "x Something");
}

#[test]
fn trimmer_keeps_inner_digits_and_spaces() {
    assert_eq!(card_name_trimmer("4   Borborygmos  Enraged 2 "), "Borborygmos  Enraged 2");
    assert_eq!(card_name_trimmer("Mox 7"), "Mox 7");
}

#[test]
fn trimmer_on_empty_and_blank_lines() {
    assert_eq!(card_name_trimmer(""), "");
    assert_eq!(card_name_trimmer("   \t "), "");
    assert_eq!(card_name_trimmer("12"), "");
    assert_eq!(card_name_trimmer(" 12  "), "");
}

#[test]
fn trimmer_knows_unicode_whitespace() {
    assert_eq!(card_name_trimmer("\u{a0}3\u{2003}Æther Vial\u{3000}\n"), "Æther Vial");
    assert_eq!(card_name_trimmer("\u{200b}Elf"), "\u{200b}Elf");
}

#[test]
fn trimmer_agrees_with_trim_on_names_without_quantity() {
    for line in ["Elvish Mystic", "\tElvish Mystic\r\n", " a b ", "\u{85}x\u{1680}", "é ", " 日本"] {
        assert_eq!(card_name_trimmer(line), line.trim());
    }
}

#[test]
fn cost_of_whole_numbers() {
    assert_eq!(cmc_f32_to_u8(1.0f32.to_bits()), Some(1));
    assert_eq!(cmc_f32_to_u8(3.0f32.to_bits()), Some(3));
    assert_eq!(cmc_f32_to_u8(0.0f32.to_bits()), Some(0));
    assert_eq!(cmc_f32_to_u8((-0.0f32).to_bits()), Some(0));
    assert_eq!(cmc_f32_to_u8(16.0f32.to_bits()), Some(16));
    assert_eq!(cmc_f32_to_u8(255.0f32.to_bits()), Some(255));
}

#[test]
fn cost_of_every_whole_number_in_range() {
    for n in 0u16..=255 {
        assert_eq!(cmc_f32_to_u8((n as f32).to_bits()), Some(n as u8));
    }
}

#[test]
fn cost_rejects_fractions() {
    assert_eq!(cmc_f32_to_u8(1.5f32.to_bits()), None);
    assert_eq!(cmc_f32_to_u8(2.999999f32.to_bits()), None);
    assert_eq!(cmc_f32_to_u8(0.5f32.to_bits()), None);
    assert_eq!(cmc_f32_to_u8(254.5f32.to_bits()), None);
    assert_eq!(cmc_f32_to_u8(255.00002f32.to_bits()), None);
    assert_eq!(cmc_f32_to_u8(f32::MIN_POSITIVE.to_bits()), None);
    assert_eq!(cmc_f32_to_u8(1u32), None);
    assert_eq!(cmc_f32_to_u8((-0.5f32).to_bits()), None);
}

#[test]
fn cost_rejects_what_no_cost_can_hold() {
    assert_eq!(cmc_f32_to_u8(256.0f32.to_bits()), None);
    assert_eq!(cmc_f32_to_u8(1.0e9f32.to_bits()), None);
    assert_eq!(cmc_f32_to_u8(f32::MAX.to_bits()), None);
    assert_eq!(cmc_f32_to_u8((-1.0f32).to_bits()), None);
    assert_eq!(cmc_f32_to_u8(f32::INFINITY.to_bits()), None);
    assert_eq!(cmc_f32_to_u8(f32::NEG_INFINITY.to_bits()), None);
    assert_eq!(cmc_f32_to_u8(f32::NAN.to_bits()), None);
}

#[test]
fn cost_agrees_with_the_float_on_many_bit_patterns() {
    let mut bits: u32 = 0;
    loop {
        let f = f32::from_bits(bits);
        let expected =
            if f.is_finite() && f.fract() == 0.0 && (0.0..=255.0).contains(&f) { Some(f as u8) } else { None };
        assert_eq!(cmc_f32_to_u8(bits), expected, "bits {bits:#x}");
        match bits.checked_add(0x0000_fff1) {
            Some(next) => bits = next,
            None => break,
        }
    }
}

#[test]
fn type_line_splits_on_each_space() {
    assert_eq!(split_type_line("Legendary Creature — Goblin"), vec!["Legendary", "Creature", "—", "Goblin"]);
    assert_eq!(split_type_line("Instant"), vec!["Instant"]);
    assert_eq!(split_type_line(""), vec![""]);
    assert_eq!(split_type_line(" "), vec!["", ""]);
    assert_eq!(split_type_line("a  b "), vec!["a", "", "b", ""]);
}

#[test]
fn type_line_splits_as_std_does() {
    for line in ["Creature — Elf Druid", "  x ", "—", "a\tb c", "Artifact Creature — Golem "] {
        let expected: Vec<String> = line.split(' ').map(|w| w.to_string()).collect();
        assert_eq!(split_type_line(line), expected);
    }
}

#[test]
fn record_makes_card() {
    let made = card_from_record(record("Goblin Matron", Some("Creature — Goblin"), Some(3.0)));
    assert_eq!(made, Ok(card("Goblin Matron", 3, &["Creature", "—", "Goblin"])));
}

#[test]
fn record_without_type_line_has_no_types() {
    let made = card_from_record(record("Mystery", None, Some(0.0)));
    assert_eq!(made, Ok(card("Mystery", 0, &[])));
}

#[test]
fn record_without_cost_is_refused() {
    assert_eq!(card_from_record(record("Plains", Some("Basic Land — Plains"), None)), Err(RecordError::MissingCost));
}

#[test]
fn record_with_fractional_cost_is_refused() {
    assert_eq!(
        card_from_record(record("Little Girl", Some("Creature — Human Child"), Some(0.5))),
        Err(RecordError::FractionalCost)
    );
    assert_eq!(
        card_from_record(record("Gleemax", Some("Legendary Artifact"), Some(1_000_000.0))),
        Err(RecordError::FractionalCost)
    );
}

#[test]
fn creature_keeps_subtypes_only() {
    let kept = creature_of(card("Krenko, Mob Boss", 4, &["Legendary", "Creature", "—", "Goblin", "Warrior"]));
    assert_eq!(kept, Some(card("Krenko, Mob Boss", 4, &["Goblin", "Warrior"])));
}

#[test]
fn creature_without_dash_keeps_all_types() {
    let kept = creature_of(card("Nameless Race", 4, &["Creature"]));
    assert_eq!(kept, Some(card("Nameless Race", 4, &["Creature"])));
}

#[test]
fn creature_cuts_at_the_first_dash() {
    let kept = creature_of(card("Odd", 1, &["Creature", "—", "Elf", "—", "Druid"]));
    assert_eq!(kept, Some(card("Odd", 1, &["Elf", "—", "Druid"])));
    let kept = creature_of(card("Odder", 1, &["Creature", "—"]));
    assert_eq!(kept, Some(card("Odder", 1, &[])));
}

#[test]
fn other_cards_are_dropped() {
    assert_eq!(creature_of(card("Lightning Bolt", 1, &["Instant"])), None);
    assert_eq!(creature_of(card("Forest", 0, &["Basic", "Land", "—", "Forest"])), None);
    assert_eq!(creature_of(card("No Types", 0, &[])), None);
    assert_eq!(creature_of(card("Lower Case", 2, &["creature"])), None);
    assert_eq!(creature_of(card("Tribal", 2, &["Kindred", "Sorcery", "—", "Creature"])).map(|c| c.types), Some(vec![
        "Creature".to_string()
    ]));
}

#[test]
fn empty_cache_has_nothing() {
    let cache = Cache::new();
    assert_eq!(cache.len(), 0);
    assert_eq!(find_in_cache(&cache, "Goblin Matron"), None);
}

#[test]
fn cache_returns_what_was_stored() {
    let mut cache = Cache::new();
    let matron = card("Goblin Matron", 3, &["Goblin"]);
    let elves = card("Llanowar Elves", 1, &["Elf", "Druid"]);
    store_in_cache(&mut cache, "goblin matron", &matron);
    store_in_cache(&mut cache, "Llanowar Elves", &elves);
    assert_eq!(find_in_cache(&cache, "goblin matron"), Some(matron.clone()));
    assert_eq!(find_in_cache(&cache, "Llanowar Elves"), Some(elves.clone()));
    assert_eq!(find_in_cache(&cache, "Goblin Matron"), None);
    assert_eq!(cache.len(), 2);
    assert_eq!(cache.name_at(0), "goblin matron");
    assert_eq!(cache.card_at(0), &matron);
    assert_eq!(cache.name_at(1), "Llanowar Elves");
    assert_eq!(cache.card_at(1), &elves);
}

#[test]
fn cache_replaces_an_entry_of_the_same_name() {
    let mut cache = Cache::new();
    store_in_cache(&mut cache, "a", &card("A", 1, &[]));
    store_in_cache(&mut cache, "b", &card("B", 2, &[]));
    store_in_cache(&mut cache, "a", &card("A again", 3, &["Elf"]));
    assert_eq!(cache.len(), 2);
    assert_eq!(find_in_cache(&cache, "a"), Some(card("A again", 3, &["Elf"])));
    assert_eq!(find_in_cache(&cache, "b"), Some(card("B", 2, &[])));
    assert_eq!(cache.name_at(0), "a");
}

#[test]
fn fetch_returns_cached_card() {
    let matron = card("Goblin Matron", 3, &["Goblin"]);
    match fetch_card(Ok(Some(matron.clone()))) {
        FetchStep::Cached(found) => assert_eq!(found, matron),
        FetchStep::Lookup(_) => panic!("a cached card is not looked up"),
    }
}

#[test]
fn fetch_looks_up_on_miss() {
    assert!(matches!(fetch_card(Ok(None)), FetchStep::Lookup(Diagnostic::CacheMiss)));
    assert!(matches!(fetch_card(Err(CacheFailure::NotFound)), FetchStep::Lookup(Diagnostic::CacheMiss)));
}

#[test]
fn fetch_looks_up_on_cache_failure() {
    assert!(matches!(fetch_card(Err(CacheFailure::Other)), FetchStep::Lookup(Diagnostic::CacheFailed)));
}

#[test]
fn second_fetch_is_answered_from_the_cache() {
    let mut cache = Cache::new();
    let name = card_name_trimmer("1 Goblin Matron");
    assert!(matches!(fetch_card(Ok(find_in_cache(&cache, name))), FetchStep::Lookup(Diagnostic::CacheMiss)));
    let first = card_from_record(record("Goblin Matron", Some("Creature — Goblin"), Some(3.0))).unwrap();
    store_in_cache(&mut cache, name, &first);
    match fetch_card(Ok(find_in_cache(&cache, name))) {
        FetchStep::Cached(second) => assert_eq!(second, first),
        FetchStep::Lookup(_) => panic!("the second fetch must not look the card up"),
    }
}

#[test]
fn whitespace_is_what_trim_takes_off() {
    for code in 0u32..=0x10ffff {
        if let Some(c) = char::from_u32(code) {
            let line = format!("{c}x{c}");
            let expected = if c.is_whitespace() { "x".to_string() } else { line.clone() };
            let got = card_name_trimmer(&line);
            if c.is_ascii_digit() {
                assert_eq!(got, format!("x{c}"));
            } else {
                assert_eq!(got, expected, "code point {code:#x}");
            }
        }
    }
}

#[test]
fn only_ascii_digits_are_a_quantity() {
    assert_eq!(card_name_trimmer("٣ Elves"), "٣ Elves");
    assert_eq!(card_name_trimmer("² Elves"), "² Elves");
    assert_eq!(card_name_trimmer("0123456789 Elves"), "Elves");
    assert_eq!(card_name_trimmer("3\u{2009}\u{2009}Elves"), "Elves");
    assert_eq!(card_name_trimmer("-3 Elves"), "-3 Elves");
}

#[test]
fn a_looked_up_card_is_kept_under_the_name_asked_for() {
    let mut cache = Cache::new();
    let made = store_record(&mut cache, "goblin matr", record("Goblin Matron", Some("Creature — Goblin"), Some(3.0)));
    let matron = card("Goblin Matron", 3, &["Creature", "—", "Goblin"]);
    assert_eq!(made, Ok(matron.clone()));
    assert_eq!(cache.len(), 1);
    assert_eq!(find_in_cache(&cache, "goblin matr"), Some(matron));
    assert_eq!(find_in_cache(&cache, "Goblin Matron"), None);
}

#[test]
fn a_refused_record_leaves_the_cache_alone() {
    let mut cache = Cache::new();
    store_in_cache(&mut cache, "a", &card("A", 1, &[]));
    assert_eq!(store_record(&mut cache, "b", record("B", None, None)), Err(RecordError::MissingCost));
    assert_eq!(store_record(&mut cache, "a", record("A", None, Some(1.25))), Err(RecordError::FractionalCost));
    assert_eq!(cache.len(), 1);
    assert_eq!(find_in_cache(&cache, "a"), Some(card("A", 1, &[])));
    assert_eq!(find_in_cache(&cache, "b"), None);
}
