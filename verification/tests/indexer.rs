use state_pruner::bencher::TransactionBencher;
use state_pruner::move_types::{
    is_parsable_move_option, is_quoted_move_string, parse_move_option, parse_move_string,
    MoveOption, MoveTable, MoveTableHandle, TypeDef,
};
use state_pruner::processors::Processor;

fn some(text: &str) -> MoveOption<String> {
    MoveOption { vec: vec![text.to_string()] }
}

#[test]
fn an_empty_move_option_holds_no_number() {
    assert_eq!(parse_move_option(MoveOption { vec: vec![] }), None);
    assert!(is_parsable_move_option(&MoveOption { vec: vec![] }));
}

#[test]
fn a_move_option_holds_its_first_value() {
    assert_eq!(parse_move_option(some("1700000000")), Some(1_700_000_000));
    assert_eq!(parse_move_option(some("-42")), Some(-42));
    assert_eq!(parse_move_option(some("+7")), Some(7));
    assert_eq!(parse_move_option(some("007")), Some(7));
    assert_eq!(parse_move_option(some("9223372036854775807")), Some(i64::MAX));
    assert_eq!(parse_move_option(some("-9223372036854775808")), Some(i64::MIN));
    let two = MoveOption { vec: vec!["5".to_string(), "6".to_string()] };
    assert_eq!(parse_move_option(two), Some(5));
}

#[test]
fn text_that_spells_no_number_is_told_apart() {
    for text in ["", "+", "-", " 5", "5 ", "1_000", "12a", "9223372036854775808", "0x10", "1.5"] {
        assert!(!is_parsable_move_option(&some(text)), "{:?}", text);
    }
    for text in ["0", "-0", "+0", "42", "-9223372036854775808"] {
        assert!(is_parsable_move_option(&some(text)), "{:?}", text);
    }
}

#[test]
fn a_move_string_loses_its_quotes() {
    assert_eq!(parse_move_string("\"hello\""), "hello");
    assert_eq!(parse_move_string("\"\""), "");
    assert_eq!(parse_move_string("abc"), "b");
    assert_eq!(parse_move_string("\"h\u{e9}llo\""), "h\u{e9}llo");
}

#[test]
fn processors_go_by_their_names() {
    let cases = [
        ("default_processor", Processor::DefaultProcessor),
        ("token_processor", Processor::TokenProcessor),
        ("coin_processor", Processor::CoinProcessor),
        ("stake_processor", Processor::StakeProcessor),
        ("aptocracy_processor", Processor::AptocracyProcessor),
    ];
    for (name, processor) in cases {
        assert_eq!(Processor::from_string(&name.to_string()), processor);
        assert_eq!(processor.name(), name);
    }
}

#[test]
fn a_bencher_starts_with_the_defaults() {
    let bencher = TransactionBencher::new("strategy");
    assert_eq!(bencher.get_num_accounts(), 100);
    assert_eq!(bencher.get_num_transactions(), 1000);
    assert_eq!(TransactionBencher::<&str>::DEFAULT_NUM_ACCOUNTS, 100);
    assert_eq!(TransactionBencher::<&str>::DEFAULT_NUM_TRANSACTIONS, 1000);
}

#[test]
fn a_bencher_takes_custom_numbers() {
    let mut bencher = TransactionBencher::new(0u8);
    bencher.num_accounts(7).num_transactions(9);
    assert_eq!(bencher.get_num_accounts(), 7);
    assert_eq!(bencher.get_num_transactions(), 9);
    bencher.num_transactions(11);
    assert_eq!(bencher.get_num_accounts(), 7);
    assert_eq!(bencher.get_num_transactions(), 11);
}

#[test]
fn move_values_keep_their_fields() {
    let table = MoveTable {
        inner: MoveTableHandle { handle: "0xabc".to_string() },
        length: "3".to_string(),
    };
    assert_eq!(table.clone(), table);
    assert_eq!(table.inner.handle, "0xabc");
    let def = TypeDef {
        account_address: "0x1".to_string(),
        module_name: "treasury".to_string(),
        struct_name: "Treasury".to_string(),
    };
    assert_eq!(def.struct_name, "Treasury");
}

#[test]
fn a_quoted_string_has_a_first_and_a_last_character_of_one_byte() {
    assert!(is_quoted_move_string("\"hello\""));
    assert!(is_quoted_move_string("\"\""));
    assert!(is_quoted_move_string("ab"));
    assert!(!is_quoted_move_string(""));
    assert!(!is_quoted_move_string("a"));
    assert!(!is_quoted_move_string("\u{e9}a"));
    assert!(!is_quoted_move_string("a\u{e9}"));
    assert!(!is_quoted_move_string("\u{e9}"));
    assert!(is_quoted_move_string("a\u{e9}b"));
}

#[test]
fn a_name_that_is_no_processor_finds_none() {
    assert_eq!(Processor::find(&"coin_processor".to_string()), Some(Processor::CoinProcessor));
    assert_eq!(
        Processor::find(&"aptocracy_processor".to_string()),
        Some(Processor::AptocracyProcessor)
    );
    assert_eq!(Processor::find(&"".to_string()), None);
    assert_eq!(Processor::find(&"Coin_processor".to_string()), None);
    assert_eq!(Processor::find(&"coin_processor ".to_string()), None);
}
