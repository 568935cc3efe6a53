use delinhere::commands::{verb_adverb_here, Messages};
use delinhere::utils::{closest_bpair, found_at, BPairs, Pos};
use std::cmp::Ordering;

#[test]
fn pos_accessors() {
    let p = Pos::new(3, 7);
    assert_eq!(p.line(), 3);
    assert_eq!(p.col(), 7);
    assert_eq!(p.get(), (3, 7));
    assert_eq!(p.to_char_index(), (2, 6));
}

#[test]
fn pos_order_is_line_then_column() {
    assert!(Pos::new(2, 1) > Pos::new(1, 9));
    assert!(Pos::new(2, 3) < Pos::new(2, 4));
    assert_eq!(Pos::new(4, 4).partial_cmp(&Pos::new(4, 4)), Some(Ordering::Equal));
    assert_eq!(Pos::new(4, 4), Pos::new(4, 4));
    assert_ne!(Pos::new(4, 4), Pos::new(4, 5));
}

#[test]
fn bracket_glyphs() {
    assert_eq!(BPairs::Brack.to_simple_string_open(), "[");
    assert_eq!(BPairs::Brack.to_simple_string_close(), "]");
    assert_eq!(BPairs::Paren.to_simple_string_open(), "(");
    assert_eq!(BPairs::Paren.to_simple_string_close(), ")");
    assert_eq!(BPairs::Curly.to_simple_string_open(), "{");
    assert_eq!(BPairs::Curly.to_simple_string_close(), "}");
}

#[test]
fn bracket_search_patterns() {
    assert_eq!(BPairs::Brack.to_string_pair(), (String::from(r"\["), String::from(r"\]")));
    assert_eq!(BPairs::Paren.to_string_pair(), (String::from("("), String::from(")")));
    assert_eq!(BPairs::Curly.to_string_pair(), (String::from("{"), String::from("}")));
}

#[test]
fn all_kinds_in_order() {
    assert_eq!(BPairs::array(), [BPairs::Brack, BPairs::Paren, BPairs::Curly]);
}

#[test]
fn zero_means_not_found() {
    assert_eq!(found_at(0, 0), None);
    assert_eq!(found_at(3, 0), None);
    assert_eq!(found_at(0, 3), None);
    assert_eq!(found_at(3, 4), Some(Pos::new(3, 4)));
}

#[test]
fn closest_is_greatest_position() {
    let found = vec![
        (BPairs::Brack, Some(Pos::new(1, 5))),
        (BPairs::Paren, Some(Pos::new(2, 1))),
        (BPairs::Curly, Some(Pos::new(1, 9))),
    ];
    assert_eq!(closest_bpair(&found), Some((BPairs::Paren, Pos::new(2, 1))));
}

#[test]
fn closest_skips_missing_kinds() {
    let found = vec![
        (BPairs::Brack, None),
        (BPairs::Paren, None),
        (BPairs::Curly, Some(Pos::new(1, 9))),
    ];
    assert_eq!(closest_bpair(&found), Some((BPairs::Curly, Pos::new(1, 9))));
    let none = vec![(BPairs::Brack, None), (BPairs::Paren, None), (BPairs::Curly, None)];
    assert_eq!(closest_bpair(&none), None);
}

#[test]
fn closest_tie_keeps_first() {
    let found = vec![
        (BPairs::Brack, Some(Pos::new(3, 3))),
        (BPairs::Paren, Some(Pos::new(3, 3))),
        (BPairs::Curly, None),
    ];
    assert_eq!(closest_bpair(&found), Some((BPairs::Brack, Pos::new(3, 3))));
}

#[test]
fn event_names_map_to_commands() {
    assert!(matches!(Messages::from(String::from("DelInHere")), Messages::DelInHere));
    assert!(matches!(Messages::from(String::from("DelArHere")), Messages::DelArHere));
    assert!(matches!(Messages::from(String::from("ChaInHere")), Messages::ChaInHere));
    assert!(matches!(Messages::from(String::from("ChaArHere")), Messages::ChaArHere));
    assert!(matches!(Messages::from(String::from("SelInHere")), Messages::SelInHere));
    assert!(matches!(Messages::from(String::from("SelArHere")), Messages::SelArHere));
    assert!(matches!(Messages::from(String::from("YanInHere")), Messages::YanInHere));
    assert!(matches!(Messages::from(String::from("YanArHere")), Messages::YanArHere));
    assert!(matches!(Messages::from(String::from("Test")), Messages::Test));
    match Messages::from(String::from("delinhere")) {
        Messages::Unknown(s) => assert_eq!(s, "delinhere"),
        other => panic!("unexpected {:?}", other),
    }
}

#[test]
fn command_keys_are_concatenated() {
    assert_eq!(verb_adverb_here("d", "i", "("), "di(");
    assert_eq!(verb_adverb_here("y", "a", "{"), "ya{");
}
