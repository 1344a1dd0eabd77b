use trophy_bot::digits::BigInt;
use trophy_bot::magnitude::CanLog10;
use trophy_bot::messages::{ContextTrait, LocalContext, MessageConstructor};
use trophy_bot::players::{no_unique_elements, overflow_check, Overflows};

#[test]
fn conversion_into_array() {
    assert_eq!(BigInt::from_text(&12345.to_string()).int_array, vec![1u32, 2, 3, 4, 5]);
    assert_eq!(BigInt::from_text(&123.45.to_string()).int_array, vec![1u32, 2u32, 3u32]);
    assert_eq!(BigInt::from_text("1a").int_array, vec![1u32])
}

#[test]
fn digits_of_empty_and_non_numeric_text() {
    assert_eq!(BigInt::from_text("").int_array, Vec::<u32>::new());
    assert_eq!(BigInt::from_text("x12").int_array, Vec::<u32>::new());
    assert_eq!(BigInt::from_text("907").int_array, vec![9u32, 0, 7]);
}

#[test]
fn order_of_magnitude() {
    assert_eq!(7i8.calc_log10(), 0);
    assert_eq!(100i16.calc_log10(), 2);
    assert_eq!(99999i32.calc_log10(), 4);
    assert_eq!(1_000_000_000_000i64.calc_log10(), 12);
    assert_eq!(i128::MAX.calc_log10(), 38);
    let x = trophy_bot::big_int::BigInt::new(2395872).unwrap();
    assert_eq!(x.calc_log10(), 6);
}

#[test]
fn duplicate_ids() {
    assert!(no_unique_elements(&vec![]));
    assert!(no_unique_elements(&vec![4, 8, 15, 16, 23, 42]));
    assert!(!no_unique_elements(&vec![4, 8, 15, 4]));
    assert!(!no_unique_elements(&vec![7, 7]));
}

#[test]
fn overflow_classes() {
    assert_eq!(overflow_check(None), Overflows::Int);
    assert_eq!(overflow_check(Some(i64::MAX)), Overflows::Float);
    assert_eq!(overflow_check(Some(12)), Overflows::Safe);
    assert_eq!(overflow_check(Some(i64::MIN)), Overflows::Safe);
}

#[test]
fn default_message_is_empty() {
    let m = MessageConstructor::default();
    assert_eq!(m.title, "");
    assert_eq!(m.description, "");
    assert!(!m.ephemeral);
    assert!(!m.include_author);
    assert_eq!(m.contents, "");
}

#[test]
fn local_context_lays_out_messages() {
    let ctx = LocalContext::new();
    assert_eq!(ctx.get_user_id(), 0);
    assert_eq!(ctx.get_display_name(), "local_username");
    let m = MessageConstructor {
        title: "Level up".to_string(),
        description: "news".to_string(),
        ephemeral: true,
        include_author: false,
        contents: "You reached Lv. 3!".to_string(),
    };
    assert_eq!(
        ctx.message_constructor(m),
        "\ntitle: Level up\ndescription: news\nephemeral: true\ninclude_author: false\n\nYou reached Lv. 3!"
    );
}
