use bill_split::Amount;
use bill_split::LItem;
use bill_split::Money;
use bill_split::Participant;
use bill_split::SplitError;
use bill_split::SplitItem;

const A: u128 = 1;
const B: u128 = 2;
const C: u128 = 3;
const PIZZA: u128 = 100;
const COFFEE: u128 = 101;
const CAKE: u128 = 102;

fn cents(n: u64) -> Money {
    Money::from_cents(n)
}

fn price(units: i128, hundredths: i128) -> Amount {
    Amount { mantissa: units * 100 + hundredths, scale: 2 }
}

fn owed(ledger: &SplitItem, who: u128) -> Option<Money> {
    ledger.get_split_amount_by_id(who)
}

fn members(ledger: &SplitItem, item: u128) -> Vec<u128> {
    let items = ledger.line_items();
    let at = items.position(item).expect("the item is there");
    items.get(at).participants().clone()
}

fn sum_of_shares(ledger: &SplitItem) -> u64 {
    let ps = ledger.participants();
    let mut sum = 0u64;
    for i in 0..ps.len() {
        sum += owed(ledger, ps.get(i).id()).expect("every participant has a share").cents;
    }
    sum
}

fn two_people() -> SplitItem {
    let mut ledger = SplitItem::with_id(7);
    assert_eq!(ledger.add_participant_keyed(A, "A"), Ok(()));
    assert_eq!(ledger.add_participant_keyed(B, "B"), Ok(()));
    ledger
}

fn coffee_for_a() -> SplitItem {
    let mut ledger = two_people();
    assert_eq!(ledger.add_line_item_keyed(COFFEE, "Coffee", price(3, 0), &vec![A]), Ok(()));
    ledger
}

#[test]
fn new_ledger_is_empty() {
    let ledger = SplitItem::with_id(9);
    assert_eq!(ledger.id(), 9);
    assert_eq!(ledger.event_name(), "");
    assert_eq!(ledger.total_price(), Money::zero());
    assert_eq!(ledger.total_tax(), Money::zero());
    assert_eq!(ledger.participants().len(), 0);
    assert_eq!(ledger.line_items().len(), 0);
    assert_eq!(owed(&ledger, A), None);
}

#[test]
fn ledgers_get_keys_of_their_own() {
    let x = SplitItem::new();
    let y = SplitItem::new();
    assert_ne!(x.id(), y.id());
}

#[test]
fn pizza_for_two_with_tax() {
    let mut ledger = two_people();
    assert_eq!(ledger.add_line_item_keyed(PIZZA, "Pizza", price(10, 0), &vec![A, B]), Ok(()));
    assert_eq!(ledger.add_total_tax(price(1, 0)), Ok(()));
    assert_eq!(owed(&ledger, A), Some(cents(550)));
    assert_eq!(owed(&ledger, B), Some(cents(550)));
    assert_eq!(ledger.total_price(), cents(1100));
    assert_eq!(ledger.tax_split(), cents(50));
    assert_eq!(ledger.total_involved_participant_count(), 2);
}

#[test]
fn coffee_for_one_leaves_the_other_at_zero() {
    let ledger = coffee_for_a();
    assert_eq!(owed(&ledger, A), Some(cents(300)));
    assert_eq!(owed(&ledger, B), Some(cents(0)));
    assert_eq!(ledger.total_price(), cents(300));
}

#[test]
fn removing_a_participant_cascades() {
    let mut ledger = coffee_for_a();
    assert_eq!(ledger.remove_participant(A), Ok(()));
    assert_eq!(members(&ledger, COFFEE), Vec::<u128>::new());
    assert_eq!(ledger.total_price(), cents(0));
    assert_eq!(owed(&ledger, A), None);
    assert_eq!(owed(&ledger, B), Some(cents(0)));
    assert!(!ledger.participants().contains(A));
    assert_eq!(ledger.participants().len(), 1);
    assert_eq!(ledger.line_items().len(), 1);
}

#[test]
fn removal_leaves_others_items_alone() {
    let mut ledger = two_people();
    assert_eq!(ledger.add_participant_keyed(C, "C"), Ok(()));
    assert_eq!(ledger.add_line_item_keyed(PIZZA, "Pizza", price(10, 0), &vec![A, B]), Ok(()));
    assert_eq!(ledger.add_line_item_keyed(CAKE, "Cake", price(4, 50), &vec![C]), Ok(()));
    assert_eq!(owed(&ledger, C), Some(cents(450)));
    assert_eq!(ledger.remove_participant(A), Ok(()));
    assert_eq!(owed(&ledger, C), Some(cents(450)));
    assert_eq!(owed(&ledger, B), Some(cents(1000)));
    assert_eq!(members(&ledger, PIZZA), vec![B]);
    assert_eq!(members(&ledger, CAKE), vec![C]);
    assert_eq!(ledger.total_price(), cents(1450));
}

#[test]
fn shares_add_up_to_the_total() {
    let mut ledger = two_people();
    assert_eq!(ledger.add_participant_keyed(C, "C"), Ok(()));
    assert_eq!(ledger.add_line_item_keyed(PIZZA, "Pizza", price(10, 0), &vec![A, B, C]), Ok(()));
    assert_eq!(ledger.add_line_item_keyed(COFFEE, "Coffee", price(0, 5), &vec![A, B]), Ok(()));
    assert_eq!(ledger.add_total_tax(price(2, 0)), Ok(()));
    assert_eq!(owed(&ledger, A), Some(cents(333 + 3 + 67)));
    assert_eq!(owed(&ledger, B), Some(cents(333 + 3 + 67)));
    assert_eq!(owed(&ledger, C), Some(cents(333 + 67)));
    assert_eq!(ledger.total_price(), cents(403 + 403 + 400));
    assert_eq!(sum_of_shares(&ledger), ledger.total_price().cents);
}

#[test]
fn tax_goes_to_the_involved_only() {
    let mut ledger = coffee_for_a();
    assert_eq!(ledger.add_total_tax(price(0, 99)), Ok(()));
    assert_eq!(owed(&ledger, A), Some(cents(399)));
    assert_eq!(owed(&ledger, B), Some(cents(0)));
    assert_eq!(ledger.total_involved_participant_count(), 1);
    assert_eq!(ledger.tax_split(), cents(99));
}

#[test]
fn tax_without_items_is_owed_by_nobody() {
    let mut ledger = two_people();
    assert_eq!(ledger.add_total_tax(price(5, 0)), Ok(()));
    assert_eq!(ledger.total_tax(), cents(500));
    assert_eq!(ledger.tax_split(), cents(0));
    assert_eq!(owed(&ledger, A), Some(cents(0)));
    assert_eq!(owed(&ledger, B), Some(cents(0)));
    assert_eq!(ledger.total_price(), cents(0));
}

#[test]
fn tax_with_an_item_that_nobody_shares() {
    let mut ledger = two_people();
    assert_eq!(ledger.add_line_item_keyed(CAKE, "Cake", price(8, 0), &vec![]), Ok(()));
    assert_eq!(ledger.add_total_tax(price(1, 0)), Ok(()));
    assert_eq!(ledger.tax_split(), cents(0));
    assert_eq!(ledger.total_price(), cents(0));
    assert_eq!(owed(&ledger, A), Some(cents(0)));
}

#[test]
fn tax_is_rounded_as_it_is_entered() {
    let mut ledger = coffee_for_a();
    assert_eq!(ledger.add_total_tax(Amount { mantissa: 1005, scale: 3 }), Ok(()));
    assert_eq!(ledger.total_tax(), cents(101));
    assert_eq!(ledger.add_total_tax(Amount { mantissa: -1, scale: 0 }), Err(SplitError::NegativeAmount));
    assert_eq!(ledger.total_tax(), cents(101));
}

#[test]
fn recomputation_changes_nothing() {
    let mut ledger = two_people();
    assert_eq!(ledger.add_line_item_keyed(PIZZA, "Pizza", price(10, 1), &vec![A, B]), Ok(()));
    assert_eq!(ledger.add_total_tax(price(0, 33)), Ok(()));
    let shares = (owed(&ledger, A), owed(&ledger, B));
    let total = ledger.total_price();
    let summary = ledger.summary_text().clone();
    assert_eq!(ledger.calculate_split(), Ok(()));
    assert_eq!((owed(&ledger, A), owed(&ledger, B)), shares);
    assert_eq!(ledger.total_price(), total);
    assert_eq!(ledger.summary_text(), &summary);
    assert_eq!(ledger.calculate_split(), Ok(()));
    ledger.update_summary_text();
    assert_eq!((owed(&ledger, A), owed(&ledger, B)), shares);
    assert_eq!(ledger.summary_text(), &summary);
}

#[test]
fn at_most_one_payer_after_toggles() {
    let mut ledger = two_people();
    assert_eq!(ledger.add_participant_keyed(C, "C"), Ok(()));
    let payers = |l: &SplitItem| {
        let ps = l.participants();
        (0..ps.len()).filter(|&i| ps.get(i).is_payer()).map(|i| ps.get(i).id()).collect::<Vec<u128>>()
    };
    assert_eq!(payers(&ledger), Vec::<u128>::new());
    ledger.toggle_payer(A);
    assert_eq!(payers(&ledger), vec![A]);
    ledger.toggle_payer(B);
    assert_eq!(payers(&ledger), vec![B]);
    ledger.toggle_payer(C);
    assert_eq!(payers(&ledger), vec![C]);
    ledger.toggle_payer(C);
    assert_eq!(payers(&ledger), Vec::<u128>::new());
    ledger.toggle_payer(999);
    assert_eq!(payers(&ledger), Vec::<u128>::new());
    ledger.toggle_payer(A);
    ledger.toggle_payer(999);
    assert_eq!(payers(&ledger), vec![A]);
}

#[test]
fn a_payer_who_joins_takes_the_mark() {
    let mut ledger = two_people();
    ledger.toggle_payer(A);
    let mut c = Participant::with_id(C, String::from("C"));
    c.mark_as_payer();
    assert_eq!(ledger.add_participant(c), Ok(()));
    let ps = ledger.participants();
    assert!(!ps.get(0).is_payer());
    assert!(!ps.get(1).is_payer());
    assert!(ps.get(2).is_payer());
}

#[test]
fn blank_names_are_turned_down() {
    let mut ledger = two_people();
    assert_eq!(ledger.add_participant_keyed(C, ""), Err(SplitError::EmptyName));
    assert_eq!(ledger.add_participant_keyed(C, "  \t "), Err(SplitError::EmptyName));
    assert_eq!(ledger.add_participant_named(" "), Err(SplitError::EmptyName));
    assert_eq!(
        ledger.add_line_item_keyed(CAKE, " ", price(1, 0), &vec![A]),
        Err(SplitError::EmptyName)
    );
    assert_eq!(
        ledger.add_line_item(LItem::with_id(CAKE, String::from("\n"), cents(100))),
        Err(SplitError::EmptyName)
    );
    assert_eq!(
        ledger.add_participant(Participant::with_id(C, String::new())),
        Err(SplitError::EmptyName)
    );
    assert_eq!(ledger.participants().len(), 2);
    assert_eq!(ledger.line_items().len(), 0);
}

#[test]
fn names_are_trimmed_when_entered() {
    let mut ledger = SplitItem::with_id(1);
    assert_eq!(ledger.add_participant_keyed(A, "  Ann Lee "), Ok(()));
    assert_eq!(ledger.participants().get(0).name(), "Ann Lee");
    assert_eq!(ledger.add_line_item_keyed(CAKE, " Cake\n", price(1, 0), &vec![A]), Ok(()));
    assert_eq!(ledger.line_items().get(0).name(), "Cake");
}

#[test]
fn taken_keys_are_turned_down() {
    let mut ledger = coffee_for_a();
    assert_eq!(ledger.add_participant_keyed(A, "Again"), Err(SplitError::DuplicateKey));
    assert_eq!(
        ledger.add_line_item_keyed(COFFEE, "Again", price(1, 0), &vec![B]),
        Err(SplitError::DuplicateKey)
    );
    assert_eq!(ledger.participants().len(), 2);
    assert_eq!(ledger.line_items().len(), 1);
    assert_eq!(ledger.total_price(), cents(300));
}

#[test]
fn bad_prices_are_turned_down() {
    let mut ledger = two_people();
    assert_eq!(
        ledger.add_line_item_keyed(CAKE, "Cake", Amount { mantissa: -1, scale: 2 }, &vec![A]),
        Err(SplitError::NegativeAmount)
    );
    assert_eq!(
        ledger.add_line_item_keyed(CAKE, "Cake", Amount { mantissa: 1, scale: 99 }, &vec![A]),
        Err(SplitError::AmountOutOfRange)
    );
    assert_eq!(
        ledger.add_line_item_keyed(CAKE, "", Amount { mantissa: -1, scale: 2 }, &vec![A]),
        Err(SplitError::EmptyName)
    );
    assert_eq!(ledger.line_items().len(), 0);
}

#[test]
fn a_total_beyond_the_range_is_turned_down() {
    let mut ledger = two_people();
    let most = Amount { mantissa: u64::MAX as i128, scale: 2 };
    assert_eq!(ledger.add_line_item_keyed(PIZZA, "Pizza", most, &vec![A]), Ok(()));
    assert_eq!(ledger.total_price(), cents(u64::MAX));
    assert_eq!(
        ledger.add_line_item_keyed(CAKE, "Cake", price(0, 1), &vec![A]),
        Err(SplitError::AmountOutOfRange)
    );
    assert_eq!(
        ledger.add_line_item_keyed(CAKE, "Cake", price(0, 1), &vec![B]),
        Err(SplitError::AmountOutOfRange)
    );
    assert_eq!(ledger.add_total_tax(price(0, 1)), Err(SplitError::AmountOutOfRange));
    assert_eq!(ledger.line_items().len(), 1);
    assert_eq!(ledger.total_tax(), cents(0));
    assert_eq!(ledger.total_price(), cents(u64::MAX));
    assert_eq!(owed(&ledger, A), Some(cents(u64::MAX)));
    assert_eq!(ledger.add_line_item_keyed(CAKE, "Cake", price(0, 1), &vec![]), Ok(()));
}

#[test]
fn unknown_participants_are_passed_over() {
    let mut ledger = two_people();
    assert_eq!(
        ledger.add_line_item_keyed(PIZZA, "Pizza", price(9, 0), &vec![A, 55, B, A, 66]),
        Ok(())
    );
    assert_eq!(members(&ledger, PIZZA), vec![A, B]);
    assert_eq!(ledger.set_participants(PIZZA, &vec![77, B, B]), Ok(()));
    assert_eq!(members(&ledger, PIZZA), vec![B]);
    assert_eq!(ledger.add_item_participant(PIZZA, 88), Ok(()));
    assert_eq!(members(&ledger, PIZZA), vec![B]);
    let mut cake = LItem::with_id(CAKE, String::from("Cake"), cents(100));
    cake.add_participant(C);
    cake.add_participant(A);
    assert_eq!(ledger.add_line_item(cake), Ok(()));
    assert_eq!(members(&ledger, CAKE), vec![A]);
}

#[test]
fn unknown_keys_change_nothing() {
    let mut ledger = coffee_for_a();
    let summary = ledger.summary_text().clone();
    assert_eq!(ledger.remove_participant(C), Ok(()));
    assert_eq!(ledger.remove_line_item(CAKE), Ok(()));
    ledger.rename_participant(C, String::from("Nobody"));
    ledger.rename_line_item(CAKE, String::from("Nothing"));
    assert_eq!(ledger.set_price(CAKE, price(1, 0)), Ok(()));
    assert_eq!(ledger.set_participants(CAKE, &vec![A, B]), Ok(()));
    assert_eq!(ledger.add_item_participant(CAKE, A), Ok(()));
    assert_eq!(ledger.remove_item_participant(CAKE, A), Ok(()));
    ledger.toggle_settled(C);
    assert!(!ledger.mark_as_paid(C));
    assert!(!ledger.mark_as_unpaid(C));
    assert_eq!(ledger.participants().len(), 2);
    assert_eq!(ledger.line_items().len(), 1);
    assert_eq!(ledger.total_price(), cents(300));
    assert_eq!(ledger.summary_text(), &summary);
}

#[test]
fn the_participants_of_an_item_can_be_edited() {
    let mut ledger = coffee_for_a();
    assert!(ledger.is_item_participant(COFFEE, A));
    assert!(!ledger.is_item_participant(COFFEE, B));
    assert!(!ledger.is_item_participant(CAKE, A));
    assert_eq!(ledger.add_item_participant(COFFEE, B), Ok(()));
    assert_eq!(members(&ledger, COFFEE), vec![A, B]);
    assert_eq!(owed(&ledger, A), Some(cents(150)));
    assert_eq!(owed(&ledger, B), Some(cents(150)));
    assert_eq!(ledger.add_item_participant(COFFEE, B), Ok(()));
    assert_eq!(members(&ledger, COFFEE), vec![A, B]);
    assert_eq!(ledger.remove_item_participant(COFFEE, A), Ok(()));
    assert_eq!(members(&ledger, COFFEE), vec![B]);
    assert_eq!(owed(&ledger, A), Some(cents(0)));
    assert_eq!(owed(&ledger, B), Some(cents(300)));
    assert_eq!(ledger.set_participants(COFFEE, &vec![B, A]), Ok(()));
    assert_eq!(members(&ledger, COFFEE), vec![B, A]);
    assert_eq!(ledger.set_participants(COFFEE, &vec![]), Ok(()));
    assert_eq!(ledger.total_price(), cents(0));
}

#[test]
fn a_price_can_be_changed() {
    let mut ledger = coffee_for_a();
    assert_eq!(ledger.set_price(COFFEE, Amount { mantissa: 3335, scale: 3 }), Ok(()));
    assert_eq!(ledger.line_items().get(0).price(), cents(334));
    assert_eq!(owed(&ledger, A), Some(cents(334)));
    assert_eq!(
        ledger.set_price(COFFEE, Amount { mantissa: -5, scale: 0 }),
        Err(SplitError::NegativeAmount)
    );
    assert_eq!(ledger.line_items().get(0).price(), cents(334));
}

#[test]
fn an_item_can_be_removed() {
    let mut ledger = coffee_for_a();
    assert_eq!(ledger.add_line_item_keyed(CAKE, "Cake", price(2, 0), &vec![A, B]), Ok(()));
    assert_eq!(ledger.total_price(), cents(500));
    assert_eq!(ledger.remove_line_item(COFFEE), Ok(()));
    assert_eq!(ledger.line_items().len(), 1);
    assert_eq!(ledger.line_items().get(0).id(), CAKE);
    assert_eq!(owed(&ledger, A), Some(cents(100)));
    assert_eq!(owed(&ledger, B), Some(cents(100)));
    assert_eq!(ledger.total_price(), cents(200));
}

#[test]
fn settling_is_recorded() {
    let mut ledger = two_people();
    assert!(ledger.mark_as_paid(A));
    assert!(!ledger.mark_as_paid(A));
    assert!(ledger.participants().get(0).is_settled());
    assert!(!ledger.participants().get(1).is_settled());
    ledger.toggle_settled(B);
    assert!(ledger.participants().get(1).is_settled());
    ledger.toggle_settled(B);
    assert!(!ledger.participants().get(1).is_settled());
    assert!(ledger.mark_as_unpaid(A));
    assert!(!ledger.mark_as_unpaid(A));
    assert!(!ledger.participants().get(0).is_settled());
}

#[test]
fn each_share_is_rounded_before_it_is_added() {
    let mut ledger = two_people();
    assert_eq!(ledger.add_participant_keyed(C, "C"), Ok(()));
    for (n, key) in [200u128, 201, 202].iter().enumerate() {
        let name = format!("Item {}", n);
        assert_eq!(ledger.add_line_item_keyed(*key, &name, price(0, 1), &vec![A, B]), Ok(()));
    }
    assert_eq!(owed(&ledger, A), Some(cents(3)));
    assert_eq!(owed(&ledger, B), Some(cents(3)));
    assert_eq!(ledger.total_price(), cents(6));
    assert_eq!(ledger.add_line_item_keyed(CAKE, "Cake", price(1, 0), &vec![A, B, C]), Ok(()));
    assert_eq!(owed(&ledger, C), Some(cents(33)));
    assert_eq!(ledger.total_price(), cents(3 + 33 + 3 + 33 + 33));
}

#[test]
fn involvement_is_reported() {
    let ledger = coffee_for_a();
    let ps = ledger.participants();
    assert!(ledger.is_involved_in_any_orders(ps.get(0)));
    assert!(!ledger.is_involved_in_any_orders(ps.get(1)));
    assert!(!ledger.is_involved_in_any_orders(&Participant::with_id(C, String::from("C"))));
}

#[test]
fn named_entries_get_keys_of_their_own() {
    let mut ledger = SplitItem::new();
    let a = ledger.add_participant_named("A").expect("a free key");
    let b = ledger.add_participant_named("B").expect("a free key");
    assert_ne!(a, b);
    let pizza = ledger
        .add_line_item_named("Pizza", price(10, 0), &vec![a, b])
        .expect("a free key");
    let coffee = ledger.add_line_item_named("Coffee", price(3, 0), &vec![a]).expect("a free key");
    assert_ne!(pizza, coffee);
    assert_eq!(members(&ledger, pizza), vec![a, b]);
    assert_eq!(owed(&ledger, a), Some(cents(800)));
    assert_eq!(owed(&ledger, b), Some(cents(500)));
    assert_eq!(Participant::new(String::from("X")).name(), "X");
    assert_ne!(
        Participant::new(String::from("X")).id(),
        Participant::new(String::from("X")).id()
    );
    assert_ne!(
        LItem::new(String::from("X"), cents(1)).id(),
        LItem::new(String::from("X"), cents(1)).id()
    );
}

#[test]
fn a_copy_is_independent() {
    let mut ledger = coffee_for_a();
    let copy = ledger.clone();
    assert_eq!(ledger.remove_participant(A), Ok(()));
    assert_eq!(copy.participants().len(), 2);
    assert_eq!(owed(&copy, A), Some(cents(300)));
    assert_eq!(copy.summary_text(), coffee_for_a().summary_text());
}

#[test]
fn a_ledger_is_built_from_its_parts() {
    let mut a = Participant::with_id(A, String::from("A"));
    a.mark_as_payer();
    let mut b = Participant::with_id(B, String::from("B"));
    b.mark_as_paid();
    let mut pizza = LItem::with_id(PIZZA, String::from("Pizza"), cents(1000));
    pizza.add_participant(A);
    pizza.add_participant(B);
    pizza.add_participant(C);
    let coffee = LItem::with_id(COFFEE, String::from("Coffee"), cents(300));
    let ledger = SplitItem::from_parts(
        77,
        String::from("Lunch"),
        cents(100),
        &vec![a, b],
        &vec![pizza, coffee],
    )
    .expect("the parts are in order");
    assert_eq!(ledger.id(), 77);
    assert_eq!(ledger.event_name(), "Lunch");
    assert_eq!(ledger.total_tax(), cents(100));
    assert_eq!(ledger.participants().keys(), vec![A, B]);
    assert!(ledger.participants().get(0).is_payer());
    assert!(ledger.participants().get(1).is_settled());
    assert_eq!(ledger.line_items().keys(), vec![PIZZA, COFFEE]);
    assert_eq!(members(&ledger, PIZZA), vec![A, B]);
    assert_eq!(owed(&ledger, A), Some(cents(550)));
    assert_eq!(owed(&ledger, B), Some(cents(550)));
    assert_eq!(ledger.total_price(), cents(1100));
    assert!(ledger.summary_text().contains("Event Name: Lunch\n"));
    assert!(ledger.summary_text().contains("- Name: A  [PAYER] \n"));
}

#[test]
fn a_ledger_built_from_its_parts_equals_the_one_that_was_edited() {
    let mut edited = two_people();
    edited.add_event_name(String::from("Tea"));
    assert_eq!(edited.add_line_item_keyed(CAKE, "Cake", price(2, 1), &vec![B, A]), Ok(()));
    assert_eq!(edited.add_total_tax(price(0, 11)), Ok(()));
    edited.toggle_payer(B);
    let ps = edited.participants();
    let items = edited.line_items();
    let people: Vec<Participant> = (0..ps.len()).map(|i| ps.get(i).clone()).collect();
    let things: Vec<LItem> = (0..items.len()).map(|i| items.get(i).clone()).collect();
    let built = SplitItem::from_parts(
        edited.id(),
        edited.event_name().clone(),
        edited.total_tax(),
        &people,
        &things,
    )
    .expect("the parts are in order");
    assert_eq!(built.summary_text(), edited.summary_text());
    assert_eq!(built.total_price(), edited.total_price());
    assert_eq!(owed(&built, A), owed(&edited, A));
    assert_eq!(owed(&built, B), owed(&edited, B));
}

#[test]
fn parts_that_are_not_in_order_are_turned_down() {
    let named = |id: u128, name: &str| Participant::with_id(id, String::from(name));
    let twice = SplitItem::from_parts(1, String::new(), cents(0), &vec![named(A, "A"), named(A, "B")], &vec![]);
    assert_eq!(twice.err(), Some(SplitError::DuplicateKey));
    let mut gold = LItem::with_id(PIZZA, String::from("Gold"), cents(u64::MAX));
    gold.add_participant(A);
    let mut dust = LItem::with_id(CAKE, String::from("Dust"), cents(1));
    dust.add_participant(A);
    let heavy = SplitItem::from_parts(
        1,
        String::new(),
        cents(0),
        &vec![named(A, "A")],
        &vec![gold.clone(), dust],
    );
    assert_eq!(heavy.err(), Some(SplitError::AmountOutOfRange));
    let taxed = SplitItem::from_parts(1, String::new(), cents(1), &vec![named(A, "A")], &vec![gold]);
    assert_eq!(taxed.err(), Some(SplitError::AmountOutOfRange));
    let same_item =
        SplitItem::from_parts(
            1,
            String::new(),
            cents(0),
            &vec![],
            &vec![
                LItem::with_id(CAKE, String::from("Cake"), cents(1)),
                LItem::with_id(CAKE, String::from("Pie"), cents(1)),
            ],
        );
    assert_eq!(same_item.err(), Some(SplitError::DuplicateKey));
}

#[test]
fn names_are_taken_as_they_are_when_a_ledger_is_built_from_its_parts() {
    let mut edited = two_people();
    edited.rename_participant(A, String::from(" "));
    assert_eq!(edited.add_line_item_keyed(CAKE, "Cake", price(2, 0), &vec![A]), Ok(()));
    edited.rename_line_item(CAKE, String::new());
    let ps = edited.participants();
    let items = edited.line_items();
    let people: Vec<Participant> = (0..ps.len()).map(|i| ps.get(i).clone()).collect();
    let things: Vec<LItem> = (0..items.len()).map(|i| items.get(i).clone()).collect();
    let built = SplitItem::from_parts(
        edited.id(),
        edited.event_name().clone(),
        edited.total_tax(),
        &people,
        &things,
    )
    .expect("the parts are in order");
    assert_eq!(built.participants().get(0).name(), " ");
    assert_eq!(built.line_items().get(0).name(), "");
    assert_eq!(built.summary_text(), edited.summary_text());
    assert_eq!(owed(&built, A), Some(cents(200)));
}
