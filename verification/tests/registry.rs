use bill_split::calc::compute_shares;
use bill_split::calc::count_involved;
use bill_split::calc::is_involved;
use bill_split::calc::owed_for_items;
use bill_split::calc::share_for;
use bill_split::calc::tax_split;
use bill_split::Amount;
use bill_split::LItem;
use bill_split::LItems;
use bill_split::Money;
use bill_split::Participant;
use bill_split::Participants;
use bill_split::SplitError;

fn person(id: u128, name: &str) -> Participant {
    Participant::with_id(id, String::from(name))
}

fn item(id: u128, name: &str, cents: u64, members: &[u128]) -> LItem {
    let mut it = LItem::with_id(id, String::from(name), Money::from_cents(cents));
    for m in members {
        it.add_participant(*m);
    }
    it
}

fn ids(ps: &Participants) -> Vec<u128> {
    (0..ps.len()).map(|i| ps.get(i).id()).collect()
}

#[test]
fn participants_keep_their_order() {
    let mut ps = Participants::new();
    assert_eq!(ps.len(), 0);
    assert_eq!(ps.add(person(3, "C")), Ok(()));
    assert_eq!(ps.add(person(1, "A")), Ok(()));
    assert_eq!(ps.add(person(2, "B")), Ok(()));
    assert_eq!(ids(&ps), vec![3, 1, 2]);
    assert_eq!(ps.position(1), Some(1));
    assert_eq!(ps.position(9), None);
    assert!(ps.contains(2));
    assert!(!ps.contains(9));
    ps.remove(1);
    assert_eq!(ids(&ps), vec![3, 2]);
    ps.remove(1);
    assert_eq!(ids(&ps), vec![3, 2]);
}

#[test]
fn registry_turns_down_blank_names_and_taken_keys() {
    let mut ps = Participants::new();
    assert_eq!(ps.add(person(1, " ")), Err(SplitError::EmptyName));
    assert_eq!(ps.add(person(1, "A")), Ok(()));
    assert_eq!(ps.add(person(1, "B")), Err(SplitError::DuplicateKey));
    assert_eq!(ps.add(person(1, "")), Err(SplitError::EmptyName));
    assert_eq!(ps.len(), 1);
    let mut items = LItems::new();
    assert_eq!(items.add(item(5, "", 1, &[])), Err(SplitError::EmptyName));
    assert_eq!(items.add(item(5, "Tea", 1, &[])), Ok(()));
    assert_eq!(items.add(item(5, "Tea", 1, &[])), Err(SplitError::DuplicateKey));
    assert_eq!(items.len(), 1);
}

#[test]
fn participant_marks() {
    let mut p = person(1, "A");
    assert!(!p.is_payer());
    p.mark_as_payer();
    assert!(p.is_payer());
    p.mark_as_payer();
    assert!(!p.is_payer());
    assert!(!p.is_settled());
    assert!(p.mark_as_paid());
    assert!(p.is_settled());
    assert!(!p.mark_as_paid());
    assert!(p.is_settled());
    assert!(p.mark_as_unpaid());
    assert!(!p.mark_as_unpaid());
    assert!(!p.is_settled());
    p.update_name(String::from("Z"));
    assert_eq!(p.name(), "Z");
    assert_eq!(p.id(), 1);
    assert_eq!(p.clone().name(), "Z");
}

#[test]
fn registry_marks() {
    let mut ps = Participants::new();
    assert_eq!(ps.add(person(1, "A")), Ok(()));
    assert_eq!(ps.add(person(2, "B")), Ok(()));
    ps.toggle_payer(1);
    ps.toggle_payer(2);
    assert!(!ps.get(0).is_payer());
    assert!(ps.get(1).is_payer());
    ps.mark_only_one_payer(1);
    assert!(!ps.get(0).is_payer());
    assert!(!ps.get(1).is_payer());
    ps.toggle_payer(2);
    ps.mark_only_one_payer(2);
    assert!(ps.get(1).is_payer());
    assert!(ps.set_settled(1, true));
    assert!(!ps.set_settled(1, true));
    assert!(!ps.set_settled(2, false));
    assert!(!ps.set_settled(9, true));
    ps.toggle_settled(2);
    assert!(ps.get(0).is_settled());
    assert!(ps.get(1).is_settled());
    ps.rename(2, String::from("Bee"));
    assert_eq!(ps.get(1).name(), "Bee");
    let copy = ps.clone();
    ps.remove(2);
    assert_eq!(copy.len(), 2);
    assert_eq!(copy.get(1).name(), "Bee");
}

#[test]
fn item_participants_form_a_set() {
    let mut it = item(1, "Tea", 100, &[7, 8, 7]);
    assert_eq!(it.participants(), &vec![7, 8]);
    assert!(it.has_participant(7));
    assert!(!it.has_participant(9));
    it.remove_participant(7);
    assert_eq!(it.participants(), &vec![8]);
    it.remove_participant(7);
    assert_eq!(it.participants(), &vec![8]);
    it.set_participants(&vec![3, 3, 2, 3, 1, 2]);
    assert_eq!(it.participants(), &vec![3, 2, 1]);
    it.clear_participants();
    assert_eq!(it.participants(), &Vec::<u128>::new());
    it.update_name(String::from("Chai"));
    assert_eq!(it.name(), "Chai");
    assert_eq!(it.id(), 1);
}

#[test]
fn item_price_and_share() {
    let mut it = item(1, "Tea", 100, &[]);
    assert_eq!(it.get_split_by_participants(), None);
    it.add_participant(1);
    assert_eq!(it.get_split_by_participants(), Some(Money::from_cents(100)));
    it.add_participant(2);
    it.add_participant(3);
    assert_eq!(it.get_split_by_participants(), Some(Money::from_cents(33)));
    assert_eq!(it.update_price(Amount { mantissa: 2, scale: 0 }), Ok(()));
    assert_eq!(it.price(), Money::from_cents(200));
    assert_eq!(it.get_split_by_participants(), Some(Money::from_cents(67)));
    assert_eq!(
        it.update_price(Amount { mantissa: -2, scale: 0 }),
        Err(SplitError::NegativeAmount)
    );
    assert_eq!(it.update_price(Amount { mantissa: 2, scale: 29 }), Err(SplitError::AmountOutOfRange));
    assert_eq!(it.price(), Money::from_cents(200));
    assert_eq!(it.update_price(Amount { mantissa: 12345, scale: 3 }), Ok(()));
    assert_eq!(it.price(), Money::from_cents(1235));
}

#[test]
fn item_registry_edits() {
    let mut items = LItems::new();
    assert_eq!(items.add(item(1, "Tea", 100, &[7])), Ok(()));
    assert_eq!(items.add(item(2, "Cake", 250, &[7, 8])), Ok(()));
    assert_eq!(items.position(2), Some(1));
    assert!(items.contains(1));
    assert!(!items.contains(3));
    items.rename(1, String::from("Chai"));
    assert_eq!(items.get(0).name(), "Chai");
    assert_eq!(items.set_price(2, Amount { mantissa: 3, scale: 0 }), Ok(()));
    assert_eq!(items.get(1).price(), Money::from_cents(300));
    assert_eq!(
        items.set_price(9, Amount { mantissa: -3, scale: 0 }),
        Err(SplitError::NegativeAmount)
    );
    items.add_participant(1, 8);
    assert_eq!(items.get(0).participants(), &vec![7, 8]);
    items.remove_participant(2, 7);
    assert_eq!(items.get(1).participants(), &vec![8]);
    items.set_participants(2, &vec![9, 9, 7]);
    assert_eq!(items.get(1).participants(), &vec![9, 7]);
    items.drop_participant(7);
    assert_eq!(items.get(0).participants(), &vec![8]);
    assert_eq!(items.get(1).participants(), &vec![9]);
    let copy = items.clone();
    items.remove(1);
    assert_eq!(items.len(), 1);
    assert_eq!(items.get(0).id(), 2);
    assert_eq!(copy.len(), 2);
}

#[test]
fn calculator_on_plain_registries() {
    let mut ps = Participants::new();
    for (id, name) in [(1u128, "A"), (2, "B"), (3, "C")] {
        assert_eq!(ps.add(person(id, name)), Ok(()));
    }
    let mut items = LItems::new();
    assert_eq!(items.add(item(10, "Pizza", 1000, &[1, 2])), Ok(()));
    assert_eq!(items.add(item(11, "Soup", 701, &[2])), Ok(()));
    assert_eq!(items.add(item(12, "Bread", 500, &[])), Ok(()));
    assert!(is_involved(&items, 1));
    assert!(is_involved(&items, 2));
    assert!(!is_involved(&items, 3));
    assert_eq!(count_involved(&ps, &items), 2);
    assert_eq!(owed_for_items(&items, 1), Some(Money::from_cents(500)));
    assert_eq!(owed_for_items(&items, 2), Some(Money::from_cents(1201)));
    assert_eq!(owed_for_items(&items, 3), Some(Money::zero()));
    let tax = Money::from_cents(101);
    assert_eq!(tax_split(&ps, &items, tax), Some(Money::from_cents(51)));
    assert_eq!(tax_split(&ps, &items, Money::zero()), Some(Money::zero()));
    assert_eq!(tax_split(&ps, &LItems::new(), tax), Some(Money::zero()));
    assert_eq!(share_for(&items, Money::from_cents(51), 2), Some(Money::from_cents(1252)));
    assert_eq!(share_for(&items, Money::from_cents(51), 3), Some(Money::zero()));
    let (shares, total) = compute_shares(&ps, &items, tax).expect("the split is defined");
    assert_eq!(shares.len(), 3);
    assert_eq!(shares[&1], Money::from_cents(551));
    assert_eq!(shares[&2], Money::from_cents(1252));
    assert_eq!(shares[&3], Money::zero());
    assert_eq!(total, Money::from_cents(1803));
}

#[test]
fn calculator_refuses_what_cannot_be_held() {
    let mut ps = Participants::new();
    assert_eq!(ps.add(person(1, "A")), Ok(()));
    let mut items = LItems::new();
    assert_eq!(items.add(item(10, "Gold", u64::MAX, &[1])), Ok(()));
    assert_eq!(items.add(item(11, "Dust", 1, &[1])), Ok(()));
    assert_eq!(owed_for_items(&items, 1), None);
    assert!(compute_shares(&ps, &items, Money::zero()).is_none());
    items.remove(11);
    assert_eq!(share_for(&items, Money::from_cents(1), 1), None);
    assert!(compute_shares(&ps, &items, Money::from_cents(1)).is_none());
    assert!(compute_shares(&ps, &items, Money::zero()).is_some());
}

#[test]
fn registries_list_their_keys() {
    let mut ps = Participants::new();
    assert_eq!(ps.keys(), Vec::<u128>::new());
    assert_eq!(ps.add(person(3, "C")), Ok(()));
    assert_eq!(ps.add(person(1, "A")), Ok(()));
    assert_eq!(ps.keys(), vec![3, 1]);
    let mut items = LItems::new();
    assert_eq!(items.add(item(9, "Tea", 1, &[])), Ok(()));
    assert_eq!(items.add(item(4, "Pie", 1, &[])), Ok(()));
    assert_eq!(items.keys(), vec![9, 4]);
}
