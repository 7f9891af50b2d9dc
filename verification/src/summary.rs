//! The summary formatter: the receipt as text.

use crate::calc::amounts;
use crate::decimal::decimal_text;
use crate::line_item::LItemView;
use crate::line_item::LItems;
use crate::money::Money;
use crate::participant::ParticipantView;
use crate::participant::Participants;
use std::collections::HashMap;
use vstd::prelude::*;

verus! {

broadcast use vstd::std_specs::hash::group_hash_axioms;

/// How `cents` is written: the whole part, a point and two digits.
pub open spec fn money_text(cents: nat) -> Seq<char> {
    decimal_text(cents, 2)
}

/// The line that lists `item` with its price.
pub open spec fn item_line(item: LItemView) -> Seq<char> {
    "    - "@ + item.name + ": ₹"@ + money_text(item.price) + "\n"@
}

/// The lines of the items that the participant `who` belongs to, in the
/// order of `items`.
pub open spec fn item_lines(items: Seq<LItemView>, who: u128) -> Seq<char>
    decreases items.len(),
{
    if items.len() == 0 {
        Seq::empty()
    } else if items.last().members.contains(who) {
        item_lines(items.drop_last(), who) + item_line(items.last())
    } else {
        item_lines(items.drop_last(), who)
    }
}

/// What `shares` has for the participant `who`, and nothing where it has no
/// entry.
pub open spec fn owed_by(shares: Map<u128, nat>, who: u128) -> nat {
    if shares.contains_key(who) {
        shares[who]
    } else {
        0
    }
}

/// The part of the summary about one participant: the name, marked for the
/// payer, the items that the participant belongs to, and what is owed.
pub open spec fn participant_block(
    p: ParticipantView,
    items: Seq<LItemView>,
    shares: Map<u128, nat>,
) -> Seq<char> {
    "- Name: "@ + p.name + " "@ + (if p.payer {
        " [PAYER] \n"@
    } else {
        "\n"@
    }) + "  Items:\n"@ + item_lines(items, p.id) + "  Total Amount Owed: ₹"@ + money_text(
        owed_by(shares, p.id),
    ) + "\n\n"@
}

/// The parts of the summary about the participants `ps`, in their order.
pub open spec fn participant_blocks(
    ps: Seq<ParticipantView>,
    items: Seq<LItemView>,
    shares: Map<u128, nat>,
) -> Seq<char>
    decreases ps.len(),
{
    if ps.len() == 0 {
        Seq::empty()
    } else {
        participant_blocks(ps.drop_last(), items, shares) + participant_block(
            ps.last(),
            items,
            shares,
        )
    }
}

/// The summary of a bill: a heading, the name of the event, the total and
/// the tax, and a part for each participant.
pub open spec fn summary(
    event_name: Seq<char>,
    total: nat,
    tax: nat,
    ps: Seq<ParticipantView>,
    items: Seq<LItemView>,
    shares: Map<u128, nat>,
) -> Seq<char> {
    "-----BILL SPLIT SUMMARY (COPY THIS)---- \n"@ + "Event Name: "@ + event_name + "\n"@
        + "Total Price: ₹"@ + money_text(total) + "\n"@ + "Total Tax: ₹"@ + money_text(tax)
        + "\n\n"@ + "Participants:\n"@ + participant_blocks(ps, items, shares)
}

/// The lines of the items that the participant `who` belongs to.
fn format_item_lines(items: &LItems, who: u128) -> (r: String)
    ensures
        r@ == item_lines(items@, who),
{
    let mut out = String::new();
    let n = items.len();
    let mut i: usize = 0;
    assert(items@.take(0) =~= Seq::<LItemView>::empty());
    while i < n
        invariant
            n == items@.len(),
            i <= n,
            out@ == item_lines(items@.take(i as int), who),
        decreases n - i,
    {
        assert(items@.take(i + 1).drop_last() =~= items@.take(i as int));
        let item = items.get(i);
        if item.has_participant(who) {
            let mut line = String::new();
            line.append("    - ");
            line.append(item.name().as_str());
            line.append(": ₹");
            line.append(item.price().to_text().as_str());
            line.append("\n");
            assert(line@ =~= item_line(item@));
            out.append(line.as_str());
        }
        i = i + 1;
    }
    assert(items@.take(n as int) =~= items@);
    out
}

/// The part of the summary about the participant at place `at`.
fn format_participant(
    participants: &Participants,
    at: usize,
    items: &LItems,
    shares: &HashMap<u128, Money>,
) -> (r: String)
    requires
        at < participants@.len(),
    ensures
        r@ == participant_block(participants@[at as int], items@, amounts(shares@)),
{
    let p = participants.get(at);
    let who = p.id();
    let owed = match shares.get(&who) {
        Some(m) => *m,
        None => Money::zero(),
    };
    assert(owed@ == owed_by(amounts(shares@), who));
    let mut out = String::new();
    out.append("- Name: ");
    out.append(p.name().as_str());
    out.append(" ");
    if p.is_payer() {
        out.append(" [PAYER] \n");
    } else {
        out.append("\n");
    }
    out.append("  Items:\n");
    out.append(format_item_lines(items, who).as_str());
    out.append("  Total Amount Owed: ₹");
    out.append(owed.to_text().as_str());
    out.append("\n\n");
    assert(out@ =~= participant_block(participants@[at as int], items@, amounts(shares@)));
    out
}

/// Writes the summary of a bill from its parts. A participant for whom
/// `shares` has no entry is shown as owing nothing.
pub fn format_summary(
    event_name: &str,
    total: Money,
    tax: Money,
    participants: &Participants,
    items: &LItems,
    shares: &HashMap<u128, Money>,
) -> (r: String)
    ensures
        r@ == summary(event_name@, total@, tax@, participants@, items@, amounts(shares@)),
{
    let mut blocks = String::new();
    let n = participants.len();
    let mut i: usize = 0;
    assert(participants@.take(0) =~= Seq::<ParticipantView>::empty());
    while i < n
        invariant
            n == participants@.len(),
            i <= n,
            blocks@ == participant_blocks(participants@.take(i as int), items@, amounts(shares@)),
        decreases n - i,
    {
        assert(participants@.take(i + 1).drop_last() =~= participants@.take(i as int));
        blocks.append(format_participant(participants, i, items, shares).as_str());
        i = i + 1;
    }
    assert(participants@.take(n as int) =~= participants@);
    let mut out = String::new();
    out.append("-----BILL SPLIT SUMMARY (COPY THIS)---- \n");
    out.append("Event Name: ");
    out.append(event_name);
    out.append("\n");
    out.append("Total Price: ₹");
    out.append(total.to_text().as_str());
    out.append("\n");
    out.append("Total Tax: ₹");
    out.append(tax.to_text().as_str());
    out.append("\n\n");
    out.append("Participants:\n");
    out.append(blocks.as_str());
    assert(out@ =~= summary(event_name@, total@, tax@, participants@, items@, amounts(shares@)));
    out
}

} // verus!
