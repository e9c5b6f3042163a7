//! Taking up the orders of an earlier run.

use crate::b3_live::{self, ExitKind, MakerExitState, MakerExitStatus, OpenPosition};
use crate::b3_maker::MakerOrderStatus;
use crate::b3_startup::{self, ItemV, OpenOrderRow, ReconItem, ReconPos, Resuming};
use crate::decimal::{self, Dec, DecV};
use crate::laws::maker;
use vstd::prelude::*;

verus! {

/// The stored order of a position comes before the one that was noted.
pub proof fn law_the_stored_order_comes_first(p: ReconPos)
    ensures
        p.persisted_order_id matches Some(id) ==> b3_startup::known_order(p) == Some(id@),
        p.persisted_order_id is None ==> match p.submitted_order_id {
            Some(id) => b3_startup::known_order(p) == Some(id@),
            None => b3_startup::known_order(p) is None,
        },
{
}

/// A known order that was matched in full closes its lot. Any other that can still be
/// filled is taken up, one that ended without a match is forgotten, and one that ended
/// with a part of it is left to a human.
pub proof fn law_known_orders_go_by_their_match(
    signal_id: Seq<char>,
    order_id: Seq<char>,
    status: MakerOrderStatus,
    matched: DecV,
    orig: DecV,
)
    requires
        orig.m > 0,
    ensures
        ({
            let item = b3_startup::known_order_item(signal_id, order_id, status, matched, orig);
            let filled = decimal::le(orig, matched);
            &&& filled <==> (item is CloseFillWhileDown)
            &&& filled ==> item->CloseFillWhileDown_signal_id == signal_id
                && item->CloseFillWhileDown_order_id == order_id && decimal::same_value(
                item->size_matched,
                orig,
            )
            &&& !filled && !maker::ended(status) ==> item == (ItemV::Adopt { signal_id, order_id })
            &&& !filled && maker::ended(status) && matched.m <= 0 ==> item == (ItemV::ClearMaker {
                signal_id,
            })
            &&& !filled && maker::ended(status) && matched.m > 0 ==> {
                &&& item is Halt
                &&& item->signal_ids == seq![signal_id]
                &&& exists|a: Seq<char>, b: Seq<char>| #[trigger] names_both(a, b, item->reason, matched, orig)
            }
        }),
{
    maker::lemma_sizes(orig, matched);
    let item = b3_startup::known_order_item(signal_id, order_id, status, matched, orig);
    if decimal::le(orig, matched) {
        decimal::lemma_lt_le(orig, matched);
        decimal::lemma_lt_le(matched, decimal::zero());
        decimal::lemma_compare_zero(matched);
    } else if maker::ended(status) && matched.m > 0 {
        let (a, b) = ("terminal partial fill-while-down: matched "@, "/"@);
        assert(names_both(a, b, item->reason, matched, orig));
    }
}

/// A reason that gives two amounts.
pub open spec fn names_both(
    before: Seq<char>,
    between: Seq<char>,
    reason: Seq<char>,
    first: DecV,
    second: DecV,
) -> bool {
    reason == before + decimal::text(first) + between + decimal::text(second)
}

/// The order is stored with the position, or was noted of it.
pub open spec fn is_order_of(p: ReconPos, id: Seq<char>) -> bool {
    ||| p.persisted_order_id matches Some(x) && x@ == id
    ||| p.submitted_order_id matches Some(x) && x@ == id
}

/// The position was about to send such an order, and no order of it is known.
pub open spec fn might_have_sent(p: ReconPos, o: OpenOrderRow) -> bool {
    &&& o.is_sell
    &&& p.has_pending_intent
    &&& p.persisted_order_id is None
    &&& p.submitted_order_id is None
    &&& p.token_id@ == o.token_id@
    &&& p.target@.m * decimal::pow10(o.price@.s) == o.price@.m * decimal::pow10(p.target@.s)
}

/// The order is another one that nobody is known to have sent, and that sells the same
/// at the same price.
pub open spec fn is_look_alike(positions: Seq<ReconPos>, x: OpenOrderRow, o: OpenOrderRow) -> bool {
    &&& x.is_sell
    &&& forall|i: int| 0 <= i < positions.len() ==> !is_order_of(#[trigger] positions[i], x.order_id@)
    &&& x.token_id@ == o.token_id@
    &&& x.price@.m * decimal::pow10(o.price@.s) == o.price@.m * decimal::pow10(x.price@.s)
}

/// The names of those that might have sent an order are listed as they come.
pub proof fn law_all_that_might_have_sent_are_listed(positions: Seq<ReconPos>, o: OpenOrderRow)
    ensures
        b3_startup::candidates(positions, o) == positions.filter(
            |p: ReconPos| might_have_sent(p, o),
        ).map_values(|p: ReconPos| p.signal_id@),
    decreases positions.len(),
{
    reveal(Seq::filter);
    let of = |p: ReconPos| might_have_sent(p, o);
    let name = |p: ReconPos| p.signal_id@;
    if positions.len() > 0 {
        law_all_that_might_have_sent_are_listed(positions.drop_last(), o);
        let before = positions.drop_last().filter(of);
        assert(before.push(positions.last()).map_values(name) =~= before.map_values(name).push(
            positions.last().signal_id@,
        ));
    } else {
        assert(positions.filter(of).map_values(name) =~= Seq::empty());
    }
}

/// The look-alikes of an order are counted over all orders, itself among them.
pub proof fn law_look_alikes_are_counted(
    orders: Seq<OpenOrderRow>,
    positions: Seq<ReconPos>,
    o: OpenOrderRow,
)
    ensures
        b3_startup::look_alikes(orders, positions, o.token_id@, o.price@) == orders.filter(
            |x: OpenOrderRow| is_look_alike(positions, x, o),
        ).len(),
    decreases orders.len(),
{
    reveal(Seq::filter);
    if orders.len() > 0 {
        law_look_alikes_are_counted(orders.drop_last(), positions, o);
        let x = orders.last();
        lemma_owned(positions, x.order_id@);
    }
}

proof fn lemma_owned(positions: Seq<ReconPos>, id: Seq<char>)
    ensures
        b3_startup::owned(positions, id) <==> !(forall|i: int|
            0 <= i < positions.len() ==> !is_order_of(#[trigger] positions[i], id)),
{
    assert forall|i: int| 0 <= i < positions.len() implies is_order_of(#[trigger] positions[i], id)
        == b3_startup::owns(positions[i], id) by {}
}

/// An order that a position has is left alone.
pub proof fn law_known_orders_are_left_alone(
    o: OpenOrderRow,
    orders: Seq<OpenOrderRow>,
    positions: Seq<ReconPos>,
    i: int,
)
    requires
        0 <= i < positions.len(),
        is_order_of(positions[i], o.order_id@),
    ensures
        b3_startup::order_items(o, orders, positions).len() == 0,
{
    assert(b3_startup::owns(positions[i], o.order_id@));
}

/// An order that no position has is taken up where one lot only might have sent it and
/// no other order looks like it. Any other is cancelled, and where a part of it was
/// filled all lots that might have sent it are left to a human.
pub proof fn law_other_orders_are_taken_up_or_cancelled(
    o: OpenOrderRow,
    orders: Seq<OpenOrderRow>,
    positions: Seq<ReconPos>,
)
    requires
        forall|i: int|
            0 <= i < positions.len() ==> !is_order_of(#[trigger] positions[i], o.order_id@),
    ensures
        ({
            let items = b3_startup::order_items(o, orders, positions);
            let senders = positions.filter(|p: ReconPos| might_have_sent(p, o));
            let alike = orders.filter(|x: OpenOrderRow| is_look_alike(positions, x, o));
            if senders.len() == 1 && alike.len() == 1 {
                items == seq![
                    ItemV::Adopt { signal_id: senders[0].signal_id@, order_id: o.order_id@ },
                ]
            } else {
                &&& items.len() >= 1
                &&& items[0] == (ItemV::CancelOrphan { order_id: o.order_id@ })
                &&& items.len() == 2 <==> o.size_matched@.m > 0 && senders.len() > 0
                &&& items.len() <= 2
                &&& items.len() == 2 ==> items[1] is Halt && items[1]->signal_ids
                    == senders.map_values(|p: ReconPos| p.signal_id@)
            }
        }),
{
    law_all_that_might_have_sent_are_listed(positions, o);
    law_look_alikes_are_counted(orders, positions, o);
    lemma_owned(positions, o.order_id@);
}

/// The orders are looked at one after the other.
pub proof fn law_orders_are_looked_at_in_turn(
    orders: Seq<OpenOrderRow>,
    positions: Seq<ReconPos>,
    n: int,
)
    requires
        0 <= n < orders.len(),
    ensures
        b3_startup::sweep(orders, positions, 0) == Seq::<ItemV>::empty(),
        b3_startup::sweep(orders, positions, n + 1) == b3_startup::sweep(orders, positions, n)
            + b3_startup::order_items(orders[n], orders, positions),
{
}

/// The target of a lot is that of the first position that is listed for it.
pub proof fn law_the_first_stored_target_counts(recon: Seq<ReconPos>, id: Seq<char>)
    ensures
        match b3_startup::stored_target(recon, id) {
            Some(t) => exists|i: int|
                0 <= i < recon.len() && (#[trigger] recon[i]).signal_id@ == id && recon[i].target == t
                    && forall|k: int| 0 <= k < i ==> (#[trigger] recon[k]).signal_id@ != id,
            None => forall|k: int| 0 <= k < recon.len() ==> (#[trigger] recon[k]).signal_id@ != id,
        },
    decreases recon.len(),
{
    if recon.len() > 0 {
        let rest = recon.drop_first();
        if recon[0].signal_id@ == id {
            assert(recon[0].target == b3_startup::stored_target(recon, id)->0);
        } else {
            law_the_first_stored_target_counts(rest, id);
            if b3_startup::stored_target(rest, id) is Some {
                let t = b3_startup::stored_target(rest, id)->0;
                let i = choose|i: int|
                    0 <= i < rest.len() && (#[trigger] rest[i]).signal_id@ == id && rest[i].target
                        == t && forall|k: int| 0 <= k < i ==> (#[trigger] rest[k]).signal_id@ != id;
                assert(recon[i + 1] == rest[i]);
                assert forall|k: int| 0 <= k < i + 1 implies (#[trigger] recon[k]).signal_id@ != id by {
                    if k > 0 {
                        assert(rest[k - 1] == recon[k]);
                    }
                }
            } else {
                assert forall|k: int| 0 <= k < recon.len() implies (#[trigger] recon[k]).signal_id@
                    != id by {
                    if k > 0 {
                        assert(rest[k - 1] == recon[k]);
                    }
                }
            }
        }
    }
}

/// The lot is the first one with that name.
pub open spec fn first_named(ps: Seq<OpenPosition>, i: int, id: Seq<char>) -> bool {
    &&& 0 <= i < ps.len()
    &&& ps[i].signal_id@ == id
    &&& forall|k: int| 0 <= k < i ==> (#[trigger] ps[k]).signal_id@ != id
}

proof fn lemma_first(ps: Seq<OpenPosition>, i: int, id: Seq<char>)
    requires
        first_named(ps, i, id),
    ensures
        b3_live::lot_index(ps, id) == Some(i),
{
    b3_live::lemma_lot_index(ps, id);
    let j = b3_live::lot_index(ps, id)->0;
    if j < i {
        assert(ps[j].signal_id@ != id);
    }
}

/// An order that is taken up is noted as placed now, with the target of the order that
/// the lot had, or else with the stored one, or else with none. Nothing else changes.
pub proof fn law_a_taken_up_order_is_placed(
    st: Resuming,
    signal_id: String,
    order_id: String,
    recon: Seq<ReconPos>,
    now_ms: i64,
    i: int,
)
    requires
        first_named(st.positions, i, signal_id@),
    ensures
        ({
            let p = st.positions[i];
            let r = b3_startup::resume_one(
                st,
                ReconItem::Adopt { signal_id, order_id },
                recon,
                now_ms,
            );
            &&& r matches Some(after)
            &&& after.closed == st.closed && after.gone == st.gone && after.halted == st.halted
            &&& after.adopted == st.adopted + 1
            &&& after.positions.len() == st.positions.len()
            &&& forall|k: int|
                0 <= k < st.positions.len() && k != i ==> #[trigger] after.positions[k]
                    == st.positions[k]
            &&& (OpenPosition { maker_exit: p.maker_exit, ..after.positions[i] }) == p
            &&& after.positions[i].maker_exit matches Some(m)
            &&& m.order_id == order_id && m.placed_ms == now_ms && m.status
                == MakerExitStatus::Placed
            &&& p.maker_exit matches Some(before) ==> m.target == before.target
            &&& p.maker_exit is None ==> match b3_startup::stored_target(recon, signal_id@) {
                Some(t) => m.target == t,
                None => m.target@.m == 0,
            }
        }),
{
    lemma_first(st.positions, i, signal_id@);
    decimal::lemma_zero();
}

/// A lot whose order was filled in the meantime is closed at the target of the order
/// that it had, or else at the stored one, or else at its entry price. What it earned is
/// what was matched, at that price, less what it cost with the fee.
pub proof fn law_a_fill_in_the_meantime_closes_the_lot(
    st: Resuming,
    signal_id: String,
    order_id: String,
    size_matched: Dec,
    recon: Seq<ReconPos>,
    now_ms: i64,
    i: int,
    price: DecV,
)
    requires
        first_named(st.positions, i, signal_id@),
        ({
            let p = st.positions[i];
            match (p.maker_exit, b3_startup::stored_target(recon, signal_id@)) {
                (Some(m), _) => price == m.target@,
                (None, Some(t)) => price == t@,
                (None, None) => price == p.entry_price@,
            }
        }),
    ensures
        ({
            let p = st.positions[i];
            let r = b3_startup::resume_one(
                st,
                ReconItem::CloseFillWhileDown { signal_id, order_id, size_matched },
                recon,
                now_ms,
            );
            let earned = b3_live::maker_profit(size_matched@, price, p.entry_price@);
            &&& r is Some <==> earned is Some
            &&& r matches Some(after) ==> {
                let t = after.closed.last();
                &&& after.positions == st.positions && after.halted == st.halted
                &&& after.adopted == st.adopted
                &&& after.gone == st.gone.insert(signal_id@)
                &&& after.closed == st.closed.push(t)
                &&& t.signal_id == signal_id@ && t.token_id == p.token_id@ && t.side == p.side
                &&& t.interval == p.interval@ && t.entry_price == p.entry_price@
                &&& t.exit_price == price && t.shares == size_matched@
                &&& Some(t.realized_pnl) == earned && t.exit_kind == ExitKind::B3MakerFill
                &&& t.opened_at_ms == p.opened_at_ms && t.closed_at_ms == now_ms
            }
        }),
{
    lemma_first(st.positions, i, signal_id@);
    let r = b3_startup::resume_one(
        st,
        ReconItem::CloseFillWhileDown { signal_id, order_id, size_matched },
        recon,
        now_ms,
    );
    if r is Some {
        assert(r->0.closed =~= st.closed.push(r->0.closed.last()));
    }
}

/// A forgotten order leaves its lot without one.
pub proof fn law_a_forgotten_order_is_gone(
    st: Resuming,
    signal_id: String,
    recon: Seq<ReconPos>,
    now_ms: i64,
    i: int,
)
    requires
        first_named(st.positions, i, signal_id@),
    ensures
        ({
            let r = b3_startup::resume_one(st, ReconItem::ClearMaker { signal_id }, recon, now_ms);
            let p = st.positions[i];
            &&& r matches Some(after)
            &&& after.closed == st.closed && after.gone == st.gone && after.halted == st.halted
            &&& after.adopted == st.adopted
            &&& after.positions == st.positions.update(
                i,
                (OpenPosition { maker_exit: None, ..p }),
            )
        }),
{
    lemma_first(st.positions, i, signal_id@);
}

/// Lots that are left to a human are noted; a cancelled order changes nothing, and what
/// is said of a lot that is not there changes nothing either.
pub proof fn law_other_items_touch_no_lot(
    st: Resuming,
    item: ReconItem,
    recon: Seq<ReconPos>,
    now_ms: i64,
)
    requires
        match item {
            ReconItem::Adopt { signal_id, order_id } => forall|k: int|
                0 <= k < st.positions.len() ==> (#[trigger] st.positions[k]).signal_id@
                    != signal_id@,
            ReconItem::CloseFillWhileDown { signal_id, order_id, size_matched } => forall|k: int|
                0 <= k < st.positions.len() ==> (#[trigger] st.positions[k]).signal_id@
                    != signal_id@,
            ReconItem::ClearMaker { signal_id } => forall|k: int|
                0 <= k < st.positions.len() ==> (#[trigger] st.positions[k]).signal_id@
                    != signal_id@,
            _ => true,
        },
    ensures
        ({
            let r = b3_startup::resume_one(st, item, recon, now_ms);
            match item {
                ReconItem::Halt { signal_ids, reason } => {
                    &&& r matches Some(after)
                    &&& (Resuming { halted: st.halted, ..after }) == st
                    &&& forall|name: Seq<char>| #[trigger]
                        after.halted.contains(name) <==> st.halted.contains(name) || exists|k: int|
                            0 <= k < signal_ids@.len() && (#[trigger] signal_ids@[k])@ == name
                },
                _ => r == Some(st),
            }
        }),
{
    match item {
        ReconItem::Adopt { signal_id, order_id } => {
            b3_live::lemma_lot_index(st.positions, signal_id@);
        },
        ReconItem::CloseFillWhileDown { signal_id, order_id, size_matched } => {
            b3_live::lemma_lot_index(st.positions, signal_id@);
        },
        ReconItem::ClearMaker { signal_id } => {
            b3_live::lemma_lot_index(st.positions, signal_id@);
        },
        _ => {},
    }
}

/// The items are applied one after the other, from lots of which nothing is known.
pub proof fn law_items_are_applied_in_turn(
    ps: Seq<OpenPosition>,
    items: Seq<ReconItem>,
    recon: Seq<ReconPos>,
    now_ms: i64,
    n: int,
)
    requires
        0 <= n < items.len(),
    ensures
        ({
            let st = b3_startup::resume_first(ps, items, recon, now_ms, n);
            let next = b3_startup::resume_first(ps, items, recon, now_ms, n + 1);
            &&& st matches Some(x) ==> next == b3_startup::resume_one(x, items[n], recon, now_ms)
            &&& st is None ==> next is None
        }),
        ({
            let first = b3_startup::resume_first(ps, items, recon, now_ms, 0);
            &&& first matches Some(x)
            &&& x.positions == ps && x.closed.len() == 0 && x.adopted == 0
            &&& x.gone == Set::<Seq<char>>::empty() && x.halted == Set::<Seq<char>>::empty()
        }),
{
}

} // verus!
