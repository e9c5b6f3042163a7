//! Taking up maker orders again when the bot starts.
//!
//! An order of the bot that rests on the book without being tracked is capital
//! out of control, and an order that was filled while the bot was down must not
//! be sold again. Known orders are polled; orders on the book that nobody owns
//! are matched to the lots that were about to place one, or cancelled. Where the
//! match is not certain nothing is guessed.

use crate::b3_live::{
    self, closed_trade, maker_net, ClosedTrade, ExitKind, MakerExitState, MakerExitStatus,
    OpenPosition, TradeV,
};
use crate::b3_maker::{self, MakerOrderStatus};
use crate::decimal::{self, Dec, DecV};
use crate::text::{push_str, same_text};
use vstd::prelude::*;

verus! {

/// One order of the bot on the book.
#[derive(Debug, Clone, PartialEq)]
pub struct OpenOrderRow {
    pub order_id: String,
    pub token_id: String,
    pub is_sell: bool,
    pub price: Dec,
    pub original_size: Dec,
    pub size_matched: Dec,
}

/// A position as it was left: what was stored of its maker order, and what was
/// noted before and after the order was sent.
#[derive(Debug, Clone, PartialEq)]
pub struct ReconPos {
    pub signal_id: String,
    pub token_id: String,
    pub shares: Dec,
    pub entry: Dec,
    /// The maker target.
    pub target: Dec,
    /// The order id stored with the position.
    pub persisted_order_id: Option<String>,
    /// The order id noted after the order was sent.
    pub submitted_order_id: Option<String>,
    /// An order was about to be sent and no id was noted.
    pub has_pending_intent: bool,
}

/// What to do about one position or one order.
#[derive(Debug, Clone, PartialEq)]
pub enum ReconItem {
    /// Track the order again.
    Adopt { signal_id: String, order_id: String },
    /// The order was filled while the bot was down: the lot is closed.
    CloseFillWhileDown { signal_id: String, order_id: String, size_matched: Dec },
    /// The order is gone without a fill: forget it.
    ClearMaker { signal_id: String },
    /// Cancel an order that belongs to no lot for certain.
    CancelOrphan { order_id: String },
    /// What is left of the lots is not certain: leave them to a human.
    Halt { signal_ids: Vec<String>, reason: String },
}

/// An item as mathematical values.
pub enum ItemV {
    Adopt { signal_id: Seq<char>, order_id: Seq<char> },
    CloseFillWhileDown { signal_id: Seq<char>, order_id: Seq<char>, size_matched: DecV },
    ClearMaker { signal_id: Seq<char> },
    CancelOrphan { order_id: Seq<char> },
    Halt { signal_ids: Seq<Seq<char>>, reason: Seq<char> },
}

/// The values of a list of texts.
pub open spec fn names(v: Seq<String>) -> Seq<Seq<char>> {
    v.map_values(|s: String| s@)
}

impl View for ReconItem {
    type V = ItemV;

    open spec fn view(&self) -> ItemV {
        match self {
            ReconItem::Adopt { signal_id, order_id } => ItemV::Adopt {
                signal_id: signal_id@,
                order_id: order_id@,
            },
            ReconItem::CloseFillWhileDown { signal_id, order_id, size_matched } => ItemV::CloseFillWhileDown {
                signal_id: signal_id@,
                order_id: order_id@,
                size_matched: size_matched@,
            },
            ReconItem::ClearMaker { signal_id } => ItemV::ClearMaker { signal_id: signal_id@ },
            ReconItem::CancelOrphan { order_id } => ItemV::CancelOrphan { order_id: order_id@ },
            ReconItem::Halt { signal_ids, reason } => ItemV::Halt {
                signal_ids: names(signal_ids@),
                reason: reason@,
            },
        }
    }
}

/// The values of a list of items.
pub open spec fn item_views(v: Seq<ReconItem>) -> Seq<ItemV> {
    v.map_values(|x: ReconItem| x@)
}

/// The order of a position that is known from before, if any: the stored one, or
/// else the one noted after sending.
pub open spec fn known_order(p: ReconPos) -> Option<Seq<char>> {
    match p.persisted_order_id {
        Some(id) => Some(id@),
        None => match p.submitted_order_id {
            Some(id) => Some(id@),
            None => None,
        },
    }
}

/// The order of a position that is known from before.
pub fn known_order_id(p: &ReconPos) -> (r: Option<String>)
    ensures
        match r {
            Some(id) => known_order(*p) == Some(id@),
            None => known_order(*p) is None,
        },
{
    match &p.persisted_order_id {
        Some(id) => Some(id.clone()),
        None => match &p.submitted_order_id {
            Some(id) => Some(id.clone()),
            None => None,
        },
    }
}

/// What to do with a known order, given what the venue says of it now.
pub open spec fn known_order_item(
    signal_id: Seq<char>,
    order_id: Seq<char>,
    status: MakerOrderStatus,
    matched: DecV,
    orig: DecV,
) -> ItemV {
    let m = b3_maker::matched_size(orig, matched);
    if b3_maker::fully_matched(orig, matched) {
        ItemV::CloseFillWhileDown { signal_id, order_id, size_matched: m }
    } else if !b3_maker::terminal(status) {
        ItemV::Adopt { signal_id, order_id }
    } else if m.m == 0 {
        ItemV::ClearMaker { signal_id }
    } else {
        ItemV::Halt {
            signal_ids: seq![signal_id],
            reason: "terminal partial fill-while-down: matched "@ + decimal::text(m) + "/"@
                + decimal::text(orig),
        }
    }
}

fn copy_of(s: &str) -> (r: String)
    ensures
        r@ == s@,
{
    let mut out = String::new();
    push_str(&mut out, s);
    assert(out@ =~= s@);
    out
}

/// Decides what to do with a known order: filled, the lot is closed and never
/// sold again; still on the book, it is tracked; gone without a fill, it is
/// forgotten; gone with part of the lot, a human has to look.
#[must_use]
pub fn persisted_maker_decision(
    signal_id: &str,
    order_id: &str,
    status: MakerOrderStatus,
    size_matched: Dec,
    orig: Dec,
) -> (r: ReconItem)
    ensures
        r@ == known_order_item(signal_id@, order_id@, status, size_matched@, orig@),
{
    let lot = orig.max(Dec::zero());
    proof {
        b3_maker::lemma_lot_and_match(orig@, size_matched@);
        decimal::lemma_lt_le(
            b3_maker::matched_size(orig@, size_matched@),
            b3_maker::lot_size(orig@),
        );
    }
    let matched = size_matched.clamp(Dec::zero(), lot);
    if lot.is_positive() && !matched.less_than(lot) {
        return ReconItem::CloseFillWhileDown {
            signal_id: copy_of(signal_id),
            order_id: copy_of(order_id),
            size_matched: matched,
        };
    }
    if !status.is_terminal() {
        return ReconItem::Adopt { signal_id: copy_of(signal_id), order_id: copy_of(order_id) };
    }
    if matched.is_zero() {
        return ReconItem::ClearMaker { signal_id: copy_of(signal_id) };
    }
    let mut reason = String::new();
    push_str(&mut reason, "terminal partial fill-while-down: matched ");
    let m = matched.to_text();
    push_str(&mut reason, m.as_str());
    push_str(&mut reason, "/");
    let o = orig.to_text();
    push_str(&mut reason, o.as_str());
    let mut ids: Vec<String> = Vec::new();
    ids.push(copy_of(signal_id));
    assert(names(ids@) =~= seq![signal_id@]);
    assert(reason@ =~= "terminal partial fill-while-down: matched "@ + decimal::text(matched@)
        + "/"@ + decimal::text(orig@));
    ReconItem::Halt { signal_ids: ids, reason }
}

/// Whether an order belongs to a position by its id.
pub open spec fn owned(positions: Seq<ReconPos>, order_id: Seq<char>) -> bool {
    exists|i: int| 0 <= i < positions.len() && owns(#[trigger] positions[i], order_id)
}

pub open spec fn owns(p: ReconPos, order_id: Seq<char>) -> bool {
    (p.persisted_order_id matches Some(id) && id@ == order_id) || (
    p.submitted_order_id matches Some(id) && id@ == order_id)
}

/// Whether an order on the book may be the one that a position was about to send:
/// it sells, no id was noted, and token and price fit.
pub open spec fn may_own(p: ReconPos, o: OpenOrderRow) -> bool {
    o.is_sell && p.has_pending_intent && p.persisted_order_id is None && p.submitted_order_id is None
        && p.token_id@ == o.token_id@ && decimal::same_value(p.target@, o.price@)
}

/// The signal ids of the positions that may own an order, in their order.
pub open spec fn candidates(positions: Seq<ReconPos>, o: OpenOrderRow) -> Seq<Seq<char>>
    decreases positions.len(),
{
    if positions.len() == 0 {
        Seq::empty()
    } else {
        let before = candidates(positions.drop_last(), o);
        if may_own(positions.last(), o) {
            before.push(positions.last().signal_id@)
        } else {
            before
        }
    }
}

/// How many sell orders on the book that nobody owns have the given token and
/// price.
pub open spec fn look_alikes(
    orders: Seq<OpenOrderRow>,
    positions: Seq<ReconPos>,
    token: Seq<char>,
    price: DecV,
) -> nat
    decreases orders.len(),
{
    if orders.len() == 0 {
        0
    } else {
        let before = look_alikes(orders.drop_last(), positions, token, price);
        let o = orders.last();
        if o.is_sell && !owned(positions, o.order_id@) && o.token_id@ == token
            && decimal::same_value(o.price@, price) {
            before + 1
        } else {
            before
        }
    }
}

/// What to do about one order on the book. An owned order is not touched. One
/// that exactly one position may own, and that has no look-alike, is adopted; any
/// other is cancelled, and if it was partly filled the positions that may own it
/// are halted.
pub open spec fn order_items(
    o: OpenOrderRow,
    orders: Seq<OpenOrderRow>,
    positions: Seq<ReconPos>,
) -> Seq<ItemV> {
    let ids = candidates(positions, o);
    if owned(positions, o.order_id@) {
        Seq::empty()
    } else if ids.len() == 1 && look_alikes(orders, positions, o.token_id@, o.price@) == 1 {
        seq![ItemV::Adopt { signal_id: ids[0], order_id: o.order_id@ }]
    } else if o.size_matched@.m > 0 && ids.len() > 0 {
        seq![
            ItemV::CancelOrphan { order_id: o.order_id@ },
            ItemV::Halt {
                signal_ids: ids,
                reason: "ambiguous orphan partially filled: matched "@ + decimal::text(
                    o.size_matched@,
                ),
            },
        ]
    } else {
        seq![ItemV::CancelOrphan { order_id: o.order_id@ }]
    }
}

/// What to do about the first `n` orders on the book.
pub open spec fn sweep(orders: Seq<OpenOrderRow>, positions: Seq<ReconPos>, n: int) -> Seq<ItemV>
    decreases n,
{
    if n <= 0 {
        Seq::empty()
    } else {
        sweep(orders, positions, n - 1) + order_items(orders[n - 1], orders, positions)
    }
}

fn is_owned(positions: &[ReconPos], order_id: &str) -> (r: bool)
    ensures
        r == owned(positions@, order_id@),
{
    let mut i: usize = 0;
    while i < positions.len()
        invariant
            i <= positions.len(),
            forall|k: int| 0 <= k < i ==> !owns(#[trigger] positions@[k], order_id@),
        decreases positions.len() - i,
    {
        let by_store = match &positions[i].persisted_order_id {
            Some(id) => same_text(id.as_str(), order_id),
            None => false,
        };
        let by_note = match &positions[i].submitted_order_id {
            Some(id) => same_text(id.as_str(), order_id),
            None => false,
        };
        if by_store || by_note {
            assert(owns(positions@[i as int], order_id@));
            return true;
        }
        i += 1;
    }
    false
}

fn candidate_ids(positions: &[ReconPos], o: &OpenOrderRow) -> (r: Vec<String>)
    ensures
        names(r@) == candidates(positions@, *o),
{
    let mut out: Vec<String> = Vec::new();
    let mut i: usize = 0;
    assert(names(out@) =~= Seq::empty());
    while i < positions.len()
        invariant
            i <= positions.len(),
            names(out@) == candidates(positions@.take(i as int), *o),
        decreases positions.len() - i,
    {
        assert(positions@.take(i + 1).drop_last() =~= positions@.take(i as int));
        let p = &positions[i];
        let ghost before = out@;
        if o.is_sell && p.has_pending_intent && p.persisted_order_id.is_none()
            && p.submitted_order_id.is_none() && same_text(p.token_id.as_str(), o.token_id.as_str()) && p.target == o.price {
            out.push(p.signal_id.clone());
            assert(names(out@) =~= names(before).push(p.signal_id@));
        }
        i += 1;
    }
    assert(positions@.take(positions@.len() as int) =~= positions@);
    out
}

/// Counts the sell orders on the book that nobody owns with the given token and
/// price.
fn open_matches(open: &[OpenOrderRow], positions: &[ReconPos], token: &str, price: Dec) -> (r: usize)
    ensures
        r == look_alikes(open@, positions@, token@, price@),
{
    let mut n: usize = 0;
    let mut i: usize = 0;
    while i < open.len()
        invariant
            i <= open.len(),
            n <= i,
            n == look_alikes(open@.take(i as int), positions@, token@, price@),
        decreases open.len() - i,
    {
        assert(open@.take(i + 1).drop_last() =~= open@.take(i as int));
        let o = &open[i];
        if o.is_sell && !is_owned(positions, o.order_id.as_str()) && same_text(o.token_id.as_str(), token)
            && o.price == price {
            n += 1;
        }
        i += 1;
    }
    assert(open@.take(open@.len() as int) =~= open@);
    n
}

fn decide_order(o: &OpenOrderRow, orders: &[OpenOrderRow], positions: &[ReconPos]) -> (r: Vec<
    ReconItem,
>)
    ensures
        item_views(r@) == order_items(*o, orders@, positions@),
{
    let mut out: Vec<ReconItem> = Vec::new();
    if is_owned(positions, o.order_id.as_str()) {
        assert(item_views(out@) =~= Seq::empty());
        return out;
    }
    let ids = candidate_ids(positions, o);
    assert(names(ids@).len() == ids@.len());
    if ids.len() == 1 && open_matches(orders, positions, o.token_id.as_str(), o.price) == 1 {
        assert(names(ids@)[0] == ids@[0]@);
        out.push(ReconItem::Adopt { signal_id: ids[0].clone(), order_id: o.order_id.clone() });
        assert(item_views(out@) =~= order_items(*o, orders@, positions@));
        return out;
    }
    out.push(ReconItem::CancelOrphan { order_id: o.order_id.clone() });
    if o.size_matched.is_positive() && ids.len() > 0 {
        let mut reason = String::new();
        push_str(&mut reason, "ambiguous orphan partially filled: matched ");
        let m = o.size_matched.to_text();
        push_str(&mut reason, m.as_str());
        assert(reason@ =~= "ambiguous orphan partially filled: matched "@ + decimal::text(
            o.size_matched@,
        ));
        out.push(ReconItem::Halt { signal_ids: ids, reason });
    }
    assert(item_views(out@) =~= order_items(*o, orders@, positions@));
    out
}

/// Decides about the orders on the book that no position owns by id.
#[must_use]
pub fn orphan_decisions(open_orders: &[OpenOrderRow], positions: &[ReconPos]) -> (r: Vec<ReconItem>)
    ensures
        item_views(r@) == sweep(open_orders@, positions@, open_orders@.len() as int),
{
    let mut out: Vec<ReconItem> = Vec::new();
    let mut i: usize = 0;
    assert(item_views(out@) =~= Seq::empty());
    while i < open_orders.len()
        invariant
            i <= open_orders.len(),
            item_views(out@) == sweep(open_orders@, positions@, i as int),
        decreases open_orders.len() - i,
    {
        let mut items = decide_order(&open_orders[i], open_orders, positions);
        let ghost before = out@;
        let ghost more = items@;
        out.append(&mut items);
        assert(item_views(out@) =~= item_views(before) + item_views(more));
        i += 1;
    }
    out
}

/// An order that a position owns is never cancelled, and no order is adopted but
/// for a lot that may own it; every order that nobody owns is adopted or
/// cancelled.
pub proof fn law_owned_orders_are_safe(orders: Seq<OpenOrderRow>, positions: Seq<ReconPos>, n: int)
    requires
        0 <= n <= orders.len(),
    ensures
        forall|k: int|
            0 <= k < sweep(orders, positions, n).len() ==> match #[trigger] sweep(
                orders,
                positions,
                n,
            )[k] {
                ItemV::CancelOrphan { order_id } => !owned(positions, order_id),
                ItemV::Adopt { signal_id, order_id } => !owned(positions, order_id),
                ItemV::Halt { signal_ids, reason } => true,
                _ => false,
            },
        forall|j: int|
            0 <= j < n && !owned(positions, (#[trigger] orders[j]).order_id@) ==> exists|k: int|
                0 <= k < sweep(orders, positions, n).len() && #[trigger] settles(
                    sweep(orders, positions, n)[k],
                    orders[j].order_id@,
                ),
    decreases n,
{
    if n > 0 {
        law_owned_orders_are_safe(orders, positions, n - 1);
        let before = sweep(orders, positions, n - 1);
        let now = order_items(orders[n - 1], orders, positions);
        let all = sweep(orders, positions, n);
        assert(all == before + now);
        assert forall|k: int| 0 <= k < all.len() implies match #[trigger] all[k] {
            ItemV::CancelOrphan { order_id } => !owned(positions, order_id),
            ItemV::Adopt { signal_id, order_id } => !owned(positions, order_id),
            ItemV::Halt { signal_ids, reason } => true,
            _ => false,
        } by {
            if k < before.len() {
                assert(all[k] == before[k]);
            } else {
                assert(all[k] == now[k - before.len()]);
            }
        }
        assert forall|j: int| 0 <= j < n && !owned(positions, (#[trigger] orders[j]).order_id@) implies exists|
            k: int,
        |
            0 <= k < all.len() && #[trigger] settles(all[k], orders[j].order_id@) by {
            if j < n - 1 {
                let k = choose|k: int|
                    0 <= k < before.len() && #[trigger] settles(before[k], orders[j].order_id@);
                assert(settles(all[k], orders[j].order_id@));
            } else {
                assert(all[before.len() as int] == now[0]);
                assert(settles(all[before.len() as int], orders[j].order_id@));
            }
        }
    }
}

/// The item adopts or cancels the order.
pub open spec fn settles(item: ItemV, id: Seq<char>) -> bool {
    match item {
        ItemV::CancelOrphan { order_id } => order_id == id,
        ItemV::Adopt { signal_id, order_id } => order_id == id,
        _ => false,
    }
}

proof fn lemma_only_sells_have_candidates(positions: Seq<ReconPos>, o: OpenOrderRow)
    requires
        !o.is_sell,
    ensures
        candidates(positions, o) == Seq::<Seq<char>>::empty(),
    decreases positions.len(),
{
    if positions.len() > 0 {
        lemma_only_sells_have_candidates(positions.drop_last(), o);
    }
}

/// Only sell orders are adopted: every order that is taken up stands among the
/// orders on the book as one that sells. An order that buys and that nobody owns
/// is cancelled, and no lot is halted for it.
pub proof fn law_only_sell_orders_are_adopted(
    orders: Seq<OpenOrderRow>,
    positions: Seq<ReconPos>,
    n: int,
)
    requires
        0 <= n <= orders.len(),
    ensures
        forall|k: int|
            0 <= k < sweep(orders, positions, n).len() ==> (#[trigger] sweep(
                orders,
                positions,
                n,
            )[k] matches ItemV::Adopt { signal_id, order_id } ==> sells(
                orders.take(n),
                order_id,
            )),
        forall|j: int|
            0 <= j < n && !(#[trigger] orders[j]).is_sell && !owned(positions, orders[j].order_id@)
                ==> order_items(orders[j], orders, positions) == seq![
                ItemV::CancelOrphan { order_id: orders[j].order_id@ },
            ],
    decreases n,
{
    assert forall|j: int|
        0 <= j < n && !(#[trigger] orders[j]).is_sell && !owned(
            positions,
            orders[j].order_id@,
        ) implies order_items(orders[j], orders, positions) == seq![
        ItemV::CancelOrphan { order_id: orders[j].order_id@ },
    ] by {
        lemma_only_sells_have_candidates(positions, orders[j]);
    }
    if n > 0 {
        law_only_sell_orders_are_adopted(orders, positions, n - 1);
        let before = sweep(orders, positions, n - 1);
        let now = order_items(orders[n - 1], orders, positions);
        let all = sweep(orders, positions, n);
        assert(all == before + now);
        if !orders[n - 1].is_sell {
            lemma_only_sells_have_candidates(positions, orders[n - 1]);
        }
        assert forall|k: int| 0 <= k < all.len() implies (#[trigger] all[k] matches ItemV::Adopt {
            signal_id,
            order_id,
        } ==> sells(orders.take(n), order_id)) by {
            if k < before.len() {
                assert(all[k] == before[k]);
                if let ItemV::Adopt { signal_id, order_id } = all[k] {
                    let j = choose|j: int|
                        0 <= j < n - 1 && (#[trigger] orders.take(n - 1)[j]).is_sell && orders.take(
                            n - 1,
                        )[j].order_id@ == order_id;
                    assert(orders.take(n)[j] == orders.take(n - 1)[j]);
                }
            } else {
                assert(all[k] == now[k - before.len()]);
                assert(orders.take(n)[n - 1] == orders[n - 1]);
            }
        }
    }
}

/// Some order of the list sells and has the given id.
pub open spec fn sells(orders: Seq<OpenOrderRow>, id: Seq<char>) -> bool {
    exists|j: int|
        0 <= j < orders.len() && (#[trigger] orders[j]).is_sell && orders[j].order_id@ == id
}

/// Where two positions may own the same order, none of them is given it.
pub proof fn law_no_guessing(o: OpenOrderRow, orders: Seq<OpenOrderRow>, positions: Seq<ReconPos>)
    requires
        !owned(positions, o.order_id@),
        candidates(positions, o).len() != 1 || look_alikes(
            orders,
            positions,
            o.token_id@,
            o.price@,
        ) != 1,
    ensures
        order_items(o, orders, positions)[0] == (ItemV::CancelOrphan { order_id: o.order_id@ }),
        o.size_matched@.m > 0 && candidates(positions, o).len() > 0 ==> order_items(
            o,
            orders,
            positions,
        ).len() == 2 && order_items(o, orders, positions)[1]->signal_ids == candidates(positions, o),
{
}

/// What taking up the orders came to.
#[derive(Debug, Clone, PartialEq)]
pub struct ReconcileReport {
    pub closed: Vec<ClosedTrade>,
    /// The lots left to a human, without repetition.
    pub halted: Vec<String>,
    pub adopted: usize,
    pub cancelled: usize,
}

/// The target that the lot's order is taken up with: that of its stored order, or
/// else that of the startup list, or else none.
pub open spec fn stored_target(recon: Seq<ReconPos>, id: Seq<char>) -> Option<Dec>
    decreases recon.len(),
{
    if recon.len() == 0 {
        None
    } else if recon[0].signal_id@ == id {
        Some(recon[0].target)
    } else {
        stored_target(recon.drop_first(), id)
    }
}

fn find_target(recon: &[ReconPos], id: &str) -> (r: Option<Dec>)
    ensures
        r == stored_target(recon@, id@),
{
    let mut i: usize = 0;
    assert(recon@.skip(0) =~= recon@);
    while i < recon.len()
        invariant
            i <= recon.len(),
            stored_target(recon@, id@) == stored_target(recon@.skip(i as int), id@),
        decreases recon.len() - i,
    {
        if same_text(recon[i].signal_id.as_str(), id) {
            return Some(recon[i].target);
        }
        assert(recon@.skip(i as int).drop_first() =~= recon@.skip(i + 1));
        i += 1;
    }
    None
}

/// The positions while the items are being applied.
pub struct Resuming {
    pub positions: Seq<OpenPosition>,
    pub closed: Seq<TradeV>,
    pub gone: Set<Seq<char>>,
    pub halted: Set<Seq<char>>,
    pub adopted: nat,
}

/// The target of an adopted order.
pub open spec fn adopted_target(p: OpenPosition, recon: Seq<ReconPos>) -> Dec {
    match p.maker_exit {
        Some(m) => m.target,
        None => match stored_target(recon, p.signal_id@) {
            Some(t) => t,
            None => Dec::spec_zero(),
        },
    }
}

/// The price of an order that was filled while the bot was down.
pub open spec fn filled_price(p: OpenPosition, recon: Seq<ReconPos>) -> Dec {
    match p.maker_exit {
        Some(m) => m.target,
        None => match stored_target(recon, p.signal_id@) {
            Some(t) => t,
            None => p.entry_price,
        },
    }
}

/// One item applied. A lot that is not there is passed over. `None` where the
/// profit of a lot that was filled is out of range.
pub open spec fn resume_one(
    st: Resuming,
    item: ReconItem,
    recon: Seq<ReconPos>,
    now_ms: i64,
) -> Option<Resuming> {
    match item {
        ReconItem::Adopt { signal_id, order_id } => match b3_live::lot_index(
            st.positions,
            signal_id@,
        ) {
            None => Some(st),
            Some(i) => Some(
                Resuming {
                    positions: b3_live::set_maker(
                        st.positions,
                        signal_id@,
                        Some(
                            MakerExitState {
                                order_id,
                                placed_ms: now_ms,
                                target: adopted_target(st.positions[i], recon),
                                status: MakerExitStatus::Placed,
                            },
                        ),
                    ),
                    adopted: st.adopted + 1,
                    ..st
                },
            ),
        },
        ReconItem::CloseFillWhileDown { signal_id, order_id, size_matched } => match b3_live::lot_index(
            st.positions,
            signal_id@,
        ) {
            None => Some(st),
            Some(i) => {
                let p = st.positions[i];
                let price = filled_price(p, recon)@;
                match b3_live::maker_profit(size_matched@, price, p.entry_price@) {
                    None => None,
                    Some(net) => Some(
                        Resuming {
                            closed: st.closed.push(
                                b3_live::trade_of(
                                    p,
                                    price,
                                    size_matched@,
                                    net,
                                    ExitKind::B3MakerFill,
                                    now_ms,
                                ),
                            ),
                            gone: st.gone.insert(signal_id@),
                            ..st
                        },
                    ),
                }
            },
        },
        ReconItem::ClearMaker { signal_id } => Some(
            Resuming { positions: b3_live::set_maker(st.positions, signal_id@, None), ..st },
        ),
        ReconItem::Halt { signal_ids, reason } => Some(
            Resuming { halted: st.halted.union(b3_live::name_set(signal_ids@)), ..st },
        ),
        ReconItem::CancelOrphan { order_id } => Some(st),
    }
}

/// The first `n` items applied in their order.
pub open spec fn resume_first(
    ps: Seq<OpenPosition>,
    items: Seq<ReconItem>,
    recon: Seq<ReconPos>,
    now_ms: i64,
    n: int,
) -> Option<Resuming>
    decreases n,
{
    if n <= 0 {
        Some(
            Resuming {
                positions: ps,
                closed: Seq::empty(),
                gone: Set::empty(),
                halted: Set::empty(),
                adopted: 0,
            },
        )
    } else {
        match resume_first(ps, items, recon, now_ms, n - 1) {
            Some(st) => resume_one(st, items[n - 1], recon, now_ms),
            None => None,
        }
    }
}

proof fn lemma_resume_none(
    ps: Seq<OpenPosition>,
    items: Seq<ReconItem>,
    recon: Seq<ReconPos>,
    now_ms: i64,
    n: int,
    m: int,
)
    requires
        resume_first(ps, items, recon, now_ms, n) is None,
        n <= m,
    ensures
        resume_first(ps, items, recon, now_ms, m) is None,
    decreases m,
{
    if n < m && m > 0 {
        lemma_resume_none(ps, items, recon, now_ms, n, m - 1);
    }
}

/// Adds the names that are not yet in the list.
fn add_names(list: &mut Vec<String>, more: &Vec<String>)
    ensures
        b3_live::name_set(final(list)@) == b3_live::name_set(old(list)@).union(
            b3_live::name_set(more@),
        ),
        no_repeats(old(list)@) ==> no_repeats(final(list)@),
{
    let ghost start = list@;
    let mut i: usize = 0;
    assert(more@.take(0) =~= Seq::empty());
    assert(b3_live::name_set(start) =~= b3_live::name_set(start).union(
        b3_live::name_set(more@.take(0)),
    ));
    while i < more.len()
        invariant
            i <= more.len(),
            b3_live::name_set(list@) == b3_live::name_set(start).union(
                b3_live::name_set(more@.take(i as int)),
            ),
            no_repeats(start) ==> no_repeats(list@),
        decreases more.len() - i,
    {
        let name = &more[i];
        assert(more@.take(i + 1) =~= more@.take(i as int).push(*name));
        proof {
            b3_live::lemma_name_set_push(more@.take(i as int), *name);
            b3_live::lemma_name_set_push(list@, *name);
        }
        if !b3_live::in_names(list, name.as_str()) {
            let ghost before = list@;
            list.push(name.clone());
            assert forall|a: int, b: int|
                0 <= a < b < list@.len() && no_repeats(start) implies (#[trigger] list@[a])@ != (
            #[trigger] list@[b])@ by {
                if b == before.len() {
                    assert(list@[a] == before[a]);
                    if before[a]@ == name@ {
                        assert(b3_live::name_set(before).contains(name@));
                    }
                }
            }
        }
        assert(b3_live::name_set(list@) =~= b3_live::name_set(start).union(
            b3_live::name_set(more@.take(i + 1)),
        ));
        i += 1;
    }
    assert(more@.take(more@.len() as int) =~= more@);
}

/// No name occurs twice.
pub open spec fn no_repeats(v: Seq<String>) -> bool {
    forall|a: int, b: int| 0 <= a < b < v.len() ==> (#[trigger] v[a])@ != (#[trigger] v[b])@
}

fn copy_position(p: &OpenPosition) -> (r: OpenPosition)
    ensures
        r == *p,
{
    OpenPosition {
        token_id: p.token_id.clone(),
        asset: p.asset.clone(),
        side: p.side,
        entry_price: p.entry_price,
        shares: p.shares,
        opened_at_ms: p.opened_at_ms,
        signal_id: p.signal_id.clone(),
        interval: p.interval.clone(),
        exit_ts_s: p.exit_ts_s,
        entry_ts_ms: p.entry_ts_ms,
        maker_exit: match &p.maker_exit {
            Some(m) => Some(
                MakerExitState {
                    order_id: m.order_id.clone(),
                    placed_ms: m.placed_ms,
                    target: m.target,
                    status: m.status,
                },
            ),
            None => None,
        },
    }
}

fn copy_positions(ps: &Vec<OpenPosition>) -> (r: Vec<OpenPosition>)
    ensures
        r@ == ps@,
{
    let mut out: Vec<OpenPosition> = Vec::new();
    let mut i: usize = 0;
    while i < ps.len()
        invariant
            i <= ps.len(),
            out@ == ps@.take(i as int),
        decreases ps.len() - i,
    {
        assert(ps@.take(i + 1) =~= ps@.take(i as int).push(ps@[i as int]));
        out.push(copy_position(&ps[i]));
        i += 1;
    }
    assert(ps@.take(ps@.len() as int) =~= ps@);
    out
}

/// Applies what was decided to the positions. Orders to cancel have been
/// cancelled before; `cancelled` says how many. `None`, with the positions left as
/// they are, where the profit of a filled lot is out of range.
pub fn apply_startup_items(
    positions: &mut Vec<OpenPosition>,
    items: &[ReconItem],
    recon: &[ReconPos],
    cancelled: usize,
    now_ms: i64,
) -> (r: Option<ReconcileReport>)
    ensures
        match resume_first(old(positions)@, items@, recon@, now_ms, items@.len() as int) {
            None => r is None && final(positions)@ == old(positions)@,
            Some(st) => {
                &&& r is Some
                &&& final(positions)@ == b3_live::without(st.positions, st.gone)
                &&& b3_live::trade_views(r->0.closed@) == st.closed
                &&& b3_live::name_set(r->0.halted@) == st.halted
                &&& no_repeats(r->0.halted@)
                &&& r->0.adopted == st.adopted
                &&& r->0.cancelled == cancelled
            },
        },
{
    let ghost start = positions@;
    let mut work = copy_positions(positions);
    let mut closed: Vec<ClosedTrade> = Vec::new();
    let mut gone: Vec<String> = Vec::new();
    let mut halted: Vec<String> = Vec::new();
    let mut adopted: usize = 0;
    let mut i: usize = 0;
    assert(b3_live::trade_views(closed@) =~= Seq::empty());
    assert(b3_live::name_set(gone@) =~= Set::empty());
    while i < items.len()
        invariant
            i <= items.len(),
            positions@ == start,
            adopted <= i,
            no_repeats(halted@),
            resume_first(start, items@, recon@, now_ms, i as int) == Some(
                Resuming {
                    positions: work@,
                    closed: b3_live::trade_views(closed@),
                    gone: b3_live::name_set(gone@),
                    halted: b3_live::name_set(halted@),
                    adopted: adopted as nat,
                },
            ),
        decreases items.len() - i,
    {
        let ghost closed_before = closed@;
        match &items[i] {
            ReconItem::Adopt { signal_id, order_id } => {
                if let Some(k) = b3_live::find_lot(&work, signal_id.as_str()) {
                    proof {
                        b3_live::lemma_lot_index(work@, signal_id@);
                    }
                    let target = match &work[k].maker_exit {
                        Some(m) => m.target,
                        None => match find_target(recon, signal_id.as_str()) {
                            Some(t) => t,
                            None => Dec::zero(),
                        },
                    };
                    let state = MakerExitState {
                        order_id: order_id.clone(),
                        placed_ms: now_ms,
                        target,
                        status: MakerExitStatus::Placed,
                    };
                    b3_live::note_maker(&mut work, k, Some(state));
                    adopted += 1;
                }
            },
            ReconItem::CloseFillWhileDown { signal_id, order_id: _, size_matched } => {
                if let Some(k) = b3_live::find_lot(&work, signal_id.as_str()) {
                    proof {
                        b3_live::lemma_lot_index(work@, signal_id@);
                    }
                    let p = &work[k];
                    let price = match &p.maker_exit {
                        Some(m) => m.target,
                        None => match find_target(recon, signal_id.as_str()) {
                            Some(t) => t,
                            None => p.entry_price,
                        },
                    };
                    match maker_net(*size_matched, price, p.entry_price) {
                        Some(net) => {
                            let t = closed_trade(
                                p,
                                price,
                                *size_matched,
                                net,
                                ExitKind::B3MakerFill,
                                now_ms,
                            );
                            closed.push(t);
                            assert(b3_live::trade_views(closed@) =~= b3_live::trade_views(
                                closed_before,
                            ).push(t@));
                            proof {
                                b3_live::lemma_name_set_push(gone@, *signal_id);
                            }
                            gone.push(signal_id.clone());
                        },
                        None => {
                            proof {
                                lemma_resume_none(
                                    start,
                                    items@,
                                    recon@,
                                    now_ms,
                                    i + 1,
                                    items@.len() as int,
                                );
                            }
                            return None;
                        },
                    }
                }
            },
            ReconItem::ClearMaker { signal_id } => {
                if let Some(k) = b3_live::find_lot(&work, signal_id.as_str()) {
                    b3_live::note_maker(&mut work, k, None);
                }
            },
            ReconItem::Halt { signal_ids, reason: _ } => {
                add_names(&mut halted, signal_ids);
            },
            ReconItem::CancelOrphan { order_id: _ } => {},
        }
        i += 1;
    }
    b3_live::remove_lots(&mut work, &gone);
    *positions = work;
    Some(ReconcileReport { closed, halted, adopted, cancelled })
}

/// A lot whose order was filled while the bot was down is closed and leaves the
/// positions: it cannot be sold a second time.
pub proof fn law_filled_while_down_is_gone(
    st: Resuming,
    signal_id: String,
    order_id: String,
    size_matched: Dec,
    recon: Seq<ReconPos>,
    now_ms: i64,
)
    requires
        b3_live::lot_index(st.positions, signal_id@) is Some,
    ensures
        resume_one(
            st,
            ReconItem::CloseFillWhileDown { signal_id, order_id, size_matched },
            recon,
            now_ms,
        ) matches Some(after) ==> {
            &&& after.gone.contains(signal_id@)
            &&& after.closed.len() == st.closed.len() + 1
            &&& after.closed.last().signal_id == signal_id@
            &&& after.closed.last().shares == size_matched@
        },
{
    b3_live::lemma_lot_index(st.positions, signal_id@);
}

/// To take an order up twice changes nothing about the positions that taking it
/// up once has not changed.
pub proof fn law_adopting_twice_is_adopting_once(
    st: Resuming,
    signal_id: String,
    order_id: String,
    recon: Seq<ReconPos>,
    now_ms: i64,
)
    ensures
        ({
            let item = ReconItem::Adopt { signal_id, order_id };
            let once = resume_one(st, item, recon, now_ms);
            &&& once is Some
            &&& resume_one(once->0, item, recon, now_ms) matches Some(twice) && twice.positions
                == once->0.positions && twice.closed == once->0.closed && twice.gone
                == once->0.gone && twice.halted == once->0.halted
        }),
{
    b3_live::lemma_lot_index(st.positions, signal_id@);
    let item = ReconItem::Adopt { signal_id, order_id };
    let once = resume_one(st, item, recon, now_ms)->0;
    b3_live::lemma_lot_index(once.positions, signal_id@);
    if let Some(i) = b3_live::lot_index(st.positions, signal_id@) {
        assert(once.positions[i].signal_id == st.positions[i].signal_id);
        assert forall|k: int| 0 <= k < i implies (#[trigger] once.positions[k]).signal_id@
            != signal_id@ by {
            assert(once.positions[k] == st.positions[k]);
        }
        assert(b3_live::lot_index(once.positions, signal_id@) == Some(i));
        let twice = resume_one(once, item, recon, now_ms)->0;
        assert(twice.positions =~= once.positions);
    }
}

} // verus!
