//! A single-instrument limit order book with price–time priority matching,
//! per-fill settlement against an arena of accounts, cancellation, and
//! top-of-book queries.

use vstd::prelude::*;

use crate::account::{
    Account, AccountError, AccountId, AccountV, account_index, arena_view, arena_wf, find_account,
    has_account, ids_unique, lemma_account_index, lemma_total_cash_update,
    lemma_total_holding_update, spec_add_balance, spec_add_holding, spec_take_balance,
    spec_take_holding, total_cash, total_holding,
};
use crate::order::{Order, OrderId, OrderPrice, OrderQuantity, OrderType};

verus! {

/// Errors raised by the book itself (settlement errors come from accounts).
#[derive(Clone, Copy, Debug, PartialEq, Eq, Structural)]
pub enum BookError {
    OrderNotFound,
}

pub type PriceLabel = OrderPrice;

pub type BookId = u128;

/// One price level: a FIFO queue of resting orders, earliest first.
#[derive(Clone, Debug, PartialEq, Eq)]
pub struct Level {
    pub price: PriceLabel,
    pub orders: Vec<Order>,
}

/// The mathematical value of a price level.
#[verifier::ext_equal]
pub struct LevelV {
    pub price: PriceLabel,
    pub orders: Seq<Order>,
}

impl View for Level {
    type V = LevelV;

    open spec fn view(&self) -> LevelV {
        LevelV { price: self.price, orders: self.orders@ }
    }
}

/// One side of the book: price levels kept sorted best-first (bids by
/// descending price, asks by ascending price).
pub type Side = Vec<Level>;

/// The mathematical value of a side.
pub open spec fn side_view(s: Seq<Level>) -> Seq<LevelV> {
    s.map_values(|l: Level| l@)
}

/// `a` is a strictly better resting price than `b` for a side of this kind.
pub open spec fn better_price(kind: OrderType, a: PriceLabel, b: PriceLabel) -> bool {
    match kind {
        OrderType::Bid => a > b,
        OrderType::Ask => a < b,
    }
}

/// An incoming order of type `t` with this limit crosses a resting opposite
/// price.
pub open spec fn crosses(t: OrderType, limit: PriceLabel, resting: PriceLabel) -> bool {
    match t {
        OrderType::Bid => resting <= limit,
        OrderType::Ask => resting >= limit,
    }
}

/// Levels are strictly sorted best-first for a side of this kind.
pub open spec fn side_sorted(side: Seq<LevelV>, kind: OrderType) -> bool {
    forall|i: int, j: int|
        0 <= i < j < side.len() ==> better_price(kind, side[i].price, side[j].price)
}

/// Well-formedness of one side: sorted, no empty level, and every resting
/// order is of the side's kind, carries its level's price, and has positive
/// price and quantity.
pub open spec fn side_wf(side: Seq<LevelV>, kind: OrderType) -> bool {
    &&& side_sorted(side, kind)
    &&& forall|i: int| 0 <= i < side.len() ==> side[i].orders.len() > 0
    &&& forall|i: int, k: int|
        0 <= i < side.len() && 0 <= k < side[i].orders.len() ==> {
            &&& side[i].orders[k].order_type == kind
            &&& side[i].orders[k].price == side[i].price
            &&& side[i].orders[k].quantity > 0
            &&& side[i].orders[k].price > 0
        }
}

/// Some order on this side carries the identifier.
pub open spec fn side_contains_id(side: Seq<LevelV>, id: OrderId) -> bool {
    exists|i: int, k: int|
        0 <= i < side.len() && 0 <= k < side[i].orders.len() && side[i].orders[k].id == id
}

/// No identifier appears at two distinct positions of this side.
pub open spec fn side_ids_distinct(side: Seq<LevelV>) -> bool {
    forall|i: int, k: int, i2: int, k2: int|
        0 <= i < side.len() && 0 <= k < side[i].orders.len() && 0 <= i2 < side.len() && 0 <= k2
            < side[i2].orders.len() && (i != i2 || k != k2) ==> #[trigger] side[i].orders[k].id
            != #[trigger] side[i2].orders[k2].id
}

/// No identifier appears on both sides.
pub open spec fn sides_id_disjoint(bids: Seq<LevelV>, asks: Seq<LevelV>) -> bool {
    forall|i: int, k: int, i2: int, k2: int|
        0 <= i < bids.len() && 0 <= k < bids[i].orders.len() && 0 <= i2 < asks.len() && 0 <= k2
            < asks[i2].orders.len() ==> #[trigger] bids[i].orders[k].id
            != #[trigger] asks[i2].orders[k2].id
}

/// Every order resting on this side names an account of the arena as owner.
pub open spec fn side_owners_present(side: Seq<LevelV>, av: Seq<AccountV>) -> bool {
    forall|i: int, k: int|
        0 <= i < side.len() && 0 <= k < side[i].orders.len() ==> has_account(
            av,
            #[trigger] side[i].orders[k].owner,
        )
}

/// What settling one side of a fill does to a buying account: it pays the
/// cash amount, then receives the shares.
pub open spec fn settle_buyer(a: AccountV, amount: u128, ticker: Seq<char>, qty: u128) -> Result<
    AccountV,
    AccountError,
> {
    match spec_take_balance(a, amount) {
        Err(e) => Err(e),
        Ok(a1) => spec_add_holding(a1, ticker, qty),
    }
}

/// What settling one side of a fill does to a selling account: it receives
/// the cash amount, then gives up the shares.
pub open spec fn settle_seller(a: AccountV, amount: u128, ticker: Seq<char>, qty: u128) -> Result<
    AccountV,
    AccountError,
> {
    match spec_add_balance(a, amount) {
        Err(e) => Err(e),
        Ok(a1) => spec_take_holding(a1, ticker, qty),
    }
}

/// What settling one whole fill of `qty` units at `price` does to the arena:
/// the cash amount is `price * qty` (its overflow is a settlement error), the
/// maker settles first, then the taker against the updated arena, and the
/// first failing account operation aborts the fill with nothing applied.
pub open spec fn settle_model(
    av: Seq<AccountV>,
    maker_owner: AccountId,
    taker_owner: AccountId,
    taker_type: OrderType,
    ticker: Seq<char>,
    price: OrderPrice,
    qty: OrderQuantity,
) -> Result<Seq<AccountV>, AccountError> {
    if price * qty > u128::MAX {
        Err(AccountError::BalanceOutOfBounds)
    } else {
        let amount = (price * qty) as u128;
        let mi = account_index(av, maker_owner);
        let maker_settled = match taker_type {
            OrderType::Bid => settle_seller(av[mi], amount, ticker, qty),
            OrderType::Ask => settle_buyer(av[mi], amount, ticker, qty),
        };
        match maker_settled {
            Err(e) => Err(e),
            Ok(maker1) => {
                let av1 = av.update(mi, maker1);
                let ti = account_index(av1, taker_owner);
                let taker_settled = match taker_type {
                    OrderType::Bid => settle_buyer(av1[ti], amount, ticker, qty),
                    OrderType::Ask => settle_seller(av1[ti], amount, ticker, qty),
                };
                match taker_settled {
                    Err(e) => Err(e),
                    Ok(taker1) => Ok(av1.update(ti, taker1)),
                }
            },
        }
    }
}

/// The side that opposes an incoming order of this type.
pub open spec fn opposite(t: OrderType) -> OrderType {
    match t {
        OrderType::Bid => OrderType::Ask,
        OrderType::Ask => OrderType::Bid,
    }
}

/// A single executed fill: `quantity` units at the resting maker's `price`.
#[verifier::ext_equal]
pub struct TradeV {
    pub maker_id: OrderId,
    pub maker_owner: AccountId,
    pub taker_owner: AccountId,
    pub price: OrderPrice,
    pub quantity: OrderQuantity,
}

/// The outcome of the matching walk: the fills in execution order, the
/// opposite side and the arena as they stand afterwards, the taker's
/// unfilled quantity, and the settlement error that stopped the walk, if
/// any.
#[verifier::ext_equal]
pub struct MatchOutcome {
    pub trades: Seq<TradeV>,
    pub side: Seq<LevelV>,
    pub accounts: Seq<AccountV>,
    pub leftover: OrderQuantity,
    pub err: Option<AccountError>,
}

/// The matching walk of an incoming order with `q` units left against the
/// opposite side, best level first: while the taker has quantity left and
/// the best resting price crosses its limit, the head of the best level's
/// queue is filled at the resting price for the smaller of the two
/// quantities; a fully consumed maker leaves its queue (and an emptied
/// level leaves the side), a partially consumed maker keeps its place with
/// the residual; a settlement error stops the walk before the failing fill.
pub open spec fn run_match(
    side: Seq<LevelV>,
    av: Seq<AccountV>,
    taker: Order,
    q: OrderQuantity,
    ticker: Seq<char>,
) -> MatchOutcome
    decreases side.len(), (if side.len() > 0 { side[0].orders.len() + 1 } else { 0 }),
{
    if q == 0 || side.len() == 0 || !crosses(taker.order_type, taker.price, side[0].price) {
        MatchOutcome { trades: Seq::empty(), side, accounts: av, leftover: q, err: None }
    } else if side[0].orders.len() == 0 {
        // a well-formed side has no empty level; skip it for totality
        run_match(side.drop_first(), av, taker, q, ticker)
    } else {
        let head = side[0].orders[0];
        let f = if head.quantity <= q {
            head.quantity
        } else {
            q
        };
        let trade = TradeV {
            maker_id: head.id,
            maker_owner: head.owner,
            taker_owner: taker.owner,
            price: side[0].price,
            quantity: f,
        };
        match settle_model(av, head.owner, taker.owner, taker.order_type, ticker, side[0].price, f) {
            Err(e) => MatchOutcome {
                trades: Seq::empty(),
                side,
                accounts: av,
                leftover: q,
                err: Some(e),
            },
            Ok(av1) => {
                if head.quantity <= q {
                    let side1 = if side[0].orders.len() == 1 {
                        side.drop_first()
                    } else {
                        side.update(
                            0,
                            LevelV { price: side[0].price, orders: side[0].orders.drop_first() },
                        )
                    };
                    let rest = run_match(side1, av1, taker, (q - f) as u128, ticker);
                    MatchOutcome {
                        trades: seq![trade] + rest.trades,
                        side: rest.side,
                        accounts: rest.accounts,
                        leftover: rest.leftover,
                        err: rest.err,
                    }
                } else {
                    let head1 = Order { quantity: (head.quantity - q) as u128, ..head };
                    let side1 = side.update(
                        0,
                        LevelV { price: side[0].price, orders: side[0].orders.update(0, head1) },
                    );
                    MatchOutcome {
                        trades: seq![trade],
                        side: side1,
                        accounts: av1,
                        leftover: 0,
                        err: None,
                    }
                }
            },
        }
    }
}

/// No crossed rest state: a well-formed book's best bid is strictly below
/// its best ask whenever both sides are nonempty. Every book operation
/// ensures well-formedness, so this holds after every operation.
pub proof fn lemma_no_crossed_rest_state(b: Book)
    requires
        b.wf(),
        b.bids@.len() > 0,
        b.asks@.len() > 0,
    ensures
        b.bids@[0].price < b.asks@[0].price,
{
}

/// Id-index consistency: in a well-formed book, an identifier is in the
/// resting-id index exactly when an order in some queue carries it, the
/// index holds it at most once, and so do the queues of both sides taken
/// together.
pub proof fn lemma_id_index_consistency(b: Book, id: OrderId)
    requires
        b.wf(),
    ensures
        b.order_ids@.contains(id) <==> b.contains_order(id),
        b.order_ids@.no_duplicates(),
        side_ids_distinct(side_view(b.bids@)),
        side_ids_distinct(side_view(b.asks@)),
        sides_id_disjoint(side_view(b.bids@), side_view(b.asks@)),
{
}

/// No empty levels: every price level present in a well-formed book maps to
/// a non-empty queue.
pub proof fn lemma_no_empty_levels(b: Book, i: int)
    requires
        b.wf(),
    ensures
        0 <= i < b.bids@.len() ==> b.bids@[i].orders@.len() > 0,
        0 <= i < b.asks@.len() ==> b.asks@[i].orders@.len() > 0,
{
    if 0 <= i < b.bids@.len() {
        assert(side_view(b.bids@)[i] == b.bids@[i]@);
    }
    if 0 <= i < b.asks@.len() {
        assert(side_view(b.asks@)[i] == b.asks@[i]@);
    }
}

/// Cancel idempotence on absent identifiers: a successful cancel leaves the
/// id index without the cancelled identifier (this is its contract's
/// membership clause), so by `cancel`'s error clause a second cancel of the
/// same identifier must fail with `OrderNotFound`.
pub proof fn lemma_cancel_idempotent_on_absent(
    ids0: Seq<OrderId>,
    ids1: Seq<OrderId>,
    id: OrderId,
)
    requires
        forall|x: OrderId| #[trigger] ids1.contains(x) <==> (ids0.contains(x) && x != id),
    ensures
        !ids1.contains(id),
{
}

/// The identifiers of one level's queue, in time (FIFO) order.
pub open spec fn level_ids(l: LevelV) -> Seq<OrderId> {
    l.orders.map_values(|o: Order| o.id)
}

/// The identifiers of all orders resting on a side, in priority order: best
/// price level first, FIFO within each level.
pub open spec fn side_ids_in_priority(side: Seq<LevelV>) -> Seq<OrderId>
    decreases side.len(),
{
    if side.len() == 0 {
        Seq::empty()
    } else {
        level_ids(side[0]) + side_ids_in_priority(side.drop_first())
    }
}

/// Price–time priority of the matching walk: the makers it fills are
/// exactly the first `trades.len()` resting orders of the opposite side in
/// priority order (best price first, FIFO within a level); every fill
/// crosses the taker's limit and trades at the maker's resting price; and
/// no fill trades at a better resting price than a later one, nor at a
/// price better than the side's best.
pub proof fn lemma_price_time_priority(
    side: Seq<LevelV>,
    av: Seq<AccountV>,
    taker: Order,
    q: OrderQuantity,
    ticker: Seq<char>,
)
    requires
        side_wf(side, opposite(taker.order_type)),
    ensures
        ({
            let m = run_match(side, av, taker, q, ticker);
            let kind = opposite(taker.order_type);
            &&& m.trades.len() <= side_ids_in_priority(side).len()
            &&& m.trades.map_values(|t: TradeV| t.maker_id) == side_ids_in_priority(side).take(
                m.trades.len() as int,
            )
            &&& forall|j: int|
                0 <= j < m.trades.len() ==> crosses(
                    taker.order_type,
                    taker.price,
                    #[trigger] m.trades[j].price,
                )
            &&& forall|j1: int, j2: int|
                0 <= j1 <= j2 < m.trades.len() ==> !better_price(
                    kind,
                    #[trigger] m.trades[j2].price,
                    #[trigger] m.trades[j1].price,
                )
            &&& side.len() > 0 ==> forall|j: int|
                0 <= j < m.trades.len() ==> !better_price(
                    kind,
                    #[trigger] m.trades[j].price,
                    side[0].price,
                )
        }),
    decreases side.len(), (if side.len() > 0 {
        side[0].orders.len() + 1
    } else {
        0
    }),
{
    let m = run_match(side, av, taker, q, ticker);
    let kind = opposite(taker.order_type);
    let f = |t: TradeV| t.maker_id;
    if q == 0 || side.len() == 0 || !crosses(taker.order_type, taker.price, side[0].price) {
        assert(m.trades.map_values(f) =~= side_ids_in_priority(side).take(0));
    } else {
        let head = side[0].orders[0];
        let fqty = if head.quantity <= q {
            head.quantity
        } else {
            q
        };
        match settle_model(av, head.owner, taker.owner, taker.order_type, ticker, side[0].price, fqty) {
            Err(_) => {
                assert(m.trades.map_values(f) =~= side_ids_in_priority(side).take(0));
            },
            Ok(av1) => {
                if head.quantity <= q {
                    let side1 = if side[0].orders.len() == 1 {
                        side.drop_first()
                    } else {
                        side.update(
                            0,
                            LevelV { price: side[0].price, orders: side[0].orders.drop_first() },
                        )
                    };
                    let trade = TradeV {
                        maker_id: head.id,
                        maker_owner: head.owner,
                        taker_owner: taker.owner,
                        price: side[0].price,
                        quantity: fqty,
                    };
                    // the rest of the walk stays well formed
                    if side[0].orders.len() == 1 {
                        assert forall|a: int, b: int| 0 <= a < b < side1.len() implies better_price(
                            kind,
                            side1[a].price,
                            side1[b].price,
                        ) by {
                            assert(side1[a] == side[a + 1] && side1[b] == side[b + 1]);
                        }
                        assert forall|a: int, c: int|
                            0 <= a < side1.len() && 0 <= c < side1[a].orders.len() implies {
                            &&& (#[trigger] side1[a].orders[c]).order_type == kind
                            &&& side1[a].orders[c].price == side1[a].price
                            &&& side1[a].orders[c].quantity > 0
                            &&& side1[a].orders[c].price > 0
                        } by {
                            assert(side1[a].orders[c] == side[a + 1].orders[c]);
                        }
                        assert forall|a: int| 0 <= a < side1.len() implies side1[a].orders.len()
                            > 0 by {
                            assert(side1[a] == side[a + 1]);
                        }
                    } else {
                        assert forall|a: int, c: int|
                            0 <= a < side1.len() && 0 <= c < side1[a].orders.len() implies {
                            &&& (#[trigger] side1[a].orders[c]).order_type == kind
                            &&& side1[a].orders[c].price == side1[a].price
                            &&& side1[a].orders[c].quantity > 0
                            &&& side1[a].orders[c].price > 0
                        } by {
                            if a == 0 {
                                assert(side1[0].orders[c] == side[0].orders[c + 1]);
                            } else {
                                assert(side1[a].orders[c] == side[a].orders[c]);
                            }
                        }
                    }
                    assert(side_wf(side1, kind));
                    lemma_price_time_priority(side1, av1, taker, (q - fqty) as u128, ticker);
                    let rest = run_match(side1, av1, taker, (q - fqty) as u128, ticker);
                    assert(m.trades == seq![trade] + rest.trades);
                    // identifiers in priority order decompose head-first
                    assert(side_ids_in_priority(side) =~= seq![head.id] + side_ids_in_priority(
                        side1,
                    )) by {
                        if side[0].orders.len() == 1 {
                            assert(level_ids(side[0]) =~= seq![head.id]);
                        } else {
                            assert(side1.drop_first() =~= side.drop_first());
                            assert(level_ids(side1[0]) =~= level_ids(side[0]).drop_first());
                            assert(level_ids(side[0]) =~= seq![head.id] + level_ids(side1[0]));
                        }
                    }
                    assert(m.trades.map_values(f) =~= side_ids_in_priority(side).take(
                        m.trades.len() as int,
                    )) by {
                        assert(rest.trades.map_values(f) == side_ids_in_priority(side1).take(
                            rest.trades.len() as int,
                        ));
                        assert(m.trades.map_values(f) =~= seq![head.id] + rest.trades.map_values(
                            f,
                        ));
                    }
                    // prices only get worse down the walk
                    assert(trade.price == side[0].price);
                    assert forall|j: int|
                        0 <= j < m.trades.len() implies !better_price(
                        kind,
                        #[trigger] m.trades[j].price,
                        side[0].price,
                    ) by {
                        if j > 0 {
                            assert(m.trades[j] == rest.trades[j - 1]);
                            if side1.len() > 0 {
                                assert(!better_price(kind, rest.trades[j - 1].price, side1[0].price));
                                if side[0].orders.len() == 1 {
                                    assert(side1[0] == side[1]);
                                    assert(better_price(kind, side[0].price, side1[0].price));
                                } else {
                                    assert(side1[0].price == side[0].price);
                                }
                            } else {
                                assert(rest.trades.len() == 0);
                            }
                        }
                    }
                    assert forall|j1: int, j2: int|
                        0 <= j1 <= j2 < m.trades.len() implies !better_price(
                        kind,
                        #[trigger] m.trades[j2].price,
                        #[trigger] m.trades[j1].price,
                    ) by {
                        if j1 == 0 {
                            assert(!better_price(kind, m.trades[j2].price, side[0].price));
                        } else {
                            assert(m.trades[j1] == rest.trades[j1 - 1]);
                            assert(m.trades[j2] == rest.trades[j2 - 1]);
                        }
                    }
                    assert forall|j: int| 0 <= j < m.trades.len() implies crosses(
                        taker.order_type,
                        taker.price,
                        #[trigger] m.trades[j].price,
                    ) by {
                        if j > 0 {
                            assert(m.trades[j] == rest.trades[j - 1]);
                        }
                    }
                } else {
                    assert(m.trades.len() == 1);
                    assert(side_ids_in_priority(side).len() >= level_ids(side[0]).len());
                    assert(level_ids(side[0])[0] == head.id);
                    assert(side_ids_in_priority(side)[0] == head.id);
                    assert(m.trades.map_values(f) =~= side_ids_in_priority(side).take(1));
                }
            },
        }
    }
}

/// Settles one fill of `qty` units at `price` between the maker's and the
/// taker's accounts, validating every account operation before mutating
/// anything: a rejected fill leaves the arena untouched and reports the
/// error of the first account operation that would have failed.
fn settle_fill(
    accounts: &mut Vec<Account>,
    maker_owner: AccountId,
    taker_owner: AccountId,
    taker_type: OrderType,
    ticker: &String,
    price: OrderPrice,
    qty: OrderQuantity,
) -> (r: Result<(), AccountError>)
    requires
        arena_wf(old(accounts)@),
        has_account(arena_view(old(accounts)@), maker_owner),
        has_account(arena_view(old(accounts)@), taker_owner),
    ensures
        arena_wf(final(accounts)@),
        final(accounts)@.len() == old(accounts)@.len(),
        forall|i: int|
            0 <= i < old(accounts)@.len() ==> final(accounts)@[i].id == old(accounts)@[i].id
                && final(accounts)@[i]@.name == old(accounts)@[i]@.name,
        match settle_model(
            arena_view(old(accounts)@),
            maker_owner,
            taker_owner,
            taker_type,
            ticker@,
            price,
            qty,
        ) {
            Ok(av) => r is Ok && arena_view(final(accounts)@) == av,
            Err(e) => r == Err::<(), AccountError>(e) && arena_view(final(accounts)@)
                == arena_view(old(accounts)@),
        },
        total_cash(arena_view(final(accounts)@)) == total_cash(arena_view(old(accounts)@)),
        forall|sym: Seq<char>|
            total_holding(arena_view(final(accounts)@), sym) == total_holding(
                arena_view(old(accounts)@),
                sym,
            ),
{
    let ghost av0 = arena_view(old(accounts)@);
    let amount = match price.checked_mul(qty) {
        Some(a) => a,
        None => {
            return Err(AccountError::BalanceOutOfBounds);
        },
    };
    let mi = find_account(accounts, maker_owner);
    proof {
        lemma_account_index(av0, maker_owner, mi as int);
    }
    // Validate the maker's two account operations.
    match taker_type {
        OrderType::Bid => {
            if accounts[mi].balance().checked_add(amount).is_none() {
                return Err(AccountError::BalanceOutOfBounds);
            }
            match accounts[mi].holding(ticker.clone()) {
                None => {
                    return Err(AccountError::AssetNotFound);
                },
                Some(h) => {
                    if qty > h {
                        return Err(AccountError::HoldingOutOfBounds);
                    }
                },
            }
        },
        OrderType::Ask => {
            if amount > accounts[mi].balance() {
                return Err(AccountError::BalanceOutOfBounds);
            }
            match accounts[mi].holding(ticker.clone()) {
                None => {},
                Some(h) => {
                    if h.checked_add(qty).is_none() {
                        return Err(AccountError::HoldingOutOfBounds);
                    }
                },
            }
        },
    }
    let ghost maker1 = match taker_type {
        OrderType::Bid => settle_seller(av0[mi as int], amount, ticker@, qty)->Ok_0,
        OrderType::Ask => settle_buyer(av0[mi as int], amount, ticker@, qty)->Ok_0,
    };
    let ghost av1 = av0.update(mi as int, maker1);
    let ti = find_account(accounts, taker_owner);
    proof {
        assert(ids_unique(av1));
        assert(av1[ti as int].id == taker_owner);
        lemma_account_index(av1, taker_owner, ti as int);
    }
    // Validate the taker's two account operations against the arena as the
    // maker's settlement leaves it; a taker aliased to the maker always
    // passes, since its operations exactly undo the maker's arithmetic.
    if ti != mi {
        match taker_type {
            OrderType::Bid => {
                if amount > accounts[ti].balance() {
                    return Err(AccountError::BalanceOutOfBounds);
                }
                match accounts[ti].holding(ticker.clone()) {
                    None => {},
                    Some(h) => {
                        if h.checked_add(qty).is_none() {
                            return Err(AccountError::HoldingOutOfBounds);
                        }
                    },
                }
            },
            OrderType::Ask => {
                if accounts[ti].balance().checked_add(amount).is_none() {
                    return Err(AccountError::BalanceOutOfBounds);
                }
                match accounts[ti].holding(ticker.clone()) {
                    None => {
                        return Err(AccountError::AssetNotFound);
                    },
                    Some(h) => {
                        if qty > h {
                            return Err(AccountError::HoldingOutOfBounds);
                        }
                    },
                }
            },
        }
    }
    proof {
        assert(settle_model(av0, maker_owner, taker_owner, taker_type, ticker@, price, qty)
            is Ok);
    }
    // Every operation below is now known to succeed; apply them, maker first.
    let mut maker = accounts.remove(mi);
    match taker_type {
        OrderType::Bid => {
            let _ = maker.add_balance(amount);
            let _ = maker.take_holding(ticker.clone(), qty);
        },
        OrderType::Ask => {
            let _ = maker.take_balance(amount);
            let _ = maker.add_holding(ticker.clone(), qty);
        },
    }
    accounts.insert(mi, maker);
    proof {
        assert(accounts@ =~= old(accounts)@.update(mi as int, accounts@[mi as int]));
        assert(arena_view(accounts@) =~= av1);
    }
    let mut taker = accounts.remove(ti);
    match taker_type {
        OrderType::Bid => {
            let _ = taker.take_balance(amount);
            let _ = taker.add_holding(ticker.clone(), qty);
        },
        OrderType::Ask => {
            let _ = taker.add_balance(amount);
            let _ = taker.take_holding(ticker.clone(), qty);
        },
    }
    accounts.insert(ti, taker);
    let ghost taker1 = taker@;
    proof {
        assert(arena_view(accounts@) =~= av1.update(ti as int, taker1));
        lemma_total_cash_update(av0, mi as int, maker1);
        lemma_total_cash_update(av1, ti as int, taker1);
        assert forall|sym: Seq<char>|
            total_holding(arena_view(accounts@), sym) == total_holding(av0, sym) by {
            lemma_total_holding_update(av0, mi as int, maker1, sym);
            lemma_total_holding_update(av1, ti as int, taker1, sym);
        }
    }
    Ok(())
}

/// Consuming the head order of the best level keeps exactly the other
/// resting identifiers, keeps them distinct, and preserves side
/// well-formedness and owner coverage.
proof fn lemma_consume_head(s: Seq<LevelV>, s2: Seq<LevelV>, kind: OrderType, av: Seq<AccountV>)
    requires
        s.len() > 0,
        s[0].orders.len() > 0,
        side_wf(s, kind),
        side_ids_distinct(s),
        side_owners_present(s, av),
        s2 == (if s[0].orders.len() == 1 {
            s.drop_first()
        } else {
            s.update(0, LevelV { price: s[0].price, orders: s[0].orders.drop_first() })
        }),
    ensures
        forall|x: OrderId| #[trigger]
            side_contains_id(s2, x) <==> (side_contains_id(s, x) && x != s[0].orders[0].id),
        side_ids_distinct(s2),
        side_wf(s2, kind),
        side_owners_present(s2, av),
        s2.len() > 0 ==> (s2[0].price == s[0].price || better_price(kind, s[0].price, s2[0].price)),
{
    let head = s[0].orders[0];
    if s[0].orders.len() == 1 {
        assert forall|x: OrderId| #[trigger]
            side_contains_id(s2, x) implies (side_contains_id(s, x) && x != head.id) by {
            let (i, k): (int, int) = choose|i: int, k: int|
                0 <= i < s2.len() && 0 <= k < s2[i].orders.len() && s2[i].orders[k].id == x;
            assert(s[i + 1].orders[k].id == x);
        }
        assert forall|x: OrderId| side_contains_id(s, x) && x != head.id implies #[trigger]
            side_contains_id(s2, x) by {
            let (i, k): (int, int) = choose|i: int, k: int|
                0 <= i < s.len() && 0 <= k < s[i].orders.len() && s[i].orders[k].id == x;
            assert(i != 0 || k != 0);
            assert(i != 0);
            assert(s2[i - 1].orders[k].id == x);
        }
        assert forall|i: int, k: int, i2: int, k2: int|
            0 <= i < s2.len() && 0 <= k < s2[i].orders.len() && 0 <= i2 < s2.len() && 0 <= k2
                < s2[i2].orders.len() && (i != i2 || k != k2) implies #[trigger] s2[i].orders[k].id
            != #[trigger] s2[i2].orders[k2].id by {
            assert(s2[i].orders[k].id == s[i + 1].orders[k].id);
            assert(s2[i2].orders[k2].id == s[i2 + 1].orders[k2].id);
        }
    } else {
        assert(s2[0].orders =~= s[0].orders.drop_first());
        assert forall|x: OrderId| #[trigger]
            side_contains_id(s2, x) implies (side_contains_id(s, x) && x != head.id) by {
            let (i, k): (int, int) = choose|i: int, k: int|
                0 <= i < s2.len() && 0 <= k < s2[i].orders.len() && s2[i].orders[k].id == x;
            if i == 0 {
                assert(s[0].orders[k + 1].id == x);
            } else {
                assert(s[i].orders[k].id == x);
            }
        }
        assert forall|x: OrderId| side_contains_id(s, x) && x != head.id implies #[trigger]
            side_contains_id(s2, x) by {
            let (i, k): (int, int) = choose|i: int, k: int|
                0 <= i < s.len() && 0 <= k < s[i].orders.len() && s[i].orders[k].id == x;
            if i == 0 {
                assert(k != 0);
                assert(s2[0].orders[k - 1].id == x);
            } else {
                assert(s2[i].orders[k].id == x);
            }
        }
        assert forall|i: int, k: int, i2: int, k2: int|
            0 <= i < s2.len() && 0 <= k < s2[i].orders.len() && 0 <= i2 < s2.len() && 0 <= k2
                < s2[i2].orders.len() && (i != i2 || k != k2) implies #[trigger] s2[i].orders[k].id
            != #[trigger] s2[i2].orders[k2].id by {
            let k0 = if i == 0 {
                k + 1
            } else {
                k
            };
            let k20 = if i2 == 0 {
                k2 + 1
            } else {
                k2
            };
            assert(s2[i].orders[k].id == s[i].orders[k0].id);
            assert(s2[i2].orders[k2].id == s[i2].orders[k20].id);
        }
        assert forall|i: int, k: int|
            0 <= i < s2.len() && 0 <= k < s2[i].orders.len() implies has_account(
            av,
            #[trigger] s2[i].orders[k].owner,
        ) by {
            let k0 = if i == 0 {
                k + 1
            } else {
                k
            };
            assert(s2[i].orders[k] == s[i].orders[k0]);
        }
    }
}

/// A side whose identifiers all occur on another side inherits disjointness
/// from it.
proof fn lemma_disjoint_of_subset(a2: Seq<LevelV>, a: Seq<LevelV>, b: Seq<LevelV>)
    requires
        forall|x: OrderId| #[trigger] side_contains_id(a2, x) ==> side_contains_id(a, x),
        sides_id_disjoint(a, b),
    ensures
        sides_id_disjoint(a2, b),
        sides_id_disjoint(b, a2),
{
    assert forall|i: int, k: int, i2: int, k2: int|
        0 <= i < a2.len() && 0 <= k < a2[i].orders.len() && 0 <= i2 < b.len() && 0 <= k2
            < b[i2].orders.len() implies #[trigger] a2[i].orders[k].id
        != #[trigger] b[i2].orders[k2].id by {
        let x = a2[i].orders[k].id;
        assert(side_contains_id(a2, x));
        let (j, l): (int, int) = choose|j: int, l: int|
            0 <= j < a.len() && 0 <= l < a[j].orders.len() && a[j].orders[l].id == x;
        assert(a[j].orders[l].id != b[i2].orders[k2].id);
    }
}

/// Arenas with pointwise equal identifiers have the same accounts by id.
proof fn lemma_has_account_same_ids(a: Seq<AccountV>, b: Seq<AccountV>)
    requires
        a.len() == b.len(),
        forall|i: int| 0 <= i < a.len() ==> a[i].id == b[i].id,
    ensures
        forall|x: AccountId| #[trigger] has_account(a, x) <==> has_account(b, x),
{
    assert forall|x: AccountId| #[trigger] has_account(a, x) <==> has_account(b, x) by {
        if has_account(a, x) {
            let i = choose|i: int| 0 <= i < a.len() && a[i].id == x;
            assert(b[i].id == x);
        }
        if has_account(b, x) {
            let i = choose|i: int| 0 <= i < b.len() && b[i].id == x;
            assert(a[i].id == x);
        }
    }
}

/// Removes the (unique) occurrence of `id` from the resting-id index.
fn remove_id(order_ids: &mut Vec<OrderId>, id: OrderId)
    requires
        old(order_ids)@.no_duplicates(),
        old(order_ids)@.contains(id),
    ensures
        final(order_ids)@.no_duplicates(),
        final(order_ids)@.len() == old(order_ids)@.len() - 1,
        forall|x: OrderId|
            #[trigger] final(order_ids)@.contains(x) <==> (old(order_ids)@.contains(x) && x != id),
        exists|j: int|
            0 <= j < old(order_ids)@.len() && old(order_ids)@[j] == id && final(order_ids)@
                == old(order_ids)@.remove(j),
{
    let ghost ids0 = order_ids@;
    let n = order_ids.len();
    let mut i: usize = 0;
    while i < n
        invariant
            n == order_ids@.len(),
            i <= n,
            order_ids@ == ids0,
            ids0 == old(order_ids)@,
            ids0.no_duplicates(),
            ids0.contains(id),
            forall|j: int| 0 <= j < i ==> ids0[j] != id,
        decreases n - i,
    {
        if order_ids[i] == id {
            let _ = order_ids.remove(i);
            proof {
                let s = ids0.remove(i as int);
                assert forall|x: OrderId| #[trigger]
                    s.contains(x) implies (ids0.contains(x) && x != id) by {
                    let j = choose|j: int| 0 <= j < s.len() && s[j] == x;
                    if j < i {
                        assert(ids0[j] == x);
                    } else {
                        assert(ids0[j + 1] == x);
                    }
                }
                assert forall|x: OrderId| ids0.contains(x) && x != id implies #[trigger]
                    s.contains(x) by {
                    let j = choose|j: int| 0 <= j < ids0.len() && ids0[j] == x;
                    if j < i {
                        assert(s[j] == x);
                    } else {
                        assert(ids0[i as int] == id);
                        assert(j != i);
                        assert(s[j - 1] == x);
                    }
                }
                assert(s.no_duplicates()) by {
                    assert forall|j: int, k: int|
                        0 <= j < s.len() && 0 <= k < s.len() && j != k implies s[j] != s[k] by {
                        let j0 = if j < i {
                            j
                        } else {
                            j + 1
                        };
                        let k0 = if k < i {
                            k
                        } else {
                            k + 1
                        };
                        assert(ids0[j0] == s[j] && ids0[k0] == s[k]);
                    }
                }
            }
            return ;
        }
        i = i + 1;
    }
    proof {
        let j = choose|j: int| 0 <= j < ids0.len() && ids0[j] == id;
        assert(false);
    }
}

/// Where an order comes to rest on its own side: appended to the queue of
/// the level with its price, or opening a new level at its sorted position.
pub open spec fn rest_insert(side: Seq<LevelV>, o: Order) -> Seq<LevelV>
    decreases side.len(),
{
    if side.len() == 0 {
        seq![LevelV { price: o.price, orders: seq![o] }]
    } else if side[0].price == o.price {
        side.update(0, LevelV { price: side[0].price, orders: side[0].orders.push(o) })
    } else if better_price(o.order_type, side[0].price, o.price) {
        seq![side[0]] + rest_insert(side.drop_first(), o)
    } else {
        seq![LevelV { price: o.price, orders: seq![o] }] + side
    }
}

/// `rest_insert` at the position the sorted order determines is an update of
/// the level with the order's price, or an insertion of a fresh level.
proof fn lemma_rest_insert_at(s: Seq<LevelV>, o: Order, i: int)
    requires
        0 <= i <= s.len(),
        forall|j: int| 0 <= j < i ==> better_price(o.order_type, s[j].price, o.price),
        i < s.len() ==> !better_price(o.order_type, s[i].price, o.price),
    ensures
        (i < s.len() && s[i].price == o.price) ==> rest_insert(s, o) =~= s.update(
            i,
            LevelV { price: s[i].price, orders: s[i].orders.push(o) },
        ),
        !(i < s.len() && s[i].price == o.price) ==> rest_insert(s, o) =~= s.insert(
            i,
            LevelV { price: o.price, orders: seq![o] },
        ),
    decreases i,
{
    if i == 0 {
        if s.len() == 0 {
            assert(rest_insert(s, o) =~= s.insert(0, LevelV { price: o.price, orders: seq![o] }));
        } else if s[0].price == o.price {
        } else {
            assert(rest_insert(s, o) =~= s.insert(0, LevelV { price: o.price, orders: seq![o] }));
        }
    } else {
        let s1 = s.drop_first();
        assert(better_price(o.order_type, s[0].price, o.price));
        assert(s[0].price != o.price);
        assert forall|j: int| 0 <= j < i - 1 implies better_price(
            o.order_type,
            s1[j].price,
            o.price,
        ) by {
            assert(s1[j] == s[j + 1]);
        }
        lemma_rest_insert_at(s1, o, i - 1);
        if i < s.len() && s[i].price == o.price {
            assert(s1[i - 1] == s[i]);
            assert(rest_insert(s, o) =~= s.update(
                i,
                LevelV { price: s[i].price, orders: s[i].orders.push(o) },
            ));
        } else {
            assert(rest_insert(s, o) =~= s.insert(
                i,
                LevelV { price: o.price, orders: seq![o] },
            ));
        }
    }
}

/// The insertion point for a price on a sorted side: the first position
/// whose price is not strictly better than the order's.
proof fn find_insert_point(s: Seq<LevelV>, o: Order) -> (i: int)
    ensures
        0 <= i <= s.len(),
        forall|j: int| 0 <= j < i ==> better_price(o.order_type, s[j].price, o.price),
        i < s.len() ==> !better_price(o.order_type, s[i].price, o.price),
    decreases s.len(),
{
    if s.len() == 0 {
        0
    } else if better_price(o.order_type, s[0].price, o.price) {
        let i1 = find_insert_point(s.drop_first(), o);
        assert forall|j: int| 0 <= j < i1 + 1 implies better_price(
            o.order_type,
            s[j].price,
            o.price,
        ) by {
            if j > 0 {
                assert(s.drop_first()[j - 1] == s[j]);
            }
        }
        assert(i1 + 1 < s.len() ==> s.drop_first()[i1] == s[i1 + 1]);
        i1 + 1
    } else {
        0
    }
}

/// Resting an order preserves side well-formedness, adds exactly its
/// identifier, keeps identifiers distinct and owners covered, and leaves the
/// side's best price at the better of the old best and the order's price.
proof fn lemma_rest_insert_props(s: Seq<LevelV>, o: Order, av: Seq<AccountV>)
    requires
        side_wf(s, o.order_type),
        side_ids_distinct(s),
        !side_contains_id(s, o.id),
        side_owners_present(s, av),
        has_account(av, o.owner),
        o.price > 0,
        o.quantity > 0,
    ensures
        side_wf(rest_insert(s, o), o.order_type),
        side_ids_distinct(rest_insert(s, o)),
        forall|x: OrderId| #[trigger]
            side_contains_id(rest_insert(s, o), x) <==> (side_contains_id(s, x) || x == o.id),
        side_owners_present(rest_insert(s, o), av),
        rest_insert(s, o).len() > 0,
        rest_insert(s, o)[0].price == (if s.len() > 0 && better_price(
            o.order_type,
            s[0].price,
            o.price,
        ) {
            s[0].price
        } else {
            o.price
        }),
{
    let kind = o.order_type;
    let i = find_insert_point(s, o);
    lemma_rest_insert_at(s, o, i);
    let r = rest_insert(s, o);
    if i < s.len() && s[i].price == o.price {
        // the order joins the queue of the existing level at its price
        let m = s[i].orders.len() as int;
        assert(r =~= s.update(i, LevelV { price: s[i].price, orders: s[i].orders.push(o) }));
        assert forall|a: int, k: int|
            0 <= a < r.len() && 0 <= k < r[a].orders.len() && !(a == i && k == m) implies r[a]
            .orders[k] == s[a].orders[k] by {}
        assert(r[i].orders[m] == o);
        assert forall|x: OrderId| #[trigger]
            side_contains_id(r, x) implies (side_contains_id(s, x) || x == o.id) by {
            let (a, k): (int, int) = choose|a: int, k: int|
                0 <= a < r.len() && 0 <= k < r[a].orders.len() && r[a].orders[k].id == x;
            if !(a == i && k == m) {
                assert(s[a].orders[k].id == x);
            }
        }
        assert forall|x: OrderId| (side_contains_id(s, x) || x == o.id) implies #[trigger]
            side_contains_id(r, x) by {
            if x == o.id {
                assert(r[i].orders[m].id == x);
            } else {
                let (a, k): (int, int) = choose|a: int, k: int|
                    0 <= a < s.len() && 0 <= k < s[a].orders.len() && s[a].orders[k].id == x;
                assert(r[a].orders[k].id == x);
            }
        }
        assert forall|a: int, k: int, a2: int, k2: int|
            0 <= a < r.len() && 0 <= k < r[a].orders.len() && 0 <= a2 < r.len() && 0 <= k2
                < r[a2].orders.len() && (a != a2 || k != k2) implies #[trigger] r[a].orders[k].id
            != #[trigger] r[a2].orders[k2].id by {
            if a == i && k == m {
                assert(s[a2].orders[k2].id == r[a2].orders[k2].id);
                assert(side_contains_id(s, r[a2].orders[k2].id));
            } else if a2 == i && k2 == m {
                assert(s[a].orders[k].id == r[a].orders[k].id);
                assert(side_contains_id(s, r[a].orders[k].id));
            } else {
                assert(r[a].orders[k] == s[a].orders[k]);
                assert(r[a2].orders[k2] == s[a2].orders[k2]);
            }
        }
        assert forall|a: int, k: int|
            0 <= a < r.len() && 0 <= k < r[a].orders.len() implies has_account(
            av,
            #[trigger] r[a].orders[k].owner,
        ) by {
            if !(a == i && k == m) {
                assert(r[a].orders[k] == s[a].orders[k]);
            }
        }
    } else {
        // the order opens a fresh level at the insertion point
        let lv = LevelV { price: o.price, orders: seq![o] };
        assert(r =~= s.insert(i, lv));
        assert(r.len() == s.len() + 1);
        assert forall|a: int| 0 <= a < r.len() implies r[a] == (if a < i {
            s[a]
        } else if a == i {
            lv
        } else {
            s[a - 1]
        }) by {}
        if i < s.len() {
            assert(!better_price(kind, s[i].price, o.price) && s[i].price != o.price);
            assert(better_price(kind, o.price, s[i].price));
        }
        assert forall|a: int, b: int| 0 <= a < b < r.len() implies better_price(
            kind,
            r[a].price,
            r[b].price,
        ) by {
            if a == i {
                assert(better_price(kind, o.price, s[i].price));
                if b - 1 > i {
                    assert(better_price(kind, s[i].price, s[b - 1].price));
                }
            } else if b == i {
                assert(better_price(kind, s[a].price, o.price));
            } else if a < i && b > i {
                assert(a < b - 1);
                assert(better_price(kind, s[a].price, s[b - 1].price));
            }
        }
        assert forall|x: OrderId| #[trigger]
            side_contains_id(r, x) implies (side_contains_id(s, x) || x == o.id) by {
            let (a, k): (int, int) = choose|a: int, k: int|
                0 <= a < r.len() && 0 <= k < r[a].orders.len() && r[a].orders[k].id == x;
            if a < i {
                assert(s[a].orders[k].id == x);
            } else if a > i {
                assert(s[a - 1].orders[k].id == x);
            }
        }
        assert forall|x: OrderId| (side_contains_id(s, x) || x == o.id) implies #[trigger]
            side_contains_id(r, x) by {
            if x == o.id {
                assert(r[i].orders[0].id == x);
            } else {
                let (a, k): (int, int) = choose|a: int, k: int|
                    0 <= a < s.len() && 0 <= k < s[a].orders.len() && s[a].orders[k].id == x;
                if a < i {
                    assert(r[a].orders[k].id == x);
                } else {
                    assert(r[a + 1].orders[k].id == x);
                }
            }
        }
        assert forall|a: int, k: int, a2: int, k2: int|
            0 <= a < r.len() && 0 <= k < r[a].orders.len() && 0 <= a2 < r.len() && 0 <= k2
                < r[a2].orders.len() && (a != a2 || k != k2) implies #[trigger] r[a].orders[k].id
            != #[trigger] r[a2].orders[k2].id by {
            if a == i {
                assert(r[a].orders[k].id == o.id);
                let a0 = if a2 < i {
                    a2
                } else {
                    a2 - 1
                };
                assert(r[a2].orders[k2].id == s[a0].orders[k2].id);
                assert(side_contains_id(s, r[a2].orders[k2].id));
            } else if a2 == i {
                assert(r[a2].orders[k2].id == o.id);
                let a0 = if a < i {
                    a
                } else {
                    a - 1
                };
                assert(r[a].orders[k].id == s[a0].orders[k].id);
                assert(side_contains_id(s, r[a].orders[k].id));
            } else {
                let a0 = if a < i {
                    a
                } else {
                    a - 1
                };
                let a20 = if a2 < i {
                    a2
                } else {
                    a2 - 1
                };
                assert(r[a].orders[k].id == s[a0].orders[k].id);
                assert(r[a2].orders[k2].id == s[a20].orders[k2].id);
            }
        }
        assert forall|a: int, k: int|
            0 <= a < r.len() && 0 <= k < r[a].orders.len() implies has_account(
            av,
            #[trigger] r[a].orders[k].owner,
        ) by {
            if a < i {
                assert(r[a].orders[k] == s[a].orders[k]);
            } else if a > i {
                assert(r[a].orders[k] == s[a - 1].orders[k]);
            }
        }
    }
}

/// Some order in this queue carries the identifier.
pub open spec fn level_contains(l: LevelV, id: OrderId) -> bool {
    exists|k: int| 0 <= k < l.orders.len() && l.orders[k].id == id
}

/// The queue position holding the identifier (unique under distinct ids;
/// meaningful only when `level_contains` holds).
pub open spec fn queue_index_of(orders: Seq<Order>, id: OrderId) -> int {
    choose|k: int| 0 <= k < orders.len() && orders[k].id == id
}

/// The side after cancelling `id`: the order leaves its queue, an emptied
/// level leaves the side, and a side not holding the identifier is
/// unchanged.
pub open spec fn cancel_side(side: Seq<LevelV>, id: OrderId) -> Seq<LevelV>
    decreases side.len(),
{
    if side.len() == 0 {
        side
    } else if level_contains(side[0], id) {
        if side[0].orders.len() <= 1 {
            side.drop_first()
        } else {
            seq![
                LevelV {
                    price: side[0].price,
                    orders: side[0].orders.remove(queue_index_of(side[0].orders, id)),
                },
            ] + side.drop_first()
        }
    } else {
        seq![side[0]] + cancel_side(side.drop_first(), id)
    }
}

/// A side without the identifier is left exactly as it is by `cancel_side`.
pub proof fn lemma_cancel_side_absent(s: Seq<LevelV>, id: OrderId)
    requires
        !side_contains_id(s, id),
    ensures
        cancel_side(s, id) =~= s,
    decreases s.len(),
{
    if s.len() > 0 {
        if level_contains(s[0], id) {
            let k = choose|k: int| 0 <= k < s[0].orders.len() && s[0].orders[k].id == id;
            assert(s[0].orders[k].id == id);
            assert(false);
        }
        assert(!side_contains_id(s.drop_first(), id)) by {
            if side_contains_id(s.drop_first(), id) {
                let (i, k): (int, int) = choose|i: int, k: int|
                    0 <= i < s.drop_first().len() && 0 <= k < s.drop_first()[i].orders.len()
                        && s.drop_first()[i].orders[k].id == id;
                assert(s[i + 1].orders[k].id == id);
            }
        }
        lemma_cancel_side_absent(s.drop_first(), id);
    }
}

/// At the first level holding the identifier, `cancel_side` removes that
/// level when its queue holds only this order, and otherwise shortens the
/// queue at the identifier's position.
proof fn lemma_cancel_side_at(s: Seq<LevelV>, id: OrderId, i: int)
    requires
        0 <= i < s.len(),
        forall|j: int| 0 <= j < i ==> !level_contains(#[trigger] s[j], id),
        level_contains(s[i], id),
    ensures
        cancel_side(s, id) =~= (if s[i].orders.len() <= 1 {
            s.remove(i)
        } else {
            s.update(
                i,
                LevelV {
                    price: s[i].price,
                    orders: s[i].orders.remove(queue_index_of(s[i].orders, id)),
                },
            )
        }),
    decreases i,
{
    if i == 0 {
        if s[0].orders.len() <= 1 {
            assert(s.drop_first() =~= s.remove(0));
        } else {
            assert(seq![
                LevelV {
                    price: s[0].price,
                    orders: s[0].orders.remove(queue_index_of(s[0].orders, id)),
                },
            ] + s.drop_first() =~= s.update(
                0,
                LevelV {
                    price: s[0].price,
                    orders: s[0].orders.remove(queue_index_of(s[0].orders, id)),
                },
            ));
        }
    } else {
        let s1 = s.drop_first();
        assert(!level_contains(s[0], id));
        assert forall|j: int| 0 <= j < i - 1 implies !level_contains(#[trigger] s1[j], id) by {
            assert(s1[j] == s[j + 1]);
        }
        assert(s1[i - 1] == s[i]);
        lemma_cancel_side_at(s1, id, i - 1);
        if s[i].orders.len() <= 1 {
            assert(cancel_side(s, id) =~= s.remove(i));
        } else {
            assert(cancel_side(s, id) =~= s.update(
                i,
                LevelV {
                    price: s[i].price,
                    orders: s[i].orders.remove(queue_index_of(s[i].orders, id)),
                },
            ));
        }
    }
}

/// Cancelling the order at a known position keeps the side well formed,
/// keeps identifiers distinct, removes exactly that identifier, and keeps
/// every remaining order an order of the old side.
proof fn lemma_cancel_at_props(
    s: Seq<LevelV>,
    s2: Seq<LevelV>,
    id: OrderId,
    i: int,
    k: int,
    kind: OrderType,
)
    requires
        side_wf(s, kind),
        side_ids_distinct(s),
        0 <= i < s.len(),
        0 <= k < s[i].orders.len(),
        s[i].orders[k].id == id,
        s2 == (if s[i].orders.len() <= 1 {
            s.remove(i)
        } else {
            s.update(i, LevelV { price: s[i].price, orders: s[i].orders.remove(k) })
        }),
    ensures
        side_wf(s2, kind),
        side_ids_distinct(s2),
        forall|x: OrderId| #[trigger]
            side_contains_id(s2, x) <==> (side_contains_id(s, x) && x != id),
        forall|av: Seq<AccountV>|
            side_owners_present(s, av) ==> #[trigger] side_owners_present(s2, av),
        s2.len() > 0 ==> (s2[0].price == s[0].price || better_price(kind, s[0].price, s2[0].price)),
{
    if s[i].orders.len() <= 1 {
        assert forall|a: int| 0 <= a < s2.len() implies s2[a] == (if a < i {
            s[a]
        } else {
            s[a + 1]
        }) by {}
        assert forall|x: OrderId| #[trigger]
            side_contains_id(s2, x) implies (side_contains_id(s, x) && x != id) by {
            let (a, c): (int, int) = choose|a: int, c: int|
                0 <= a < s2.len() && 0 <= c < s2[a].orders.len() && s2[a].orders[c].id == x;
            let a0 = if a < i {
                a
            } else {
                a + 1
            };
            assert(s[a0].orders[c].id == x);
        }
        assert forall|x: OrderId| (side_contains_id(s, x) && x != id) implies #[trigger]
            side_contains_id(s2, x) by {
            let (a, c): (int, int) = choose|a: int, c: int|
                0 <= a < s.len() && 0 <= c < s[a].orders.len() && s[a].orders[c].id == x;
            assert(a != i || c == k);
            assert(a != i);
            if a < i {
                assert(s2[a].orders[c].id == x);
            } else {
                assert(s2[a - 1].orders[c].id == x);
            }
        }
        assert forall|a: int, c: int, a2: int, c2: int|
            0 <= a < s2.len() && 0 <= c < s2[a].orders.len() && 0 <= a2 < s2.len() && 0 <= c2
                < s2[a2].orders.len() && (a != a2 || c != c2) implies #[trigger] s2[a].orders[c].id
            != #[trigger] s2[a2].orders[c2].id by {
            let a0 = if a < i {
                a
            } else {
                a + 1
            };
            let a20 = if a2 < i {
                a2
            } else {
                a2 + 1
            };
            assert(s2[a].orders[c].id == s[a0].orders[c].id);
            assert(s2[a2].orders[c2].id == s[a20].orders[c2].id);
        }
        assert forall|av: Seq<AccountV>|
            side_owners_present(s, av) implies #[trigger] side_owners_present(s2, av) by {
            assert forall|i2: int, k2: int|
                0 <= i2 < s2.len() && 0 <= k2 < s2[i2].orders.len() implies has_account(
                av,
                #[trigger] s2[i2].orders[k2].owner,
            ) by {
                let a0 = if i2 < i {
                    i2
                } else {
                    i2 + 1
                };
                assert(s2[i2].orders[k2] == s[a0].orders[k2]);
            }
        }
    } else {
        let q2 = s[i].orders.remove(k);
        assert forall|a: int| 0 <= a < s2.len() && a != i implies s2[a] == s[a] by {}
        assert(s2[i].orders == q2);
        assert forall|c: int| 0 <= c < q2.len() implies q2[c] == (if c < k {
            s[i].orders[c]
        } else {
            s[i].orders[c + 1]
        }) by {}
        assert forall|x: OrderId| #[trigger]
            side_contains_id(s2, x) implies (side_contains_id(s, x) && x != id) by {
            let (a, c): (int, int) = choose|a: int, c: int|
                0 <= a < s2.len() && 0 <= c < s2[a].orders.len() && s2[a].orders[c].id == x;
            if a == i {
                let c0 = if c < k {
                    c
                } else {
                    c + 1
                };
                assert(s[a].orders[c0].id == x);
            } else {
                assert(s[a].orders[c].id == x);
            }
        }
        assert forall|x: OrderId| (side_contains_id(s, x) && x != id) implies #[trigger]
            side_contains_id(s2, x) by {
            let (a, c): (int, int) = choose|a: int, c: int|
                0 <= a < s.len() && 0 <= c < s[a].orders.len() && s[a].orders[c].id == x;
            if a == i {
                assert(c != k);
                if c < k {
                    assert(s2[a].orders[c].id == x);
                } else {
                    assert(s2[a].orders[c - 1].id == x);
                }
            } else {
                assert(s2[a].orders[c].id == x);
            }
        }
        assert forall|a: int, c: int, a2: int, c2: int|
            0 <= a < s2.len() && 0 <= c < s2[a].orders.len() && 0 <= a2 < s2.len() && 0 <= c2
                < s2[a2].orders.len() && (a != a2 || c != c2) implies #[trigger] s2[a].orders[c].id
            != #[trigger] s2[a2].orders[c2].id by {
            let c0 = if a == i && c >= k {
                c + 1
            } else {
                c
            };
            let c20 = if a2 == i && c2 >= k {
                c2 + 1
            } else {
                c2
            };
            assert(s2[a].orders[c].id == s[a].orders[c0].id);
            assert(s2[a2].orders[c2].id == s[a2].orders[c20].id);
        }
        assert forall|av: Seq<AccountV>|
            side_owners_present(s, av) implies #[trigger] side_owners_present(s2, av) by {
            assert forall|i2: int, k2: int|
                0 <= i2 < s2.len() && 0 <= k2 < s2[i2].orders.len() implies has_account(
                av,
                #[trigger] s2[i2].orders[k2].owner,
            ) by {
                let c0 = if i2 == i && k2 >= k {
                    k2 + 1
                } else {
                    k2
                };
                assert(s2[i2].orders[k2] == s[i2].orders[c0]);
            }
        }
    }
}

/// Disjointness of the two sides' identifiers is symmetric.
proof fn lemma_disjoint_sym(a: Seq<LevelV>, b: Seq<LevelV>)
    requires
        sides_id_disjoint(a, b),
    ensures
        sides_id_disjoint(b, a),
{
    assert forall|i: int, k: int, i2: int, k2: int|
        0 <= i < b.len() && 0 <= k < b[i].orders.len() && 0 <= i2 < a.len() && 0 <= k2
            < a[i2].orders.len() implies #[trigger] b[i].orders[k].id
        != #[trigger] a[i2].orders[k2].id by {
        assert(a[i2].orders[k2].id != b[i].orders[k].id);
    }
}

/// Sides that share no identifier are positionally disjoint.
proof fn lemma_disjoint_from_contains(a: Seq<LevelV>, b: Seq<LevelV>)
    requires
        forall|x: OrderId| #[trigger] side_contains_id(a, x) ==> !side_contains_id(b, x),
    ensures
        sides_id_disjoint(a, b),
{
    assert forall|i: int, k: int, i2: int, k2: int|
        0 <= i < a.len() && 0 <= k < a[i].orders.len() && 0 <= i2 < b.len() && 0 <= k2
            < b[i2].orders.len() implies #[trigger] a[i].orders[k].id
        != #[trigger] b[i2].orders[k2].id by {
        let x = a[i].orders[k].id;
        assert(side_contains_id(a, x));
        if b[i2].orders[k2].id == x {
            assert(side_contains_id(b, x));
        }
    }
}

/// Locates an identifier in one FIFO queue.
fn find_in_queue(orders: &Vec<Order>, id: OrderId) -> (r: Option<usize>)
    ensures
        match r {
            Some(k) => k < orders@.len() && orders@[k as int].id == id,
            None => forall|k: int| 0 <= k < orders@.len() ==> orders@[k].id != id,
        },
{
    let n = orders.len();
    let mut k: usize = 0;
    while k < n
        invariant
            n == orders@.len(),
            k <= n,
            forall|j: int| 0 <= j < k ==> orders@[j].id != id,
        decreases n - k,
    {
        if orders[k].id == id {
            return Some(k);
        }
        k = k + 1;
    }
    None
}

/// Removes the order with this identifier from the side, pruning its level
/// if that empties it; reports whether the side held the identifier.
fn cancel_from_side(side: &mut Vec<Level>, id: OrderId, Ghost(kind): Ghost<OrderType>) -> (found:
    bool)
    requires
        side_wf(side_view(old(side)@), kind),
        side_ids_distinct(side_view(old(side)@)),
    ensures
        found == side_contains_id(side_view(old(side)@), id),
        side_view(final(side)@) == cancel_side(side_view(old(side)@), id),
        side_wf(side_view(final(side)@), kind),
        side_ids_distinct(side_view(final(side)@)),
        forall|x: OrderId| #[trigger]
            side_contains_id(side_view(final(side)@), x) <==> (side_contains_id(
                side_view(old(side)@),
                x,
            ) && (x != id || !found)),
        forall|av: Seq<AccountV>|
            side_owners_present(side_view(old(side)@), av) ==> #[trigger] side_owners_present(
                side_view(final(side)@),
                av,
            ),
        side_view(final(side)@).len() > 0 ==> side_view(old(side)@).len() > 0 && (side_view(
            final(side)@,
        )[0].price == side_view(old(side)@)[0].price || better_price(
            kind,
            side_view(old(side)@)[0].price,
            side_view(final(side)@)[0].price,
        )),
{
    let ghost s0 = side_view(old(side)@);
    let n = side.len();
    let mut i: usize = 0;
    while i < n
        invariant
            s0 == side_view(old(side)@),
            side@ == old(side)@,
            n == side@.len(),
            i <= n,
            side_wf(s0, kind),
            side_ids_distinct(s0),
            forall|j: int| 0 <= j < i ==> !level_contains(#[trigger] s0[j], id),
        decreases n - i,
    {
        match find_in_queue(&side[i].orders, id) {
            Some(k) => {
                proof {
                    assert(level_contains(s0[i as int], id)) by {
                        assert(s0[i as int].orders[k as int].id == id);
                    }
                    lemma_cancel_side_at(s0, id, i as int);
                    if s0[i as int].orders.len() > 1 {
                        let k0 = queue_index_of(s0[i as int].orders, id);
                        assert(s0[i as int].orders[k0].id == id);
                        assert(k0 == k as int);
                    }
                }
                let mut lvl = side.remove(i);
                let _ = lvl.orders.remove(k);
                let emptied = lvl.orders.len() == 0;
                if !emptied {
                    side.insert(i, lvl);
                }
                proof {
                    let s2 = side_view(side@);
                    if emptied {
                        assert(s2 =~= s0.remove(i as int));
                    } else {
                        assert(s2 =~= s0.update(
                            i as int,
                            LevelV {
                                price: s0[i as int].price,
                                orders: s0[i as int].orders.remove(k as int),
                            },
                        ));
                    }
                    lemma_cancel_at_props(s0, s2, id, i as int, k as int, kind);
                    assert(side_contains_id(s0, id)) by {
                        assert(s0[i as int].orders[k as int].id == id);
                    }
                    assert(side_view(side@) =~= cancel_side(s0, id));
                }
                return true;
            },
            None => {
                proof {
                    if level_contains(s0[i as int], id) {
                        let k = choose|k: int|
                            0 <= k < s0[i as int].orders.len() && s0[i as int].orders[k].id == id;
                        assert(side@[i as int]@.orders[k].id == id);
                        assert(false);
                    }
                }
            },
        }
        i = i + 1;
    }
    proof {
        assert(!side_contains_id(s0, id)) by {
            if side_contains_id(s0, id) {
                let (a, c): (int, int) = choose|a: int, c: int|
                    0 <= a < s0.len() && 0 <= c < s0[a].orders.len() && s0[a].orders[c].id == id;
                assert(!level_contains(s0[a], id));
                assert(s0[a].orders[c].id == id);
            }
        }
        lemma_cancel_side_absent(s0, id);
        assert(side_view(side@) =~= s0);
    }
    false
}

/// Parks an order at the tail of the queue for its price on its own side,
/// opening the level at its sorted position where absent.
fn insert_resting(side: &mut Vec<Level>, o: Order)
    requires
        side_wf(side_view(old(side)@), o.order_type),
        o.price > 0,
        o.quantity > 0,
    ensures
        side_view(final(side)@) == rest_insert(side_view(old(side)@), o),
{
    let ghost s0 = side_view(old(side)@);
    let n = side.len();
    let mut i: usize = 0;
    while i < n
        invariant
            s0 == side_view(old(side)@),
            side@ == old(side)@,
            n == side@.len(),
            i <= n,
            forall|j: int| 0 <= j < i ==> better_price(o.order_type, s0[j].price, o.price),
        ensures
            s0 == side_view(old(side)@),
            side@ == old(side)@,
            i <= n,
            forall|j: int| 0 <= j < i ==> better_price(o.order_type, s0[j].price, o.price),
            i < n ==> !better_price(o.order_type, s0[i as int].price, o.price),
        decreases n - i,
    {
        let p = side[i].price;
        let keep_looking = match o.order_type {
            OrderType::Bid => p > o.price,
            OrderType::Ask => p < o.price,
        };
        if !keep_looking {
            break ;
        }
        i = i + 1;
    }
    proof {
        lemma_rest_insert_at(s0, o, i as int);
    }
    if i < n && side[i].price == o.price {
        let mut lvl = side.remove(i);
        lvl.orders.push(o);
        side.insert(i, lvl);
        proof {
            assert(side@ =~= old(side)@.update(i as int, side@[i as int]));
            assert(side_view(side@) =~= s0.update(
                i as int,
                LevelV { price: s0[i as int].price, orders: s0[i as int].orders.push(o) },
            ));
        }
    } else {
        let mut orders: Vec<Order> = Vec::new();
        orders.push(o);
        side.insert(i, Level { price: o.price, orders });
        proof {
            assert(side_view(side@) =~= s0.insert(
                i as int,
                LevelV { price: o.price, orders: seq![o] },
            ));
        }
    }
}

/// Walks the opposite side for an incoming order, executing and settling
/// fills in price–time priority until the taker is exhausted, the best
/// price no longer crosses, or a settlement error stops the walk. Updates
/// the last-traded price on every fill and drops fully consumed makers from
/// the resting-id index. Behaves exactly as `run_match` on the views.
#[verifier::rlimit(100)]
fn match_loop(
    side: &mut Vec<Level>,
    accounts: &mut Vec<Account>,
    order_ids: &mut Vec<OrderId>,
    ltp: &mut OrderPrice,
    has_traded: &mut bool,
    taker: Order,
    ticker: &String,
    Ghost(other): Ghost<Seq<LevelV>>,
) -> (r: Result<OrderQuantity, AccountError>)
    requires
        side_wf(side_view(old(side)@), opposite(taker.order_type)),
        arena_wf(old(accounts)@),
        has_account(arena_view(old(accounts)@), taker.owner),
        side_owners_present(side_view(old(side)@), arena_view(old(accounts)@)),
        old(order_ids)@.no_duplicates(),
        side_ids_distinct(side_view(old(side)@)),
        sides_id_disjoint(side_view(old(side)@), other),
        forall|x: OrderId| #[trigger]
            old(order_ids)@.contains(x) <==> (side_contains_id(side_view(old(side)@), x)
                || side_contains_id(other, x)),
    ensures
        ({
            let m = run_match(
                side_view(old(side)@),
                arena_view(old(accounts)@),
                taker,
                taker.quantity,
                ticker@,
            );
            &&& side_view(final(side)@) == m.side
            &&& arena_view(final(accounts)@) == m.accounts
            &&& (match r {
                Ok(left) => m.err is None && left == m.leftover,
                Err(e) => m.err == Some(e),
            })
            &&& *final(has_traded) == (*old(has_traded) || m.trades.len() > 0)
            &&& *final(ltp) == (if m.trades.len() > 0 {
                m.trades.last().price
            } else {
                *old(ltp)
            })
        }),
        (match r {
            Ok(left) => left > 0 ==> final(side)@.len() == 0 || !crosses(
                taker.order_type,
                taker.price,
                final(side)@[0].price,
            ),
            Err(_) => true,
        }),
        side_wf(side_view(final(side)@), opposite(taker.order_type)),
        arena_wf(final(accounts)@),
        final(accounts)@.len() == old(accounts)@.len(),
        forall|i: int|
            0 <= i < old(accounts)@.len() ==> final(accounts)@[i].id == old(accounts)@[i].id
                && final(accounts)@[i]@.name == old(accounts)@[i]@.name,
        total_cash(arena_view(final(accounts)@)) == total_cash(arena_view(old(accounts)@)),
        forall|sym: Seq<char>|
            total_holding(arena_view(final(accounts)@), sym) == total_holding(
                arena_view(old(accounts)@),
                sym,
            ),
        final(order_ids)@.no_duplicates(),
        side_ids_distinct(side_view(final(side)@)),
        sides_id_disjoint(side_view(final(side)@), other),
        forall|x: OrderId| #[trigger]
            final(order_ids)@.contains(x) <==> (side_contains_id(side_view(final(side)@), x)
                || side_contains_id(other, x)),
        forall|x: OrderId| #[trigger]
            side_contains_id(side_view(final(side)@), x) ==> side_contains_id(
                side_view(old(side)@),
                x,
            ),
        side_owners_present(side_view(final(side)@), arena_view(final(accounts)@)),
        final(side)@.len() > 0 ==> old(side)@.len() > 0 && (side_view(final(side)@)[0].price
            == side_view(old(side)@)[0].price || better_price(
            opposite(taker.order_type),
            side_view(old(side)@)[0].price,
            side_view(final(side)@)[0].price,
        )),
{
    let ghost kind = opposite(taker.order_type);
    let ghost side0 = side_view(old(side)@);
    let ghost av0 = arena_view(old(accounts)@);
    let ghost ids0 = old(order_ids)@;
    let ghost ltp0 = *old(ltp);
    let ghost ht0 = *old(has_traded);
    let ghost orig = run_match(side0, av0, taker, taker.quantity, ticker@);
    let mut q: OrderQuantity = taker.quantity;
    let ghost mut trades: Seq<TradeV> = Seq::empty();
    proof {
        assert(Seq::<TradeV>::empty() + orig.trades =~= orig.trades);
    }
    loop
        invariant
            side0 == side_view(old(side)@),
            av0 == arena_view(old(accounts)@),
            ltp0 == *old(ltp),
            ht0 == *old(has_traded),
            side_wf(side_view(side@), kind),
            kind == opposite(taker.order_type),
            arena_wf(accounts@),
            has_account(arena_view(accounts@), taker.owner),
            side_owners_present(side_view(side@), arena_view(accounts@)),
            order_ids@.no_duplicates(),
            side_ids_distinct(side_view(side@)),
            sides_id_disjoint(side_view(side@), other),
            forall|x: OrderId| #[trigger]
                order_ids@.contains(x) <==> (side_contains_id(side_view(side@), x)
                    || side_contains_id(other, x)),
            forall|x: OrderId| #[trigger]
                side_contains_id(side_view(side@), x) ==> side_contains_id(side0, x),
            accounts@.len() == old(accounts)@.len(),
            forall|i: int|
                0 <= i < old(accounts)@.len() ==> accounts@[i].id == old(accounts)@[i].id
                    && accounts@[i]@.name == old(accounts)@[i]@.name,
            total_cash(arena_view(accounts@)) == total_cash(av0),
            forall|sym: Seq<char>|
                total_holding(arena_view(accounts@), sym) == total_holding(av0, sym),
            orig == run_match(side0, av0, taker, taker.quantity, ticker@),
            ({
                let sub = run_match(side_view(side@), arena_view(accounts@), taker, q, ticker@);
                &&& orig.trades == trades + sub.trades
                &&& orig.side == sub.side
                &&& orig.accounts == sub.accounts
                &&& orig.leftover == sub.leftover
                &&& orig.err == sub.err
            }),
            *has_traded == (ht0 || trades.len() > 0),
            *ltp == (if trades.len() > 0 {
                trades.last().price
            } else {
                ltp0
            }),
            side@.len() > 0 ==> side0.len() > 0 && (side_view(side@)[0].price == side0[0].price
                || better_price(kind, side0[0].price, side_view(side@)[0].price)),
        ensures
            q == 0 || side@.len() == 0 || !crosses(
                taker.order_type,
                taker.price,
                side_view(side@)[0].price,
            ),
        decreases side@.len(), (if side@.len() > 0 {
            side@[0].orders.len() as int
        } else {
            0
        }),
    {
        if q == 0 {
            break ;
        }
        if side.len() == 0 {
            break ;
        }
        let level_price = side[0].price;
        let cross = match taker.order_type {
            OrderType::Bid => level_price <= taker.price,
            OrderType::Ask => level_price >= taker.price,
        };
        if !cross {
            break ;
        }
        let ghost side_pre = side_view(side@);
        let ghost av_pre = arena_view(accounts@);
        let ghost sub_pre = run_match(side_pre, av_pre, taker, q, ticker@);
        let head = side[0].orders[0];
        let f = if head.quantity <= q {
            head.quantity
        } else {
            q
        };
        proof {
            assert(side_pre[0] == side@[0]@);
            assert(side_pre[0].orders[0] == head);
            assert(has_account(av_pre, head.owner));
        }
        match settle_fill(
            accounts,
            head.owner,
            taker.owner,
            taker.order_type,
            ticker,
            level_price,
            f,
        ) {
            Err(e) => {
                proof {
                    assert(sub_pre.err == Some(e));
                    assert(sub_pre.trades =~= Seq::<TradeV>::empty());
                    assert(orig.trades =~= trades);
                }
                return Err(e);
            },
            Ok(()) => {},
        }
        let ghost trade = TradeV {
            maker_id: head.id,
            maker_owner: head.owner,
            taker_owner: taker.owner,
            price: level_price,
            quantity: f,
        };
        *has_traded = true;
        *ltp = level_price;
        proof {
            trades = trades.push(trade);
            lemma_has_account_same_ids(av_pre, arena_view(accounts@));
        }
        if head.quantity <= q {
            // the maker is fully consumed: drop it, and its level if emptied
            let mut lvl = side.remove(0);
            let _ = lvl.orders.remove(0);
            let more = lvl.orders.len() > 0;
            if more {
                side.insert(0, lvl);
            }
            proof {
                let s2 = side_view(side@);
                if more {
                    assert(side@ =~= old(side)@.subrange(0, 0).add(side@));
                    assert(s2 =~= side_pre.update(
                        0,
                        LevelV { price: side_pre[0].price, orders: side_pre[0].orders.drop_first() },
                    ));
                } else {
                    assert(s2 =~= side_pre.drop_first());
                }
                lemma_consume_head(side_pre, s2, kind, av_pre);
                lemma_has_account_same_ids(av_pre, arena_view(accounts@));
                assert(side_owners_present(s2, arena_view(accounts@)));
                lemma_disjoint_of_subset(s2, side_pre, other);
            }
            remove_id(order_ids, head.id);
            q = q - f;
            proof {
                let sub_post = run_match(side_view(side@), arena_view(accounts@), taker, q, ticker@);
                assert(sub_pre.trades =~= seq![trade] + sub_post.trades);
                assert(orig.trades =~= trades + sub_post.trades);
                assert forall|x: OrderId| #[trigger]
                    order_ids@.contains(x) <==> (side_contains_id(side_view(side@), x)
                        || side_contains_id(other, x)) by {
                    if side_contains_id(other, x) {
                        assert(x != head.id);
                    }
                }
            }
        } else {
            // the taker is exhausted: the maker keeps its place with the rest
            let mut lvl = side.remove(0);
            let _ = lvl.orders.remove(0);
            lvl.orders.insert(0, Order { quantity: head.quantity - q, ..head });
            side.insert(0, lvl);
            proof {
                let head1 = Order { quantity: (head.quantity - q) as u128, ..head };
                let s2 = side_view(side@);
                assert(lvl.orders@ =~= side_pre[0].orders.update(0, head1));
                assert(s2 =~= side_pre.update(
                    0,
                    LevelV { price: side_pre[0].price, orders: side_pre[0].orders.update(0, head1) },
                ));
                let sub_post = run_match(side_view(side@), arena_view(accounts@), taker, 0, ticker@);
                assert(sub_pre.trades =~= seq![trade]);
                assert(sub_pre.side == s2);
                assert(orig.trades =~= trades + sub_post.trades);
                // ids and shape are unchanged: position (0, 0) holds the
                // residual with the same identifier, owner and price
                assert forall|x: OrderId| #[trigger]
                    side_contains_id(s2, x) implies side_contains_id(side_pre, x) by {
                    let (i, k): (int, int) = choose|i: int, k: int|
                        0 <= i < s2.len() && 0 <= k < s2[i].orders.len() && s2[i].orders[k].id
                            == x;
                    assert(side_pre[i].orders[k].id == x);
                }
                assert forall|x: OrderId| side_contains_id(side_pre, x) implies #[trigger]
                    side_contains_id(s2, x) by {
                    let (i, k): (int, int) = choose|i: int, k: int|
                        0 <= i < side_pre.len() && 0 <= k < side_pre[i].orders.len()
                            && side_pre[i].orders[k].id == x;
                    assert(s2[i].orders[k].id == x);
                }
                assert forall|i: int, k: int, i2: int, k2: int|
                    0 <= i < s2.len() && 0 <= k < s2[i].orders.len() && 0 <= i2 < s2.len() && 0
                        <= k2 < s2[i2].orders.len() && (i != i2 || k != k2) implies #[trigger]
                    s2[i].orders[k].id != #[trigger] s2[i2].orders[k2].id by {
                    assert(s2[i].orders[k].id == side_pre[i].orders[k].id);
                    assert(s2[i2].orders[k2].id == side_pre[i2].orders[k2].id);
                }
                lemma_disjoint_of_subset(s2, side_pre, other);
                lemma_has_account_same_ids(av_pre, arena_view(accounts@));
                assert forall|i: int, k: int|
                    0 <= i < s2.len() && 0 <= k < s2[i].orders.len() implies has_account(
                    arena_view(accounts@),
                    #[trigger] s2[i].orders[k].owner,
                ) by {
                    assert(s2[i].orders[k].owner == side_pre[i].orders[k].owner);
                }
            }
            q = 0;
            break ;
        }
    }
    proof {
        let sub = run_match(side_view(side@), arena_view(accounts@), taker, q, ticker@);
        assert(sub.trades =~= Seq::<TradeV>::empty());
        assert(orig.trades =~= trades);
    }
    Ok(q)
}

/// The book for one instrument: two sides of resting orders, the last-traded
/// price (meaningful only once `has_traded` is set), and the index of
/// currently resting order identifiers.
#[derive(Clone, Debug, PartialEq, Eq)]
pub struct Book {
    pub id: BookId,
    pub name: String,
    pub ticker: String,
    pub bids: Side,
    pub asks: Side,
    pub ltp: OrderPrice,
    pub has_traded: bool,
    pub order_ids: Vec<OrderId>,
}

impl Book {
    /// Some order rests in the book under this identifier.
    pub open spec fn contains_order(self, id: OrderId) -> bool {
        side_contains_id(side_view(self.bids@), id) || side_contains_id(
            side_view(self.asks@),
            id,
        )
    }

    /// The best bid is strictly below the best ask whenever both exist.
    pub open spec fn uncrossed(self) -> bool {
        self.bids@.len() > 0 && self.asks@.len() > 0 ==> self.bids@[0].price < self.asks@[0].price
    }

    /// The resting-id index carries exactly the identifiers resting in the
    /// queues, each of which appears exactly once.
    pub open spec fn ids_consistent(self) -> bool {
        &&& self.order_ids@.no_duplicates()
        &&& side_ids_distinct(side_view(self.bids@))
        &&& side_ids_distinct(side_view(self.asks@))
        &&& sides_id_disjoint(side_view(self.bids@), side_view(self.asks@))
        &&& forall|id: OrderId|
            #![trigger self.order_ids@.contains(id)]
            #![trigger self.contains_order(id)]
            self.order_ids@.contains(id) <==> self.contains_order(id)
    }

    /// The book's invariant: both sides well formed, the book uncrossed at
    /// rest, and the id index consistent with the queues.
    pub open spec fn wf(self) -> bool {
        &&& side_wf(side_view(self.bids@), OrderType::Bid)
        &&& side_wf(side_view(self.asks@), OrderType::Ask)
        &&& self.uncrossed()
        &&& self.ids_consistent()
    }

    /// Every resting order's owner is an account of the arena.
    pub open spec fn owners_present(self, av: Seq<AccountV>) -> bool {
        side_owners_present(side_view(self.bids@), av) && side_owners_present(
            side_view(self.asks@),
            av,
        )
    }

    pub fn new(id: BookId, name: String, ticker: String) -> (r: Self)
        ensures
            r.wf(),
            r.id == id,
            r.name@ == name@,
            r.ticker@ == ticker@,
            r.bids@.len() == 0,
            r.asks@.len() == 0,
            r.ltp == 0,
            !r.has_traded,
            r.order_ids@.len() == 0,
    {
        Book {
            id,
            name,
            ticker,
            bids: Vec::new(),
            asks: Vec::new(),
            ltp: 0,
            has_traded: false,
            order_ids: Vec::new(),
        }
    }

    pub fn id(&self) -> (r: BookId)
        ensures
            r == self.id,
    {
        self.id
    }

    pub fn name(&self) -> (r: String)
        ensures
            r@ == self.name@,
    {
        self.name.clone()
    }

    pub fn ticker(&self) -> (r: String)
        ensures
            r@ == self.ticker@,
    {
        self.ticker.clone()
    }

    /// The last-traded price, absent until the book has ever traded.
    pub fn ltp(&self) -> (r: Option<OrderPrice>)
        ensures
            r == (if self.has_traded {
                Some(self.ltp)
            } else {
                None::<OrderPrice>
            }),
    {
        if self.has_traded {
            Some(self.ltp)
        } else {
            None
        }
    }

    /// The best price on each side: highest resting bid and lowest resting
    /// ask, absent where the side is empty.
    pub fn top(&self) -> (r: (Option<OrderPrice>, Option<OrderPrice>))
        ensures
            r.0 == (if self.bids@.len() == 0 {
                None::<OrderPrice>
            } else {
                Some(self.bids@[0].price)
            }),
            r.1 == (if self.asks@.len() == 0 {
                None::<OrderPrice>
            } else {
                Some(self.asks@[0].price)
            }),
    {
        let bid_top = if self.bids.len() == 0 {
            None
        } else {
            Some(self.bids[0].price)
        };
        let ask_top = if self.asks.len() == 0 {
            None
        } else {
            Some(self.asks[0].price)
        };
        (bid_top, ask_top)
    }

    /// Cancels the resting order with this identifier: it leaves its queue,
    /// an emptied level is pruned, and the identifier leaves the index.
    /// Fails with `OrderNotFound`, changing nothing, exactly when no such
    /// order rests.
    pub fn cancel(&mut self, id: OrderId) -> (r: Result<(), BookError>)
        requires
            old(self).wf(),
        ensures
            final(self).wf(),
            final(self).id == old(self).id,
            final(self).name@ == old(self).name@,
            final(self).ticker@ == old(self).ticker@,
            final(self).ltp == old(self).ltp,
            final(self).has_traded == old(self).has_traded,
            forall|av: Seq<AccountV>|
                old(self).owners_present(av) ==> #[trigger] final(self).owners_present(av),
            match r {
                Ok(()) => {
                    &&& old(self).order_ids@.contains(id)
                    &&& side_view(final(self).bids@) == cancel_side(side_view(old(self).bids@), id)
                    &&& side_view(final(self).asks@) == cancel_side(side_view(old(self).asks@), id)
                    &&& final(self).order_ids@.len() == old(self).order_ids@.len() - 1
                    &&& forall|x: OrderId| #[trigger]
                        final(self).order_ids@.contains(x) <==> (old(self).order_ids@.contains(x)
                            && x != id)
                    &&& exists|j: int|
                        0 <= j < old(self).order_ids@.len() && old(self).order_ids@[j] == id
                            && final(self).order_ids@ == old(self).order_ids@.remove(j)
                },
                Err(e) => {
                    &&& e == BookError::OrderNotFound
                    &&& !old(self).order_ids@.contains(id)
                    &&& final(self).bids@ == old(self).bids@
                    &&& final(self).asks@ == old(self).asks@
                    &&& final(self).order_ids@ == old(self).order_ids@
                },
            },
    {
        let mut present = false;
        let n = self.order_ids.len();
        let mut j: usize = 0;
        while j < n
            invariant
                n == self.order_ids@.len(),
                j <= n,
                present == exists|l: int| 0 <= l < j && self.order_ids@[l] == id,
            decreases n - j,
        {
            if self.order_ids[j] == id {
                present = true;
            }
            j = j + 1;
        }
        if !present {
            proof {
                if self.order_ids@.contains(id) {
                    let l = choose|l: int|
                        0 <= l < self.order_ids@.len() && self.order_ids@[l] == id;
                    assert(false);
                }
            }
            return Err(BookError::OrderNotFound);
        }
        let ghost bids0 = side_view(self.bids@);
        let ghost asks0 = side_view(self.asks@);
        let in_bids = cancel_from_side(&mut self.bids, id, Ghost(OrderType::Bid));
        if !in_bids {
            let in_asks = cancel_from_side(&mut self.asks, id, Ghost(OrderType::Ask));
            proof {
                assert(self.order_ids@.contains(id));
                assert(in_asks);
                lemma_cancel_side_absent(bids0, id);
            }
        } else {
            proof {
                assert(!side_contains_id(asks0, id)) by {
                    if side_contains_id(asks0, id) {
                        let (i, k): (int, int) = choose|i: int, k: int|
                            0 <= i < asks0.len() && 0 <= k < asks0[i].orders.len()
                                && asks0[i].orders[k].id == id;
                        let (i2, k2): (int, int) = choose|i2: int, k2: int|
                            0 <= i2 < bids0.len() && 0 <= k2 < bids0[i2].orders.len()
                                && bids0[i2].orders[k2].id == id;
                        assert(bids0[i2].orders[k2].id != asks0[i].orders[k].id);
                    }
                }
                lemma_cancel_side_absent(asks0, id);
            }
        }
        remove_id(&mut self.order_ids, id);
        proof {
            let bids1 = side_view(self.bids@);
            let asks1 = side_view(self.asks@);
            lemma_disjoint_from_contains(bids1, asks1);
            lemma_disjoint_sym(bids1, asks1);
            assert(self.uncrossed()) by {
                if self.bids@.len() > 0 && self.asks@.len() > 0 {
                    assert(bids1[0] == self.bids@[0]@);
                    assert(asks1[0] == self.asks@[0]@);
                }
            }
            assert(self.wf());
        }
        Ok(())
    }

    /// Submits an order: matches it against the opposite side in price–time
    /// priority as `run_match` describes, settling every fill against the
    /// account arena and updating the last-traded price per fill, then parks
    /// any unfilled residual at the tail of its price level on its own side.
    /// A settlement error aborts the walk before the failing fill and is
    /// returned; the fills already made stand, and nothing rests.
    pub fn submit(&mut self, order: Order, accounts: &mut Vec<Account>) -> (r: Result<
        (),
        AccountError,
    >)
        requires
            old(self).wf(),
            arena_wf(old(accounts)@),
            old(self).owners_present(arena_view(old(accounts)@)),
            has_account(arena_view(old(accounts)@), order.owner),
            order.price > 0,
            order.quantity > 0,
            !old(self).order_ids@.contains(order.id),
        ensures
            final(self).wf(),
            arena_wf(final(accounts)@),
            final(self).owners_present(arena_view(final(accounts)@)),
            final(self).id == old(self).id,
            final(self).name@ == old(self).name@,
            final(self).ticker@ == old(self).ticker@,
            final(accounts)@.len() == old(accounts)@.len(),
            forall|i: int|
                0 <= i < old(accounts)@.len() ==> final(accounts)@[i].id == old(accounts)@[i].id
                    && final(accounts)@[i]@.name == old(accounts)@[i]@.name,
            total_cash(arena_view(final(accounts)@)) == total_cash(arena_view(old(accounts)@)),
            forall|sym: Seq<char>|
                total_holding(arena_view(final(accounts)@), sym) == total_holding(
                    arena_view(old(accounts)@),
                    sym,
                ),
            old(self).has_traded ==> final(self).has_traded,
            ({
                let opp0 = if order.order_type == OrderType::Bid {
                    side_view(old(self).asks@)
                } else {
                    side_view(old(self).bids@)
                };
                let own0 = if order.order_type == OrderType::Bid {
                    side_view(old(self).bids@)
                } else {
                    side_view(old(self).asks@)
                };
                let opp1 = if order.order_type == OrderType::Bid {
                    side_view(final(self).asks@)
                } else {
                    side_view(final(self).bids@)
                };
                let own1 = if order.order_type == OrderType::Bid {
                    side_view(final(self).bids@)
                } else {
                    side_view(final(self).asks@)
                };
                let m = run_match(
                    opp0,
                    arena_view(old(accounts)@),
                    order,
                    order.quantity,
                    old(self).ticker@,
                );
                &&& arena_view(final(accounts)@) == m.accounts
                &&& (match r {
                    Ok(()) => m.err is None,
                    Err(e) => m.err == Some(e),
                })
                &&& opp1 == m.side
                &&& own1 == (if m.err is None && m.leftover > 0 {
                    rest_insert(own0, Order { quantity: m.leftover, ..order })
                } else {
                    own0
                })
                &&& final(self).has_traded == (old(self).has_traded || m.trades.len() > 0)
                &&& final(self).ltp == (if m.trades.len() > 0 {
                    m.trades.last().price
                } else {
                    old(self).ltp
                })
                &&& (m.err is None && m.leftover > 0 ==> final(self).order_ids@.contains(order.id))
            }),
    {
        let ghost av0 = arena_view(old(accounts)@);
        let ghost own0 = if order.order_type == OrderType::Bid {
            side_view(old(self).bids@)
        } else {
            side_view(old(self).asks@)
        };
        let ghost opp0 = if order.order_type == OrderType::Bid {
            side_view(old(self).asks@)
        } else {
            side_view(old(self).bids@)
        };
        let ghost m = run_match(opp0, av0, order, order.quantity, old(self).ticker@);
        proof {
            // the incoming identifier rests nowhere yet
            assert(!old(self).contains_order(order.id));
        }
        let res = match order.order_type {
            OrderType::Bid => {
                proof {
                    lemma_disjoint_sym(side_view(self.bids@), side_view(self.asks@));
                }
                match_loop(
                    &mut self.asks,
                    accounts,
                    &mut self.order_ids,
                    &mut self.ltp,
                    &mut self.has_traded,
                    order,
                    &self.ticker,
                    Ghost(own0),
                )
            },
            OrderType::Ask => match_loop(
                &mut self.bids,
                accounts,
                &mut self.order_ids,
                &mut self.ltp,
                &mut self.has_traded,
                order,
                &self.ticker,
                Ghost(own0),
            ),
        };
        proof {
            // transport account lookups to the settled arena
            assert forall|i: int|
                0 <= i < av0.len() implies arena_view(accounts@)[i].id == av0[i].id by {
                assert(arena_view(accounts@)[i] == accounts@[i]@);
                assert(av0[i] == old(accounts)@[i]@);
            }
            lemma_has_account_same_ids(av0, arena_view(accounts@));
            let own_now = if order.order_type == OrderType::Bid {
                side_view(self.bids@)
            } else {
                side_view(self.asks@)
            };
            assert(own_now == own0);
            assert forall|i: int, k: int|
                0 <= i < own0.len() && 0 <= k < own0[i].orders.len() implies has_account(
                arena_view(accounts@),
                #[trigger] own0[i].orders[k].owner,
            ) by {
                assert(has_account(av0, own0[i].orders[k].owner));
            }
        }
        match res {
            Err(e) => {
                proof {
                    let opp1 = if order.order_type == OrderType::Bid {
                        side_view(self.asks@)
                    } else {
                        side_view(self.bids@)
                    };
                    lemma_disjoint_of_subset(opp1, opp0, own0);
                    assert(self.wf());
                }
                Err(e)
            },
            Ok(leftover) => {
                let ghost ids1 = self.order_ids@;
                let ghost opp1 = if order.order_type == OrderType::Bid {
                    side_view(self.asks@)
                } else {
                    side_view(self.bids@)
                };
                proof {
                    lemma_disjoint_of_subset(opp1, opp0, own0);
                    assert(!side_contains_id(opp1, order.id));
                    assert(!ids1.contains(order.id));
                }
                if leftover > 0 {
                    let rest = Order { quantity: leftover, ..order };
                    proof {
                        lemma_rest_insert_props(own0, rest, arena_view(accounts@));
                    }
                    match order.order_type {
                        OrderType::Bid => insert_resting(&mut self.bids, rest),
                        OrderType::Ask => insert_resting(&mut self.asks, rest),
                    }
                    self.order_ids.push(order.id);
                    proof {
                        let own1 = if order.order_type == OrderType::Bid {
                            side_view(self.bids@)
                        } else {
                            side_view(self.asks@)
                        };
                        assert(own1 == rest_insert(own0, rest));
                        // the id index gained exactly the taker's identifier
                        assert forall|x: OrderId| #[trigger]
                            self.order_ids@.contains(x) <==> (ids1.contains(x) || x
                                == order.id) by {
                            if self.order_ids@.contains(x) {
                                let j = choose|j: int|
                                    0 <= j < self.order_ids@.len() && self.order_ids@[j] == x;
                                if j < ids1.len() {
                                    assert(ids1[j] == x);
                                }
                            }
                            if ids1.contains(x) {
                                let j = choose|j: int| 0 <= j < ids1.len() && ids1[j] == x;
                                assert(self.order_ids@[j] == x);
                            }
                            if x == order.id {
                                assert(self.order_ids@[ids1.len() as int] == x);
                            }
                        }
                        assert(self.order_ids@.no_duplicates()) by {
                            assert forall|a: int, b: int|
                                0 <= a < self.order_ids@.len() && 0 <= b < self.order_ids@.len()
                                    && a != b implies self.order_ids@[a] != self.order_ids@[b] by {
                                if a < ids1.len() && b < ids1.len() {
                                } else if a < ids1.len() {
                                    assert(ids1.contains(ids1[a]));
                                } else if b < ids1.len() {
                                    assert(ids1.contains(ids1[b]));
                                }
                            }
                        }
                        // the two sides stay disjoint
                        assert forall|x: OrderId| #[trigger]
                            side_contains_id(own1, x) implies !side_contains_id(opp1, x) by {
                            if side_contains_id(opp1, x) {
                                assert(side_contains_id(opp0, x));
                                if x != order.id {
                                    assert(side_contains_id(own0, x));
                                    let (i, k): (int, int) = choose|i: int, k: int|
                                        0 <= i < own0.len() && 0 <= k < own0[i].orders.len()
                                            && own0[i].orders[k].id == x;
                                    let (i2, k2): (int, int) = choose|i2: int, k2: int|
                                        0 <= i2 < opp0.len() && 0 <= k2 < opp0[i2].orders.len()
                                            && opp0[i2].orders[k2].id == x;
                                    if order.order_type == OrderType::Bid {
                                        assert(own0[i].orders[k].id != opp0[i2].orders[k2].id);
                                    } else {
                                        assert(opp0[i2].orders[k2].id != own0[i].orders[k].id);
                                    }
                                }
                            }
                        }
                        lemma_disjoint_from_contains(own1, opp1);
                        lemma_disjoint_sym(own1, opp1);
                        assert(self.wf());
                        assert(self.order_ids@.contains(order.id)) by {
                            assert(self.order_ids@[ids1.len() as int] == order.id);
                        }
                    }
                    Ok(())
                } else {
                    proof {
                        assert(self.wf());
                    }
                    Ok(())
                }
            },
        }
    }
}

} // verus!
