use orderbook::account::{Account, AccountError, AccountHolding};
use orderbook::book::{Book, BookError, Level, Side};
use orderbook::order::{Order, OrderType};

#[test]
fn test_submit_bid_equal_equal() {
    let mut holdings: Vec<(String, AccountHolding)> = Vec::new();
    holdings.push(("VOC".to_string(), 20));

    let actual_account1: Account = Account::new(1, "John Doe".to_string(), 2500, Vec::new());
    let actual_account2: Account = Account::new(2, "Jane Doe".to_string(), 0, holdings.clone());
    let mut accounts: Vec<Account> = vec![actual_account1, actual_account2];
    let actual_order1: Order = Order::new(1000, 1, OrderType::Bid, 125, 20);
    let actual_order2: Order = Order::new(1001, 2, OrderType::Ask, 125, 20);

    let mut actual_book: Book = Book::new(
        1,
        "Vereenigde Oostindische Compagnie".to_string(),
        "VOC".to_string(),
    );

    actual_book.submit(actual_order1, &mut accounts).unwrap();
    actual_book.submit(actual_order2, &mut accounts).unwrap();

    let expected_book: Book = Book {
        id: 1,
        name: "Vereenigde Oostindische Compagnie".to_string(),
        ticker: "VOC".to_string(),
        bids: Side::new(),
        asks: Side::new(),
        ltp: 125,
        has_traded: true,
        order_ids: vec![],
    };

    let mut expected_holdings2: Vec<(String, AccountHolding)> = Vec::new();
    expected_holdings2.push(("VOC".to_string(), 0));
    let expected_account1: Account = Account::new(1, "John Doe".to_string(), 0, holdings);
    let expected_account2: Account =
        Account::new(2, "Jane Doe".to_string(), 2500, expected_holdings2);

    assert_eq!(actual_book, expected_book);
    assert_eq!(accounts[0], expected_account1);
    assert_eq!(accounts[1], expected_account2);
}

#[test]
fn test_submit_bid_lesser_equal() {
    let mut holdings: Vec<(String, AccountHolding)> = Vec::new();
    holdings.push(("MSFT".to_string(), 20));

    let actual_account1: Account = Account::new(1, "John Doe".to_string(), 2500, Vec::new());
    let actual_account2: Account = Account::new(2, "Jane Doe".to_string(), 0, holdings.clone());
    let mut accounts: Vec<Account> = vec![actual_account1, actual_account2];
    let actual_order1: Order = Order::new(1000, 1, OrderType::Bid, 125, 20);
    let actual_order2: Order = Order::new(1001, 2, OrderType::Ask, 130, 20);

    let mut actual_book: Book = Book::new(
        1,
        "Vereenigde Oostindische Compagnie".to_string(),
        "VOC".to_string(),
    );

    actual_book.submit(actual_order1, &mut accounts).unwrap();
    actual_book.submit(actual_order2, &mut accounts).unwrap();

    let expected_order1: Order = Order::new(1000, 1, OrderType::Bid, 125, 20);
    let expected_order2: Order = Order::new(1001, 2, OrderType::Ask, 130, 20);

    let mut expected_bids: Side = Side::new();
    expected_bids.push(Level { price: 125, orders: vec![expected_order1] });

    let mut expected_asks: Side = Side::new();
    expected_asks.push(Level { price: 130, orders: vec![expected_order2] });

    let expected_book: Book = Book {
        id: 1,
        name: "Vereenigde Oostindische Compagnie".to_string(),
        ticker: "VOC".to_string(),
        bids: expected_bids,
        asks: expected_asks,
        ltp: 0,
        has_traded: false,
        order_ids: vec![1000, 1001],
    };

    let expected_account1: Account = Account::new(1, "John Doe".to_string(), 2500, Vec::new());
    let expected_account2: Account = Account::new(2, "Jane Doe".to_string(), 0, holdings);

    assert_eq!(actual_book, expected_book);
    assert_eq!(accounts[0], expected_account1);
    assert_eq!(accounts[1], expected_account2);
}

#[test]
fn test_submit_bid_greater_equal() {
    let mut holdings: Vec<(String, AccountHolding)> = Vec::new();
    holdings.push(("VOC".to_string(), 20));

    let actual_account1: Account = Account::new(1, "John Doe".to_string(), 4000, Vec::new());
    let actual_account2: Account = Account::new(2, "Jane Doe".to_string(), 0, holdings.clone());
    let mut accounts: Vec<Account> = vec![actual_account1, actual_account2];
    let actual_order1: Order = Order::new(1000, 1, OrderType::Bid, 200, 20);
    let actual_order2: Order = Order::new(1001, 2, OrderType::Ask, 140, 20);

    let mut actual_book: Book = Book::new(
        1,
        "Vereenigde Oostindische Compagnie".to_string(),
        "VOC".to_string(),
    );

    // the ask rests first; the aggressive bid then takes at the resting
    // ask's price of 140, not at its own limit of 200
    actual_book.submit(actual_order2, &mut accounts).unwrap();
    actual_book.submit(actual_order1, &mut accounts).unwrap();

    let mut expected_holdings2: Vec<(String, AccountHolding)> = Vec::new();
    expected_holdings2.push(("VOC".to_string(), 0));

    let expected_account1: Account = Account::new(1, "John Doe".to_string(), 1200, holdings);
    let expected_account2: Account =
        Account::new(2, "Jane Doe".to_string(), 2800, expected_holdings2);

    let expected_bids: Side = Side::new();
    let expected_asks: Side = Side::new();

    let expected_book: Book = Book {
        id: 1,
        name: "Vereenigde Oostindische Compagnie".to_string(),
        ticker: "VOC".to_string(),
        bids: expected_bids,
        asks: expected_asks,
        ltp: 140,
        has_traded: true,
        order_ids: vec![],
    };

    assert_eq!(actual_book, expected_book);
    assert_eq!(accounts[0], expected_account1);
    assert_eq!(accounts[1], expected_account2);
}

#[test]
fn book_accessors_and_empty_top() {
    let book = Book::new(9, "Amsterdam".to_string(), "VOC".to_string());
    assert_eq!(book.id(), 9);
    assert_eq!(book.name(), "Amsterdam".to_string());
    assert_eq!(book.ticker(), "VOC".to_string());
    assert_eq!(book.top(), (None, None));
    assert_eq!(book.ltp(), None);
}

#[test]
fn non_crossing_book_top_and_ltp() {
    let mut holdings: Vec<(String, AccountHolding)> = Vec::new();
    holdings.push(("VOC".to_string(), 20));
    let mut accounts: Vec<Account> = vec![
        Account::new(1, "John Doe".to_string(), 2500, Vec::new()),
        Account::new(2, "Jane Doe".to_string(), 0, holdings),
    ];
    let mut book = Book::new(1, "Amsterdam".to_string(), "VOC".to_string());
    book.submit(Order::new(1000, 1, OrderType::Bid, 125, 20), &mut accounts).unwrap();
    book.submit(Order::new(1001, 2, OrderType::Ask, 130, 20), &mut accounts).unwrap();
    // no crossed rest state: the best bid stays strictly below the best ask
    assert_eq!(book.top(), (Some(125), Some(130)));
    assert_eq!(book.ltp(), None);
    assert!(book.order_ids.contains(&1000) && book.order_ids.contains(&1001));
    // no empty levels rest in the book
    assert!(book.bids.iter().all(|l| !l.orders.is_empty()));
    assert!(book.asks.iter().all(|l| !l.orders.is_empty()));
}

#[test]
fn partial_fill_leaves_residual_on_incoming_side() {
    let mut holdings: Vec<(String, AccountHolding)> = Vec::new();
    holdings.push(("VOC".to_string(), 5));
    let mut accounts: Vec<Account> = vec![
        Account::new(1, "John Doe".to_string(), 10000, Vec::new()),
        Account::new(2, "Jane Doe".to_string(), 0, holdings),
    ];
    let mut book = Book::new(1, "Amsterdam".to_string(), "VOC".to_string());
    book.submit(Order::new(1, 2, OrderType::Ask, 100, 5), &mut accounts).unwrap();
    book.submit(Order::new(2, 1, OrderType::Bid, 100, 8), &mut accounts).unwrap();

    assert_eq!(book.ltp(), Some(100));
    assert_eq!(book.top(), (Some(100), None));
    assert_eq!(book.bids.len(), 1);
    assert_eq!(book.bids[0].orders.len(), 1);
    assert_eq!(book.bids[0].orders[0].id(), 2);
    assert_eq!(book.bids[0].orders[0].quantity(), 3);
    assert_eq!(accounts[0].balance(), 9500);
    assert_eq!(accounts[0].holding("VOC".to_string()), Some(5));
    assert_eq!(accounts[1].balance(), 500);
    assert_eq!(accounts[1].holding("VOC".to_string()), Some(0));
}

#[test]
fn multi_level_sweep_matches_best_price_first() {
    let mut h1: Vec<(String, AccountHolding)> = Vec::new();
    h1.push(("VOC".to_string(), 2));
    let mut h2: Vec<(String, AccountHolding)> = Vec::new();
    h2.push(("VOC".to_string(), 3));
    let mut accounts: Vec<Account> = vec![
        Account::new(1, "H1".to_string(), 0, h1),
        Account::new(2, "H2".to_string(), 0, h2),
        Account::new(3, "T".to_string(), 515, Vec::new()),
    ];
    let total_cash_before: u128 =
        accounts.iter().map(|a| a.balance()).sum();
    let mut book = Book::new(1, "Amsterdam".to_string(), "VOC".to_string());
    book.submit(Order::new(10, 1, OrderType::Ask, 100, 2), &mut accounts).unwrap();
    book.submit(Order::new(11, 2, OrderType::Ask, 101, 3), &mut accounts).unwrap();
    // the crossing bid takes the 100-level before the 101-level
    book.submit(Order::new(12, 3, OrderType::Bid, 101, 5), &mut accounts).unwrap();

    assert_eq!(book.ltp(), Some(101));
    assert_eq!(book.top(), (None, None));
    assert_eq!(accounts[0].balance(), 200);
    assert_eq!(accounts[0].holding("VOC".to_string()), Some(0));
    assert_eq!(accounts[1].balance(), 303);
    assert_eq!(accounts[1].holding("VOC".to_string()), Some(0));
    assert_eq!(accounts[2].balance(), 515 - 503);
    assert_eq!(accounts[2].holding("VOC".to_string()), Some(5));
    // value conservation: cash only moved between the participants
    let total_cash_after: u128 = accounts.iter().map(|a| a.balance()).sum();
    assert_eq!(total_cash_before, total_cash_after);
}

#[test]
fn time_priority_within_level() {
    let mut h1: Vec<(String, AccountHolding)> = Vec::new();
    h1.push(("VOC".to_string(), 10));
    let mut h2: Vec<(String, AccountHolding)> = Vec::new();
    h2.push(("VOC".to_string(), 10));
    let mut accounts: Vec<Account> = vec![
        Account::new(1, "First".to_string(), 0, h1),
        Account::new(2, "Second".to_string(), 0, h2),
        Account::new(3, "Taker".to_string(), 1000, Vec::new()),
    ];
    let mut book = Book::new(1, "Amsterdam".to_string(), "VOC".to_string());
    book.submit(Order::new(11, 1, OrderType::Ask, 100, 10), &mut accounts).unwrap();
    book.submit(Order::new(12, 2, OrderType::Ask, 100, 10), &mut accounts).unwrap();
    book.submit(Order::new(13, 3, OrderType::Bid, 100, 10), &mut accounts).unwrap();
    // the earlier ask at the level was matched; the later one still rests
    assert!(!book.order_ids.contains(&11));
    assert!(book.order_ids.contains(&12));
    assert_eq!(accounts[0].balance(), 1000);
    assert_eq!(accounts[1].balance(), 0);
}

#[test]
fn ltp_updates_to_most_recent_fill_and_stays_set() {
    let mut h: Vec<(String, AccountHolding)> = Vec::new();
    h.push(("VOC".to_string(), 20));
    let mut accounts: Vec<Account> = vec![
        Account::new(1, "Buyer".to_string(), 10000, Vec::new()),
        Account::new(2, "Seller".to_string(), 0, h),
    ];
    let mut book = Book::new(1, "Amsterdam".to_string(), "VOC".to_string());
    assert_eq!(book.ltp(), None);
    book.submit(Order::new(1, 2, OrderType::Ask, 100, 5), &mut accounts).unwrap();
    book.submit(Order::new(2, 1, OrderType::Bid, 100, 5), &mut accounts).unwrap();
    assert_eq!(book.ltp(), Some(100));
    book.submit(Order::new(3, 2, OrderType::Ask, 130, 5), &mut accounts).unwrap();
    book.submit(Order::new(4, 1, OrderType::Bid, 130, 5), &mut accounts).unwrap();
    assert_eq!(book.ltp(), Some(130));
    // a non-trading submit leaves the last-traded price in place
    book.submit(Order::new(5, 1, OrderType::Bid, 90, 1), &mut accounts).unwrap();
    assert_eq!(book.ltp(), Some(130));
}

#[test]
fn cancel_then_cancel_again_fails() {
    let mut accounts: Vec<Account> = vec![Account::new(1, "John Doe".to_string(), 1000, Vec::new())];
    let mut book = Book::new(1, "Amsterdam".to_string(), "VOC".to_string());
    book.submit(Order::new(7, 1, OrderType::Bid, 50, 3), &mut accounts).unwrap();
    assert!(book.order_ids.contains(&7));
    assert_eq!(book.cancel(7), Ok(()));
    assert!(!book.order_ids.contains(&7));
    assert_eq!(book.top(), (None, None));
    assert_eq!(book.cancel(7), Err(BookError::OrderNotFound));
}

#[test]
fn cancel_absent_id_fails() {
    let mut book = Book::new(1, "Amsterdam".to_string(), "VOC".to_string());
    assert_eq!(book.cancel(42), Err(BookError::OrderNotFound));
}

#[test]
fn cancel_prunes_emptied_level_and_keeps_others() {
    let mut accounts: Vec<Account> = vec![Account::new(1, "John Doe".to_string(), 1000, Vec::new())];
    let mut book = Book::new(1, "Amsterdam".to_string(), "VOC".to_string());
    book.submit(Order::new(1, 1, OrderType::Bid, 50, 3), &mut accounts).unwrap();
    book.submit(Order::new(2, 1, OrderType::Bid, 60, 3), &mut accounts).unwrap();
    assert_eq!(book.top(), (Some(60), None));
    assert_eq!(book.cancel(2), Ok(()));
    assert_eq!(book.top(), (Some(50), None));
    assert!(book.bids.iter().all(|l| !l.orders.is_empty()));
}

#[test]
fn failed_settlement_surfaces_error_and_moves_nothing() {
    let mut h: Vec<(String, AccountHolding)> = Vec::new();
    h.push(("VOC".to_string(), 5));
    let mut accounts: Vec<Account> = vec![
        Account::new(1, "Poor Buyer".to_string(), 10, Vec::new()),
        Account::new(2, "Seller".to_string(), 0, h),
    ];
    let mut book = Book::new(1, "Amsterdam".to_string(), "VOC".to_string());
    book.submit(Order::new(1, 2, OrderType::Ask, 100, 5), &mut accounts).unwrap();
    // the buyer cannot pay 500; the fill is rejected whole and nothing rests
    let r = book.submit(Order::new(2, 1, OrderType::Bid, 100, 5), &mut accounts);
    assert_eq!(r, Err(AccountError::BalanceOutOfBounds));
    assert_eq!(accounts[0].balance(), 10);
    assert_eq!(accounts[0].holding("VOC".to_string()), None);
    assert_eq!(accounts[1].balance(), 0);
    assert_eq!(accounts[1].holding("VOC".to_string()), Some(5));
    assert_eq!(book.top(), (None, Some(100)));
    assert!(!book.order_ids.contains(&2));
    assert_eq!(book.ltp(), None);
}

#[test]
fn settlement_without_held_asset_is_asset_not_found() {
    let mut accounts: Vec<Account> = vec![
        Account::new(1, "Buyer".to_string(), 1000, Vec::new()),
        Account::new(2, "Empty Seller".to_string(), 0, Vec::new()),
    ];
    let mut book = Book::new(1, "Amsterdam".to_string(), "VOC".to_string());
    book.submit(Order::new(1, 1, OrderType::Bid, 100, 5), &mut accounts).unwrap();
    let r = book.submit(Order::new(2, 2, OrderType::Ask, 100, 5), &mut accounts);
    assert_eq!(r, Err(AccountError::AssetNotFound));
    assert_eq!(accounts[0].balance(), 1000);
    assert_eq!(accounts[1].balance(), 0);
    assert_eq!(book.top(), (Some(100), None));
}

#[test]
fn self_trade_settles_to_no_net_change() {
    let mut h: Vec<(String, AccountHolding)> = Vec::new();
    h.push(("VOC".to_string(), 5));
    let mut accounts: Vec<Account> = vec![Account::new(1, "Selfmatcher".to_string(), 1000, h)];
    let mut book = Book::new(1, "Amsterdam".to_string(), "VOC".to_string());
    book.submit(Order::new(1, 1, OrderType::Ask, 100, 5), &mut accounts).unwrap();
    // no self-trade prevention: the account takes its own resting ask
    book.submit(Order::new(2, 1, OrderType::Bid, 100, 5), &mut accounts).unwrap();
    assert_eq!(book.ltp(), Some(100));
    assert_eq!(book.top(), (None, None));
    assert_eq!(accounts[0].balance(), 1000);
    assert_eq!(accounts[0].holding("VOC".to_string()), Some(5));
}

#[test]
fn fill_amount_overflow_is_rejected() {
    let mut h: Vec<(String, AccountHolding)> = Vec::new();
    h.push(("VOC".to_string(), 2));
    let mut accounts: Vec<Account> = vec![
        Account::new(1, "Buyer".to_string(), u128::MAX, Vec::new()),
        Account::new(2, "Seller".to_string(), 0, h),
    ];
    let mut book = Book::new(1, "Amsterdam".to_string(), "VOC".to_string());
    book.submit(Order::new(1, 2, OrderType::Ask, u128::MAX, 2), &mut accounts).unwrap();
    // the cash amount MAX * 2 is not representable; the fill is rejected
    let r = book.submit(Order::new(2, 1, OrderType::Bid, u128::MAX, 2), &mut accounts);
    assert_eq!(r, Err(AccountError::BalanceOutOfBounds));
    assert_eq!(accounts[0].balance(), u128::MAX);
    assert_eq!(accounts[1].balance(), 0);
    assert_eq!(book.top(), (None, Some(u128::MAX)));
    assert_eq!(book.ltp(), None);
}
