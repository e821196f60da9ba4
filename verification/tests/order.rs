use orderbook::account::Account;
use orderbook::order::{Order, OrderId, OrderPrice, OrderQuantity, OrderType};

#[test]
fn order_test_new_normal() {
    let actual_acct: Account = Account::new(32, "John Doe".to_string(), 100000, Vec::new());

    let order_id: OrderId = 12;
    let order_owner = actual_acct.id();
    let order_type: OrderType = OrderType::Bid;
    let order_price: OrderPrice = 330;
    let order_quantity: OrderQuantity = 50;

    let actual_order: Order = Order::new(order_id, order_owner, order_type, order_price, order_quantity);
    let expected_order: Order = Order {
        id: order_id,
        owner: 32,
        order_type,
        price: order_price,
        quantity: order_quantity,
    };

    assert_eq!(actual_order, expected_order);
}

#[test]
fn order_accessors() {
    let order = Order::new(21, 5, OrderType::Ask, 77, 13);
    assert_eq!(order.id(), 21);
    assert_eq!(order.owner(), 5);
    assert_eq!(order.order_type(), OrderType::Ask);
    assert_eq!(order.price(), 77);
    assert_eq!(order.quantity(), 13);
}

#[test]
fn order_type_labels() {
    assert_eq!(OrderType::Bid.label(), "BID".to_string());
    assert_eq!(OrderType::Ask.label(), "ASK".to_string());
}
