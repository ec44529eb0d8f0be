use card_exchange::order_manager::{Action, FilledOrder, OrderManager, PendingOrder};

#[test]
fn test_match_with_same_price() {
    let mut order_manager = OrderManager::new();
    let order1 = PendingOrder { id: 1, side: Action::Buy, price: 100, card_id: 0 };
    assert!(order_manager.add_order(order1).is_none());
    let order2 = PendingOrder { id: 2, side: Action::Sell, price: 100, card_id: 0 };
    let filled_order = order_manager.add_order(order2);
    match filled_order {
        Some(o) => {
            assert_eq!(
                FilledOrder { buy_order: 1, sell_order: 2, price: 100, card_id: 0, first_order_id: 1 },
                o
            );
        }
        None => assert!(false),
    }
}

#[test]
fn test_match_with_first_come_order() {
    let mut order_manager = OrderManager::new();
    let order1 = PendingOrder { id: 1, side: Action::Buy, price: 100, card_id: 0 };
    assert!(order_manager.add_order(order1).is_none());
    let order2 = PendingOrder { id: 2, side: Action::Buy, price: 100, card_id: 0 };
    assert!(order_manager.add_order(order2).is_none());
    let order3 = PendingOrder { id: 3, side: Action::Sell, price: 100, card_id: 0 };
    let filled_order = order_manager.add_order(order3);
    match filled_order {
        Some(o) => {
            assert_eq!(
                FilledOrder { buy_order: 1, sell_order: 3, price: 100, card_id: 0, first_order_id: 1 },
                o
            );
        }
        None => assert!(false),
    }
}

#[test]
fn test_different_card_not_matching() {
    // different card_id should not affect each other
    let mut order_manager = OrderManager::new();
    let order1 = PendingOrder { id: 1, side: Action::Buy, price: 100, card_id: 0 };
    assert!(order_manager.add_order(order1).is_none());
    let order2 = PendingOrder { id: 2, side: Action::Sell, price: 100, card_id: 1 };
    assert!(order_manager.add_order(order2).is_none());
}

#[test]
fn test_not_match_with_higher_sell_price() {
    let mut order_manager = OrderManager::new();
    let order1 = PendingOrder { id: 1, side: Action::Buy, price: 100, card_id: 0 };
    assert!(order_manager.add_order(order1).is_none());
    let order2 = PendingOrder { id: 2, side: Action::Sell, price: 101, card_id: 0 };
    assert!(order_manager.add_order(order2).is_none());
}

#[test]
fn test_not_match_with_lower_buy_price() {
    let mut order_manager = OrderManager::new();
    let order1 = PendingOrder { id: 1, side: Action::Sell, price: 101, card_id: 0 };
    assert!(order_manager.add_order(order1).is_none());
    let order2 = PendingOrder { id: 2, side: Action::Buy, price: 100, card_id: 0 };
    assert!(order_manager.add_order(order2).is_none());
}

#[test]
fn test_higher_buy_price_should_be_matched_first() {
    let mut order_manager = OrderManager::new();
    let order1 = PendingOrder { id: 1, side: Action::Buy, price: 100, card_id: 0 };
    assert!(order_manager.add_order(order1).is_none());
    let order2 = PendingOrder { id: 2, side: Action::Buy, price: 102, card_id: 0 };
    assert!(order_manager.add_order(order2).is_none());
    let order3 = PendingOrder { id: 3, side: Action::Sell, price: 99, card_id: 0 };
    let filled_order = order_manager.add_order(order3);
    match filled_order {
        Some(o) => {
            assert_eq!(
                FilledOrder { buy_order: 2, sell_order: 3, price: 102, card_id: 0, first_order_id: 2 },
                o
            );
        }
        None => assert!(false),
    }
}

#[test]
fn test_lower_sell_price_should_be_matched_first() {
    let mut order_manager = OrderManager::new();
    let order1 = PendingOrder { id: 1, side: Action::Sell, price: 101, card_id: 0 };
    assert!(order_manager.add_order(order1).is_none());
    let order2 = PendingOrder { id: 2, side: Action::Sell, price: 100, card_id: 0 };
    assert!(order_manager.add_order(order2).is_none());
    let order3 = PendingOrder { id: 3, side: Action::Buy, price: 101, card_id: 0 };
    let filled_order = order_manager.add_order(order3);
    match filled_order {
        Some(o) => {
            assert_eq!(
                FilledOrder { buy_order: 3, sell_order: 2, price: 100, card_id: 0, first_order_id: 2 },
                o
            );
        }
        None => assert!(false),
    }
}
