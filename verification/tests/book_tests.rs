use orderbook::book::OrderBook;
use orderbook::types::{OrderError, Side};

fn empty_book() -> OrderBook {
    OrderBook::new("Valhalla/USD".to_string())
}

#[test]
fn test_valcoin_pricing() {
    let mut book = OrderBook::new("Valhalla/USD".to_string());

    // Valhalla prices around $1000: price in cents, quantity in 1e-4 units.
    let trades = book.place_order(Side::Buy, 100000, 100000, 1).unwrap();
    assert!(trades.is_empty());

    let trades = book.place_order(Side::Sell, 100000, 50000, 2).unwrap();
    assert_eq!(trades.len(), 1);
    assert_eq!(trades[0].price, 100000);
}

#[test]
fn test_resting_buy_then_two_sells() {
    let mut book = empty_book();

    // A buy rests in an empty book.
    let trades = book.place_order(Side::Buy, 100000, 100000, 1).unwrap();
    assert!(trades.is_empty());
    assert_eq!(book.best_buy(), Some((100000, 100000)));
    assert_eq!(book.best_sell(), None);

    // A sell for half the size trades at the maker's price.
    let trades = book.place_order(Side::Sell, 100000, 50000, 2).unwrap();
    assert_eq!(trades.len(), 1);
    assert_eq!(trades[0].price, 100000);
    assert_eq!(trades[0].quantity, 50000);
    assert_eq!(trades[0].maker_id, 1);
    assert_eq!(trades[0].taker_id, 2);
    assert_eq!(book.best_buy(), Some((100000, 50000)));

    // A second sell drains the level; the level disappears with it.
    let trades = book.place_order(Side::Sell, 100000, 50000, 3).unwrap();
    assert_eq!(trades.len(), 1);
    assert_eq!(trades[0].price, 100000);
    assert_eq!(trades[0].quantity, 50000);
    assert_eq!(trades[0].maker_id, 1);
    assert_eq!(trades[0].taker_id, 3);
    assert_eq!(book.best_buy(), None);
    assert_eq!(book.best_sell(), None);
}

#[test]
fn test_time_priority_at_one_level() {
    let mut book = empty_book();

    book.place_order(Side::Buy, 99000, 10, 10).unwrap();
    book.place_order(Side::Buy, 99000, 10, 11).unwrap();

    // The earlier arrival at the level is hit first.
    let trades = book.place_order(Side::Sell, 99000, 5, 12).unwrap();
    assert_eq!(trades.len(), 1);
    assert_eq!(trades[0].maker_id, 10);
    assert_eq!(trades[0].quantity, 5);
    assert_eq!(book.best_buy(), Some((99000, 15)));

    // The partially filled order keeps the front of the level.
    let trades = book.place_order(Side::Sell, 99000, 5, 13).unwrap();
    assert_eq!(trades.len(), 1);
    assert_eq!(trades[0].maker_id, 10);
    assert_eq!(book.best_buy(), Some((99000, 10)));

    // Only once it is gone does the later arrival trade.
    let trades = book.place_order(Side::Sell, 99000, 5, 14).unwrap();
    assert_eq!(trades.len(), 1);
    assert_eq!(trades[0].maker_id, 11);
    assert_eq!(book.best_buy(), Some((99000, 5)));
}

#[test]
fn test_partial_fill_keeps_place_against_newcomers() {
    let mut book = empty_book();

    book.place_order(Side::Buy, 99000, 10, 1).unwrap();
    // Partially fill the resting order.
    let trades = book.place_order(Side::Sell, 99000, 4, 2).unwrap();
    assert_eq!(trades.len(), 1);
    assert_eq!(trades[0].maker_id, 1);
    // A later arrival joins the back of the same level.
    book.place_order(Side::Buy, 99000, 7, 3).unwrap();
    assert_eq!(book.best_buy(), Some((99000, 13)));

    // The remainder of the first order still trades before the newcomer.
    let trades = book.place_order(Side::Sell, 99000, 8, 4).unwrap();
    assert_eq!(trades.len(), 2);
    assert_eq!(trades[0].maker_id, 1);
    assert_eq!(trades[0].quantity, 6);
    assert_eq!(trades[1].maker_id, 3);
    assert_eq!(trades[1].quantity, 2);
    assert_eq!(book.best_buy(), Some((99000, 5)));
}

#[test]
fn test_buy_with_no_asks_rests() {
    let mut book = empty_book();
    let trades = book.place_order(Side::Buy, 500, 10, 1).unwrap();
    assert!(trades.is_empty());
    assert_eq!(book.best_sell(), None);
    assert_eq!(book.best_buy(), Some((500, 10)));
}

#[test]
fn test_walk_across_levels_and_rest() {
    let mut book = empty_book();
    book.place_order(Side::Sell, 100, 5, 1).unwrap();
    book.place_order(Side::Sell, 101, 5, 2).unwrap();

    // A large buy takes both levels at their own prices and rests.
    let trades = book.place_order(Side::Buy, 102, 20, 3).unwrap();
    assert_eq!(trades.len(), 2);
    assert_eq!((trades[0].price, trades[0].quantity, trades[0].maker_id), (100, 5, 1));
    assert_eq!((trades[1].price, trades[1].quantity, trades[1].maker_id), (101, 5, 2));
    // Quantity conservation: 5 + 5 traded, 10 rests.
    assert_eq!(book.best_sell(), None);
    assert_eq!(book.best_buy(), Some((102, 10)));
}

#[test]
fn test_price_improvement_goes_to_taker() {
    let mut book = empty_book();
    book.place_order(Side::Sell, 100, 5, 1).unwrap();
    // A buy limit above the ask trades at the maker's (lower) price.
    let trades = book.place_order(Side::Buy, 105, 5, 2).unwrap();
    assert_eq!(trades.len(), 1);
    assert_eq!(trades[0].price, 100);
}

#[test]
fn test_rejection_has_no_side_effects() {
    let mut book = empty_book();
    book.place_order(Side::Buy, 99000, 10, 1).unwrap();
    book.place_order(Side::Sell, 101000, 10, 2).unwrap();
    let bids_before = book.depth_snapshot(Side::Buy, 10);
    let asks_before = book.depth_snapshot(Side::Sell, 10);

    assert_eq!(book.place_order(Side::Buy, 99000, 0, 3), Err(OrderError::InvalidQuantity));
    assert_eq!(book.place_order(Side::Sell, 0, 10, 4), Err(OrderError::InvalidPrice));
    assert_eq!(book.place_order(Side::Buy, -5, -5, 5), Err(OrderError::InvalidQuantity));

    assert_eq!(book.depth_snapshot(Side::Buy, 10), bids_before);
    assert_eq!(book.depth_snapshot(Side::Sell, 10), asks_before);
    // The sequencer did not advance either: the next accepted order still
    // trades ahead of any later arrival at its price.
    let trades = book.place_order(Side::Sell, 99000, 5, 6).unwrap();
    assert_eq!(trades[0].maker_id, 1);
}

#[test]
fn test_depth_snapshot_orders_levels_best_first() {
    let mut book = empty_book();
    book.place_order(Side::Buy, 995, 10, 1).unwrap();
    book.place_order(Side::Buy, 990, 20, 2).unwrap();
    book.place_order(Side::Buy, 995, 5, 3).unwrap();
    book.place_order(Side::Buy, 980, 7, 4).unwrap();
    book.place_order(Side::Sell, 1005, 9, 5).unwrap();
    book.place_order(Side::Sell, 1010, 11, 6).unwrap();

    let bids = book.depth_snapshot(Side::Buy, 2);
    assert_eq!(bids, vec![(995, 15, 2), (990, 20, 1)]);
    let bids_all = book.depth_snapshot(Side::Buy, 10);
    assert_eq!(bids_all, vec![(995, 15, 2), (990, 20, 1), (980, 7, 1)]);
    let asks = book.depth_snapshot(Side::Sell, 10);
    assert_eq!(asks, vec![(1005, 9, 1), (1010, 11, 1)]);
    assert_eq!(book.depth_snapshot(Side::Sell, 0), vec![]);
}

#[test]
fn test_quantity_conservation_arithmetic() {
    let mut book = empty_book();
    book.place_order(Side::Sell, 100, 7, 1).unwrap();
    book.place_order(Side::Sell, 102, 9, 2).unwrap();

    let submitted = 20i64;
    let trades = book.place_order(Side::Buy, 102, submitted, 3).unwrap();
    let traded: i64 = trades.iter().map(|t| t.quantity).sum();
    let residual = book.best_buy().map(|(_, q)| q).unwrap_or(0);
    assert_eq!(traded + residual, submitted);
}

#[test]
fn test_extreme_quantities_match_exactly() {
    let mut book = empty_book();
    let trades = book.place_order(Side::Buy, 1, i64::MAX, 1).unwrap();
    assert!(trades.is_empty());
    assert_eq!(book.best_buy(), Some((1, i64::MAX)));

    let trades = book.place_order(Side::Sell, 1, i64::MAX, 2).unwrap();
    assert_eq!(trades.len(), 1);
    assert_eq!(trades[0].quantity, i64::MAX);
    assert_eq!(book.best_buy(), None);
    assert_eq!(book.best_sell(), None);
}

#[test]
fn test_non_crossing_after_each_call() {
    let mut book = empty_book();
    let orders = [
        (Side::Buy, 995, 15),
        (Side::Sell, 1005, 20),
        (Side::Buy, 1006, 10),
        (Side::Sell, 990, 40),
        (Side::Buy, 991, 3),
        (Side::Sell, 991, 3),
    ];
    let mut id = 1u64;
    for (side, price, qty) in orders {
        book.place_order(side, price, qty, id).unwrap();
        id += 1;
        if let (Some((bid, _)), Some((ask, _))) = (book.best_buy(), book.best_sell()) {
            assert!(bid < ask);
        }
    }
}
