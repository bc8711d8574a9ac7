use orderbook::decimal::Decimal;
use orderbook::order_book::{
    find_border_price, process_order_book_entity, sort_and_filter, trim_order_book_entity,
    OrderBookEntity, OrderType,
};

fn dec(v: i64) -> Decimal {
    Decimal::from_int(v)
}

fn entity(price: i64, qty: i64) -> OrderBookEntity {
    OrderBookEntity { price: dec(price), qty: dec(qty) }
}

fn asks() -> Vec<OrderBookEntity> {
    vec![entity(100, 1), entity(150, 10), entity(200, 2), entity(250, 1)]
}

fn bids() -> Vec<OrderBookEntity> {
    vec![entity(90, 10), entity(85, 100), entity(80, 2), entity(75, 1)]
}

#[test]
fn test_find_border_price() {
    let last_price = dec(200);
    let depth = dec(10);

    let result = find_border_price(last_price, depth, OrderType::Ask);
    let expected = dec(220);
    assert!(result.eq_value(&expected));
    assert_eq!(result.normalize(), expected);

    let result = find_border_price(last_price, depth, OrderType::Bid);
    let expected = dec(180);
    assert!(result.eq_value(&expected));
    assert_eq!(result.normalize(), expected);
}

#[test]
fn test_trim_order_book() {
    let result = trim_order_book_entity(bids(), dec(83), OrderType::Bid);
    let expected = vec![entity(90, 10), entity(85, 100)];
    assert_eq!(result, expected);

    let result = trim_order_book_entity(asks(), dec(200), OrderType::Ask);
    let expected = vec![entity(100, 1), entity(150, 10), entity(200, 2)];
    assert_eq!(result, expected);
}

#[test]
fn test_sort_and_filter() {
    let result = sort_and_filter(bids());
    let expected = vec![entity(85, 100), entity(90, 10), entity(80, 2), entity(75, 1)];
    assert_eq!(result, expected);
}

#[test]
fn ask_side_scenario_ranks_in_band_entries() {
    // lastPrice 200, depth 10% -> askBorder 220; (250, 1) is out of band.
    let result = process_order_book_entity(asks(), dec(200), dec(10), OrderType::Ask);
    let expected = vec![entity(150, 10), entity(200, 2), entity(100, 1)];
    assert_eq!(result, expected);
}

#[test]
fn bid_side_scenario_empties_when_band_misses() {
    // lastPrice 200, depth 10% -> bidBorder 180; no bid reaches it.
    let result = process_order_book_entity(bids(), dec(200), dec(10), OrderType::Bid);
    assert!(result.is_empty());
}

#[test]
fn trim_keeps_boundary_entries_on_both_sides() {
    let result = trim_order_book_entity(vec![entity(220, 5)], dec(220), OrderType::Ask);
    assert_eq!(result, vec![entity(220, 5)]);
    let result = trim_order_book_entity(vec![entity(180, 5)], dec(180), OrderType::Bid);
    assert_eq!(result, vec![entity(180, 5)]);
}

#[test]
fn rank_keeps_at_most_ten_and_is_stable() {
    let mut book = Vec::new();
    for i in 0..12 {
        // Same quantity everywhere: ranking must keep input order.
        book.push(entity(1000 + i, 7));
    }
    let result = sort_and_filter(book);
    assert_eq!(result.len(), 10);
    for i in 0..10 {
        assert_eq!(result[i], entity(1000 + i as i64, 7));
    }
}

#[test]
fn trim_truncates_price_to_four_digits_and_strips_zeros() {
    // 1.234567 -> 1.2345 (truncated, not rounded); quantity untouched.
    let e = OrderBookEntity { price: Decimal::new(1234567, 6).unwrap(), qty: dec(3) };
    let result = trim_order_book_entity(vec![e], dec(10), OrderType::Ask);
    assert_eq!(result.len(), 1);
    assert_eq!(result[0].price, Decimal::new(12345, 4).unwrap());
    assert_eq!(result[0].qty, dec(3));

    // 2.500 keeps its value but drops trailing zeros of the representation.
    let e = OrderBookEntity { price: Decimal::new(2500, 3).unwrap(), qty: dec(1) };
    let result = trim_order_book_entity(vec![e], dec(10), OrderType::Ask);
    assert_eq!(result[0].price, Decimal::new(25, 1).unwrap());
}

#[test]
fn duplicate_prices_survive_without_deduplication() {
    // A paginated feed may repeat a price level; nothing merges them.
    let book = vec![entity(100, 2), entity(100, 2), entity(100, 5)];
    let result = process_order_book_entity(book, dec(200), dec(100), OrderType::Ask);
    let expected = vec![entity(100, 5), entity(100, 2), entity(100, 2)];
    assert_eq!(result, expected);
}

#[test]
fn empty_sides_stay_empty() {
    let result = process_order_book_entity(Vec::new(), dec(200), dec(10), OrderType::Ask);
    assert!(result.is_empty());
    let result = trim_order_book_entity(Vec::new(), dec(220), OrderType::Bid);
    assert!(result.is_empty());
    let result = sort_and_filter(Vec::new());
    assert!(result.is_empty());
}
