use orderbook::decimal::Decimal;
use orderbook::order_book::{OrderBook, OrderBookEntity};
use orderbook::state::{build_filtered_order_book, ExtendedOrderBook};
use orderbook::text::{escape_markdown_v2, to_upper_ascii};

fn dec(v: i64) -> Decimal {
    Decimal::from_int(v)
}

#[test]
fn decimal_comparisons_are_value_comparisons() {
    let two_half = Decimal::new(25, 1).unwrap();
    let two_half_padded = Decimal::new(2500, 3).unwrap();
    assert!(two_half.eq_value(&two_half_padded));
    assert!(two_half.le(&two_half_padded));
    assert!(two_half_padded.ge(&two_half));

    let smaller = Decimal::new(249, 2).unwrap();
    assert!(smaller.le(&two_half));
    assert!(!two_half.le(&smaller));

    let negative = Decimal::new(-1, 0).unwrap();
    assert!(negative.le(&smaller));
}

#[test]
fn decimal_truncates_and_normalizes() {
    let d = Decimal::new(1234567, 6).unwrap(); // 1.234567
    assert_eq!(d.trunc_with_scale(4), Decimal::new(12345, 4).unwrap());
    // Already coarse enough: untouched.
    let d = Decimal::new(15, 1).unwrap();
    assert_eq!(d.trunc_with_scale(4), d);
    // Negative values truncate toward zero.
    let d = Decimal::new(-19999, 4).unwrap(); // -1.9999
    assert_eq!(d.trunc_with_scale(2), Decimal::new(-199, 2).unwrap());

    assert_eq!(Decimal::new(22000, 2).unwrap().normalize(), dec(220));
    assert_eq!(Decimal::new(10500, 3).unwrap().normalize(), Decimal::new(105, 1).unwrap());
    assert_eq!(dec(0).normalize(), dec(0));
}

#[test]
fn decimal_addition_is_exact() {
    let a = Decimal::new(15, 1).unwrap(); // 1.5
    let b = Decimal::new(225, 2).unwrap(); // 2.25
    assert_eq!(a.checked_add_dec(&b), Some(Decimal::new(375, 2).unwrap()));
    let max = Decimal::new(i128::MAX, 0).unwrap();
    assert_eq!(max.checked_add_dec(&dec(1)), None);
}

#[test]
fn volumes_sum_the_quantities() {
    let book = ExtendedOrderBook {
        symbol: "SOLUSDT".to_string(),
        asks: vec![
            OrderBookEntity { price: dec(100), qty: dec(1) },
            OrderBookEntity { price: dec(150), qty: Decimal::new(25, 1).unwrap() },
        ],
        bids: vec![],
        last_price: dec(200),
        depth: dec(10),
    };
    assert!(book.asks_volume().unwrap().eq_value(&Decimal::new(35, 1).unwrap()));
    assert!(book.bids_volume().unwrap().eq_value(&dec(0)));
}

#[test]
fn filtered_book_assembles_both_sides() {
    let book = OrderBook {
        asks: vec![
            OrderBookEntity { price: dec(100), qty: dec(1) },
            OrderBookEntity { price: dec(150), qty: dec(10) },
            OrderBookEntity { price: dec(200), qty: dec(2) },
            OrderBookEntity { price: dec(250), qty: dec(1) },
        ],
        bids: vec![
            OrderBookEntity { price: dec(90), qty: dec(10) },
            OrderBookEntity { price: dec(85), qty: dec(100) },
        ],
    };
    let fb = build_filtered_order_book("SOLUSDT".to_string(), book, dec(200), dec(10)).unwrap();
    assert_eq!(fb.symbol, "SOLUSDT");
    assert_eq!(fb.asks.len(), 3);
    assert_eq!(fb.asks[0], OrderBookEntity { price: dec(150), qty: dec(10) });
    assert!(fb.bids.is_empty());
    assert_eq!(fb.last_price, dec(200));
    assert_eq!(fb.depth, dec(10));
}

#[test]
fn uppercasing_touches_only_ascii_letters() {
    assert_eq!(to_upper_ascii("sol"), "SOL");
    assert_eq!(to_upper_ascii("Sol1usdt"), "SOL1USDT");
    assert_eq!(to_upper_ascii("ABC-def"), "ABC-DEF");
}

#[test]
fn markdown_escaping_marks_structural_characters() {
    assert_eq!(escape_markdown_v2("a.b*c".to_string()), "a\\.b*c");
    assert_eq!(escape_markdown_v2("(x)!".to_string()), "\\(x\\)\\!");
    assert_eq!(escape_markdown_v2("_bold_".to_string()), "_bold_");
    assert_eq!(escape_markdown_v2("1+1=2".to_string()), "1\\+1\\=2");
}
