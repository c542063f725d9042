use evonomics::market::{run_market, Book, Order};
use evonomics::sim::Cell;

fn cell_with(food: u32, money: u32) -> Cell {
    let mut c = Cell::empty();
    c.food = food;
    c.money = money;
    c
}

fn total_money(cells: &Vec<Cell>) -> u64 {
    cells.iter().map(|c| c.money as u64).sum()
}

#[test]
fn bid_then_ask_fills_at_the_ask_rate() {
    // a bid for 3 at rate 5 rests; an ask of 4 at rate 3 then clears it
    let mut cells = vec![cell_with(0, 100), cell_with(10, 0)];
    let mut book = Book::new();
    let mut reserve: u32 = 1000;
    let orders = vec![
        Order { index: 0, rate: 5, food: -3 },
        Order { index: 1, rate: 3, food: 4 },
    ];
    let outcome = run_market(&mut cells, &mut book, &mut reserve, orders);
    // exactly min(3, 4) == 3 units trade, at rate 3
    assert_eq!(outcome.buy_volume, 3);
    assert_eq!(outcome.sell_volume, 3);
    assert_eq!(cells[0].money, 91);
    assert_eq!(cells[0].food, 3);
    assert_eq!(cells[1].money, 9);
    assert_eq!(cells[1].food, 7);
    // one unit is left resting as an ask; no bid rests
    assert_eq!(book.best_ask(), Some(3));
    assert_eq!(book.best_bid(), None);
    assert_eq!(reserve, 1000);
}

#[test]
fn lone_ask_at_rate_one_clears_against_the_reserve() {
    let mut cells = vec![cell_with(5, 0)];
    let mut book = Book::new();
    let mut reserve: u32 = 100;
    let orders = vec![Order { index: 0, rate: 1, food: 4 }];
    let outcome = run_market(&mut cells, &mut book, &mut reserve, orders);
    assert_eq!(outcome.sell_volume, 4);
    assert_eq!(outcome.buy_volume, 0);
    assert_eq!(cells[0].money, 4);
    assert_eq!(cells[0].food, 1);
    assert_eq!(reserve, 96);
    assert_eq!(book.best_ask(), None);
    assert_eq!(book.best_bid(), None);
}

#[test]
fn expensive_ask_rests_instead_of_selling_to_the_reserve() {
    let mut cells = vec![cell_with(5, 0)];
    let mut book = Book::new();
    let mut reserve: u32 = 100;
    let orders = vec![Order { index: 0, rate: 7, food: 4 }];
    run_market(&mut cells, &mut book, &mut reserve, orders);
    assert_eq!(cells[0].money, 0);
    assert_eq!(cells[0].food, 5);
    assert_eq!(reserve, 100);
    assert_eq!(book.best_ask(), Some(7));
}

#[test]
fn unmatched_bid_rests() {
    let mut cells = vec![cell_with(0, 50)];
    let mut book = Book::new();
    let mut reserve: u32 = 10;
    run_market(
        &mut cells,
        &mut book,
        &mut reserve,
        vec![Order { index: 0, rate: 2, food: -5 }],
    );
    assert_eq!(book.best_bid(), Some(2));
    assert_eq!(cells[0].money, 50);
    assert_eq!(reserve, 10);
}

#[test]
fn bid_sweeps_several_resting_asks_cheapest_first() {
    // two resting asks at rates 2 and 4; a bid at rate 4 takes both
    let mut cells = vec![
        cell_with(0, 100),
        cell_with(10, 0),
        cell_with(10, 0),
    ];
    let mut book = Book::new();
    let mut reserve: u32 = 0;
    run_market(
        &mut cells,
        &mut book,
        &mut reserve,
        vec![
            Order { index: 1, rate: 4, food: 2 },
            Order { index: 2, rate: 2, food: 2 },
            Order { index: 0, rate: 4, food: -3 },
        ],
    );
    // the cheap ask (rate 2) fills first for 2 units, then 1 unit at rate 4
    assert_eq!(cells[2].money, 4);
    assert_eq!(cells[2].food, 8);
    assert_eq!(cells[1].money, 4);
    assert_eq!(cells[1].food, 9);
    assert_eq!(cells[0].money, 100 - 4 - 4);
    assert_eq!(cells[0].food, 3);
    // the dearer ask keeps one unit resting
    assert_eq!(book.best_ask(), Some(4));
}

#[test]
fn market_conserves_money_with_reserve() {
    let mut cells = vec![cell_with(5, 30), cell_with(8, 20), cell_with(0, 50)];
    let mut book = Book::new();
    let mut reserve: u32 = 40;
    let before = total_money(&cells) + reserve as u64;
    run_market(
        &mut cells,
        &mut book,
        &mut reserve,
        vec![
            Order { index: 0, rate: 1, food: 4 },
            Order { index: 2, rate: 3, food: -6 },
            Order { index: 1, rate: 2, food: 5 },
        ],
    );
    assert_eq!(total_money(&cells) + reserve as u64, before);
}
