//! The double-auction market: trade intents collected by the step phase
//! are matched against two resting order books (a double-ended priority
//! queue each) and against a conserved central reserve that buys and sells
//! food at one money per unit. Money only ever moves between two cells or
//! between a cell and the reserve, so the total over the grid plus the
//! reserve never changes.
use vstd::prelude::*;
use vstd::multiset::Multiset;
use crate::sim::Cell;
use crate::sim::sum_money;

verus! {

#[verifier::external_type_specification]
#[verifier::external_body]
#[verifier::reject_recursive_types(T)]
pub struct ExMinMaxHeap<T>(min_max_heap::MinMaxHeap<T>);

/// What a book heap holds: each resting order as (rate, cell index,
/// signed food quantity).
pub uninterp spec fn heap_orders(h: min_max_heap::MinMaxHeap<(i32, usize, i32)>) -> Multiset<
    (i32, usize, i32),
>;

/// The lexicographic order on order tuples, the order std derives for
/// tuples of integers and the heap sorts by.
pub open spec fn lex_leq(a: (i32, usize, i32), b: (i32, usize, i32)) -> bool {
    ||| a.0 < b.0
    ||| (a.0 == b.0 && a.1 < b.1)
    ||| (a.0 == b.0 && a.1 == b.1 && a.2 <= b.2)
}

/// The lexicographic order is antisymmetric, so the least and greatest
/// elements of a non-empty multiset are unique values.
pub proof fn lemma_lex_antisymmetric(a: (i32, usize, i32), b: (i32, usize, i32))
    requires
        lex_leq(a, b),
        lex_leq(b, a),
    ensures
        a == b,
{
}

/// The least element of a heap's contents, in the lexicographic order.
pub open spec fn ms_min(m: Multiset<(i32, usize, i32)>) -> (i32, usize, i32) {
    choose|t: (i32, usize, i32)|
        m.count(t) > 0 && forall|x: (i32, usize, i32)| #[trigger] m.count(x) > 0 ==> lex_leq(t, x)
}

/// The greatest element of a heap's contents, in the lexicographic order.
pub open spec fn ms_max(m: Multiset<(i32, usize, i32)>) -> (i32, usize, i32) {
    choose|t: (i32, usize, i32)|
        m.count(t) > 0 && forall|x: (i32, usize, i32)| #[trigger] m.count(x) > 0 ==> lex_leq(x, t)
}

/// Any element below every other one is the unique least element.
proof fn lemma_ms_min_unique(m: Multiset<(i32, usize, i32)>, t: (i32, usize, i32))
    requires
        m.count(t) > 0,
        forall|x: (i32, usize, i32)| #[trigger] m.count(x) > 0 ==> lex_leq(t, x),
    ensures
        ms_min(m) == t,
{
    let c = ms_min(m);
    assert(m.count(c) > 0 && forall|x: (i32, usize, i32)|
        #[trigger] m.count(x) > 0 ==> lex_leq(c, x));
    lemma_lex_antisymmetric(c, t);
}

/// Any element above every other one is the unique greatest element.
proof fn lemma_ms_max_unique(m: Multiset<(i32, usize, i32)>, t: (i32, usize, i32))
    requires
        m.count(t) > 0,
        forall|x: (i32, usize, i32)| #[trigger] m.count(x) > 0 ==> lex_leq(x, t),
    ensures
        ms_max(m) == t,
{
    let c = ms_max(m);
    assert(m.count(c) > 0 && forall|x: (i32, usize, i32)|
        #[trigger] m.count(x) > 0 ==> lex_leq(x, c));
    lemma_lex_antisymmetric(t, c);
}

/// Taking an element out and putting it back leaves the contents.
proof fn lemma_remove_insert(m: Multiset<(i32, usize, i32)>, t: (i32, usize, i32))
    requires
        m.count(t) > 0,
    ensures
        m.remove(t).insert(t) == m,
{
    broadcast use vstd::multiset::group_multiset_axioms;

    assert(m.remove(t).insert(t) =~= m);
}

/// A fill's exec effect, seen whole: the per-cell formulas of one
/// transfer assemble into the spec-level cell row.
proof fn lemma_fill_matches(
    pre: Seq<Cell>,
    post: Seq<Cell>,
    buyer: int,
    seller: int,
    rate: int,
    n: int,
)
    requires
        0 <= buyer < pre.len(),
        0 <= seller < pre.len(),
        cells_frame(pre, post),
        buyer != seller ==> {
            let pay = clamp_pay(rate * n, pre[seller].money as int, pre[buyer].money as int);
            &&& post[buyer].money == pre[buyer].money - pay
            &&& post[seller].money == pre[seller].money + pay
            &&& post[seller].food as int == (if pre[seller].food as int >= n {
                pre[seller].food - n
            } else {
                0int
            })
            &&& post[buyer].food as int == crate::sim::sat_u32(
                pre[buyer].food + (if pre[seller].food as int >= n {
                    n
                } else {
                    pre[seller].food as int
                }),
            )
        },
        buyer == seller ==> post == pre,
        forall|i: int|
            0 <= i < pre.len() && i != buyer && i != seller ==> (#[trigger] post[i]).money
                == pre[i].money && post[i].food == pre[i].food,
    ensures
        post == spec_fill(pre, buyer, seller, rate, n),
{
    if buyer != seller {
        assert(post =~= spec_fill(pre, buyer, seller, rate, n));
    }
}

/// Relies on min-max-heap's MinMaxHeap::new: a fresh heap is empty.
#[verifier::external_body]
fn heap_new() -> (r: min_max_heap::MinMaxHeap<(i32, usize, i32)>)
    ensures
        heap_orders(r) == Multiset::<(i32, usize, i32)>::empty(),
{
    min_max_heap::MinMaxHeap::new()
}

/// Relies on min-max-heap's MinMaxHeap::push: the element joins the
/// heap's contents.
#[verifier::external_body]
fn heap_push(h: &mut min_max_heap::MinMaxHeap<(i32, usize, i32)>, v: (i32, usize, i32))
    ensures
        heap_orders(*final(h)) == heap_orders(*old(h)).insert(v),
{
    h.push(v)
}

/// Relies on min-max-heap's MinMaxHeap::pop_min: on a non-empty heap it
/// removes and returns the least element in the lexicographic tuple
/// order, so in particular one whose rate no other element undercuts.
#[verifier::external_body]
fn heap_pop_min(h: &mut min_max_heap::MinMaxHeap<(i32, usize, i32)>) -> (r: Option<
    (i32, usize, i32),
>)
    ensures
        match r {
            None => heap_orders(*old(h)).len() == 0 && heap_orders(*final(h)) == heap_orders(
                *old(h),
            ),
            Some(m) => heap_orders(*old(h)).count(m) > 0 && heap_orders(*final(h)) == heap_orders(
                *old(h),
            ).remove(m) && forall|x: (i32, usize, i32)|
                #[trigger] heap_orders(*old(h)).count(x) > 0 ==> lex_leq(m, x),
        },
{
    h.pop_min()
}

/// Relies on min-max-heap's MinMaxHeap::pop_max: on a non-empty heap it
/// removes and returns the greatest element in the lexicographic tuple
/// order, so in particular one whose rate no other element exceeds.
#[verifier::external_body]
fn heap_pop_max(h: &mut min_max_heap::MinMaxHeap<(i32, usize, i32)>) -> (r: Option<
    (i32, usize, i32),
>)
    ensures
        match r {
            None => heap_orders(*old(h)).len() == 0 && heap_orders(*final(h)) == heap_orders(
                *old(h),
            ),
            Some(m) => heap_orders(*old(h)).count(m) > 0 && heap_orders(*final(h)) == heap_orders(
                *old(h),
            ).remove(m) && forall|x: (i32, usize, i32)|
                #[trigger] heap_orders(*old(h)).count(x) > 0 ==> lex_leq(x, m),
        },
{
    h.pop_max()
}

/// Relies on min-max-heap's MinMaxHeap::peek_min: a copy of the least
/// element (by the lexicographic tuple order), the heap unchanged.
#[verifier::external_body]
fn heap_peek_min(h: &min_max_heap::MinMaxHeap<(i32, usize, i32)>) -> (r: Option<
    (i32, usize, i32),
>)
    ensures
        match r {
            None => heap_orders(*h).len() == 0,
            Some(m) => heap_orders(*h).count(m) > 0 && forall|x: (i32, usize, i32)|
                #[trigger] heap_orders(*h).count(x) > 0 ==> m.0 <= x.0,
        },
{
    h.peek_min().copied()
}

/// Relies on min-max-heap's MinMaxHeap::peek_max: a copy of the greatest
/// element (by the lexicographic tuple order), the heap unchanged.
#[verifier::external_body]
fn heap_peek_max(h: &min_max_heap::MinMaxHeap<(i32, usize, i32)>) -> (r: Option<
    (i32, usize, i32),
>)
    ensures
        match r {
            None => heap_orders(*h).len() == 0,
            Some(m) => heap_orders(*h).count(m) > 0 && forall|x: (i32, usize, i32)|
                #[trigger] heap_orders(*h).count(x) > 0 ==> m.0 >= x.0,
        },
{
    h.peek_max().copied()
}

/// A trade intent extracted from one cell: `food` negative bids to buy
/// that much food, positive asks to sell it, at `rate` money per unit.
#[derive(Clone, Copy, PartialEq, Eq, Structural, Debug)]
pub struct Order {
    pub index: usize,
    pub rate: i32,
    pub food: i32,
}

/// Every resting order addresses a cell of the grid, carries a clamped
/// rate and quantity, and still wants a nonzero quantity of the right
/// sign: negative for bids, positive for asks.
pub open spec fn book_side_wf(m: Multiset<(i32, usize, i32)>, n: int, asks: bool) -> bool {
    forall|t: (i32, usize, i32)|
        #[trigger] m.count(t) > 0 ==> {
            &&& t.1 < n
            &&& -(crate::codon::TRADE_CLAMP as int) <= t.0 <= crate::codon::TRADE_CLAMP as int
            &&& -(crate::codon::TRADE_CLAMP as int) <= t.2 <= crate::codon::TRADE_CLAMP as int
            &&& (if asks {
                t.2 > 0
            } else {
                t.2 < 0
            })
        }
}

/// The resting order book, persistent across ticks: bids await a cheap
/// ask, asks await a high bid.
pub struct Book {
    pub bids: min_max_heap::MinMaxHeap<(i32, usize, i32)>,
    pub asks: min_max_heap::MinMaxHeap<(i32, usize, i32)>,
}

impl Book {
    pub open spec fn wf(self, n: int) -> bool {
        &&& book_side_wf(heap_orders(self.bids), n, false)
        &&& book_side_wf(heap_orders(self.asks), n, true)
    }

    /// An empty book.
    pub fn new() -> (r: Book)
        ensures
            heap_orders(r.bids) == Multiset::<(i32, usize, i32)>::empty(),
            heap_orders(r.asks) == Multiset::<(i32, usize, i32)>::empty(),
            forall|n: int| r.wf(n),
    {
        let r = Book { bids: heap_new(), asks: heap_new() };
        proof {
            broadcast use vstd::multiset::group_multiset_axioms;

            assert forall|n: int| r.wf(n) by {
                assert(forall|t: (i32, usize, i32)| heap_orders(r.bids).count(t) == 0);
                assert(forall|t: (i32, usize, i32)| heap_orders(r.asks).count(t) == 0);
            }
        }
        r
    }

    /// The best resting bid rate: the highest rate among the resting
    /// bids, or nothing when no bid rests.
    pub fn best_bid(&self) -> (r: Option<i32>)
        ensures
            r is Some <==> heap_orders(self.bids).len() > 0,
            is_top_rate(heap_orders(self.bids), r, true),
    {
        match heap_peek_max(&self.bids) {
            Some(t) => Some(t.0),
            None => {
                proof {
                    broadcast use vstd::multiset::group_multiset_axioms;

                }
                None
            },
        }
    }

    /// The best resting ask rate: the lowest rate among the resting
    /// asks, or nothing when no ask rests.
    pub fn best_ask(&self) -> (r: Option<i32>)
        ensures
            r is Some <==> heap_orders(self.asks).len() > 0,
            is_top_rate(heap_orders(self.asks), r, false),
    {
        match heap_peek_min(&self.asks) {
            Some(t) => Some(t.0),
            None => {
                proof {
                    broadcast use vstd::multiset::group_multiset_axioms;

                }
                None
            },
        }
    }
}

/// `r` reports the extreme rate of a book side: the rate of some resting
/// order that no other resting order beats (the highest rate when
/// `highest`, else the lowest), or nothing on an empty side.
pub open spec fn is_top_rate(
    m: Multiset<(i32, usize, i32)>,
    r: Option<i32>,
    highest: bool,
) -> bool {
    match r {
        None => m.len() == 0,
        Some(rate) => exists|t: (i32, usize, i32)|
            #[trigger] m.count(t) > 0 && t.0 == rate && forall|x: (i32, usize, i32)|
                #[trigger] m.count(x) > 0 ==> (if highest {
                    x.0 <= rate
                } else {
                    rate <= x.0
                }),
    }
}

/// Every cell keeps its type, occupant, signal and trade slot through a
/// market operation; only food and money move.
pub open spec fn cells_frame(pre: Seq<Cell>, post: Seq<Cell>) -> bool {
    &&& post.len() == pre.len()
    &&& forall|i: int|
        0 <= i < pre.len() ==> {
            &&& (#[trigger] post[i]).ty == pre[i].ty
            &&& post[i].brain == pre[i].brain
            &&& post[i].signal == pre[i].signal
            &&& post[i].trade == pre[i].trade
        }
}

/// Replacing one cell of the grid shifts the money sum by the difference.
pub proof fn lemma_sum_money_update(cells: Seq<Cell>, i: int, c: Cell)
    requires
        0 <= i < cells.len(),
    ensures
        sum_money(cells.update(i, c)) == sum_money(cells) - cells[i].money + c.money,
    decreases cells.len(),
{
    if cells.len() > 0 {
        if i == cells.len() - 1 {
            assert(cells.update(i, c).drop_last() =~= cells.drop_last());
            assert(cells.update(i, c).last() == c);
        } else {
            assert(cells.update(i, c).drop_last() =~= cells.drop_last().update(i, c));
            assert(cells.update(i, c).last() == cells.last());
            lemma_sum_money_update(cells.drop_last(), i, c);
        }
    }
}

/// Money sums are sums of nonnegative cell holdings: every cell holds at
/// most the whole sum.
pub proof fn lemma_sum_money_bounds(cells: Seq<Cell>, i: int)
    requires
        0 <= i < cells.len(),
    ensures
        0 <= cells[i].money <= sum_money(cells),
        sum_money(cells) >= 0,
    decreases cells.len(),
{
    lemma_sum_money_nonneg(cells);
    if cells.len() > 0 {
        if i == cells.len() - 1 {
            lemma_sum_money_nonneg(cells.drop_last());
        } else {
            lemma_sum_money_bounds(cells.drop_last(), i);
        }
    }
}

/// The money sum is never negative.
pub proof fn lemma_sum_money_nonneg(cells: Seq<Cell>)
    ensures
        sum_money(cells) >= 0,
    decreases cells.len(),
{
    if cells.len() > 0 {
        lemma_sum_money_nonneg(cells.drop_last());
    }
}

/// Take the cell at `i` out, to edit and put back.
pub(crate) fn take_cell(cells: &mut Vec<Cell>, i: usize) -> (r: Cell)
    requires
        i < old(cells)@.len(),
    ensures
        r == old(cells)@[i as int],
        final(cells)@ == old(cells)@.remove(i as int),
{
    cells.remove(i)
}

/// Put an edited cell back at `i`.
pub(crate) fn put_cell(cells: &mut Vec<Cell>, i: usize, c: Cell, Ghost(orig): Ghost<Seq<Cell>>)
    requires
        i < orig.len(),
        old(cells)@ == orig.remove(i as int),
    ensures
        final(cells)@ == orig.update(i as int, c),
{
    cells.insert(i, c);
    proof {
        assert(final(cells)@ =~= orig.update(i as int, c));
    }
}

/// Transfer `n` units of food from the seller's cell to the buyer's cell
/// at `rate` money per unit. The payment is clamped to what the paying
/// side holds (the buyer for a positive rate, the seller for a negative
/// one), and the food to the seller's stock; the buyer's food gains
/// saturate. Money over the grid is conserved exactly.
fn fill(cells: &mut Vec<Cell>, buyer: usize, seller: usize, rate: i32, n: u32)
    requires
        buyer < old(cells)@.len(),
        seller < old(cells)@.len(),
        n <= 0x7fffffff,
        sum_money(old(cells)@) <= u32::MAX,
    ensures
        cells_frame(old(cells)@, final(cells)@),
        sum_money(final(cells)@) == sum_money(old(cells)@),
        forall|i: int|
            0 <= i < old(cells)@.len() && i != buyer as int && i != seller as int ==> (
            #[trigger] final(cells)@[i]).money == old(cells)@[i].money && final(cells)@[i].food
                == old(cells)@[i].food,
        buyer != seller ==> {
            let pay = clamp_pay(
                (rate as int) * (n as int),
                old(cells)@[seller as int].money as int,
                old(cells)@[buyer as int].money as int,
            );
            &&& final(cells)@[buyer as int].money == old(cells)@[buyer as int].money - pay
            &&& final(cells)@[seller as int].money == old(cells)@[seller as int].money + pay
            &&& final(cells)@[seller as int].food as int == if old(
                cells,
            )@[seller as int].food as int >= n as int {
                old(cells)@[seller as int].food - n
            } else {
                0int
            }
            &&& final(cells)@[buyer as int].food as int == crate::sim::sat_u32(
                old(cells)@[buyer as int].food + (if old(cells)@[seller as int].food as int
                    >= n as int {
                    n as int
                } else {
                    old(cells)@[seller as int].food as int
                }),
            )
        },
        buyer == seller ==> final(cells)@ == old(cells)@,
{
    if buyer == seller {
        proof {
            assert(final(cells)@ =~= old(cells)@);
        }
        return ;
    }
    let ghost orig = cells@;
    let buyer_money = cells[buyer].money;
    let seller_money = cells[seller].money;
    let seller_food = cells[seller].food;
    proof {
        lemma_sum_money_pair(orig, buyer as int, seller as int);
        assert((rate as int) * (n as int) <= 0x7fffffffi64 * 0x7fffffffi64 && (rate as int) * (
        n as int) >= -0x80000000i64 * 0x7fffffffi64) by (nonlinear_arith)
            requires
                -0x80000000 <= rate <= 0x7fffffff,
                0 <= n <= 0x7fffffff,
        ;
    }
    let pay64: i64 = (rate as i64) * (n as i64);
    let pay: i64 = if pay64 > (buyer_money as i64) {
        buyer_money as i64
    } else if pay64 < -(seller_money as i64) {
        -(seller_money as i64)
    } else {
        pay64
    };
    let delivered: u32 = if seller_food >= n {
        n
    } else {
        seller_food
    };
    let mut bc = take_cell(cells, buyer);
    bc.money = ((bc.money as i64) - pay) as u32;
    bc.food = bc.food.saturating_add(delivered);
    put_cell(cells, buyer, bc, Ghost(orig));
    let ghost mid = cells@;
    let mut sc = take_cell(cells, seller);
    sc.money = ((sc.money as i64) + pay) as u32;
    sc.food = sc.food - delivered;
    put_cell(cells, seller, sc, Ghost(mid));
    proof {
        lemma_sum_money_update(orig, buyer as int, mid[buyer as int]);
        lemma_sum_money_update(mid, seller as int, final(cells)@[seller as int]);
    }
}

/// Two distinct cells together hold at most the whole money sum.
pub proof fn lemma_sum_money_pair(cells: Seq<Cell>, i: int, j: int)
    requires
        0 <= i < cells.len(),
        0 <= j < cells.len(),
        i != j,
    ensures
        cells[i].money + cells[j].money <= sum_money(cells),
    decreases cells.len(),
{
    if cells.len() > 0 {
        let rest = cells.drop_last();
        if i == cells.len() - 1 {
            lemma_sum_money_bounds(rest, j);
        } else if j == cells.len() - 1 {
            lemma_sum_money_bounds(rest, i);
        } else {
            lemma_sum_money_pair(rest, i, j);
        }
    }
}

/// The payment for a fill: the raw price clamped to what the paying side
/// holds.
pub open spec fn clamp_pay(raw: int, seller_money: int, buyer_money: int) -> int {
    if raw > buyer_money {
        buyer_money
    } else if raw < -seller_money {
        -seller_money
    } else {
        raw
    }
}


/// The per-tick market telemetry counters.
#[derive(Clone, Copy, PartialEq, Eq, Structural, Debug)]
pub struct MarketOutcome {
    pub buy_volume: u32,
    pub sell_volume: u32,
}

/// Sell up to `remaining` units of the seller's food to the reserve at
/// one money per unit, bounded by the reserve and by the seller's stock.
fn fulfill_reserve(cells: &mut Vec<Cell>, reserve: &mut u32, index: usize, remaining: i32) -> (sold:
    u32)
    requires
        index < old(cells)@.len(),
        0 < remaining,
        sum_money(old(cells)@) + *old(reserve) <= u32::MAX,
    ensures
        cells_frame(old(cells)@, final(cells)@),
        sum_money(final(cells)@) + *final(reserve) == sum_money(old(cells)@) + *old(reserve),
        sold as int == vstd::math::min(
            vstd::math::min(remaining as int, *old(reserve) as int),
            old(cells)@[index as int].food as int,
        ),
        *final(reserve) == *old(reserve) - sold,
        final(cells)@[index as int].money == old(cells)@[index as int].money + sold,
        final(cells)@[index as int].food == old(cells)@[index as int].food - sold,
        forall|i: int|
            0 <= i < old(cells)@.len() && i != index as int ==> (#[trigger] final(cells)@[i]).money
                == old(cells)@[i].money && final(cells)@[i].food == old(cells)@[i].food,
{
    let ghost orig = cells@;
    let stock = cells[index].food;
    let mut num: u32 = if remaining as u32 <= *reserve {
        remaining as u32
    } else {
        *reserve
    };
    if num > stock {
        num = stock;
    }
    proof {
        lemma_sum_money_bounds(orig, index as int);
    }
    let mut c = take_cell(cells, index);
    c.money = c.money + num;
    c.food = c.food - num;
    put_cell(cells, index, c, Ghost(orig));
    *reserve = *reserve - num;
    proof {
        lemma_sum_money_update(orig, index as int, final(cells)@[index as int]);
    }
    num
}

/// Push a resting bid back (or newly) into the book, keeping it well
/// formed.
fn push_bid(book: &mut Book, Ghost(n): Ghost<int>, t: (i32, usize, i32))
    requires
        old(book).wf(n),
        (t.1 as int) < n,
        -(crate::codon::TRADE_CLAMP as int) <= t.0 <= crate::codon::TRADE_CLAMP as int,
        -(crate::codon::TRADE_CLAMP as int) <= t.2 < 0,
    ensures
        final(book).wf(n),
        heap_orders(final(book).bids) == heap_orders(old(book).bids).insert(t),
        final(book).asks == old(book).asks,
{
    proof {
        broadcast use vstd::multiset::group_multiset_axioms;

    }
    heap_push(&mut book.bids, t);
}

/// Push a resting ask back (or newly) into the book, keeping it well
/// formed.
fn push_ask(book: &mut Book, Ghost(n): Ghost<int>, t: (i32, usize, i32))
    requires
        old(book).wf(n),
        (t.1 as int) < n,
        -(crate::codon::TRADE_CLAMP as int) <= t.0 <= crate::codon::TRADE_CLAMP as int,
        0 < t.2 <= crate::codon::TRADE_CLAMP as int,
    ensures
        final(book).wf(n),
        heap_orders(final(book).asks) == heap_orders(old(book).asks).insert(t),
        final(book).bids == old(book).bids,
{
    proof {
        broadcast use vstd::multiset::group_multiset_axioms;

    }
    heap_push(&mut book.asks, t);
}

/// A batch of orders is valid for a grid of `n` cells when each addresses
/// a cell and carries a clamped rate and quantity.
pub open spec fn orders_wf(orders: Seq<Order>, n: int) -> bool {
    forall|i: int|
        0 <= i < orders.len() ==> {
            &&& (#[trigger] orders[i]).index < n
            &&& -(crate::codon::TRADE_CLAMP as int) <= orders[i].rate <= crate::codon::TRADE_CLAMP
                as int
            &&& -(crate::codon::TRADE_CLAMP as int) <= orders[i].food <= crate::codon::TRADE_CLAMP
                as int
        }
}

/// Clear one batch of (already shuffled) trade intents against the
/// resting books and the reserve. Bids match the cheapest resting asks at
/// the ask's rate; asks match the highest resting bids, at the incoming
/// ask's rate, falling back to the reserve at one money per unit when no
/// bid clears or the reserve offers the better deal. Unfilled remainders
/// rest in the book for later ticks. Money over the grid plus the reserve
/// is conserved exactly, and cells change only in food and money.
pub fn run_market(
    cells: &mut Vec<Cell>,
    book: &mut Book,
    reserve: &mut u32,
    orders: Vec<Order>,
) -> (r: MarketOutcome)
    requires
        old(book).wf(old(cells)@.len() as int),
        orders_wf(orders@, old(cells)@.len() as int),
        sum_money(old(cells)@) + *old(reserve) <= u32::MAX,
    ensures
        cells_frame(old(cells)@, final(cells)@),
        sum_money(final(cells)@) + *final(reserve) == sum_money(old(cells)@) + *old(reserve),
        // the reserve only ever pays out during matching; it is refilled
        // by the wall sweep alone
        *final(reserve) <= *old(reserve),
        final(book).wf(final(cells)@.len() as int),
        // the result is exactly the matching rule folded over the orders
        ({
            let stf = spec_market_from(
                market_entry(old(cells)@, *old(book), *old(reserve)),
                orders@,
                0,
            );
            &&& final(cells)@ == stf.cells
            &&& heap_orders(final(book).bids) == stf.bids
            &&& heap_orders(final(book).asks) == stf.asks
            &&& *final(reserve) as int == stf.reserve
            &&& r.buy_volume as int == stf.buy_volume
            &&& r.sell_volume as int == stf.sell_volume
        }),
{
    let ghost orig = cells@;
    let ghost n = cells@.len() as int;
    let ghost total0 = sum_money(cells@) + *reserve;
    let ghost reserve0 = *reserve;
    let ghost goal = spec_market_from(market_entry(cells@, *book, *reserve), orders@, 0);
    let mut buy_volume: u32 = 0;
    let mut sell_volume: u32 = 0;
    let mut oi: usize = 0;
    while oi < orders.len()
        invariant
            oi <= orders@.len(),
            orders_wf(orders@, n),
            n == orig.len(),
            book.wf(n),
            cells_frame(orig, cells@),
            sum_money(cells@) + *reserve == total0,
            *reserve <= reserve0,
            total0 <= u32::MAX,
            goal == spec_market_from(
                market_rec(
                    cells@,
                    heap_orders(book.bids),
                    heap_orders(book.asks),
                    *reserve as int,
                    buy_volume as int,
                    sell_volume as int,
                ),
                orders@,
                oi as int,
            ),
        decreases orders@.len() - oi,
    {
        let o = orders[oi];
        if o.food < 0 {
            bid_round(cells, book, reserve, o, &mut buy_volume, &mut sell_volume, Ghost(orig));
        } else if o.food > 0 {
            ask_round(cells, book, reserve, o, &mut buy_volume, &mut sell_volume, Ghost(orig));
        }
        oi = oi + 1;
    }
    MarketOutcome { buy_volume, sell_volume }
}

/// Resolve one bid against the resting asks until it fills, the asks run
/// out, or the best ask is dearer than the bid. The reserve only buys
/// food, it never sells, so an unfilled bid always comes to rest.
fn bid_round(
    cells: &mut Vec<Cell>,
    book: &mut Book,
    reserve: &mut u32,
    o: Order,
    buy_volume: &mut u32,
    sell_volume: &mut u32,
    Ghost(orig): Ghost<Seq<Cell>>,
)
    requires
        old(book).wf(old(cells)@.len() as int),
        cells_frame(orig, old(cells)@),
        (o.index as int) < old(cells)@.len(),
        -(crate::codon::TRADE_CLAMP as int) <= o.rate <= crate::codon::TRADE_CLAMP as int,
        -(crate::codon::TRADE_CLAMP as int) <= o.food < 0,
        sum_money(old(cells)@) + *old(reserve) <= u32::MAX,
    ensures
        cells_frame(orig, final(cells)@),
        sum_money(final(cells)@) + *final(reserve) == sum_money(old(cells)@) + *old(reserve),
        *final(reserve) <= *old(reserve),
        final(book).wf(final(cells)@.len() as int),
        spec_bid_round(
            market_rec(
                old(cells)@,
                heap_orders(old(book).bids),
                heap_orders(old(book).asks),
                *old(reserve) as int,
                *old(buy_volume) as int,
                *old(sell_volume) as int,
            ),
            o,
            o.food as int,
            heap_orders(old(book).asks).len(),
        ) == market_rec(
            final(cells)@,
            heap_orders(final(book).bids),
            heap_orders(final(book).asks),
            *final(reserve) as int,
            *final(buy_volume) as int,
            *final(sell_volume) as int,
        ),
{
    let ghost n = old(cells)@.len() as int;
    let ghost total0 = sum_money(old(cells)@) + *old(reserve);
    let ghost reserve0 = *old(reserve);
    let ghost goal = spec_bid_round(
        market_rec(
            cells@,
            heap_orders(book.bids),
            heap_orders(book.asks),
            *reserve as int,
            *buy_volume as int,
            *sell_volume as int,
        ),
        o,
        o.food as int,
        heap_orders(book.asks).len(),
    );
    let mut rem: i32 = o.food;
    loop
        invariant_except_break
            n == orig.len(),
            book.wf(n),
            cells_frame(orig, cells@),
            sum_money(cells@) + *reserve == total0,
            *reserve <= reserve0,
            total0 <= u32::MAX,
            (o.index as int) < n,
            -(crate::codon::TRADE_CLAMP as int) <= o.rate <= crate::codon::TRADE_CLAMP as int,
            -(crate::codon::TRADE_CLAMP as int) <= rem < 0,
            goal == spec_bid_round(
                market_rec(
                    cells@,
                    heap_orders(book.bids),
                    heap_orders(book.asks),
                    *reserve as int,
                    *buy_volume as int,
                    *sell_volume as int,
                ),
                o,
                rem as int,
                heap_orders(book.asks).len(),
            ),
        ensures
            n == orig.len(),
            book.wf(n),
            cells_frame(orig, cells@),
            sum_money(cells@) + *reserve == total0,
            *reserve <= reserve0,
            goal == market_rec(
                cells@,
                heap_orders(book.bids),
                heap_orders(book.asks),
                *reserve as int,
                *buy_volume as int,
                *sell_volume as int,
            ),
        decreases heap_orders(book.asks).len(),
    {
        let ghost cur = market_rec(
            cells@,
            heap_orders(book.bids),
            heap_orders(book.asks),
            *reserve as int,
            *buy_volume as int,
            *sell_volume as int,
        );
        proof {
            broadcast use vstd::multiset::group_multiset_axioms;

        }
        match heap_pop_min(&mut book.asks) {
            None => {
                if rem != 0 {
                    push_bid(book, Ghost(n), (o.rate, o.index, rem));
                }
                proof {
                    assert(goal == spec_rest_bid(cur, o, rem as int));
                    assert(spec_rest_bid(cur, o, rem as int) == market_rec(
                        cells@,
                        heap_orders(book.bids),
                        heap_orders(book.asks),
                        *reserve as int,
                        *buy_volume as int,
                        *sell_volume as int,
                    ));
                }
                break ;
            },
            Some(ask) => {
                proof {
                    broadcast use vstd::multiset::group_multiset_axioms;

                    lemma_ms_min_unique(cur.asks, ask);
                    assert(cur.asks.len() >= 1);
                }
                if ask.0 > o.rate {
                    push_ask(book, Ghost(n), ask);
                    if rem != 0 {
                        push_bid(book, Ghost(n), (o.rate, o.index, rem));
                    }
                    proof {
                        lemma_remove_insert(cur.asks, ask);
                        assert(goal == spec_rest_bid(cur, o, rem as int));
                        assert(spec_rest_bid(cur, o, rem as int) == market_rec(
                            cells@,
                            heap_orders(book.bids),
                            heap_orders(book.asks),
                            *reserve as int,
                            *buy_volume as int,
                            *sell_volume as int,
                        ));
                    }
                    break ;
                }
                let want: i32 = -rem;
                let have: i32 = ask.2;
                let filled: i32 = if want <= have {
                    want
                } else {
                    have
                };
                let ghost pre_fill = cells@;
                if filled > 0 {
                    fill(cells, o.index, ask.1, ask.0, filled as u32);
                    *buy_volume = buy_volume.saturating_add(filled as u32);
                    *sell_volume = sell_volume.saturating_add(filled as u32);
                }
                proof {
                    assert(filled >= 1);
                    lemma_fill_matches(
                        pre_fill,
                        cells@,
                        o.index as int,
                        (ask.1 as int),
                        ask.0 as int,
                        filled as int,
                    );
                }
                rem = rem + filled;
                let left: i32 = ask.2 - filled;
                if left > 0 {
                    push_ask(book, Ghost(n), (ask.0, ask.1, left));
                }
                if rem == 0 {
                    proof {
                        assert(goal == market_rec(
                            cells@,
                            heap_orders(book.bids),
                            heap_orders(book.asks),
                            *reserve as int,
                            *buy_volume as int,
                            *sell_volume as int,
                        ));
                    }
                    break ;
                }
                proof {
                    broadcast use vstd::multiset::group_multiset_axioms;

                    assert(left == 0);
                    assert(heap_orders(book.asks) == cur.asks.remove(ask));
                    assert(heap_orders(book.asks).len() == cur.asks.len() - 1);
                    assert(goal == spec_bid_round(
                        market_rec(
                            cells@,
                            heap_orders(book.bids),
                            heap_orders(book.asks),
                            *reserve as int,
                            *buy_volume as int,
                            *sell_volume as int,
                        ),
                        o,
                        rem as int,
                        heap_orders(book.asks).len(),
                    ));
                }
            },
        }
    }
}

/// Resolve one ask against the resting bids until it fills, the bids run
/// out, or the best bid is below the ask; the reserve buys at one money
/// per unit when no bid clears or a bid would pay less than one.
fn ask_round(
    cells: &mut Vec<Cell>,
    book: &mut Book,
    reserve: &mut u32,
    o: Order,
    buy_volume: &mut u32,
    sell_volume: &mut u32,
    Ghost(orig): Ghost<Seq<Cell>>,
)
    requires
        old(book).wf(old(cells)@.len() as int),
        cells_frame(orig, old(cells)@),
        (o.index as int) < old(cells)@.len(),
        -(crate::codon::TRADE_CLAMP as int) <= o.rate <= crate::codon::TRADE_CLAMP as int,
        0 < o.food <= crate::codon::TRADE_CLAMP as int,
        sum_money(old(cells)@) + *old(reserve) <= u32::MAX,
    ensures
        cells_frame(orig, final(cells)@),
        sum_money(final(cells)@) + *final(reserve) == sum_money(old(cells)@) + *old(reserve),
        *final(reserve) <= *old(reserve),
        final(book).wf(final(cells)@.len() as int),
        spec_ask_round(
            market_rec(
                old(cells)@,
                heap_orders(old(book).bids),
                heap_orders(old(book).asks),
                *old(reserve) as int,
                *old(buy_volume) as int,
                *old(sell_volume) as int,
            ),
            o,
            o.food as int,
            heap_orders(old(book).bids).len(),
        ) == market_rec(
            final(cells)@,
            heap_orders(final(book).bids),
            heap_orders(final(book).asks),
            *final(reserve) as int,
            *final(buy_volume) as int,
            *final(sell_volume) as int,
        ),
{
    let ghost n = old(cells)@.len() as int;
    let ghost total0 = sum_money(old(cells)@) + *old(reserve);
    let ghost reserve0 = *old(reserve);
    let ghost goal = spec_ask_round(
        market_rec(
            cells@,
            heap_orders(book.bids),
            heap_orders(book.asks),
            *reserve as int,
            *buy_volume as int,
            *sell_volume as int,
        ),
        o,
        o.food as int,
        heap_orders(book.bids).len(),
    );
    let mut rem: i32 = o.food;
    loop
        invariant_except_break
            n == orig.len(),
            book.wf(n),
            cells_frame(orig, cells@),
            sum_money(cells@) + *reserve == total0,
            *reserve <= reserve0,
            total0 <= u32::MAX,
            (o.index as int) < n,
            -(crate::codon::TRADE_CLAMP as int) <= o.rate <= crate::codon::TRADE_CLAMP as int,
            0 < rem <= crate::codon::TRADE_CLAMP as int,
            goal == spec_ask_round(
                market_rec(
                    cells@,
                    heap_orders(book.bids),
                    heap_orders(book.asks),
                    *reserve as int,
                    *buy_volume as int,
                    *sell_volume as int,
                ),
                o,
                rem as int,
                heap_orders(book.bids).len(),
            ),
        ensures
            n == orig.len(),
            book.wf(n),
            cells_frame(orig, cells@),
            sum_money(cells@) + *reserve == total0,
            *reserve <= reserve0,
            goal == market_rec(
                cells@,
                heap_orders(book.bids),
                heap_orders(book.asks),
                *reserve as int,
                *buy_volume as int,
                *sell_volume as int,
            ),
        decreases heap_orders(book.bids).len(),
    {
        let ghost cur = market_rec(
            cells@,
            heap_orders(book.bids),
            heap_orders(book.asks),
            *reserve as int,
            *buy_volume as int,
            *sell_volume as int,
        );
        proof {
            broadcast use vstd::multiset::group_multiset_axioms;

        }
        match heap_pop_max(&mut book.bids) {
            None => {
                if o.rate <= 1 && rem > 0 {
                    let ghost pre_sale = cells@;
                    let sold = fulfill_reserve(cells, reserve, o.index, rem);
                    *sell_volume = sell_volume.saturating_add(sold);
                    proof {
                        assert(cells@ =~= spec_reserve_sale(cur, o.index as int, rem as int).0.cells);
                        assert(sold as int == spec_reserve_sale(cur, o.index as int, rem as int).1);
                    }
                    rem = rem - sold as i32;
                }
                if rem != 0 {
                    push_ask(book, Ghost(n), (o.rate, o.index, rem));
                }
                proof {
                    assert(goal == market_rec(
                        cells@,
                        heap_orders(book.bids),
                        heap_orders(book.asks),
                        *reserve as int,
                        *buy_volume as int,
                        *sell_volume as int,
                    ));
                }
                break ;
            },
            Some(bid) => {
                proof {
                    broadcast use vstd::multiset::group_multiset_axioms;

                    lemma_ms_max_unique(cur.bids, bid);
                    assert(cur.bids.len() >= 1);
                }
                if bid.0 < o.rate {
                    push_bid(book, Ghost(n), bid);
                    let ghost cur1 = market_rec(
                        cells@,
                        heap_orders(book.bids),
                        heap_orders(book.asks),
                        *reserve as int,
                        *buy_volume as int,
                        *sell_volume as int,
                    );
                    if o.rate <= 1 && rem > 0 {
                        let sold = fulfill_reserve(cells, reserve, o.index, rem);
                        *sell_volume = sell_volume.saturating_add(sold);
                        proof {
                            assert(cells@ =~= spec_reserve_sale(
                                cur1,
                                o.index as int,
                                rem as int,
                            ).0.cells);
                            assert(sold as int == spec_reserve_sale(
                                cur1,
                                o.index as int,
                                rem as int,
                            ).1);
                        }
                        rem = rem - sold as i32;
                    }
                    if rem != 0 {
                        push_ask(book, Ghost(n), (o.rate, o.index, rem));
                    }
                    proof {
                        assert(goal == market_rec(
                            cells@,
                            heap_orders(book.bids),
                            heap_orders(book.asks),
                            *reserve as int,
                            *buy_volume as int,
                            *sell_volume as int,
                        ));
                    }
                    break ;
                }
                let ghost sale_spec = spec_reserve_sale(cur, o.index as int, rem as int);
                if bid.0 < 1 && rem > 0 {
                    // the reserve pays more than this bid would
                    let sold = fulfill_reserve(cells, reserve, o.index, rem);
                    *sell_volume = sell_volume.saturating_add(sold);
                    proof {
                        assert(cells@ =~= sale_spec.0.cells);
                        assert(sold as int == sale_spec.1);
                    }
                    rem = rem - sold as i32;
                    if rem == 0 {
                        push_bid(book, Ghost(n), bid);
                        proof {
                            assert(goal == market_rec(
                                cells@,
                                heap_orders(book.bids),
                                heap_orders(book.asks),
                                *reserve as int,
                                *buy_volume as int,
                                *sell_volume as int,
                            ));
                        }
                        break ;
                    }
                }
                let want: i32 = -bid.2;
                let have: i32 = rem;
                let filled: i32 = if want <= have {
                    want
                } else {
                    have
                };
                let ghost pre_fill = cells@;
                if filled > 0 {
                    // execution at the incoming ask's rate
                    fill(cells, bid.1, o.index, o.rate, filled as u32);
                    *buy_volume = buy_volume.saturating_add(filled as u32);
                    *sell_volume = sell_volume.saturating_add(filled as u32);
                }
                proof {
                    assert(filled >= 1);
                    lemma_fill_matches(
                        pre_fill,
                        cells@,
                        bid.1 as int,
                        o.index as int,
                        o.rate as int,
                        filled as int,
                    );
                }
                rem = rem - filled;
                let left: i32 = bid.2 + filled;
                if left < 0 {
                    push_bid(book, Ghost(n), (bid.0, bid.1, left));
                }
                if rem == 0 {
                    proof {
                        assert(goal == market_rec(
                            cells@,
                            heap_orders(book.bids),
                            heap_orders(book.asks),
                            *reserve as int,
                            *buy_volume as int,
                            *sell_volume as int,
                        ));
                    }
                    break ;
                }
                proof {
                    broadcast use vstd::multiset::group_multiset_axioms;

                    assert(left == 0);
                    assert(heap_orders(book.bids) == cur.bids.remove(bid));
                    assert(heap_orders(book.bids).len() == cur.bids.len() - 1);
                    assert(goal == spec_ask_round(
                        market_rec(
                            cells@,
                            heap_orders(book.bids),
                            heap_orders(book.asks),
                            *reserve as int,
                            *buy_volume as int,
                            *sell_volume as int,
                        ),
                        o,
                        rem as int,
                        heap_orders(book.bids).len(),
                    ));
                }
            },
        }
    }
}

/// The whole state a matching pass transforms: the grid's cells, the two
/// resting books, the reserve, and the tick's volume counters.
pub ghost struct MarketRec {
    pub cells: Seq<Cell>,
    pub bids: Multiset<(i32, usize, i32)>,
    pub asks: Multiset<(i32, usize, i32)>,
    pub reserve: int,
    pub buy_volume: int,
    pub sell_volume: int,
}

/// Assemble a market state from its parts.
pub open spec fn market_rec(
    cells: Seq<Cell>,
    bids: Multiset<(i32, usize, i32)>,
    asks: Multiset<(i32, usize, i32)>,
    reserve: int,
    buy_volume: int,
    sell_volume: int,
) -> MarketRec {
    MarketRec { cells, bids, asks, reserve, buy_volume, sell_volume }
}

/// A volume counter after adding `n` units, saturating as the counter
/// does.
pub open spec fn sat_vol(v: int, n: int) -> int {
    if v + n > u32::MAX {
        u32::MAX as int
    } else {
        v + n
    }
}

/// One fill of `n` units of food from the seller's cell to the buyer's
/// cell at `rate` money per unit: the payment is the raw price clamped to
/// the paying side's money, the food is bounded by the seller's stock,
/// and the buyer's food gains saturate. A self-trade moves nothing.
pub open spec fn spec_fill(cells: Seq<Cell>, buyer: int, seller: int, rate: int, n: int) -> Seq<
    Cell,
> {
    if buyer == seller {
        cells
    } else {
        let b0 = cells[buyer];
        let s0 = cells[seller];
        let pay = clamp_pay(rate * n, s0.money as int, b0.money as int);
        let delivered = if s0.food as int >= n {
            n
        } else {
            s0.food as int
        };
        cells.update(
            buyer,
            Cell {
                money: (b0.money - pay) as u32,
                food: crate::sim::sat_u32(b0.food + delivered) as u32,
                ..b0
            },
        ).update(
            seller,
            Cell { money: (s0.money + pay) as u32, food: (s0.food - delivered) as u32, ..s0 },
        )
    }
}

/// One sale to the reserve at one money per unit: bounded by the
/// remainder, the reserve, and the seller's stock.
pub open spec fn spec_reserve_sale(st: MarketRec, index: int, remaining: int) -> (MarketRec, int) {
    let c0 = st.cells[index];
    let sold = vstd::math::min(
        vstd::math::min(remaining, st.reserve),
        c0.food as int,
    );
    (
        MarketRec {
            cells: st.cells.update(
                index,
                Cell { money: (c0.money + sold) as u32, food: (c0.food - sold) as u32, ..c0 },
            ),
            reserve: st.reserve - sold,
            sell_volume: sat_vol(st.sell_volume, sold),
            ..st
        },
        sold,
    )
}

/// A remainder comes to rest in the bid book, unless it is filled.
pub open spec fn spec_rest_bid(st: MarketRec, o: Order, rem: int) -> MarketRec {
    if rem != 0 {
        MarketRec { bids: st.bids.insert((o.rate, o.index, rem as i32)), ..st }
    } else {
        st
    }
}

/// A remainder comes to rest in the ask book, unless it is filled.
pub open spec fn spec_rest_ask(st: MarketRec, o: Order, rem: int) -> MarketRec {
    if rem != 0 {
        MarketRec { asks: st.asks.insert((o.rate, o.index, rem as i32)), ..st }
    } else {
        st
    }
}

/// One bid resolving against the resting asks: pop the lexicographically
/// least ask; if none rests or it is dearer than the bid, the remainder
/// rests; otherwise fill at the ask's rate for the smaller remainder,
/// push the ask's remainder back, and continue until the bid fills.
pub open spec fn spec_bid_round(st: MarketRec, o: Order, rem: int, fuel: nat) -> MarketRec
    decreases fuel,
{
    if fuel == 0 || st.asks.len() == 0 {
        spec_rest_bid(st, o, rem)
    } else {
        let ask = ms_min(st.asks);
        if ask.0 > o.rate {
            spec_rest_bid(st, o, rem)
        } else {
            let want = -rem;
            let have = ask.2 as int;
            let filled = if want <= have {
                want
            } else {
                have
            };
            let st1 = if filled > 0 {
                MarketRec {
                    cells: spec_fill(st.cells, o.index as int, ask.1 as int, ask.0 as int, filled),
                    buy_volume: sat_vol(st.buy_volume, filled),
                    sell_volume: sat_vol(st.sell_volume, filled),
                    ..st
                }
            } else {
                st
            };
            let rem2 = rem + filled;
            let left = ask.2 - filled;
            let asks2 = if left > 0 {
                st.asks.remove(ask).insert((ask.0, ask.1, left as i32))
            } else {
                st.asks.remove(ask)
            };
            let st2 = MarketRec { asks: asks2, ..st1 };
            if rem2 == 0 {
                st2
            } else {
                spec_bid_round(st2, o, rem2, (fuel - 1) as nat)
            }
        }
    }
}

/// One ask resolving against the resting bids: pop the lexicographically
/// greatest bid; when none rests or it underbids the ask, sell to the
/// reserve if the ask's rate is at most one and rest the remainder;
/// when the best bid would pay less than one, the reserve buys first;
/// fills execute at the incoming ask's rate.
pub open spec fn spec_ask_round(st: MarketRec, o: Order, rem: int, fuel: nat) -> MarketRec
    decreases fuel,
{
    if fuel == 0 || st.bids.len() == 0 {
        let st1 = if o.rate <= 1 && rem > 0 {
            spec_reserve_sale(st, o.index as int, rem).0
        } else {
            st
        };
        let rem1 = if o.rate <= 1 && rem > 0 {
            rem - spec_reserve_sale(st, o.index as int, rem).1
        } else {
            rem
        };
        spec_rest_ask(st1, o, rem1)
    } else {
        let bid = ms_max(st.bids);
        if bid.0 < o.rate {
            let st1 = MarketRec { bids: st.bids.remove(bid).insert(bid), ..st };
            let st2 = if o.rate <= 1 && rem > 0 {
                spec_reserve_sale(st1, o.index as int, rem).0
            } else {
                st1
            };
            let rem2 = if o.rate <= 1 && rem > 0 {
                rem - spec_reserve_sale(st1, o.index as int, rem).1
            } else {
                rem
            };
            spec_rest_ask(st2, o, rem2)
        } else {
            let sale = if bid.0 < 1 && rem > 0 {
                spec_reserve_sale(st, o.index as int, rem)
            } else {
                (st, 0int)
            };
            let st1 = sale.0;
            let rem1 = rem - sale.1;
            if bid.0 < 1 && rem > 0 && rem1 == 0 {
                MarketRec { bids: st1.bids.remove(bid).insert(bid), ..st1 }
            } else {
                let want = -(bid.2 as int);
                let have = rem1;
                let filled = if want <= have {
                    want
                } else {
                    have
                };
                let st2 = if filled > 0 {
                    MarketRec {
                        cells: spec_fill(
                            st1.cells,
                            bid.1 as int,
                            o.index as int,
                            o.rate as int,
                            filled,
                        ),
                        buy_volume: sat_vol(st1.buy_volume, filled),
                        sell_volume: sat_vol(st1.sell_volume, filled),
                        ..st1
                    }
                } else {
                    st1
                };
                let rem2 = rem1 - filled;
                let left = bid.2 + filled;
                let bids2 = if left < 0 {
                    st.bids.remove(bid).insert((bid.0, bid.1, left as i32))
                } else {
                    st.bids.remove(bid)
                };
                let st3 = MarketRec { bids: bids2, ..st2 };
                if rem2 == 0 {
                    st3
                } else {
                    spec_ask_round(st3, o, rem2, (fuel - 1) as nat)
                }
            }
        }
    }
}

/// The whole matching pass: each order in turn resolves as a bid or an
/// ask by the sign of its quantity.
pub open spec fn spec_market_from(st: MarketRec, orders: Seq<Order>, i: int) -> MarketRec
    decreases orders.len() - i,
{
    if i < 0 || i >= orders.len() {
        st
    } else {
        let o = orders[i];
        let st2 = if o.food < 0 {
            spec_bid_round(st, o, o.food as int, st.asks.len())
        } else if o.food > 0 {
            spec_ask_round(st, o, o.food as int, st.bids.len())
        } else {
            st
        };
        spec_market_from(st2, orders, i + 1)
    }
}

/// The market state a grid, a book and a reserve stand in before a
/// matching pass, with the volume counters reset.
pub open spec fn market_entry(cells: Seq<Cell>, book: Book, reserve: u32) -> MarketRec {
    MarketRec {
        cells,
        bids: heap_orders(book.bids),
        asks: heap_orders(book.asks),
        reserve: reserve as int,
        buy_volume: 0,
        sell_volume: 0,
    }
}


/// Matching correctness, on the canonical scenario: with an empty book, a
/// bid for 3 units at rate 5 comes to rest, and an ask of 4 units at rate
/// 3 then clears it -- exactly the smaller quantity trades, at the ask's
/// rate, 9 money moves from the bidder to the asker, 3 food the other
/// way, one unit rests as an ask at rate 3, both volume counters read 3,
/// and the reserve is untouched.
pub proof fn lemma_matching_scenario(cells: Seq<Cell>, book: Book, reserve: u32)
    requires
        cells.len() == 2,
        heap_orders(book.bids) == Multiset::<(i32, usize, i32)>::empty(),
        heap_orders(book.asks) == Multiset::<(i32, usize, i32)>::empty(),
        cells[0].money == 100,
        cells[0].food == 0,
        cells[1].money == 0,
        cells[1].food == 10,
        reserve == 1000,
    ensures
        ({
            let orders = seq![
                Order { index: 0, rate: 5i32, food: -3i32 },
                Order { index: 1, rate: 3i32, food: 4i32 },
            ];
            let stf = spec_market_from(market_entry(cells, book, reserve), orders, 0);
            &&& stf.buy_volume == 3
            &&& stf.sell_volume == 3
            &&& stf.cells[0].money == 91
            &&& stf.cells[0].food == 3
            &&& stf.cells[1].money == 9
            &&& stf.cells[1].food == 7
            &&& stf.bids == Multiset::<(i32, usize, i32)>::empty()
            &&& stf.asks == Multiset::<(i32, usize, i32)>::empty().insert((3, 1, 1))
            &&& stf.reserve == 1000
        }),
{
    broadcast use vstd::multiset::group_multiset_axioms;

    let orders = seq![
        Order { index: 0, rate: 5i32, food: -3i32 },
        Order { index: 1, rate: 3i32, food: 4i32 },
    ];
    let o1 = orders[0];
    let o2 = orders[1];
    let st0 = market_entry(cells, book, reserve);
    // the bid finds no resting ask and comes to rest
    assert(st0.asks.len() == 0);
    let st1 = spec_bid_round(st0, o1, -3, 0);
    assert(st1 == spec_rest_bid(st0, o1, -3));
    let bid_t = (5i32, 0usize, -3i32);
    assert(st1.bids == st0.bids.insert(bid_t));
    assert(spec_market_from(st0, orders, 0) == spec_market_from(st1, orders, 1));
    // the ask pops that bid: it is the only resting one
    assert(st1.bids.len() == 1);
    assert(st1.bids.count(bid_t) > 0);
    assert forall|x: (i32, usize, i32)| #[trigger] st1.bids.count(x) > 0 implies lex_leq(
        x,
        bid_t,
    ) by {
        if x != bid_t {
            assert(st1.bids.count(x) == st0.bids.count(x));
        }
    }
    lemma_ms_max_unique(st1.bids, bid_t);
    let st_end = spec_ask_round(st1, o2, 4, 1);
    assert(spec_market_from(st1, orders, 1) == spec_market_from(st_end, orders, 2));
    assert(spec_market_from(st_end, orders, 2) == st_end);
    // the fill: 3 units at the ask's rate 3
    let filled = 3int;
    let cells2 = spec_fill(st1.cells, 0, 1, 3, filled);
    assert(clamp_pay(9, 0, 100) == 9);
    assert(cells2[0].money == 91 && cells2[0].food == 3);
    assert(cells2[1].money == 9 && cells2[1].food == 7);
    // the bid is fully consumed; the ask's remainder rests at fuel zero
    assert(st1.bids.remove(bid_t) =~= Multiset::<(i32, usize, i32)>::empty());
    let st2 = spec_ask_round(
        MarketRec {
            cells: cells2,
            bids: st1.bids.remove(bid_t),
            asks: st1.asks,
            reserve: st1.reserve,
            buy_volume: sat_vol(st1.buy_volume, filled),
            sell_volume: sat_vol(st1.sell_volume, filled),
        },
        o2,
        1,
        0,
    );
    assert(st_end == st2);
    assert(st2.asks == st1.asks.insert((3, 1, 1)));
    assert(st2.buy_volume == 3 && st2.sell_volume == 3);
    assert(st2.reserve == 1000);
}

/// The reserve fallback, on the canonical scenario: a lone ask of `q`
/// units at rate 1, with no resting bids and an ample reserve, clears
/// fully against the reserve at one money per unit -- the asker gains `q`
/// money and loses `q` food, the reserve shrinks by `q`, the sold volume
/// reads `q`, and nothing rests.
pub proof fn lemma_reserve_fallback_scenario(
    cells: Seq<Cell>,
    book: Book,
    reserve: u32,
    index: usize,
    q: i32,
)
    requires
        (index as int) < cells.len(),
        heap_orders(book.bids) == Multiset::<(i32, usize, i32)>::empty(),
        heap_orders(book.asks) == Multiset::<(i32, usize, i32)>::empty(),
        0 < q <= crate::codon::TRADE_CLAMP,
        q <= cells[index as int].food,
        q <= reserve,
        cells[index as int].money + q <= u32::MAX,
    ensures
        ({
            let orders = seq![Order { index, rate: 1, food: q }];
            let stf = spec_market_from(market_entry(cells, book, reserve), orders, 0);
            &&& stf.sell_volume == q
            &&& stf.buy_volume == 0
            &&& stf.cells[index as int].money == cells[index as int].money + q
            &&& stf.cells[index as int].food == cells[index as int].food - q
            &&& stf.reserve == reserve - q
            &&& stf.bids == Multiset::<(i32, usize, i32)>::empty()
            &&& stf.asks == Multiset::<(i32, usize, i32)>::empty()
        }),
{
    broadcast use vstd::multiset::group_multiset_axioms;

    let orders = seq![Order { index, rate: 1, food: q }];
    let o = orders[0];
    let st0 = market_entry(cells, book, reserve);
    assert(st0.bids.len() == 0);
    let st1 = spec_ask_round(st0, o, q as int, 0);
    assert(spec_market_from(st0, orders, 0) == spec_market_from(st1, orders, 1));
    assert(spec_market_from(st1, orders, 1) == st1);
    let sale = spec_reserve_sale(st0, index as int, q as int);
    assert(sale.1 == q as int);
    assert(st1 == spec_rest_ask(sale.0, o, 0));
    assert(st1 == sale.0);
    assert(st1.cells[index as int].money == cells[index as int].money + q);
    assert(st1.cells[index as int].food == cells[index as int].food - q);
    assert(st1.reserve == reserve - q);
    assert(st1.sell_volume == q as int);
}

} // verus!
