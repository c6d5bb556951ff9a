//! What is computed from a platform's answer to an inventory request.

use vstd::prelude::*;
use crate::value::{Value, wrap, add_values, lemma_wrap_in_range, lemma_wrap_add};

verus! {

/// One count of an inventory answer: whether it counts units in stock, and
/// how many.
#[derive(Debug, Clone, Copy, PartialEq, Eq, Structural)]
pub struct StockCount {
    pub in_stock: bool,
    pub quantity: Value,
}

/// The sum of the quantities of the counts of units in stock, as an integer.
pub open spec fn stock_sum(counts: Seq<StockCount>) -> int
    decreases counts.len(),
{
    if counts.len() == 0 {
        0
    } else {
        stock_sum(counts.drop_last()) + if counts.last().in_stock {
            counts.last().quantity as int
        } else {
            0
        }
    }
}

/// The value that a platform holds: the sum of its counts of units in stock.
pub fn stock_total(counts: &Vec<StockCount>) -> (r: Value)
    ensures
        r == wrap(stock_sum(counts@)),
{
    let mut total: Value = 0;
    let mut i: usize = 0;
    proof {
        lemma_wrap_in_range(0);
        assert(counts@.take(0) =~= Seq::<StockCount>::empty());
    }
    while i < counts.len()
        invariant
            0 <= i <= counts.len(),
            total == wrap(stock_sum(counts@.take(i as int))),
        decreases counts.len() - i,
    {
        proof {
            assert(counts@.take(i + 1).drop_last() =~= counts@.take(i as int));
            assert(counts@.take(i + 1).last() == counts@[i as int]);
            lemma_wrap_add(stock_sum(counts@.take(i as int)), counts@[i as int].quantity as int);
            lemma_wrap_in_range(total);
        }
        if counts[i].in_stock {
            total = add_values(total, counts[i].quantity);
        }
        i += 1;
    }
    assert(counts@.take(counts.len() as int) =~= counts@);
    total
}

} // verus!
