//! The reconciled scalar and its arithmetic.

use vstd::prelude::*;

verus! {

/// The value that the platforms replicate, for example a stock count.
pub type Value = i64;

/// The number of distinct values of [`Value`].
pub open spec fn value_range() -> int {
    0x1_0000_0000_0000_0000
}

/// The value of the two's complement group that the integer `x` stands for.
pub open spec fn wrap(x: int) -> Value {
    let r = x % value_range();
    if r > i64::MAX {
        (r - value_range()) as Value
    } else {
        r as Value
    }
}

/// Addition of the value group: the sum, reduced into the range of [`Value`].
pub open spec fn plus(a: Value, b: Value) -> Value {
    wrap(a + b)
}

/// Wrapping a value that is already in range changes nothing.
pub proof fn lemma_wrap_in_range(x: Value)
    ensures
        wrap(x as int) == x,
{
    let m = value_range();
    if x >= 0 {
        assert((x as int) % m == x as int) by {
            vstd::arithmetic::div_mod::lemma_small_mod(x as nat, m as nat);
        }
    } else {
        assert((x as int) % m == x + m) by {
            vstd::arithmetic::div_mod::lemma_small_mod((x + m) as nat, m as nat);
            vstd::arithmetic::div_mod::lemma_mod_add_multiples_vanish(x as int, m);
        }
    }
}

/// Wrapping may be done before or after an addition.
pub proof fn lemma_wrap_add(x: int, y: int)
    ensures
        wrap(wrap(x) + y) == wrap(x + y),
{
    let m = value_range();
    let r = x % m;
    assert(0 <= r < m) by {
        vstd::arithmetic::div_mod::lemma_mod_bound(x, m);
    }
    assert((r + y) % m == (x + y) % m) by {
        vstd::arithmetic::div_mod::lemma_add_mod_noop(x, y, m);
        vstd::arithmetic::div_mod::lemma_add_mod_noop(r, y, m);
        vstd::arithmetic::div_mod::lemma_mod_twice(x, m);
    }
    if r > i64::MAX {
        assert((r - m + y) % m == (r + y) % m) by {
            vstd::arithmetic::div_mod::lemma_mod_sub_multiples_vanish(r + y, m);
        }
    }
}

/// The sum of two values in the value group.
pub fn add_values(a: Value, b: Value) -> (r: Value)
    ensures
        r == plus(a, b),
{
    proof {
        let m = value_range();
        let s = a + b;
        if s > i64::MAX {
            assert(s % m == s) by {
                vstd::arithmetic::div_mod::lemma_small_mod(s as nat, m as nat);
            }
        } else if s < i64::MIN {
            assert(s % m == s + m) by {
                vstd::arithmetic::div_mod::lemma_small_mod((s + m) as nat, m as nat);
                vstd::arithmetic::div_mod::lemma_mod_add_multiples_vanish(s, m);
            }
        } else {
            lemma_wrap_in_range(s as Value);
        }
    }
    a.wrapping_add(b)
}

/// The difference of two values in the value group.
pub fn sub_values(a: Value, b: Value) -> (r: Value)
    ensures
        r == wrap(a - b),
{
    proof {
        let m = value_range();
        let s = a - b;
        if s > i64::MAX {
            assert(s % m == s) by {
                vstd::arithmetic::div_mod::lemma_small_mod(s as nat, m as nat);
            }
        } else if s < i64::MIN {
            assert(s % m == s + m) by {
                vstd::arithmetic::div_mod::lemma_small_mod((s + m) as nat, m as nat);
                vstd::arithmetic::div_mod::lemma_mod_add_multiples_vanish(s, m);
            }
        } else {
            lemma_wrap_in_range(s as Value);
        }
    }
    a.wrapping_sub(b)
}

} // verus!
