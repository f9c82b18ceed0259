//! Integer arithmetic on `i32`, each operation with the exact result it
//! gives and the inputs on which that result fits the type, and the
//! characters by which the calculator's operations are chosen.

use vstd::prelude::*;

verus! {

/// `a` to the power `e`.
pub open spec fn int_pow(a: int, e: nat) -> int
    decreases e,
{
    if e == 0 {
        1
    } else {
        a * int_pow(a, (e - 1) as nat)
    }
}

/// The product of the numbers from 1 to `n`.
pub open spec fn product_up_to(n: nat) -> int
    decreases n,
{
    if n == 0 {
        1
    } else {
        n * product_up_to((n - 1) as nat)
    }
}

/// The remainder of the division of `a` by `b` that rounds towards zero: it
/// has the sign of `a`.
pub open spec fn truncated_rem(a: int, b: int) -> int {
    let d = if b < 0 {
        -b
    } else {
        b
    };
    if a >= 0 {
        a % d
    } else {
        -((-a) % d)
    }
}

/// The exponent that a signed number stands for when its bits are read as
/// an unsigned number of the same width.
pub open spec fn exponent_of(b: i32) -> nat {
    if b >= 0 {
        b as nat
    } else {
        (b + 0x1_0000_0000) as nat
    }
}

/// The value that `factorial` gives: the factorial of a number that is not
/// negative, and a negative number itself.
pub open spec fn factorial_of(a: int) -> int {
    if a < 0 {
        a
    } else {
        product_up_to(a as nat)
    }
}

/// The sum of `a` and `b`, where it fits the type.
pub fn add(a: i32, b: i32) -> (sum: i32)
    requires
        i32::MIN <= a + b <= i32::MAX,
    ensures
        sum == a + b,
{
    a + b
}

/// The difference of `a` and `b`, where it fits the type.
pub fn subtract(a: i32, b: i32) -> (difference: i32)
    requires
        i32::MIN <= a - b <= i32::MAX,
    ensures
        difference == a - b,
{
    a - b
}

/// The product of `a` and `b`, where it fits the type.
pub fn multiply(a: i32, b: i32) -> (product: i32)
    requires
        i32::MIN <= a * b <= i32::MAX,
    ensures
        product == a * b,
{
    a * b
}

/// The remainder of `a` divided by `b`, with the sign of `a`. A zero
/// divisor, and the one division whose quotient does not fit the type, are
/// excluded.
pub fn modulo(a: i32, b: i32) -> (rest: i32)
    requires
        b != 0,
        !(a == i32::MIN && b == -1),
    ensures
        rest == truncated_rem(a as int, b as int),
{
    match a.checked_rem(b) {
        Some(rest) => rest,
        None => 0,
    }
}

/// The distance of `x` from zero.
pub open spec fn magnitude(x: int) -> int {
    if x < 0 {
        -x
    } else {
        x
    }
}

/// Powers of a base of magnitude two or more at least double with every
/// step of the exponent, and are never zero.
proof fn lemma_pow_doubles(a: int, k: nat, e: nat)
    requires
        magnitude(a) >= 2,
        k < e,
    ensures
        2 * magnitude(int_pow(a, k)) <= magnitude(int_pow(a, e)),
        magnitude(int_pow(a, k)) >= 1,
    decreases e,
{
    let x = int_pow(a, (e - 1) as nat);
    assert(int_pow(a, e) == a * x);
    if k + 1 < e {
        lemma_pow_doubles(a, k, (e - 1) as nat);
        assert(magnitude(a * x) >= magnitude(x)) by (nonlinear_arith)
            requires
                magnitude(a) >= 2,
        ;
    } else {
        if k > 0 {
            lemma_pow_doubles(a, (k - 1) as nat, k);
        }
        assert(magnitude(x) >= 1);
        assert(magnitude(a * x) >= 2 * magnitude(x)) by (nonlinear_arith)
            requires
                magnitude(a) >= 2,
        ;
    }
}

/// The powers of 0, 1 and -1.
proof fn lemma_pow_of_units(e: nat)
    ensures
        int_pow(0, e) == (if e == 0 {
            1int
        } else {
            0
        }),
        int_pow(1, e) == 1,
        int_pow(-1, e) == (if e % 2 == 0 {
            1int
        } else {
            -1
        }),
    decreases e,
{
    if e > 0 {
        lemma_pow_of_units((e - 1) as nat);
    }
}

/// `a` to the power of `b`, where it fits the type. The bits of `b` are read
/// as an unsigned exponent: a negative `b` stands for `b + 2^32`.
pub fn power(a: i32, b: i32) -> (result: i32)
    requires
        i32::MIN <= int_pow(a as int, exponent_of(b)) <= i32::MAX,
    ensures
        result == int_pow(a as int, exponent_of(b)),
{
    let e: u32 = if b >= 0 {
        b as u32
    } else {
        ((b - i32::MIN) as u32) + 0x8000_0000u32
    };
    assert(e == exponent_of(b));
    proof {
        lemma_pow_of_units(e as nat);
    }
    if a == 0 {
        return if e == 0 {
            1
        } else {
            0
        };
    }
    if a == 1 {
        return 1;
    }
    if a == -1 {
        return if e % 2 == 0 {
            1
        } else {
            -1
        };
    }
    let mut acc: i32 = 1;
    let mut k: u32 = 0;
    while k < e
        invariant
            k <= e,
            magnitude(a as int) >= 2,
            acc == int_pow(a as int, k as nat),
            i32::MIN <= int_pow(a as int, e as nat) <= i32::MAX,
        decreases e - k,
    {
        proof {
            let next = int_pow(a as int, (k + 1) as nat);
            assert(next == a * int_pow(a as int, k as nat));
            if k + 1 < e {
                lemma_pow_doubles(a as int, (k + 1) as nat, e as nat);
            }
            assert(i32::MIN <= next <= i32::MAX);
            assert(acc * a == a * acc) by (nonlinear_arith);
        }
        acc = acc * a;
        k += 1;
    }
    acc
}

/// The product of the numbers up to `n` is at least 1 and grows with `n`.
proof fn lemma_product_grows(n: nat, m: nat)
    requires
        n <= m,
    ensures
        1 <= product_up_to(n) <= product_up_to(m),
    decreases m,
{
    if n < m {
        lemma_product_grows(n, (m - 1) as nat);
        let x = product_up_to((m - 1) as nat);
        assert(m * x >= x) by (nonlinear_arith)
            requires
                m >= 1,
                x >= 1,
        ;
    } else if n > 0 {
        lemma_product_grows((n - 1) as nat, (n - 1) as nat);
        let x = product_up_to((n - 1) as nat);
        assert(n * x >= 1) by (nonlinear_arith)
            requires
                n >= 1,
                x >= 1,
        ;
    }
}

/// The product of the numbers from 1 to 11.
proof fn lemma_product_to_eleven()
    ensures
        product_up_to(11) == 39916800,
{
    assert(product_up_to(0) == 1);
    assert(product_up_to(1) == 1);
    assert(product_up_to(2) == 2);
    assert(product_up_to(3) == 6);
    assert(product_up_to(4) == 24);
    assert(product_up_to(5) == 120);
    assert(product_up_to(6) == 720);
    assert(product_up_to(7) == 5040);
    assert(product_up_to(8) == 40320);
    assert(product_up_to(9) == 362880);
    assert(product_up_to(10) == 3628800);
    assert(product_up_to(11) == 39916800);
}

/// The factorial of `a`, which fits the type up to 12. A negative `a` is
/// handed back as it is.
pub fn factorial(a: i32) -> (result: i32)
    requires
        a <= 12,
    ensures
        result == factorial_of(a as int),
{
    if a == 0 {
        return 1;
    }
    let mut acc: i32 = a;
    let mut i: i32 = 1;
    while i < a
        invariant
            a != 0,
            a <= 12,
            1 <= i,
            a < 0 ==> acc == a,
            a > 0 ==> i <= a && acc == a * product_up_to((i - 1) as nat),
        decreases a - i,
    {
        proof {
            let before = product_up_to((i - 1) as nat);
            let after = product_up_to(i as nat);
            assert(after == i * before);
            lemma_product_grows(i as nat, 11);
            lemma_product_to_eleven();
            assert(a * before * i == a * after) by (nonlinear_arith)
                requires
                    after == i * before,
            ;
            assert(0 <= a * after <= 12 * 39916800) by (nonlinear_arith)
                requires
                    0 < a <= 12,
                    1 <= after <= 39916800,
            ;
        }
        acc = acc * i;
        i += 1;
    }
    proof {
        if a > 0 {
            assert(product_up_to(a as nat) == a * product_up_to((a - 1) as nat));
        }
    }
    acc
}

/// What the calculator is asked to do.
#[derive(Clone, Copy, Debug, PartialEq, Eq, Structural)]
pub enum Operation {
    Add,
    Subtract,
    Multiply,
    Divide,
    Modulo,
    Power,
    Factorial,
    Quit,
    Invalid,
}

/// The operation that the character `symbol` stands for.
pub open spec fn operation_of(symbol: char) -> Operation {
    if symbol == '+' {
        Operation::Add
    } else if symbol == '-' {
        Operation::Subtract
    } else if symbol == '*' {
        Operation::Multiply
    } else if symbol == '/' {
        Operation::Divide
    } else if symbol == '%' {
        Operation::Modulo
    } else if symbol == '^' {
        Operation::Power
    } else if symbol == '!' {
        Operation::Factorial
    } else if symbol == 'q' {
        Operation::Quit
    } else {
        Operation::Invalid
    }
}

/// The operation that the first character of the user's input stands for.
pub fn operation_for(symbol: char) -> (operation: Operation)
    ensures
        operation == operation_of(symbol),
{
    if symbol == '+' {
        Operation::Add
    } else if symbol == '-' {
        Operation::Subtract
    } else if symbol == '*' {
        Operation::Multiply
    } else if symbol == '/' {
        Operation::Divide
    } else if symbol == '%' {
        Operation::Modulo
    } else if symbol == '^' {
        Operation::Power
    } else if symbol == '!' {
        Operation::Factorial
    } else if symbol == 'q' {
        Operation::Quit
    } else {
        Operation::Invalid
    }
}

impl Operation {
    /// How many numbers the calculator asks for before it carries the
    /// operation out: none to quit, one for a factorial, two otherwise, also
    /// for a character that stands for no operation.
    pub fn operands(&self) -> (count: u32)
        ensures
            count == (if *self == Operation::Quit {
                0u32
            } else if *self == Operation::Factorial {
                1u32
            } else {
                2u32
            }),
    {
        match self {
            Operation::Quit => 0,
            Operation::Factorial => 1,
            _ => 2,
        }
    }
}

} // verus!
