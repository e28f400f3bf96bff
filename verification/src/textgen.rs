//! Deterministic test-data generation: random strings drawn from a fixed
//! alphabet through the seeded generator.

use vstd::prelude::*;
use crate::rng::{SimRng, rng_step, rng_output};

verus! {

/// The alphabet: the lower-case letters followed by the digits.
pub open spec fn symbols() -> Seq<char> {
    seq![
        'a', 'b', 'c', 'd', 'e', 'f', 'g', 'h', 'i', 'j', 'k', 'l', 'm', 'n', 'o', 'p', 'q', 'r',
        's', 't', 'u', 'v', 'w', 'x', 'y', 'z', '0', '1', '2', '3', '4', '5', '6', '7', '8', '9',
    ]
}

/// The generator state after `n` draws.
pub open spec fn rng_step_n(s: u128, n: int) -> u128
    decreases n,
{
    if n <= 0 {
        s
    } else {
        rng_step(rng_step_n(s, n - 1))
    }
}

/// The string slice holding the alphabet symbol with the given index.
fn symbol_str(k: u64) -> (r: &'static str)
    requires
        k < 36,
    ensures
        r@ == seq![symbols()[k as int]],
{
    let r: &'static str = if k == 0 {
        "a"
    } else if k == 1 {
        "b"
    } else if k == 2 {
        "c"
    } else if k == 3 {
        "d"
    } else if k == 4 {
        "e"
    } else if k == 5 {
        "f"
    } else if k == 6 {
        "g"
    } else if k == 7 {
        "h"
    } else if k == 8 {
        "i"
    } else if k == 9 {
        "j"
    } else if k == 10 {
        "k"
    } else if k == 11 {
        "l"
    } else if k == 12 {
        "m"
    } else if k == 13 {
        "n"
    } else if k == 14 {
        "o"
    } else if k == 15 {
        "p"
    } else if k == 16 {
        "q"
    } else if k == 17 {
        "r"
    } else if k == 18 {
        "s"
    } else if k == 19 {
        "t"
    } else if k == 20 {
        "u"
    } else if k == 21 {
        "v"
    } else if k == 22 {
        "w"
    } else if k == 23 {
        "x"
    } else if k == 24 {
        "y"
    } else if k == 25 {
        "z"
    } else if k == 26 {
        "0"
    } else if k == 27 {
        "1"
    } else if k == 28 {
        "2"
    } else if k == 29 {
        "3"
    } else if k == 30 {
        "4"
    } else if k == 31 {
        "5"
    } else if k == 32 {
        "6"
    } else if k == 33 {
        "7"
    } else if k == 34 {
        "8"
    } else {
        "9"
    };
    proof {
        reveal_strlit("a");
        reveal_strlit("b");
        reveal_strlit("c");
        reveal_strlit("d");
        reveal_strlit("e");
        reveal_strlit("f");
        reveal_strlit("g");
        reveal_strlit("h");
        reveal_strlit("i");
        reveal_strlit("j");
        reveal_strlit("k");
        reveal_strlit("l");
        reveal_strlit("m");
        reveal_strlit("n");
        reveal_strlit("o");
        reveal_strlit("p");
        reveal_strlit("q");
        reveal_strlit("r");
        reveal_strlit("s");
        reveal_strlit("t");
        reveal_strlit("u");
        reveal_strlit("v");
        reveal_strlit("w");
        reveal_strlit("x");
        reveal_strlit("y");
        reveal_strlit("z");
        reveal_strlit("0");
        reveal_strlit("1");
        reveal_strlit("2");
        reveal_strlit("3");
        reveal_strlit("4");
        reveal_strlit("5");
        reveal_strlit("6");
        reveal_strlit("7");
        reveal_strlit("8");
        reveal_strlit("9");
        assert(r@ =~= seq![symbols()[k as int]]);
    }
    r
}

/// Draw counts add up: advancing `a` draws and then `b` draws is
/// advancing `a + b` draws.
pub proof fn lemma_rng_step_n_add(s: u128, a: int, b: int)
    requires
        a >= 0,
        b >= 0,
    ensures
        rng_step_n(rng_step_n(s, a), b) == rng_step_n(s, a + b),
    decreases b,
{
    if b > 0 {
        lemma_rng_step_n_add(s, a, b - 1);
    }
}

/// The text a generator state yields: character `i` is chosen by the
/// `i + 1`-th draw, uniformly over the alphabet.
pub open spec fn rand_text(state: u128, len: int) -> Seq<char> {
    Seq::new(
        len as nat,
        |i: int| symbols()[(rng_output(rng_step_n(state, i + 1)) % 36) as int],
    )
}

/// A random string of the given length over the alphabet: exactly the
/// text the starting state yields, consuming one draw per character.
pub fn rand_string(rng: &mut SimRng, len: usize) -> (r: String)
    ensures
        final(rng).state == rng_step_n(old(rng).state, len as int),
        r@ == rand_text(old(rng).state, len as int),
        r@.len() == len,
        forall|i: int|
            0 <= i < len ==> #[trigger] r@[i] == symbols()[(rng_output(
                rng_step_n(old(rng).state, i + 1),
            ) % 36) as int],
{
    let ghost s0 = rng.state;
    let mut out = String::new();
    let mut i: usize = 0;
    while i < len
        invariant
            i <= len,
            rng.state == rng_step_n(s0, i as int),
            out@.len() == i,
            forall|j: int|
                0 <= j < i ==> #[trigger] out@[j] == symbols()[(rng_output(
                    rng_step_n(s0, j + 1),
                ) % 36) as int],
        decreases len - i,
    {
        let k = rng.next_below(36);
        proof {
            assert(rng.state == rng_step_n(s0, i + 1 as int));
        }
        out.append(symbol_str(k));
        i += 1;
    }
    proof {
        assert(out@ =~= rand_text(s0, len as int));
    }
    out
}

} // verus!
