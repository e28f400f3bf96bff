//! Small verified string utilities shared by the engine and the harness:
//! character-exact string comparison, decimal rendering of integers, and
//! view sequences for vectors of strings.

use vstd::prelude::*;

verus! {

/// The views of a sequence of strings.
pub open spec fn views_of(s: Seq<String>) -> Seq<Seq<char>> {
    s.map_values(|x: String| x@)
}

/// Character-exact equality of two string slices.
pub fn str_eq(a: &str, b: &str) -> (r: bool)
    ensures
        r == (a@ == b@),
{
    let la = a.unicode_len();
    let lb = b.unicode_len();
    if la != lb {
        return false;
    }
    let mut i: usize = 0;
    while i < la
        invariant
            i <= la,
            la == a@.len(),
            lb == b@.len(),
            la == lb,
            forall|j: int| 0 <= j < i ==> a@[j] == b@[j],
        decreases la - i,
    {
        if a.get_char(i) != b.get_char(i) {
            return false;
        }
        i += 1;
    }
    proof {
        assert(a@ =~= b@);
    }
    true
}

/// Equality of two vectors of strings, character by character.
pub fn vec_str_eq(a: &Vec<String>, b: &Vec<String>) -> (r: bool)
    ensures
        r == (views_of(a@) == views_of(b@)),
{
    if a.len() != b.len() {
        proof {
            assert(views_of(a@).len() == a@.len());
            assert(views_of(b@).len() == b@.len());
        }
        return false;
    }
    let mut i: usize = 0;
    while i < a.len()
        invariant
            i <= a@.len(),
            a@.len() == b@.len(),
            forall|j: int| 0 <= j < i ==> views_of(a@)[j] == views_of(b@)[j],
        decreases a@.len() - i,
    {
        if !str_eq(a[i].as_str(), b[i].as_str()) {
            proof {
                assert(views_of(a@)[i as int] == a@[i as int]@);
                assert(views_of(b@)[i as int] == b@[i as int]@);
            }
            return false;
        }
        proof {
            assert(views_of(a@)[i as int] == a@[i as int]@);
            assert(views_of(b@)[i as int] == b@[i as int]@);
        }
        i += 1;
    }
    proof {
        assert(views_of(a@) =~= views_of(b@));
    }
    true
}

/// Whether a sequence of texts holds the given text.
pub open spec fn seq_has_text(s: Seq<Seq<char>>, t: Seq<char>) -> bool {
    exists|i: int| 0 <= i < s.len() && (#[trigger] s[i]) == t
}

/// Whether the string vector holds the text.
pub fn contains_text(v: &Vec<String>, t: &str) -> (r: bool)
    ensures
        r == seq_has_text(views_of(v@), t@),
{
    let mut i: usize = 0;
    while i < v.len()
        invariant
            i <= v@.len(),
            views_of(v@).len() == v@.len(),
            forall|j: int| 0 <= j < i ==> (#[trigger] views_of(v@)[j]) != t@,
        decreases v@.len() - i,
    {
        proof {
            assert(views_of(v@)[i as int] == v@[i as int]@);
        }
        if str_eq(v[i].as_str(), t) {
            return true;
        }
        i += 1;
    }
    false
}

/// Mutual containment of two text sequences: the same texts occur in
/// both, order and multiplicity aside.
pub open spec fn same_texts(a: Seq<Seq<char>>, b: Seq<Seq<char>>) -> bool {
    &&& forall|i: int| 0 <= i < a.len() ==> seq_has_text(b, (#[trigger] a[i]))
    &&& forall|i: int| 0 <= i < b.len() ==> seq_has_text(a, (#[trigger] b[i]))
}

/// Decides mutual containment of two string vectors.
pub fn same_text_sets(a: &Vec<String>, b: &Vec<String>) -> (r: bool)
    ensures
        r == same_texts(views_of(a@), views_of(b@)),
{
    let ghost av = views_of(a@);
    let ghost bv = views_of(b@);
    let mut i: usize = 0;
    while i < a.len()
        invariant
            av == views_of(a@),
            bv == views_of(b@),
            i <= a@.len(),
            av.len() == a@.len(),
            forall|j: int| 0 <= j < i ==> seq_has_text(bv, (#[trigger] av[j])),
        decreases a@.len() - i,
    {
        proof {
            assert(av[i as int] == a@[i as int]@);
        }
        if !contains_text(b, a[i].as_str()) {
            proof {
                assert(!seq_has_text(bv, av[i as int]));
            }
            return false;
        }
        i += 1;
    }
    let mut j: usize = 0;
    while j < b.len()
        invariant
            av == views_of(a@),
            bv == views_of(b@),
            j <= b@.len(),
            bv.len() == b@.len(),
            forall|i2: int| 0 <= i2 < av.len() ==> seq_has_text(bv, (#[trigger] av[i2])),
            forall|j2: int| 0 <= j2 < j ==> seq_has_text(av, (#[trigger] bv[j2])),
        decreases b@.len() - j,
    {
        proof {
            assert(bv[j as int] == b@[j as int]@);
        }
        if !contains_text(a, b[j].as_str()) {
            proof {
                assert(!seq_has_text(av, bv[j as int]));
            }
            return false;
        }
        j += 1;
    }
    true
}

/// An integer clipped to the range of `u64`.
pub open spec fn clip64(n: int) -> int {
    if n > u64::MAX {
        u64::MAX as int
    } else {
        n
    }
}

/// Saturating addition on `u64`.
pub fn sat_add64(a: u64, b: u64) -> (r: u64)
    ensures
        r == clip64(a + b),
{
    if b > u64::MAX - a {
        u64::MAX
    } else {
        a + b
    }
}

/// The decimal digit character for a value below ten.
pub open spec fn dec_digit(d: int) -> char {
    if d == 0 {
        '0'
    } else if d == 1 {
        '1'
    } else if d == 2 {
        '2'
    } else if d == 3 {
        '3'
    } else if d == 4 {
        '4'
    } else if d == 5 {
        '5'
    } else if d == 6 {
        '6'
    } else if d == 7 {
        '7'
    } else if d == 8 {
        '8'
    } else {
        '9'
    }
}

/// The decimal rendering of a nonnegative integer, most significant digit
/// first, without leading zeroes (a single zero for zero itself).
pub open spec fn spec_dec(n: int) -> Seq<char>
    decreases n,
{
    if n < 10 {
        seq![dec_digit(n)]
    } else {
        spec_dec(n / 10).push(dec_digit(n % 10))
    }
}

/// The string slice holding one decimal digit.
pub fn digit_str(d: u64) -> (r: &'static str)
    requires
        d < 10,
    ensures
        r@ == seq![dec_digit(d as int)],
{
    let r: &'static str = if d == 0 {
        "0"
    } else if d == 1 {
        "1"
    } else if d == 2 {
        "2"
    } else if d == 3 {
        "3"
    } else if d == 4 {
        "4"
    } else if d == 5 {
        "5"
    } else if d == 6 {
        "6"
    } else if d == 7 {
        "7"
    } else if d == 8 {
        "8"
    } else {
        "9"
    };
    proof {
        reveal_strlit("0");
        reveal_strlit("1");
        reveal_strlit("2");
        reveal_strlit("3");
        reveal_strlit("4");
        reveal_strlit("5");
        reveal_strlit("6");
        reveal_strlit("7");
        reveal_strlit("8");
        reveal_strlit("9");
        assert(r@ =~= seq![dec_digit(d as int)]);
    }
    r
}

/// Renders an unsigned integer in decimal.
pub fn u64_to_dec(n: u64) -> (r: String)
    ensures
        r@ == spec_dec(n as int),
    decreases n,
{
    if n < 10 {
        String::from_str(digit_str(n))
    } else {
        let mut s = u64_to_dec(n / 10);
        s.append(digit_str(n % 10));
        proof {
            assert(s@ =~= spec_dec(n as int));
        }
        s
    }
}

} // verus!
