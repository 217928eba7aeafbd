//! The endpoint naming registry: an explicitly owned counter that hands out
//! identifiers that are never repeated during its lifetime, and the rendering
//! of such an identifier as a decimal string.

use vstd::prelude::*;
use vstd::string::StringExecFns;

verus! {

/// A source of fresh identifiers. Every value returned by [`IdSource::fresh`]
/// is strictly smaller than every value returned later, so no identifier is
/// ever handed out twice.
pub struct IdSource {
    pub next: u64,
}

impl IdSource {
    /// The next identifier this source will hand out; every identifier handed
    /// out so far is strictly below this bound.
    pub open spec fn val(self) -> u64 {
        self.next
    }

    pub fn new() -> (r: IdSource)
        ensures
            r.val() == 0,
    {
        IdSource { next: 0 }
    }

    /// Hands out the next identifier.
    pub fn fresh(&mut self) -> (r: u64)
        requires
            old(self).val() < u64::MAX,
        ensures
            r == old(self).val(),
            final(self).val() == old(self).val() + 1,
    {
        let r = self.next;
        self.next = self.next + 1;
        r
    }
}

/// The character for one decimal digit.
pub open spec fn digit_char(d: int) -> char {
    seq!['0', '1', '2', '3', '4', '5', '6', '7', '8', '9'][d]
}

/// The decimal rendering of a nonnegative integer, most significant digit
/// first, with no leading zeros (except for zero itself).
pub open spec fn dec_rep(n: int) -> Seq<char>
    decreases n,
{
    if n < 10 {
        seq![digit_char(n)]
    } else {
        dec_rep(n / 10).push(digit_char(n % 10))
    }
}

/// The characters of a digit sequence read back-to-front.
pub open spec fn chars_of_digits_rev(ds: Seq<u8>) -> Seq<char>
    decreases ds.len(),
{
    if ds.len() == 0 {
        Seq::empty()
    } else {
        seq![digit_char(ds.last() as int)] + chars_of_digits_rev(ds.drop_last())
    }
}

proof fn lemma_rev_unfold_front(ds: Seq<u8>)
    requires
        ds.len() > 0,
    ensures
        chars_of_digits_rev(ds) == chars_of_digits_rev(ds.drop_first()) + seq![
            digit_char(ds.first() as int),
        ],
    decreases ds.len(),
{
    if ds.len() == 1 {
        assert(ds.drop_last() =~= Seq::<u8>::empty());
        assert(ds.drop_first() =~= Seq::<u8>::empty());
        assert(ds.last() == ds.first());
        assert(chars_of_digits_rev(Seq::<u8>::empty()) =~= Seq::<char>::empty());
        assert(chars_of_digits_rev(ds) =~= seq![digit_char(ds.last() as int)]
            + chars_of_digits_rev(ds.drop_last()));
        assert(chars_of_digits_rev(ds.drop_first()) == Seq::<char>::empty());
        assert(chars_of_digits_rev(ds.drop_last()) == Seq::<char>::empty());
        assert(seq![digit_char(ds.last() as int)] + Seq::<char>::empty() =~= seq![
            digit_char(ds.last() as int),
        ]);
        assert(Seq::<char>::empty() + seq![digit_char(ds.first() as int)] =~= seq![
            digit_char(ds.first() as int),
        ]);
        assert(chars_of_digits_rev(ds) == seq![digit_char(ds.last() as int)]);
        assert(chars_of_digits_rev(ds.drop_first()) + seq![digit_char(ds.first() as int)] == seq![
            digit_char(ds.first() as int),
        ]);
        assert(chars_of_digits_rev(ds) == chars_of_digits_rev(ds.drop_first()) + seq![
            digit_char(ds.first() as int),
        ]);
    } else {
        let dl = ds.drop_last();
        lemma_rev_unfold_front(dl);
        let hd = seq![digit_char(ds.last() as int)];
        let mid = chars_of_digits_rev(dl.drop_first());
        let tl = seq![digit_char(ds.first() as int)];
        assert(dl.first() == ds.first());
        assert(chars_of_digits_rev(dl) == mid + tl);
        assert(chars_of_digits_rev(ds) == hd + (mid + tl));
        assert(ds.drop_first().len() > 0);
        assert(ds.drop_first().last() == ds.last());
        assert(ds.drop_first().drop_last() =~= dl.drop_first());
        assert(chars_of_digits_rev(ds.drop_first()) == hd + mid);
        assert(hd + (mid + tl) =~= (hd + mid) + tl);
        assert(chars_of_digits_rev(ds) == chars_of_digits_rev(ds.drop_first()) + tl);
    }
}

proof fn lemma_digit_char_injective(d1: int, d2: int)
    requires
        0 <= d1 < 10,
        0 <= d2 < 10,
        d1 != d2,
    ensures
        digit_char(d1) != digit_char(d2),
{
    assert(digit_char(0) == '0');
    assert(digit_char(1) == '1');
    assert(digit_char(2) == '2');
    assert(digit_char(3) == '3');
    assert(digit_char(4) == '4');
    assert(digit_char(5) == '5');
    assert(digit_char(6) == '6');
    assert(digit_char(7) == '7');
    assert(digit_char(8) == '8');
    assert(digit_char(9) == '9');
}

proof fn lemma_dec_rep_len(n: int)
    requires
        0 <= n,
    ensures
        dec_rep(n).len() >= 1,
        n >= 10 ==> dec_rep(n).len() >= 2,
    decreases n,
{
    if n >= 10 {
        lemma_dec_rep_len(n / 10);
    }
}

/// Distinct nonnegative integers render as distinct decimal strings: the
/// rendering is injective, so identifiers drawn from one source never
/// collide as strings either.
pub proof fn lemma_dec_rep_injective(a: int, b: int)
    requires
        0 <= a,
        0 <= b,
        a != b,
    ensures
        dec_rep(a) != dec_rep(b),
    decreases a + b,
{
    if a < 10 && b < 10 {
        lemma_digit_char_injective(a, b);
        assert(dec_rep(a)[0] == digit_char(a));
        assert(dec_rep(b)[0] == digit_char(b));
    } else if a < 10 {
        lemma_dec_rep_len(b);
        assert(dec_rep(a).len() == 1);
    } else if b < 10 {
        lemma_dec_rep_len(a);
        assert(dec_rep(b).len() == 1);
    } else {
        if a % 10 != b % 10 {
            lemma_digit_char_injective(a % 10, b % 10);
            assert(dec_rep(a).last() == digit_char(a % 10));
            assert(dec_rep(b).last() == digit_char(b % 10));
        } else {
            assert(a / 10 != b / 10);
            lemma_dec_rep_injective(a / 10, b / 10);
            if dec_rep(a) == dec_rep(b) {
                assert(dec_rep(a).drop_last() =~= dec_rep(a / 10));
                assert(dec_rep(b).drop_last() =~= dec_rep(b / 10));
                assert(dec_rep(a / 10) == dec_rep(b / 10));
            }
        }
    }
}

/// Appends the character of one decimal digit to a string.
fn append_digit(s: &mut String, d: u8)
    requires
        d < 10,
    ensures
        final(s)@ == old(s)@ + seq![digit_char(d as int)],
{
    match d {
        0 => {
            proof {
                reveal_strlit("0");
                assert("0"@ =~= seq![digit_char(0)]);
            }
            s.append("0");
        },
        1 => {
            proof {
                reveal_strlit("1");
                assert("1"@ =~= seq![digit_char(1)]);
            }
            s.append("1");
        },
        2 => {
            proof {
                reveal_strlit("2");
                assert("2"@ =~= seq![digit_char(2)]);
            }
            s.append("2");
        },
        3 => {
            proof {
                reveal_strlit("3");
                assert("3"@ =~= seq![digit_char(3)]);
            }
            s.append("3");
        },
        4 => {
            proof {
                reveal_strlit("4");
                assert("4"@ =~= seq![digit_char(4)]);
            }
            s.append("4");
        },
        5 => {
            proof {
                reveal_strlit("5");
                assert("5"@ =~= seq![digit_char(5)]);
            }
            s.append("5");
        },
        6 => {
            proof {
                reveal_strlit("6");
                assert("6"@ =~= seq![digit_char(6)]);
            }
            s.append("6");
        },
        7 => {
            proof {
                reveal_strlit("7");
                assert("7"@ =~= seq![digit_char(7)]);
            }
            s.append("7");
        },
        8 => {
            proof {
                reveal_strlit("8");
                assert("8"@ =~= seq![digit_char(8)]);
            }
            s.append("8");
        },
        _ => {
            assert(d == 9);
            proof {
                reveal_strlit("9");
                assert("9"@ =~= seq![digit_char(9)]);
            }
            s.append("9");
        },
    }
}

/// Renders an integer in decimal.
pub fn u64_to_decimal(n: u64) -> (r: String)
    ensures
        r@ == dec_rep(n as int),
{
    let mut x: u64 = n;
    let mut digits: Vec<u8> = Vec::new();
    while x >= 10
        invariant
            dec_rep(n as int) == dec_rep(x as int) + chars_of_digits_rev(digits@),
            forall|k: int| 0 <= k < digits@.len() ==> digits@[k] < 10,
        decreases x,
    {
        let d = (x % 10) as u8;
        let ghost pre = digits@;
        digits.push(d);
        proof {
            assert(digits@.drop_last() =~= pre);
            assert(chars_of_digits_rev(digits@) =~= seq![digit_char(d as int)]
                + chars_of_digits_rev(pre));
            assert(dec_rep(x as int) == dec_rep(x as int / 10).push(digit_char(x as int % 10)));
            assert(dec_rep(x as int / 10).push(digit_char(d as int)) =~= dec_rep(x as int / 10)
                + seq![digit_char(d as int)]);
            assert(dec_rep((x / 10) as int) + chars_of_digits_rev(digits@) =~= dec_rep(x as int)
                + chars_of_digits_rev(pre));
        }
        x = x / 10;
    }
    let ghost pre = digits@;
    digits.push(x as u8);
    proof {
        assert(digits@.drop_last() =~= pre);
        assert(chars_of_digits_rev(digits@) =~= seq![digit_char(x as int)]
            + chars_of_digits_rev(pre));
        assert(dec_rep(x as int) =~= seq![digit_char(x as int)]);
        assert(dec_rep(n as int) =~= chars_of_digits_rev(digits@));
    }
    let mut s = String::new();
    let mut k = digits.len();
    while k > 0
        invariant
            k <= digits@.len(),
            forall|t: int| 0 <= t < digits@.len() ==> digits@[t] < 10,
            s@ == chars_of_digits_rev(digits@.subrange(k as int, digits@.len() as int)),
            dec_rep(n as int) == chars_of_digits_rev(digits@),
        decreases k,
    {
        let d = digits[k - 1];
        let ghost tail = digits@.subrange(k as int, digits@.len() as int);
        let ghost whole = digits@.subrange(k - 1, digits@.len() as int);
        append_digit(&mut s, d);
        proof {
            lemma_rev_unfold_front(whole);
            assert(whole.drop_first() =~= tail);
            assert(whole.first() == digits@[k - 1]);
        }
        k = k - 1;
    }
    proof {
        assert(digits@.subrange(0, digits@.len() as int) =~= digits@);
    }
    s
}

/// Returns an identifier string that has never been returned before from this
/// source: the decimal rendering of a fresh identifier.
pub fn uniqstring(ids: &mut IdSource) -> (r: String)
    requires
        old(ids).val() < u64::MAX,
    ensures
        final(ids).val() == old(ids).val() + 1,
        r@ == dec_rep(old(ids).val() as int),
{
    let n = ids.fresh();
    u64_to_decimal(n)
}

} // verus!
