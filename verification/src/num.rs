//! Reading unsigned integers written in a radix, as `u32::from_str_radix`
//! reads them: an optional `+`, then at least one digit, and a value that
//! fits the type.
use vstd::prelude::*;

verus! {

/// Value of the digit `c` in `radix` (`char::to_digit`), for ASCII digits
/// and letters.
pub open spec fn digit_value(c: char, radix: nat) -> Option<nat> {
    let u = c as u32;
    if 48 <= u <= 57 && u - 48 < radix {
        Some((u - 48) as nat)
    } else if 97 <= u <= 122 && u - 87 < radix {
        Some((u - 87) as nat)
    } else if 65 <= u <= 90 && u - 55 < radix {
        Some((u - 55) as nat)
    } else {
        None
    }
}

/// Every character of `d` is a digit in `radix`.
pub open spec fn all_digits(d: Seq<char>, radix: nat) -> bool {
    forall|k: int| 0 <= k < d.len() ==> (#[trigger] digit_value(d[k], radix)) is Some
}

/// The number written by the digits `d` (most significant first).
pub open spec fn digits_value(d: Seq<char>, radix: nat) -> nat
    decreases d.len(),
{
    if d.len() == 0 {
        0
    } else {
        digits_value(d.drop_last(), radix) * radix + digit_value(d.last(), radix)->0
    }
}

/// The digits of `s` once an optional leading `+` is dropped.
pub open spec fn unsigned_digits(s: Seq<char>) -> Seq<char> {
    if s.len() > 0 && s[0] == '+' {
        s.skip(1)
    } else {
        s
    }
}

/// `u32::from_str_radix(s, radix).ok()`.
pub open spec fn u32_of(s: Seq<char>, radix: nat) -> Option<u32> {
    let d = unsigned_digits(s);
    if d.len() > 0 && all_digits(d, radix) && digits_value(d, radix) <= u32::MAX {
        Some(digits_value(d, radix) as u32)
    } else {
        None
    }
}

/// Digit value of a character, as `char::to_digit`.
fn to_digit(c: char, radix: u32) -> (r: Option<u32>)
    requires
        2 <= radix <= 36,
    ensures
        match r {
            Some(v) => digit_value(c, radix as nat) == Some(v as nat),
            None => digit_value(c, radix as nat) is None,
        },
{
    let u = c as u32;
    if 48 <= u && u <= 57 && u - 48 < radix {
        Some(u - 48)
    } else if 97 <= u && u <= 122 && u - 87 < radix {
        Some(u - 87)
    } else if 65 <= u && u <= 90 && u - 55 < radix {
        Some(u - 55)
    } else {
        None
    }
}

/// Reads an unsigned 32-bit number written in `radix` (`u32::from_str_radix`).
pub fn parse_u32_radix(s: &[char], radix: u32) -> (r: Option<u32>)
    requires
        2 <= radix <= 36,
    ensures
        r == u32_of(s@, radix as nat),
{
    let n = s.len();
    let start: usize = if n > 0 && s[0] == '+' {
        1
    } else {
        0
    };
    let ghost d = unsigned_digits(s@);
    proof {
        assert(d =~= s@.skip(start as int));
    }
    if start == n {
        return None;
    }
    let mut acc: u64 = 0;
    let mut over = false;
    let mut k = start;
    while k < n
        invariant
            start <= k <= n,
            n == s@.len(),
            d == s@.skip(start as int),
            d == unsigned_digits(s@),
            2 <= radix <= 36,
            all_digits(d.take(k - start), radix as nat),
            !over ==> acc == digits_value(d.take(k - start), radix as nat) && acc <= u32::MAX,
            over ==> digits_value(d.take(k - start), radix as nat) > u32::MAX,
        decreases n - k,
    {
        let dv = match to_digit(s[k], radix) {
            Some(v) => v,
            None => {
                proof {
                    assert(d[k - start] == s@[k as int]);
                    assert(!all_digits(d, radix as nat));
                }
                return None;
            },
        };
        let ghost prev = d.take(k - start);
        let ghost next = d.take(k - start + 1);
        proof {
            assert(next.drop_last() =~= prev);
            assert(next.last() == s@[k as int]);
            assert(all_digits(next, radix as nat)) by {
                assert forall|q: int| 0 <= q < next.len() implies (#[trigger] digit_value(
                    next[q],
                    radix as nat,
                )) is Some by {
                    if q < prev.len() {
                        assert(next[q] == prev[q]);
                    }
                }
            }
            let pv = digits_value(prev, radix as nat);
            assert(pv * radix + dv >= pv) by (nonlinear_arith)
                requires
                    radix >= 2,
                    dv >= 0,
                    pv >= 0,
            ;
        }
        if !over {
            proof {
                assert(acc * radix + dv <= 0xffff_ffff * 36 + 36) by (nonlinear_arith)
                    requires
                        acc <= 0xffff_ffff,
                        radix <= 36,
                        dv < 36,
                ;
            }
            acc = acc * (radix as u64) + (dv as u64);
            if acc > 0xffff_ffff {
                over = true;
            }
        }
        k += 1;
    }
    proof {
        assert(d.take(n - start) =~= d);
    }
    if over {
        None
    } else {
        Some(acc as u32)
    }
}

} // verus!
