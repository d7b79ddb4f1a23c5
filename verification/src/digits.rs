//! Decimal text for the filter grammar and for group names.
//!
//! Numeric filter arguments (`uid(1000)`, `pid(-1)`) are parsed from and
//! rendered to decimal text; a group named after an unresolvable user id is
//! the id's decimal form.  Rendering and parsing invert each other, which
//! is what makes a rendered leaf filter re-parse to itself.

use vstd::prelude::*;

verus! {

/// The digit character for one value below ten.
pub open spec fn digit_char(d: int) -> char {
    ((d + 48) as u8) as char
}

/// The value of one digit character (zero for any other character).
pub open spec fn digit_val(c: char) -> nat {
    if 48 <= c as int <= 57 {
        (c as int - 48) as nat
    } else {
        0
    }
}

pub open spec fn is_digit_char(c: char) -> bool {
    48 <= c as int <= 57
}

pub open spec fn all_digits(s: Seq<char>) -> bool {
    forall|i: int| 0 <= i < s.len() ==> is_digit_char(#[trigger] s[i])
}

/// The decimal form of `n`, most significant digit first.
pub open spec fn dec_digits(n: nat) -> Seq<char>
    decreases n,
{
    if n < 10 {
        seq![digit_char(n as int)]
    } else {
        dec_digits(n / 10).push(digit_char((n % 10) as int))
    }
}

/// The number denoted by a digit string (non-digits count as zero).
pub open spec fn atou(s: Seq<char>) -> nat
    decreases s.len(),
{
    if s.len() == 0 {
        0
    } else {
        atou(s.drop_last()) * 10 + digit_val(s.last())
    }
}

/// What `str::parse::<u32>` accepts: an optional `+`, then at least one
/// digit, denoting a value that fits.
pub open spec fn spec_parse_u32(s: Seq<char>) -> Option<u32> {
    let body = if s.len() >= 1 && s[0] == '+' {
        s.drop_first()
    } else {
        s
    };
    if body.len() >= 1 && all_digits(body) && atou(body) <= u32::MAX {
        Some(atou(body) as u32)
    } else {
        None
    }
}

/// What `str::parse::<i32>` accepts: an optional sign, then at least one
/// digit, denoting a value in the type's range.
pub open spec fn spec_parse_i32(s: Seq<char>) -> Option<i32> {
    let negative = s.len() >= 1 && s[0] == '-';
    let body = if s.len() >= 1 && (s[0] == '-' || s[0] == '+') {
        s.drop_first()
    } else {
        s
    };
    if body.len() >= 1 && all_digits(body) {
        if negative && atou(body) <= 0x8000_0000 {
            Some((-(atou(body) as int)) as i32)
        } else if !negative && atou(body) <= i32::MAX {
            Some(atou(body) as i32)
        } else {
            None
        }
    } else {
        None
    }
}

/// The decimal form of a number denotes that number back.
pub proof fn lemma_atou_dec_digits(n: nat)
    ensures
        atou(dec_digits(n)) == n,
        all_digits(dec_digits(n)),
        dec_digits(n).len() >= 1,
        vstd::utf8::is_ascii_chars(dec_digits(n)),
    decreases n,
{
    if n < 10 {
        let s = dec_digits(n);
        assert(s.len() == 1);
        assert(s.drop_last() =~= Seq::<char>::empty());
        assert(atou(Seq::<char>::empty()) == 0);
        assert(s.last() == digit_char(n as int));
        assert(digit_val(digit_char(n as int)) == n);
        assert(atou(s) == n);
        assert(is_digit_char(s[0]));
        assert(s[0] as nat <= 127);
    } else {
        lemma_atou_dec_digits(n / 10);
        let s = dec_digits(n);
        assert(s.drop_last() =~= dec_digits(n / 10));
        assert(atou(s) == (n / 10) * 10 + n % 10);
        assert((n / 10) * 10 + n % 10 == n) by (nonlinear_arith);
        assert forall|i: int| 0 <= i < s.len() implies is_digit_char(#[trigger] s[i]) by {
            if i < s.len() - 1 {
                assert(s[i] == dec_digits(n / 10)[i]);
            }
        }
        assert forall|i: int| 0 <= i < s.len() implies (#[trigger] s[i]) as nat <= 127 by {
            assert(is_digit_char(s[i]));
        }
    }
}

fn digit_str(d: u64) -> (r: &'static str)
    requires
        d < 10,
    ensures
        r@ == seq![digit_char(d as int)],
        r.is_ascii(),
{
    proof {
        reveal_strlit("0");
        reveal_strlit("1");
        reveal_strlit("2");
        reveal_strlit("3");
        reveal_strlit("4");
        reveal_strlit("5");
        reveal_strlit("6");
        reveal_strlit("7");
        reveal_strlit("8");
        reveal_strlit("9");
    }
    let r: &'static str = match d {
        0 => "0",
        1 => "1",
        2 => "2",
        3 => "3",
        4 => "4",
        5 => "5",
        6 => "6",
        7 => "7",
        8 => "8",
        _ => "9",
    };
    proof {
        assert(r@ =~= seq![digit_char(d as int)]);
    }
    r
}

/// Renders `n` in decimal.
pub fn u64_to_string(n: u64) -> (r: String)
    ensures
        r@ == dec_digits(n as nat),
        r.is_ascii(),
    decreases n,
{
    proof {
        lemma_atou_dec_digits(n as nat);
    }
    if n < 10 {
        let r = digit_str(n).to_owned();
        proof {
            assert(r@ =~= dec_digits(n as nat));
        }
        r
    } else {
        proof {
            assert(n / 10 < n) by (nonlinear_arith)
                requires
                    n >= 10,
            ;
        }
        let q = u64_to_string(n / 10);
        let r = q.concat(digit_str(n % 10));
        proof {
            assert(r@ =~= dec_digits(n as nat));
            assert(vstd::utf8::is_ascii_chars(r@));
        }
        r
    }
}

/// Parses `s` as `str::parse::<u32>` would.
pub fn parse_u32(s: &str) -> (r: Option<u32>)
    requires
        s.is_ascii(),
    ensures
        r == spec_parse_u32(s@),
{
    let n = s.unicode_len();
    let start: usize = if n >= 1 && s.get_char(0) == '+' {
        1
    } else {
        0
    };
    let ghost body = if start == 1 {
        s@.drop_first()
    } else {
        s@
    };
    proof {
        assert(body =~= s@.subrange(start as int, n as int));
    }
    if n == start {
        return None;
    }
    let mut acc: u64 = 0;
    let mut over: bool = false;
    let mut i: usize = start;
    while i < n
        invariant
            start <= i <= n,
            n == s@.len(),
            start <= 1,
            (start == 1) <==> (s@.len() >= 1 && s@[0] == '+'),
            body == s@.subrange(start as int, n as int),
            all_digits(s@.subrange(start as int, i as int)),
            !over ==> acc == atou(s@.subrange(start as int, i as int)) && acc <= u32::MAX,
            over ==> atou(s@.subrange(start as int, i as int)) > u32::MAX,
        decreases n - i,
    {
        let c = s.get_char(i);
        let cv = c as u32;
        if cv < 48 || cv > 57 {
            proof {
                assert(body[i - start] == s@[i as int]);
                assert(!is_digit_char(s@[i as int]));
                assert(!all_digits(body));
            }
            return None;
        }
        proof {
            assert(s@.subrange(start as int, i + 1).drop_last() =~= s@.subrange(
                start as int,
                i as int,
            ));
            assert(s@.subrange(start as int, i + 1).last() == s@[i as int]);
        }
        let d: u64 = (cv - 48) as u64;
        if over {
            proof {
                assert(atou(s@.subrange(start as int, i + 1)) > u32::MAX);
            }
        } else {
            acc = acc * 10 + d;
            if acc > 0xffff_ffff {
                over = true;
            }
        }
        i += 1;
    }
    proof {
        assert(s@.subrange(start as int, n as int) =~= body);
    }
    if over {
        None
    } else {
        Some(acc as u32)
    }
}

/// Parses `s` as `str::parse::<i32>` would.
pub fn parse_i32(s: &str) -> (r: Option<i32>)
    requires
        s.is_ascii(),
    ensures
        r == spec_parse_i32(s@),
{
    let n = s.unicode_len();
    let mut negative: bool = false;
    let mut start: usize = 0;
    if n >= 1 {
        let c0 = s.get_char(0);
        if c0 == '-' {
            negative = true;
            start = 1;
        } else if c0 == '+' {
            start = 1;
        }
    }
    let ghost body = if start == 1 {
        s@.drop_first()
    } else {
        s@
    };
    proof {
        assert(body =~= s@.subrange(start as int, n as int));
    }
    if n == start {
        return None;
    }
    let limit: u64 = if negative {
        0x8000_0000
    } else {
        0x7fff_ffff
    };
    let mut acc: u64 = 0;
    let mut over: bool = false;
    let mut i: usize = start;
    while i < n
        invariant
            start <= i <= n,
            n == s@.len(),
            start <= 1,
            negative == (s@.len() >= 1 && s@[0] == '-'),
            (start == 1) <==> (s@.len() >= 1 && (s@[0] == '-' || s@[0] == '+')),
            body == s@.subrange(start as int, n as int),
            limit == if negative {
                0x8000_0000u64
            } else {
                0x7fff_ffffu64
            },
            all_digits(s@.subrange(start as int, i as int)),
            !over ==> acc == atou(s@.subrange(start as int, i as int)) && acc <= limit,
            over ==> atou(s@.subrange(start as int, i as int)) > limit,
        decreases n - i,
    {
        let c = s.get_char(i);
        let cv = c as u32;
        if cv < 48 || cv > 57 {
            proof {
                assert(body[i - start] == s@[i as int]);
                assert(!is_digit_char(s@[i as int]));
                assert(!all_digits(body));
            }
            return None;
        }
        proof {
            assert(s@.subrange(start as int, i + 1).drop_last() =~= s@.subrange(
                start as int,
                i as int,
            ));
            assert(s@.subrange(start as int, i + 1).last() == s@[i as int]);
        }
        let d: u64 = (cv - 48) as u64;
        if over {
            proof {
                assert(atou(s@.subrange(start as int, i + 1)) > limit);
            }
        } else {
            acc = acc * 10 + d;
            if acc > limit {
                over = true;
            }
        }
        i += 1;
    }
    proof {
        assert(s@.subrange(start as int, n as int) =~= body);
    }
    if over {
        None
    } else {
        if negative {
            Some((-(acc as i64)) as i32)
        } else {
            Some(acc as i32)
        }
    }
}

} // verus!
