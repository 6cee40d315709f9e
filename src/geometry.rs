//! Parsing of `WIDTHxHEIGHT` geometry strings.

use vstd::prelude::*;
use vstd::string::StrSliceExecFns;

verus! {

/// What can go wrong around maze generation.
#[derive(Clone, Copy, PartialEq, Eq, Structural, Debug)]
pub enum MazeError {
    /// The geometry is not two positive decimal integers joined by one `x`.
    InvalidGeometry,
    /// The image could not be encoded or written.
    ImageWriteFailure,
}

pub open spec fn is_digit(c: char) -> bool {
    '0' <= c && c <= '9'
}

pub open spec fn digit_value(c: char) -> int {
    (c as int) - ('0' as int)
}

/// The number that a sequence of decimal digits spells.
pub open spec fn decimal_value(s: Seq<char>) -> int
    decreases s.len(),
{
    if s.len() == 0 {
        0
    } else {
        decimal_value(s.drop_last()) * 10 + digit_value(s.last())
    }
}

pub open spec fn all_digits(s: Seq<char>) -> bool {
    forall|i: int| 0 <= i < s.len() ==> is_digit(#[trigger] s[i])
}

/// The digits of an unsigned number, after an optional leading `+`.
pub open spec fn unsigned_digits(s: Seq<char>) -> Seq<char> {
    if s.len() > 0 && s[0] == '+' {
        s.skip(1)
    } else {
        s
    }
}

/// The `u32` that `s` writes in decimal, with an optional leading `+`.
pub open spec fn u32_of(s: Seq<char>) -> Option<u32> {
    let d = unsigned_digits(s);
    if d.len() > 0 && all_digits(d) && decimal_value(d) <= u32::MAX {
        Some(decimal_value(d) as u32)
    } else {
        None
    }
}

/// `k` is the position of the one `x` in `s`.
pub open spec fn is_sole_x(s: Seq<char>, k: int) -> bool {
    &&& 0 <= k < s.len()
    &&& s[k] == 'x'
    &&& forall|j: int| 0 <= j < s.len() && #[trigger] s[j] == 'x' ==> j == k
}

/// The width and height that `s` gives: two positive numbers around a single `x`.
pub open spec fn geometry_of(s: Seq<char>) -> Option<(u32, u32)> {
    if exists|k: int| is_sole_x(s, k) {
        let k = choose|k: int| is_sole_x(s, k);
        match (u32_of(s.subrange(0, k)), u32_of(s.subrange(k + 1, s.len() as int))) {
            (Some(w), Some(h)) => if w > 0 && h > 0 {
                Some((w, h))
            } else {
                None
            },
            _ => None,
        }
    } else {
        None
    }
}

/// A prefix of a digit sequence spells no more than the whole.
proof fn lemma_decimal_prefix(t: Seq<char>, k: int)
    requires
        all_digits(t),
        0 <= k <= t.len(),
    ensures
        0 <= decimal_value(t.subrange(0, k)) <= decimal_value(t),
    decreases t.len(),
{
    if t.len() > 0 {
        let u = t.drop_last();
        assert(all_digits(u)) by {
            assert forall|i: int| 0 <= i < u.len() implies is_digit(#[trigger] u[i]) by {
                assert(u[i] == t[i]);
            }
        }
        assert(is_digit(t[t.len() - 1]));
        lemma_decimal_prefix(u, u.len() as int);
        assert(u.subrange(0, u.len() as int) =~= u);
        if k < t.len() {
            lemma_decimal_prefix(u, k);
            assert(u.subrange(0, k) =~= t.subrange(0, k));
        } else {
            assert(t.subrange(0, k) =~= t);
        }
    }
}

/// The number written in characters `from..to` of `s`, as `u32_of` reads it.
fn parse_u32_at(s: &str, from: usize, to: usize) -> (r: Option<u32>)
    requires
        from <= to <= s@.len(),
    ensures
        r == u32_of(s@.subrange(from as int, to as int)),
{
    let ghost whole = s@.subrange(from as int, to as int);
    let mut start = from;
    if start < to && s.get_char(start) == '+' {
        start = start + 1;
    }
    proof {
        assert(unsigned_digits(whole) =~= s@.subrange(start as int, to as int));
    }
    if start == to {
        return None;
    }
    let ghost d = s@.subrange(start as int, to as int);
    let mut i = start;
    let mut v: u32 = 0;
    while i < to
        invariant
            from <= start <= i <= to <= s@.len(),
            start < to,
            d == s@.subrange(start as int, to as int),
            whole == s@.subrange(from as int, to as int),
            unsigned_digits(whole) == d,
            v == decimal_value(s@.subrange(start as int, i as int)),
            forall|j: int| start <= j < i ==> is_digit(#[trigger] s@[j]),
        decreases to - i,
    {
        let ch = s.get_char(i);
        if !('0' <= ch && ch <= '9') {
            proof {
                assert(d[i - start] == ch);
                assert(!is_digit(d[i - start]));
                assert(!all_digits(d));
            }
            return None;
        }
        let digit = (ch as u32) - ('0' as u32);
        let ghost next = s@.subrange(start as int, i + 1);
        proof {
            assert(next.drop_last() =~= s@.subrange(start as int, i as int));
            assert(decimal_value(next) == v * 10 + digit);
        }
        if v > (u32::MAX - digit) / 10 {
            proof {
                let vi = v as int;
                let di = digit as int;
                assert(vi * 10 + di > u32::MAX) by (nonlinear_arith)
                    requires
                        vi > (u32::MAX - di) / 10,
                        0 <= di <= 9,
                ;
                if all_digits(d) {
                    lemma_decimal_prefix(d, i + 1 - start);
                    assert(d.subrange(0, i + 1 - start) =~= next);
                    assert(decimal_value(d) > u32::MAX);
                }
            }
            return None;
        }
        v = v * 10 + digit;
        i = i + 1;
    }
    proof {
        assert(s@.subrange(start as int, i as int) =~= d);
        assert(all_digits(d)) by {
            assert forall|j: int| 0 <= j < d.len() implies is_digit(#[trigger] d[j]) by {
                assert(d[j] == s@[start + j]);
            }
        }
    }
    Some(v)
}

/// Reads a `WIDTHxHEIGHT` geometry such as `100x100`.
pub fn geometry_parse(geometry: &str) -> (r: Result<(u32, u32), MazeError>)
    ensures
        r == match geometry_of(geometry@) {
            Some(p) => Ok::<(u32, u32), MazeError>(p),
            None => Err(MazeError::InvalidGeometry),
        },
{
    let n = geometry.unicode_len();
    let mut pos: Option<usize> = None;
    let mut i: usize = 0;
    while i < n
        invariant
            n == geometry@.len(),
            i <= n,
            match pos {
                None => forall|j: int| 0 <= j < i ==> #[trigger] geometry@[j] != 'x',
                Some(k) => k < i && geometry@[k as int] == 'x' && forall|j: int|
                    0 <= j < i && #[trigger] geometry@[j] == 'x' ==> j == k,
            },
        decreases n - i,
    {
        if geometry.get_char(i) == 'x' {
            match pos {
                Some(k) => {
                    proof {
                        assert forall|k2: int| !is_sole_x(geometry@, k2) by {
                            if is_sole_x(geometry@, k2) {
                                assert(geometry@[k as int] == 'x');
                                assert(geometry@[i as int] == 'x');
                            }
                        }
                    }
                    return Err(MazeError::InvalidGeometry);
                },
                None => {
                    pos = Some(i);
                },
            }
        }
        i = i + 1;
    }
    match pos {
        None => {
            proof {
                assert forall|k2: int| !is_sole_x(geometry@, k2) by {
                    if is_sole_x(geometry@, k2) {
                        assert(geometry@[k2] == 'x');
                    }
                }
            }
            Err(MazeError::InvalidGeometry)
        },
        Some(k) => {
            proof {
                assert(is_sole_x(geometry@, k as int));
                let k2 = choose|k2: int| is_sole_x(geometry@, k2);
                assert(k2 == k);
            }
            let w = parse_u32_at(geometry, 0, k);
            let h = parse_u32_at(geometry, k + 1, n);
            match (w, h) {
                (Some(w), Some(h)) => {
                    if w > 0 && h > 0 {
                        Ok((w, h))
                    } else {
                        Err(MazeError::InvalidGeometry)
                    }
                },
                _ => Err(MazeError::InvalidGeometry),
            }
        },
    }
}

} // verus!
