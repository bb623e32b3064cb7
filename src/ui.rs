//! The console front end's state and the parsing of a typed move.

use vstd::prelude::*;
use vstd::string::StringSliceAdditionalSpecFns;

verus! {

/// A blank byte: the ASCII characters that `char::is_whitespace` accepts.
pub open spec fn is_blank(b: u8) -> bool {
    b == 32 || (9 <= b && b <= 13)
}

/// The words of `s`: its maximal runs of non-blank bytes, left to right.
pub open spec fn words(s: Seq<u8>) -> Seq<Seq<u8>>
    decreases s.len(),
{
    if s.len() == 0 {
        Seq::empty()
    } else {
        let w = words(s.drop_last());
        let c = s.last();
        if is_blank(c) {
            w
        } else if s.len() >= 2 && !is_blank(s[s.len() - 2]) {
            w.drop_last().push(w.last().push(c))
        } else {
            w.push(seq![c])
        }
    }
}

/// Every byte of `t` is an ASCII digit.
pub open spec fn all_digits(t: Seq<u8>) -> bool {
    forall|i: int| 0 <= i < t.len() ==> 48 <= #[trigger] t[i] <= 57
}

/// The number that the decimal digits `t` spell.
pub open spec fn digits_value(t: Seq<u8>) -> int
    decreases t.len(),
{
    if t.len() == 0 {
        0
    } else {
        10 * digits_value(t.drop_last()) + (t.last() - 48)
    }
}

/// `t` without one leading `'+'`.
pub open spec fn unsigned_digits(t: Seq<u8>) -> Seq<u8> {
    if t.len() > 0 && t[0] == 43 {
        t.drop_first()
    } else {
        t
    }
}

/// The `usize` that `t` spells: an optional `'+'`, then one or more decimal
/// digits whose value fits.
pub open spec fn parsed_usize(t: Seq<u8>) -> Option<usize> {
    let d = unsigned_digits(t);
    if d.len() > 0 && all_digits(d) && digits_value(d) <= usize::MAX {
        Some(digits_value(d) as usize)
    } else {
        None
    }
}

/// A move typed as two numbers separated by blanks: row, then column.
pub open spec fn parsed_move(s: Seq<u8>) -> Option<(usize, usize)> {
    let w = words(s);
    if w.len() == 2 {
        match (parsed_usize(w[0]), parsed_usize(w[1])) {
            (Some(r), Some(c)) => Some((r, c)),
            _ => None,
        }
    } else {
        None
    }
}

proof fn lemma_digits_value_nonneg(t: Seq<u8>)
    requires
        all_digits(t),
    ensures
        digits_value(t) >= 0,
    decreases t.len(),
{
    if t.len() > 0 {
        assert(all_digits(t.drop_last()));
        lemma_digits_value_nonneg(t.drop_last());
    }
}

/// The number that `t` spells, if it is a `usize` written in decimal.
fn parse_number(t: &Vec<u8>) -> (r: Option<usize>)
    ensures
        r == parsed_usize(t@),
{
    let start: usize = if t.len() > 0 && t[0] == 43 {
        1
    } else {
        0
    };
    let ghost d = unsigned_digits(t@);
    proof {
        assert(d =~= t@.subrange(start as int, t@.len() as int));
    }
    if start == t.len() {
        return None;
    }
    let mut value: usize = 0;
    let mut overflow = false;
    let mut k: usize = start;
    while k < t.len()
        invariant
            start <= k <= t@.len(),
            d == unsigned_digits(t@),
            d == t@.subrange(start as int, t@.len() as int),
            all_digits(t@.subrange(start as int, k as int)),
            !overflow ==> value == digits_value(t@.subrange(start as int, k as int)),
            overflow ==> digits_value(t@.subrange(start as int, k as int)) > usize::MAX,
        decreases t@.len() - k,
    {
        let b = t[k];
        if b < 48 || b > 57 {
            proof {
                assert(d[k - start] == b);
            }
            return None;
        }
        let ghost prev = t@.subrange(start as int, k as int);
        let ghost next = t@.subrange(start as int, k + 1);
        proof {
            assert(next.drop_last() =~= prev);
            assert(all_digits(next));
            lemma_digits_value_nonneg(prev);
        }
        if !overflow {
            match value.checked_mul(10) {
                Some(v) => match v.checked_add((b - 48) as usize) {
                    Some(v2) => {
                        value = v2;
                    },
                    None => {
                        overflow = true;
                    },
                },
                None => {
                    overflow = true;
                },
            }
        }
        k += 1;
    }
    proof {
        assert(t@.subrange(start as int, t@.len() as int) == d);
    }
    if overflow {
        None
    } else {
        Some(value)
    }
}

/// The console front end. It holds no state of its own.
pub struct UI {}

impl Default for UI {
    fn default() -> (r: UI) {
        UI::new()
    }
}

impl UI {
    /// A front end.
    pub fn new() -> (r: UI) {
        UI {}
    }

    /// The `(row, column)` typed in `input`: exactly two words, each a `usize`
    /// in decimal with an optional leading `'+'`. Words are separated by
    /// ASCII whitespace.
    pub fn parse_move(&self, input: &str) -> (r: Option<(usize, usize)>)
        ensures
            r == parsed_move(input.spec_bytes()),
    {
        let bytes = input.as_bytes();
        let ghost s = bytes@;
        let mut found: Vec<Vec<u8>> = Vec::new();
        let mut i: usize = 0;
        while i < bytes.len()
            invariant
                s == bytes@,
                i <= s.len(),
                found@.map_values(|w: Vec<u8>| w@) == words(s.take(i as int)),
                i > 0 && !is_blank(s[i - 1]) ==> found@.len() > 0,
            decreases s.len() - i,
        {
            let c = bytes[i];
            proof {
                assert(s.take(i + 1).drop_last() =~= s.take(i as int));
                assert(s.take(i + 1).last() == c);
                if i > 0 {
                    assert(s.take(i + 1)[i - 1] == s[i - 1]);
                }
            }
            let blank = c == 32 || (9 <= c && c <= 13);
            if !blank {
                if i > 0 && !(bytes[i - 1] == 32 || (9 <= bytes[i - 1] && bytes[i - 1] <= 13)) {
                    let mut cur = found.pop().unwrap();
                    cur.push(c);
                    found.push(cur);
                    proof {
                        assert(found@.map_values(|w: Vec<u8>| w@) =~= words(s.take(i + 1)));
                    }
                } else {
                    let mut cur: Vec<u8> = Vec::new();
                    cur.push(c);
                    found.push(cur);
                    proof {
                        assert(cur@ =~= seq![c]);
                        assert(found@.map_values(|w: Vec<u8>| w@) =~= words(s.take(i + 1)));
                    }
                }
            }
            i += 1;
        }
        proof {
            assert(s.take(s.len() as int) =~= s);
        }
        if found.len() != 2 {
            return None;
        }
        let row = parse_number(&found[0]);
        let col = parse_number(&found[1]);
        match (row, col) {
            (Some(r), Some(c)) => Some((r, c)),
            _ => None,
        }
    }
}

} // verus!
