//! Bytes into pieces and pieces into numbers: the lexical layer under the
//! problem format.
use vstd::prelude::*;

verus! {

/// The view of a vector of vectors: the sequence of the views of its rows.
pub open spec fn nested_view<T>(rows: Seq<Vec<T>>) -> Seq<Seq<T>> {
    Seq::new(rows.len(), |i: int| rows[i]@)
}

/// The pieces of `s` between the occurrences of `sep`. There is always one
/// piece more than there are separators, so the empty text has one empty piece.
pub open spec fn split(s: Seq<u8>, sep: u8) -> Seq<Seq<u8>>
    decreases s.len(),
{
    if s.len() == 0 {
        seq![Seq::empty()]
    } else {
        let head = split(s.drop_last(), sep);
        if s.last() == sep {
            head.push(Seq::empty())
        } else {
            head.drop_last().push(head.last().push(s.last()))
        }
    }
}

/// A split has at least one piece.
pub proof fn lemma_split_nonempty(s: Seq<u8>, sep: u8)
    ensures
        split(s, sep).len() >= 1,
    decreases s.len(),
{
    if s.len() > 0 {
        lemma_split_nonempty(s.drop_last(), sep);
    }
}

/// The byte is an ASCII digit.
pub open spec fn is_digit(b: u8) -> bool {
    48 <= b <= 57
}

/// Every byte is an ASCII digit.
pub open spec fn all_digits(s: Seq<u8>) -> bool {
    forall|i: int| 0 <= i < s.len() ==> is_digit(#[trigger] s[i])
}

/// The number that a string of decimal digits writes.
pub open spec fn digits_value(s: Seq<u8>) -> nat
    decreases s.len(),
{
    if s.len() == 0 {
        0
    } else {
        digits_value(s.drop_last()) * 10 + (s.last() - 48) as nat
    }
}

/// The number that a token writes: one or more decimal digits after an
/// optional `+`, or, where `signed` allows it, after a `-`.
pub open spec fn number(token: Seq<u8>, signed: bool) -> Option<int> {
    if token.len() == 0 {
        None
    } else {
        let negative = signed && token[0] == 45;
        let body = if token[0] == 43 || negative {
            token.skip(1)
        } else {
            token
        };
        if body.len() == 0 || !all_digits(body) {
            None
        } else if negative {
            Some(-(digits_value(body) as int))
        } else {
            Some(digits_value(body) as int)
        }
    }
}

/// The number that a token writes, if it lies between `lo` and `hi`.
pub open spec fn number_in(token: Seq<u8>, signed: bool, lo: int, hi: int) -> Option<int> {
    match number(token, signed) {
        Some(v) => if lo <= v <= hi {
            Some(v)
        } else {
            None
        },
        None => None,
    }
}

/// A string of digits writes at least what any of its prefixes writes.
pub proof fn lemma_digits_grow(s: Seq<u8>, i: int)
    requires
        all_digits(s),
        0 <= i <= s.len(),
    ensures
        digits_value(s.take(i)) <= digits_value(s),
    decreases s.len() - i,
{
    if i < s.len() {
        lemma_digits_grow(s, i + 1);
        assert(s.take(i + 1).drop_last() =~= s.take(i));
        assert(is_digit(s[i]));
    } else {
        assert(s.take(i) =~= s);
    }
}

/// Splits the bytes of `text` from `from` up to `to` at each `sep`.
pub fn split_bytes(text: &[u8], from: usize, to: usize, sep: u8) -> (pieces: Vec<Vec<u8>>)
    requires
        from <= to <= text@.len(),
    ensures
        nested_view(pieces@) == split(text@.subrange(from as int, to as int), sep),
{
    let mut pieces: Vec<Vec<u8>> = Vec::new();
    pieces.push(Vec::new());
    let mut i: usize = from;
    assert(nested_view(pieces@) =~= seq![Seq::<u8>::empty()]);
    while i < to
        invariant
            from <= i <= to <= text@.len(),
            pieces.len() >= 1,
            nested_view(pieces@) == split(text@.subrange(from as int, i as int), sep),
        decreases to - i,
    {
        let b: u8 = text[i];
        let ghost before = nested_view(pieces@);
        proof {
            let s = text@.subrange(from as int, i + 1);
            assert(s.drop_last() =~= text@.subrange(from as int, i as int));
            assert(s.last() == b);
        }
        if b == sep {
            pieces.push(Vec::new());
            assert(nested_view(pieces@) =~= before.push(Seq::empty()));
        } else {
            let last: usize = pieces.len() - 1;
            pieces[last].push(b);
            assert(nested_view(pieces@) =~= before.drop_last().push(before.last().push(b)));
        }
        i = i + 1;
    }
    pieces
}

/// Reads the number that `token` writes, if it lies between `lo` and `hi`.
pub fn read_number(token: &Vec<u8>, signed: bool, lo: i128, hi: i128) -> (r: Option<i128>)
    requires
        -0x1_0000_0000_0000_0000 <= lo <= hi <= 0x1_0000_0000_0000_0000,
    ensures
        match r {
            Some(v) => number_in(token@, signed, lo as int, hi as int) == Some(v as int),
            None => number_in(token@, signed, lo as int, hi as int) is None,
        },
{
    let n: usize = token.len();
    if n == 0 {
        return None;
    }
    let negative: bool = signed && token[0] == 45;
    let start: usize = if token[0] == 43 || negative {
        1
    } else {
        0
    };
    let ghost body = if start == 1 {
        token@.skip(1)
    } else {
        token@
    };
    if start == n {
        return None;
    }
    let mut acc: i128 = 0;
    let mut i: usize = start;
    while i < n
        invariant
            n == token.len(),
            n > 0,
            start <= i <= n,
            -0x1_0000_0000_0000_0000 <= lo <= hi <= 0x1_0000_0000_0000_0000,
            negative == (signed && token@[0] == 45),
            body == if token@[0] == 43 || negative {
                token@.skip(1)
            } else {
                token@
            },
            body.len() == n - start,
            forall|j: int| 0 <= j < body.len() ==> #[trigger] body[j] == token@[j + start],
            all_digits(body.take(i - start)),
            acc == digits_value(body.take(i - start)),
            0 <= acc <= 0x1_0000_0000_0000_0000,
        decreases n - i,
    {
        let b: u8 = token[i];
        proof {
            assert(body.take(i + 1 - start).drop_last() =~= body.take(i - start));
            assert(body.take(i + 1 - start).last() == b);
            assert(body[i - start] == b);
        }
        if b < 48 || b > 57 {
            assert(!is_digit(body[i - start]));
            return None;
        }
        acc = acc * 10 + (b - 48) as i128;
        proof {
            assert forall|j: int| 0 <= j < i + 1 - start implies is_digit(#[trigger] body.take(i + 1 - start)[j]) by {
                if j < i - start {
                    assert(is_digit(body.take(i - start)[j]));
                }
            }
        }
        if acc > 0x1_0000_0000_0000_0000 {
            proof {
                if all_digits(body) {
                    lemma_digits_grow(body, i + 1 - start);
                }
            }
            return None;
        }
        i = i + 1;
    }
    assert(body.take(n - start) =~= body);
    let value: i128 = if negative {
        -acc
    } else {
        acc
    };
    if lo <= value && value <= hi {
        Some(value)
    } else {
        None
    }
}

} // verus!
