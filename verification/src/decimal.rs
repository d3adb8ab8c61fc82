//! Reading unsigned decimal numbers and splitting lines into fields.

use vstd::prelude::*;

verus! {

/// Whether `c` is a decimal digit.
pub open spec fn spec_is_digit(c: char) -> bool {
    '0' <= c && c <= '9'
}

/// The value of the decimal digits `s`.
pub open spec fn spec_digits_value(s: Seq<char>) -> int
    decreases s.len(),
{
    if s.len() == 0 {
        0
    } else {
        spec_digits_value(s.drop_last()) * 10 + (s.last() as int - '0' as int)
    }
}

/// `s` without a leading '+'.
pub open spec fn spec_sign_stripped(s: Seq<char>) -> Seq<char> {
    if s.len() > 0 && s[0] == '+' { s.drop_first() } else { s }
}

/// The number `s` spells, read as an unsigned 32-bit decimal number: an
/// optional '+' and then at least one digit, and nothing else; `None` when
/// `s` is not such a number or the number is too large.
pub open spec fn spec_parse_u32(s: Seq<char>) -> Option<u32> {
    let digits = spec_sign_stripped(s);
    if digits.len() == 0 {
        None
    } else if exists|i: int| 0 <= i < digits.len() && !spec_is_digit(#[trigger] digits[i]) {
        None
    } else if spec_digits_value(digits) > u32::MAX {
        None
    } else {
        Some(spec_digits_value(digits) as u32)
    }
}

proof fn lemma_digits_value_nonneg(s: Seq<char>)
    requires
        forall|i: int| 0 <= i < s.len() ==> spec_is_digit(#[trigger] s[i]),
    ensures
        spec_digits_value(s) >= 0,
    decreases s.len(),
{
    if s.len() > 0 {
        let d = s.drop_last();
        assert forall|i: int| 0 <= i < d.len() implies spec_is_digit(#[trigger] d[i]) by {
            assert(d[i] == s[i]);
        }
        lemma_digits_value_nonneg(d);
        assert(spec_is_digit(s[s.len() - 1]));
    }
}

/// Reads `s` as an unsigned 32-bit decimal number (see `spec_parse_u32`).
pub fn parse_u32(s: &Vec<char>) -> (r: Option<u32>)
    ensures
        r == spec_parse_u32(s@),
{
    let ghost v = s@;
    let start: usize = if s.len() > 0 && s[0] == '+' { 1 } else { 0 };
    let ghost digits = spec_sign_stripped(v);
    assert(digits =~= v.subrange(start as int, v.len() as int));
    if start >= s.len() {
        return None;
    }
    let mut value: u64 = 0;
    let mut i: usize = start;
    while i < s.len()
        invariant
            start <= i <= v.len(),
            v == s@,
            digits == v.subrange(start as int, v.len() as int),
            digits == spec_sign_stripped(v),
            forall|k: int| 0 <= k < i - start ==> spec_is_digit(#[trigger] digits[k]),
            value == spec_digits_value(digits.take(i - start)),
            value <= u32::MAX,
        decreases v.len() - i,
    {
        let c = s[i];
        if !('0' <= c && c <= '9') {
            assert(!spec_is_digit(digits[i - start]));
            return None;
        }
        let d = (c as u32 - '0' as u32) as u64;
        let ghost t0 = digits.take(i - start);
        let ghost t1 = digits.take(i - start + 1);
        assert(t1.drop_last() =~= t0);
        assert(t1.last() == c);
        let next = value * 10 + d;
        if next > 0xffff_ffffu64 {
            proof {
                assert(spec_digits_value(t1) == next);
                if forall|k: int| 0 <= k < digits.len() ==> spec_is_digit(#[trigger] digits[k]) {
                    lemma_take_grows(digits, i - start + 1, digits.len() as int);
                    assert(digits.take(digits.len() as int) =~= digits);
                }
            }
            return None;
        }
        value = next;
        i += 1;
    }
    assert(digits.take(i - start) =~= digits);
    Some(value as u32)
}

proof fn lemma_take_grows(digits: Seq<char>, n: int, m: int)
    requires
        0 <= n <= m <= digits.len(),
        forall|k: int| 0 <= k < m ==> spec_is_digit(#[trigger] digits[k]),
    ensures
        spec_digits_value(digits.take(m)) >= spec_digits_value(digits.take(n)),
    decreases m - n,
{
    if m > n {
        lemma_take_grows(digits, n, m - 1);
        let t = digits.take(m);
        assert(t.drop_last() =~= digits.take(m - 1));
        assert(spec_is_digit(digits[m - 1]));
        assert(t.last() == digits[m - 1]);
        let p = digits.take(m - 1);
        assert forall|k: int| 0 <= k < p.len() implies spec_is_digit(#[trigger] p[k]) by {
            assert(p[k] == digits[k]);
        }
        lemma_digits_value_nonneg(p);
    }
}

/// The fields of `line` between single spaces, empty ones included.
pub open spec fn spec_split_spaces(line: Seq<char>) -> Seq<Seq<char>>
    decreases line.len(),
{
    if line.len() == 0 {
        seq![Seq::empty()]
    } else {
        let init = spec_split_spaces(line.drop_last());
        if line.last() == ' ' {
            init.push(Seq::empty())
        } else {
            init.update(init.len() - 1, init.last().push(line.last()))
        }
    }
}

proof fn lemma_split_len(line: Seq<char>)
    ensures
        spec_split_spaces(line).len() >= 1,
    decreases line.len(),
{
    if line.len() > 0 {
        lemma_split_len(line.drop_last());
    }
}

/// The fields of `line` between single spaces.
pub fn split_spaces(line: &Vec<char>) -> (r: Vec<Vec<char>>)
    ensures
        r@.len() == spec_split_spaces(line@).len(),
        forall|k: int| 0 <= k < r@.len() ==> (#[trigger] r@[k])@ == spec_split_spaces(line@)[k],
{
    let mut fields: Vec<Vec<char>> = Vec::new();
    let mut cur: Vec<char> = Vec::new();
    let mut i: usize = 0;
    proof {
        assert(line@.take(0) =~= Seq::<char>::empty());
    }
    while i < line.len()
        invariant
            i <= line@.len(),
            fields@.len() + 1 == spec_split_spaces(line@.take(i as int)).len(),
            forall|k: int| 0 <= k < fields@.len() ==> (#[trigger] fields@[k])@ == spec_split_spaces(line@.take(i as int))[k],
            cur@ == spec_split_spaces(line@.take(i as int)).last(),
        decreases line@.len() - i,
    {
        let c = line[i];
        proof {
            let t1 = line@.take(i + 1);
            assert(t1.drop_last() =~= line@.take(i as int));
            assert(t1.last() == c);
            lemma_split_len(line@.take(i as int));
        }
        if c == ' ' {
            let mut done: Vec<char> = Vec::new();
            std::mem::swap(&mut done, &mut cur);
            fields.push(done);
            proof {
                let prev = spec_split_spaces(line@.take(i as int));
                let next = spec_split_spaces(line@.take(i + 1));
                assert(next == prev.push(Seq::empty()));
                assert forall|k: int| 0 <= k < fields@.len() implies (#[trigger] fields@[k])@ == next[k] by {
                    if k < fields@.len() - 1 {
                        assert(next[k] == prev[k]);
                    }
                }
                assert(cur@ =~= next.last());
            }
        } else {
            cur.push(c);
            proof {
                let prev = spec_split_spaces(line@.take(i as int));
                let next = spec_split_spaces(line@.take(i + 1));
                assert(next == prev.update(prev.len() - 1, prev.last().push(c)));
                assert forall|k: int| 0 <= k < fields@.len() implies (#[trigger] fields@[k])@ == next[k] by {
                    assert(next[k] == prev[k]);
                }
            }
        }
        i += 1;
    }
    proof {
        assert(line@.take(i as int) =~= line@);
        lemma_split_len(line@);
    }
    let ghost before = fields@;
    fields.push(cur);
    proof {
        let sp = spec_split_spaces(line@);
        assert forall|k: int| 0 <= k < fields@.len() implies (#[trigger] fields@[k])@ == sp[k] by {
            if k < before.len() {
                assert(fields@[k] == before[k]);
            }
        }
    }
    fields
}

} // verus!
