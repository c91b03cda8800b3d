use vstd::prelude::*;

use crate::text::all_upper_hex;

verus! {

/// The value of an upper-case hexadecimal digit.
pub open spec fn digit_value(c: char) -> int {
    if '0' <= c && c <= '9' {
        (c as u32) - ('0' as u32)
    } else {
        (c as u32) - ('A' as u32) + 10
    }
}

/// The number that the upper-case hexadecimal digits `s` write.
pub open spec fn hex_value(s: Seq<char>) -> int
    decreases s.len(),
{
    if s.len() == 0 {
        0
    } else {
        hex_value(s.drop_last()) * 16 + digit_value(s.last())
    }
}

/// Sixteen to the power `n`.
pub open spec fn pow16(n: nat) -> int
    decreases n,
{
    if n == 0 {
        1
    } else {
        16 * pow16((n - 1) as nat)
    }
}

/// Whether a key can be held in the index: one to nine upper-case
/// hexadecimal digits, as every assignment key is.
pub open spec fn indexable(s: Seq<char>) -> bool {
    1 <= s.len() <= 9 && all_upper_hex(s)
}

/// The index's number for an indexable key: its value and its length.
pub open spec fn index_key(s: Seq<char>) -> int {
    hex_value(s) * 16 + s.len()
}

proof fn lemma_pow16_mono(m: nat, n: nat)
    requires
        m <= n,
    ensures
        1 <= pow16(m) <= pow16(n),
    decreases n,
{
    if n > m {
        lemma_pow16_mono(m, (n - 1) as nat);
    } else if n > 0 {
        lemma_pow16_mono(0, (n - 1) as nat);
    }
}

proof fn lemma_pow16_nine()
    ensures
        pow16(9) == 68719476736,
{
    reveal_with_fuel(pow16, 10);
}

/// The value of `n` digits is below sixteen to the power `n`.
proof fn lemma_hex_value_bound(s: Seq<char>)
    requires
        all_upper_hex(s),
    ensures
        0 <= hex_value(s) < pow16(s.len()),
    decreases s.len(),
{
    if s.len() > 0 {
        lemma_hex_value_bound(s.drop_last());
        let a = hex_value(s.drop_last());
        let p = pow16((s.len() - 1) as nat);
        let d = digit_value(s.last());
        assert(0 <= d < 16);
        assert(0 <= a * 16 + d < 16 * p) by (nonlinear_arith)
            requires
                0 <= a < p,
                0 <= d < 16,
        ;
    }
}

/// Digit strings of one length with one value are equal.
proof fn lemma_hex_value_injective(s: Seq<char>, t: Seq<char>)
    requires
        all_upper_hex(s),
        all_upper_hex(t),
        s.len() == t.len(),
        hex_value(s) == hex_value(t),
    ensures
        s == t,
    decreases s.len(),
{
    if s.len() > 0 {
        lemma_hex_value_bound(s.drop_last());
        lemma_hex_value_bound(t.drop_last());
        let a = hex_value(s.drop_last());
        let b = hex_value(t.drop_last());
        let d = digit_value(s.last());
        let e = digit_value(t.last());
        assert(0 <= d < 16 && 0 <= e < 16);
        assert(a == b && d == e) by (nonlinear_arith)
            requires
                a * 16 + d == b * 16 + e,
                0 <= d < 16,
                0 <= e < 16,
        ;
        lemma_hex_value_injective(s.drop_last(), t.drop_last());
        assert(s.last() == t.last());
        assert(s =~= s.drop_last().push(s.last()));
        assert(t =~= t.drop_last().push(t.last()));
    }
}

/// Distinct indexable keys have distinct numbers.
pub proof fn lemma_index_key_injective(s: Seq<char>, t: Seq<char>)
    requires
        indexable(s),
        indexable(t),
        index_key(s) == index_key(t),
    ensures
        s == t,
{
    lemma_hex_value_bound(s);
    lemma_hex_value_bound(t);
    let a = hex_value(s);
    let b = hex_value(t);
    let m = s.len() as int;
    let n = t.len() as int;
    assert(a == b && m == n) by (nonlinear_arith)
        requires
            a * 16 + m == b * 16 + n,
            1 <= m <= 9,
            1 <= n <= 9,
    ;
    lemma_hex_value_injective(s, t);
}

/// The index's number for `s`, if `s` is indexable.
pub fn index_key_of(s: &[char]) -> (r: Option<u64>)
    ensures
        match r {
            Some(k) => indexable(s@) && k == index_key(s@),
            None => !indexable(s@),
        },
{
    if s.len() < 1 || s.len() > 9 {
        return None;
    }
    let mut v: u64 = 0;
    let mut i: usize = 0;
    proof {
        lemma_pow16_nine();
        assert(s@.take(0) =~= Seq::<char>::empty());
    }
    while i < s.len()
        invariant
            1 <= s.len() <= 9,
            i <= s.len(),
            all_upper_hex(s@.take(i as int)),
            v == hex_value(s@.take(i as int)),
            v < pow16(i as nat),
            pow16(9) == 68719476736,
        decreases s.len() - i,
    {
        let c = s[i];
        let d: u64 = if '0' <= c && c <= '9' {
            ((c as u32) - ('0' as u32)) as u64
        } else if 'A' <= c && c <= 'F' {
            ((c as u32) - ('A' as u32) + 10) as u64
        } else {
            return None;
        };
        proof {
            lemma_pow16_mono((i + 1) as nat, 9);
            assert(s@.take(i + 1).drop_last() =~= s@.take(i as int));
            assert(v * 16 + d < 16 * pow16(i as nat)) by (nonlinear_arith)
                requires
                    v < pow16(i as nat),
                    d < 16,
            ;
        }
        v = v * 16 + d;
        i = i + 1;
    }
    assert(s@.take(i as int) =~= s@);
    proof {
        lemma_pow16_mono(s@.len(), 9);
    }
    Some(v * 16 + s.len() as u64)
}

} // verus!
