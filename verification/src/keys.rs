//! Project keys and the ordered key pair that identifies an envelope stack.

use vstd::prelude::*;

verus! {

/// A tenant identifier: the value of a 32-character lowercase hexadecimal
/// string, held as the number it denotes.
#[derive(Clone, Copy, PartialEq, Eq, Hash, Debug, Structural)]
pub struct ProjectKey {
    pub value: u128,
}

/// True if `c` is a lowercase hexadecimal digit.
pub open spec fn is_hex_digit(c: char) -> bool {
    (48 <= c as u32 && c as u32 <= 57) || (97 <= c as u32 && c as u32 <= 102)
}

/// The numeric value of one hexadecimal digit.
pub open spec fn hex_digit_value(c: char) -> int {
    if 48 <= c as u32 && c as u32 <= 57 {
        c as u32 - 48
    } else {
        c as u32 - 87
    }
}

/// True if `s` is exactly 32 lowercase hexadecimal digits.
pub open spec fn is_valid_key_text(s: Seq<char>) -> bool {
    s.len() == 32 && forall|i: int| 0 <= i < s.len() ==> is_hex_digit(#[trigger] s[i])
}

/// The number denoted by a big-endian sequence of hexadecimal digits.
pub open spec fn key_text_value(s: Seq<char>) -> int
    decreases s.len(),
{
    if s.len() == 0 {
        0
    } else {
        key_text_value(s.drop_last()) * 16 + hex_digit_value(s.last())
    }
}

/// 16 to the power `n`.
pub open spec fn pow16(n: nat) -> int
    decreases n,
{
    if n == 0 {
        1
    } else {
        16 * pow16((n - 1) as nat)
    }
}

proof fn lemma_pow16_mono(a: nat, b: nat)
    requires
        a <= b,
    ensures
        pow16(a) <= pow16(b),
        pow16(a) >= 1,
    decreases b,
{
    if a == b {
        if a > 0 {
            lemma_pow16_mono((a - 1) as nat, (a - 1) as nat);
        }
    } else {
        lemma_pow16_mono(a, (b - 1) as nat);
    }
}

proof fn lemma_key_text_value_bound(s: Seq<char>)
    requires
        forall|i: int| 0 <= i < s.len() ==> is_hex_digit(#[trigger] s[i]),
    ensures
        0 <= key_text_value(s) < pow16(s.len()),
    decreases s.len(),
{
    if s.len() == 0 {
    } else {
        lemma_key_text_value_bound(s.drop_last());
    }
}

impl ProjectKey {
    /// Parses a 32-character lowercase hexadecimal string; any other input is
    /// rejected.
    pub fn parse(s: &str) -> (r: Option<ProjectKey>)
        ensures
            match r {
                Some(k) => is_valid_key_text(s@) && k.value == key_text_value(s@),
                None => !is_valid_key_text(s@),
            },
    {
        let n = s.unicode_len();
        if n != 32 {
            return None;
        }
        let mut acc: u128 = 0;
        let mut i: usize = 0;
        while i < 32
            invariant
                0 <= i <= 32,
                s@.len() == 32,
                forall|j: int| 0 <= j < i ==> is_hex_digit(#[trigger] s@[j]),
                acc == key_text_value(s@.take(i as int)),
                acc < pow16(i as nat),
            decreases 32 - i,
        {
            let c = s.get_char(i);
            let v = c as u32;
            let digit: u128 = if 48 <= v && v <= 57 {
                (v - 48) as u128
            } else if 97 <= v && v <= 102 {
                (v - 87) as u128
            } else {
                proof {
                    assert(!is_hex_digit(s@[i as int]));
                }
                return None;
            };
            proof {
                lemma_pow16_mono((i + 1) as nat, 32nat);
                assert(pow16(32) == 0x100000000000000000000000000000000) by {
                    reveal_with_fuel(pow16, 33);
                }
                assert(s@.take(i + 1).drop_last() =~= s@.take(i as int));
                assert(s@.take(i + 1).last() == s@[i as int]);
            }
            acc = acc * 16 + digit;
            i = i + 1;
        }
        proof {
            assert(s@.take(32) =~= s@);
        }
        Some(ProjectKey { value: acc })
    }
}

/// The ordered pair `(own key, sampling key)` that identifies a stack. When an
/// envelope carries no sampling key, the own key stands in both slots.
#[derive(Clone, Copy, PartialEq, Eq, Hash, Debug, Structural)]
pub struct ProjectKeyPair {
    pub own_key: ProjectKey,
    pub sampling_key: ProjectKey,
}

impl ProjectKeyPair {
    pub fn new(own_key: ProjectKey, sampling_key: ProjectKey) -> (r: ProjectKeyPair)
        ensures
            r == (ProjectKeyPair { own_key, sampling_key }),
    {
        ProjectKeyPair { own_key, sampling_key }
    }

    /// True if `k` stands in either slot of the pair.
    pub open spec fn contains_key(self, k: ProjectKey) -> bool {
        self.own_key == k || self.sampling_key == k
    }

    /// The distinct keys of the pair: one for a self-pair, two otherwise.
    pub open spec fn spec_distinct_keys(self) -> Seq<ProjectKey> {
        if self.own_key == self.sampling_key {
            seq![self.own_key]
        } else {
            seq![self.own_key, self.sampling_key]
        }
    }

    /// The distinct keys of the pair, own key first.
    pub fn iter(&self) -> (r: Vec<ProjectKey>)
        ensures
            r@ == self.spec_distinct_keys(),
    {
        let mut r: Vec<ProjectKey> = Vec::new();
        r.push(self.own_key);
        if self.own_key.value != self.sampling_key.value {
            r.push(self.sampling_key);
        }
        proof {
            if self.own_key == self.sampling_key {
                assert(r@ =~= self.spec_distinct_keys());
            } else {
                assert(r@ =~= self.spec_distinct_keys());
            }
        }
        r
    }

    /// The pair as plain numbers, for the trusted collections.
    pub open spec fn spec_encoded(self) -> (u128, u128) {
        (self.own_key.value, self.sampling_key.value)
    }

    pub fn encoded(&self) -> (r: (u128, u128))
        ensures
            r == self.spec_encoded(),
    {
        (self.own_key.value, self.sampling_key.value)
    }
}

/// Two pairs with swapped slots are distinct unless both slots hold the same
/// key: the pair is ordered.
pub proof fn lemma_pair_order_distinguishes(a: ProjectKey, b: ProjectKey)
    ensures
        a != b ==> (ProjectKeyPair { own_key: a, sampling_key: b }) != (ProjectKeyPair {
            own_key: b,
            sampling_key: a,
        }),
{
}

} // verus!
