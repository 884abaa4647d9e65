//! Byte-level helpers shared by the codec, the ballot engine and the store.

use vstd::prelude::*;

verus! {

/// Width in bytes of one serialized tally.
pub const TALLY_WIDTH: usize = 8;

/// The `width` low-order base-256 digits of `value`, least significant first.
pub open spec fn le_bytes(value: nat, width: nat) -> Seq<u8>
    decreases width,
{
    if width == 0 {
        Seq::<u8>::empty()
    } else {
        seq![(value % 256) as u8] + le_bytes(value / 256, (width - 1) as nat)
    }
}

/// The number whose base-256 digits, least significant first, are `digits`.
pub open spec fn le_value(digits: Seq<u8>) -> nat
    decreases digits.len(),
{
    if digits.len() == 0 {
        0
    } else {
        digits[0] as nat + 256 * le_value(digits.drop_first())
    }
}

/// 256 raised to the power `width`.
pub open spec fn radix_pow(width: nat) -> nat
    decreases width,
{
    if width == 0 {
        1
    } else {
        256 * radix_pow((width - 1) as nat)
    }
}

/// `le_bytes` yields exactly `width` digits.
pub proof fn lemma_le_bytes_len(value: nat, width: nat)
    ensures
        le_bytes(value, width).len() == width,
    decreases width,
{
    if width > 0 {
        lemma_le_bytes_len(value / 256, (width - 1) as nat);
    }
}

/// Reading back the digits written by `le_bytes` gives the value again,
/// as long as the value fits in `width` digits.
pub proof fn lemma_le_bytes_lossless(value: nat, width: nat)
    requires
        value < radix_pow(width),
    ensures
        le_value(le_bytes(value, width)) == value,
    decreases width,
{
    if width > 0 {
        let rest = (width - 1) as nat;
        let digits = le_bytes(value, width);
        assert(value / 256 < radix_pow(rest)) by (nonlinear_arith)
            requires
                value < 256 * radix_pow(rest),
        ;
        lemma_le_bytes_lossless(value / 256, rest);
        assert(digits.drop_first() =~= le_bytes(value / 256, rest));
    }
}

/// Whether two byte strings hold the same bytes.
pub fn same_bytes(a: &Vec<u8>, b: &Vec<u8>) -> (same: bool)
    ensures
        same == (a@ == b@),
{
    let same = a == b;
    proof {
        if same {
            assert(a@ =~= b@);
        }
    }
    same
}

/// Whether two election identifiers hold the same bytes.
pub fn same_key(a: &[u8; 32], b: &[u8; 32]) -> (same: bool)
    ensures
        same == (a@ == b@),
{
    let mut i: usize = 0;
    while i < 32
        invariant
            i <= 32,
            forall|j: int| 0 <= j < i ==> a@[j] == b@[j],
        decreases 32 - i,
    {
        if a[i] != b[i] {
            return false;
        }
        i += 1;
    }
    assert(a@ =~= b@);
    true
}

/// Whether `token` occurs among `tokens`.
pub fn holds_token(tokens: &Vec<Vec<u8>>, token: &Vec<u8>) -> (held: bool)
    ensures
        held == tokens.deep_view().contains(token@),
{
    let mut i: usize = 0;
    while i < tokens.len()
        invariant
            i <= tokens.len(),
            forall|j: int| 0 <= j < i ==> tokens.deep_view()[j] != token@,
        decreases tokens.len() - i,
    {
        assert(tokens.deep_view()[i as int] == tokens@[i as int]@);
        if same_bytes(&tokens[i], token) {
            return true;
        }
        i += 1;
    }
    false
}

/// Appends the eight little-endian bytes of `value` to `out`.
pub fn push_le_bytes(out: &mut Vec<u8>, value: u64)
    ensures
        final(out)@ == old(out)@ + le_bytes(value as nat, TALLY_WIDTH as nat),
{
    let mut rest: u64 = value;
    let mut i: usize = 0;
    while i < TALLY_WIDTH
        invariant
            i <= TALLY_WIDTH,
            out@ + le_bytes(rest as nat, (TALLY_WIDTH - i) as nat) == old(out)@ + le_bytes(
                value as nat,
                TALLY_WIDTH as nat,
            ),
        decreases TALLY_WIDTH - i,
    {
        let digit: u8 = (rest % 256) as u8;
        proof {
            let width = (TALLY_WIDTH - i) as nat;
            assert(le_bytes(rest as nat, width) =~= seq![digit] + le_bytes(
                (rest / 256) as nat,
                (width - 1) as nat,
            ));
            assert(out@.push(digit) + le_bytes((rest / 256) as nat, (width - 1) as nat) =~= out@
                + le_bytes(rest as nat, width));
        }
        out.push(digit);
        rest = rest / 256;
        i += 1;
    }
}

/// Whether no token occurs twice among `tokens`.
pub fn all_distinct(tokens: &Vec<Vec<u8>>) -> (distinct: bool)
    ensures
        distinct == tokens.deep_view().no_duplicates(),
{
    let ghost rows = tokens.deep_view();
    let mut i: usize = 0;
    while i < tokens.len()
        invariant
            i <= tokens.len(),
            rows == tokens.deep_view(),
            forall|a: int, b: int| 0 <= a < i && 0 <= b < a ==> rows[a] != rows[b],
        decreases tokens.len() - i,
    {
        let mut j: usize = 0;
        while j < i
            invariant
                j <= i,
                i < tokens.len(),
                rows == tokens.deep_view(),
                forall|b: int| 0 <= b < j ==> rows[i as int] != rows[b],
            decreases i - j,
        {
            assert(rows[i as int] == tokens@[i as int]@);
            assert(rows[j as int] == tokens@[j as int]@);
            if same_bytes(&tokens[i], &tokens[j]) {
                return false;
            }
            j += 1;
        }
        i += 1;
    }
    true
}

} // verus!
