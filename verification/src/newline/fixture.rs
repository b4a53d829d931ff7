//! Cross-check values for the on-chain Poseidon: the hash of given inputs, rendered as
//! minimal `0x` hexadecimal.

use vstd::prelude::*;
use crate::field::{Fe, be_encode, fe_to_bytes_be};
use crate::poseidon::{crh_evaluate, canonical_config, poseidon_crh, vals};
use crate::prover::{hex_chars, hex_encode};

verus! {

/// The characters after the leading `'0'`s.
pub open spec fn trim_zeros(s: Seq<char>) -> Seq<char>
    decreases s.len(),
{
    if s.len() > 0 && s[0] == '0' {
        trim_zeros(s.drop_first())
    } else {
        s
    }
}

/// `0x` followed by the lowercase hexadecimal of `v` without leading zeros (`0x0` for
/// zero).
pub open spec fn minimal_hex(v: nat) -> Seq<char> {
    let t = trim_zeros(hex_chars(be_encode(v, 32)));
    seq!['0', 'x'] + (if t.len() == 0 { seq!['0'] } else { t })
}

/// Skipping a prefix of zeros does not change what trimming gives.
proof fn lemma_trim_skip(s: Seq<char>, i: int)
    requires
        0 <= i <= s.len(),
        forall|k: int| 0 <= k < i ==> s[k] == '0',
    ensures
        trim_zeros(s) == trim_zeros(s.subrange(i, s.len() as int)),
    decreases i,
{
    if i > 0 {
        assert(s.drop_first() =~= s.subrange(1, s.len() as int));
        lemma_trim_skip(s.drop_first(), i - 1);
        assert(s.drop_first().subrange(i - 1, s.drop_first().len() as int) =~= s.subrange(i, s.len() as int));
    } else {
        assert(s.subrange(0, s.len() as int) =~= s);
    }
}

/// A field element as `0x` and its minimal lowercase hexadecimal digits.
pub fn hex_of(f: &Fe) -> (s: String)
    ensures
        s@ == minimal_hex(f.val()),
{
    let bytes = fe_to_bytes_be(f);
    let h = hex_encode(bytes.as_slice());
    let hs = h.as_str();
    let len = hs.unicode_len();
    let mut i: usize = 0;
    while i < len && hs.get_char(i) == '0'
        invariant
            i <= len,
            len == hs@.len(),
            forall|k: int| 0 <= k < i ==> hs@[k] == '0',
        decreases len - i,
    {
        i = i + 1;
    }
    let ghost digits = hex_chars(be_encode(f.val(), 32));
    proof {
        lemma_trim_skip(hs@, i as int);
        let rest = hs@.subrange(i as int, len as int);
        if i < len {
            assert(rest[0] != '0');
        } else {
            assert(rest.len() == 0);
        }
        assert(trim_zeros(rest) == rest);
    }
    let mut out = String::from_str("0x");
    proof {
        reveal_strlit("0x");
        reveal_strlit("0");
    }
    if i == len {
        out.append("0");
    } else {
        out.append(hs.substring_char(i, len));
    }
    out
}

/// The Poseidon hash of the inputs, as minimal hexadecimal.
pub fn eval(inputs: &[u64]) -> (s: String)
    ensures
        s@ == minimal_hex(poseidon_crh(inputs@.map_values(|x: u64| x as nat))),
{
    let mut fr: Vec<Fe> = Vec::new();
    let mut i: usize = 0;
    while i < inputs.len()
        invariant
            i <= inputs.len(),
            fr@.len() == i,
            forall|k: int| 0 <= k < i ==> #[trigger] fr@[k].val() == inputs@[k],
        decreases inputs.len() - i,
    {
        fr.push(Fe::from_u64(inputs[i]));
        i = i + 1;
    }
    proof {
        assert(vals(fr@) =~= inputs@.map_values(|x: u64| x as nat));
    }
    let cfg = canonical_config();
    let h = crh_evaluate(&cfg, fr.as_slice());
    hex_of(&h)
}

} // verus!
