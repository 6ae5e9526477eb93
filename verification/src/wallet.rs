//! Wallet-side signing metadata: how many signatures a partially signed
//! transaction still needs, and the default derivation path.

use vstd::prelude::*;

verus! {

/// The coin type used in derivation paths.
pub const COIN_TYPE: u64 = 111111;

/// A public key with the signature it contributed, once it has.
pub struct PubKeySigPair {
    pub extended_pubkey: String,
    pub signature: Option<Vec<u8>>,
}

/// Signing metadata of one transaction input.
pub struct InputMetaData {
    /// Signatures required before the input counts as signed.
    pub min_signatures: usize,
    pub pub_key_sig_pairs: Vec<PubKeySigPair>,
    pub derivation_path: String,
}

/// How many pairs of the input already carry a signature.
pub open spec fn spec_signature_count(pairs: Seq<PubKeySigPair>) -> int
    decreases pairs.len(),
{
    if pairs.len() == 0 {
        0
    } else {
        spec_signature_count(pairs.drop_last()) + (if pairs.last().signature is Some {
            1int
        } else {
            0int
        })
    }
}

/// An input is signed when it collected at least `min_signatures`.
pub open spec fn spec_input_signed(input: InputMetaData) -> bool {
    spec_signature_count(input.pub_key_sig_pairs@) >= input.min_signatures
}

proof fn lemma_signature_count_bounds(pairs: Seq<PubKeySigPair>)
    ensures
        0 <= spec_signature_count(pairs) <= pairs.len(),
    decreases pairs.len(),
{
    if pairs.len() > 0 {
        lemma_signature_count_bounds(pairs.drop_last());
    }
}

/// Whether every input of the transaction has collected enough signatures.
pub fn is_fully_signed(inputs: &Vec<InputMetaData>) -> (r: bool)
    ensures
        r == forall|i: int| 0 <= i < inputs@.len() ==> spec_input_signed(#[trigger] inputs@[i]),
{
    let n = inputs.len();
    for i in 0..n
        invariant
            n == inputs@.len(),
            forall|j: int| 0 <= j < i ==> spec_input_signed(#[trigger] inputs@[j]),
    {
        let input = &inputs[i];
        let pn = input.pub_key_sig_pairs.len();
        let mut count: usize = 0;
        for k in 0..pn
            invariant
                n == inputs@.len(),
                i < n,
                input == &inputs@[i as int],
                pn == input.pub_key_sig_pairs@.len(),
                count == spec_signature_count(input.pub_key_sig_pairs@.subrange(0, k as int)),
                count <= k,
        {
            proof {
                assert(input.pub_key_sig_pairs@.subrange(0, k + 1).drop_last()
                    =~= input.pub_key_sig_pairs@.subrange(0, k as int));
                assert(input.pub_key_sig_pairs@.subrange(0, k + 1).last()
                    == input.pub_key_sig_pairs@[k as int]);
            }
            if inputs[i].pub_key_sig_pairs[k].signature.is_some() {
                count = count + 1;
            }
        }
        proof {
            assert(input.pub_key_sig_pairs@.subrange(0, pn as int)
                =~= input.pub_key_sig_pairs@);
        }
        if count < input.min_signatures {
            return false;
        }
    }
    true
}

/// The default derivation path for this coin: one purpose for single
/// signers, another for multi-signature wallets.
pub fn default_path(is_multisig: bool) -> (r: String)
    ensures
        is_multisig ==> r@ == "m/45'/111111'/0"@,
        !is_multisig ==> r@ == "m/44'/111111'/0"@,
{
    if is_multisig {
        "m/45'/111111'/0".to_string()
    } else {
        "m/44'/111111'/0".to_string()
    }
}

} // verus!
