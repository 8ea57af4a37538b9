//! Deterministic derivation of a record's storage address.
//!
//! The address of a record is a pure function of the program id, the owner's
//! identity and the record's content bytes, so any party can recompute it
//! from public information; no directory of records is kept anywhere.

use vstd::prelude::*;

verus! {

/// The address and disambiguation bump that the derivation returns for a
/// given program id, owner identity and content, or `None` in the
/// statistically improbable case that no bump yields a usable address.
/// The result depends on the three arguments alone.
pub uninterp spec fn derived_address(
    program_id: Seq<u8>,
    owner: Seq<u8>,
    content: Seq<u8>,
) -> Option<(Seq<u8>, u8)>;

/// Relies on `solana_pubkey::Pubkey::try_find_program_address`: the returned
/// address and bump are a pure function of the seed slices and the program
/// id, and `None` comes back only when no bump seed yields a valid address.
/// The seeds are the fixed tag `b"task"`, the owner's identity, and the
/// content split into chunks of at most `MAX_SEED_LEN` bytes (the hash that
/// the derivation applies runs over the plain concatenation of the seeds, so
/// the chunk boundaries do not influence the result).
#[verifier::external_body]
fn find_task_address(
    program_id: &[u8; 32],
    owner: &[u8; 32],
    content: &Vec<u8>,
) -> (r: Option<([u8; 32], u8)>)
    ensures
        (match r {
            Some(p) => derived_address(program_id@, owner@, content@) == Some((p.0@, p.1)),
            None => derived_address(program_id@, owner@, content@) is None,
        }),
{
    let pid = solana_pubkey::Pubkey::new_from_array(*program_id);
    let mut seeds: Vec<&[u8]> = Vec::new();
    seeds.push(b"task");
    seeds.push(owner.as_slice());
    for chunk in content.chunks(solana_pubkey::MAX_SEED_LEN) {
        seeds.push(chunk);
    }
    solana_pubkey::Pubkey::try_find_program_address(&seeds, &pid)
        .map(|(addr, bump)| (addr.to_bytes(), bump))
}

/// Derive the storage address and bump for a record of `owner` with
/// `content`, under the program identified by `program_id`.
pub fn derive(
    program_id: &[u8; 32],
    owner: &[u8; 32],
    content: &Vec<u8>,
) -> (r: Option<([u8; 32], u8)>)
    ensures
        (match r {
            Some(p) => derived_address(program_id@, owner@, content@) == Some((p.0@, p.1)),
            None => derived_address(program_id@, owner@, content@) is None,
        }),
{
    find_task_address(program_id, owner, content)
}

/// Law: derivation is deterministic — two derivations from the same program
/// id, owner and content agree on the address and the bump.
pub proof fn lemma_derive_deterministic(
    program_id: Seq<u8>,
    owner: Seq<u8>,
    content: Seq<u8>,
    r1: Option<(Seq<u8>, u8)>,
    r2: Option<(Seq<u8>, u8)>,
)
    requires
        r1 == derived_address(program_id, owner, content),
        r2 == derived_address(program_id, owner, content),
    ensures
        r1 == r2,
{
}

} // verus!
