//! Packs as the coordinator receives them: verified contents under the name of the pack
//! they were delivered as.
use crate::consumer::Keyrings;
use crate::error::Error;
use crate::pack::{outcome_matches, pack_outcome, PackFile, Timestamp};
use vstd::prelude::*;

verus! {

/// A verified, decrypted pack and the name it was delivered under.
pub struct Pack {
    /// Name of the pack.
    pub name: String,
    /// Contents of the pack.
    pub contents: crate::pack::Pack,
}

impl Pack {
    /// Verify and decrypt a delivery of the named pack at time `now`.
    pub fn verify_and_decrypt_at(name: &str, data: &[u8], keyrings: &Keyrings, now: Timestamp) -> (r: Result<Pack, Error>)
        requires
            keyrings.wf(),
        ensures
            r matches Ok(p) ==> p.name@ == name@,
            outcome_matches(
                match r {
                    Ok(p) => Ok(p.contents),
                    Err(e) => Err(e),
                },
                pack_outcome(data@, keyrings, now),
            ),
    {
        match crate::pack::Pack::verify_and_decrypt_at(data, keyrings, now) {
            Ok(contents) => Ok(Pack { name: name.to_owned(), contents }),
            Err(e) => Err(e),
        }
    }

    /// Verify and decrypt a delivery of the named pack, bounding its date by the current
    /// time.
    pub fn verify_and_decrypt(name: &str, data: &[u8], keyrings: &Keyrings) -> (r: Result<Pack, Error>)
        requires
            keyrings.wf(),
        ensures
            r matches Ok(p) ==> p.name@ == name@,
            exists|now: Timestamp| now.wf() && outcome_matches(
                match r {
                    Ok(p) => Ok(p.contents),
                    Err(e) => Err(e),
                },
                #[trigger] pack_outcome(data@, keyrings, now),
            ),
    {
        match crate::pack::Pack::verify_and_decrypt(data, keyrings) {
            Ok(contents) => Ok(Pack { name: name.to_owned(), contents }),
            Err(e) => Err(e),
        }
    }

    /// When the pack was made.
    pub fn date(&self) -> (r: &Timestamp)
        ensures
            *r == self.contents.date,
    {
        &self.contents.date
    }

    /// The pack's UUID bytes.
    pub fn uuid(&self) -> (r: &Vec<u8>)
        ensures
            r@ == self.contents.uuid@,
    {
        &self.contents.uuid
    }

    /// The files of the pack, in order.
    pub fn files(&self) -> (r: &Vec<PackFile>)
        ensures
            r@ == self.contents.files@,
    {
        &self.contents.files
    }
}

} // verus!
