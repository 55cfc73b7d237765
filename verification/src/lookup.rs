//! Looking a key up.

use crate::error::Error;
use crate::walk::{Request, Stage, Walk, WalkView};
use vstd::prelude::*;

verus! {

/// Whether two byte strings are the same.
pub fn same_bytes(a: &[u8], b: &[u8]) -> (same: bool)
    ensures
        same == (a@ == b@),
{
    if a.len() != b.len() {
        return false;
    }
    let mut i: usize = 0;
    while i < a.len()
        invariant
            i <= a@.len(),
            a@.len() == b@.len(),
            forall|j: int| 0 <= j < i ==> a@[j] == b@[j],
        decreases a@.len() - i,
    {
        if a[i] != b[i] {
            return false;
        }
        i = i + 1;
    }
    assert(a@ =~= b@);
    true
}

/// A lookup in progress.
#[verifier::ext_equal]
pub struct LookupView {
    pub walk: WalkView,
    pub key: Seq<u8>,
    /// The value, once the key has been found; empty where the walk does not
    /// read values.
    pub value: Option<Seq<u8>>,
}

impl LookupView {
    /// The lookup after the bytes that it needed: it stops at the record of
    /// its key and goes past every other.
    pub open spec fn given(self, bytes: Seq<u8>) -> Result<LookupView, Error> {
        match self.walk.given(bytes) {
            Err(error) => Err(error),
            Ok((walk, None)) => Ok(LookupView { walk, ..self }),
            Ok((walk, Some(record))) => if record.key == self.key {
                Ok(LookupView { walk, value: Some(record.value), ..self })
            } else {
                Ok(LookupView { walk: walk.passed(), ..self })
            },
        }
    }

    /// The lookup has met no record that it should have stopped at, and has
    /// stopped at none but its key's.
    pub open spec fn sound(self) -> bool {
        &&& self.walk.sound()
        &&& self.walk.filter is Some
        &&& self.walk.filter->Some_0 < crate::format::LIMIT48
        &&& self.key.len() == self.walk.key_size
        &&& self.value is Some <==> self.walk.stage is At
    }

    /// The key has been found.
    pub open spec fn found(self) -> bool {
        self.value is Some
    }

    /// Every entry with the key's hash has been passed.
    pub open spec fn missing(self) -> bool {
        self.walk.stage is End
    }
}

/// A lookup in progress.
#[derive(Debug)]
pub struct Lookup {
    pub walk: Walk,
    pub key: Vec<u8>,
    pub value: Option<Vec<u8>>,
}

impl View for Lookup {
    type V = LookupView;

    open spec fn view(&self) -> LookupView {
        LookupView {
            walk: self.walk@,
            key: self.key@,
            value: match self.value {
                Some(value) => Some(value@),
                None => None,
            },
        }
    }
}

impl Lookup {
    /// The bytes that the lookup needs next; none once it is over.
    pub fn request(&self) -> (request: Option<Request>)
        requires
            self@.sound(),
        ensures
            request == self@.walk.wanted(),
            request is None <==> self@.found() || self@.missing(),
    {
        self.walk.request()
    }

    /// Takes the bytes that the lookup needed. A lookup that fails stays as it
    /// is.
    pub fn resume(&mut self, bytes: &[u8]) -> (outcome: Result<(), Error>)
        requires
            old(self)@.sound(),
            old(self)@.walk.wanted() matches Some(request) && bytes@.len() == request.len,
        ensures
            final(self)@.sound(),
            match old(self)@.given(bytes@) {
                Ok(lookup) => outcome is Ok && final(self)@ == lookup,
                Err(error) => outcome == Err::<(), Error>(error) && *final(self) == *old(self),
            },
    {
        match self.walk.resume(bytes) {
            Err(error) => Err(error),
            Ok(None) => Ok(()),
            Ok(Some(record)) => {
                if same_bytes(record.key.as_slice(), self.key.as_slice()) {
                    self.value = Some(record.value);
                } else {
                    self.walk.pass();
                }
                Ok(())
            },
        }
    }

    /// Whether the key has been found.
    pub fn is_found(&self) -> (found: bool)
        ensures
            found == self@.found(),
    {
        self.value.is_some()
    }

    /// The place of the found record's entry in its bucket.
    pub fn position(&self) -> (index: usize)
        requires
            self@.sound(),
            self@.found(),
        ensures
            self@.walk.stage == (Stage::At { index }),
            index < self@.walk.current().entries.len(),
    {
        match self.walk.stage {
            Stage::At { index } => index,
            _ => 0,
        }
    }
}

} // verus!
