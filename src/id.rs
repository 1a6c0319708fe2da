use vstd::prelude::*;

verus! {

use vstd::slice::slice_to_vec;
use vstd::string::StringSliceAdditionalSpecFns;

/// How an identity is written: a caller-chosen name (its UTF-8 bytes) or a
/// generated serial number.
#[derive(Debug, Clone, PartialEq, Eq, Hash)]
pub enum IdKey {
    Named(Vec<u8>),
    Unique(u64),
}

/// The mathematical value of an identity. Identities are equal exactly when
/// their views are.
pub enum IdView {
    Named(Seq<u8>),
    Unique(u64),
}

/// The identity of one animated entity: it names that entity's animation slot
/// in a timeline.
#[derive(Debug, Clone, PartialEq, Eq, Hash)]
pub struct Id {
    key: IdKey,
}

impl View for Id {
    type V = IdView;

    closed spec fn view(&self) -> IdView {
        match self.key {
            IdKey::Named(v) => IdView::Named(v@),
            IdKey::Unique(n) => IdView::Unique(n),
        }
    }
}

impl Id {
    /// An identity named by the caller; the same name gives the same identity.
    pub fn new(name: &str) -> (r: Id)
        ensures
            r@ == IdView::Named(name.spec_bytes()),
    {
        Id { key: IdKey::Named(slice_to_vec(name.as_bytes())) }
    }

    /// The identity with the generated serial number `serial`.
    pub fn from_serial(serial: u64) -> (r: Id)
        ensures
            r@ == IdView::Unique(serial),
    {
        Id { key: IdKey::Unique(serial) }
    }

    /// How this identity is written.
    pub fn key(&self) -> (r: &IdKey)
        ensures
            r matches IdKey::Named(v) ==> self@ == IdView::Named(v@),
            r matches IdKey::Unique(n) ==> self@ == IdView::Unique(*n),
    {
        &self.key
    }

    /// A copy of this identity.
    pub fn copy(&self) -> (r: Id)
        ensures
            r@ == self@,
    {
        match &self.key {
            IdKey::Named(v) => {
                let mut out: Vec<u8> = Vec::new();
                let mut i: usize = 0;
                while i < v.len()
                    invariant
                        i <= v@.len(),
                        out@ == v@.subrange(0, i as int),
                    decreases v@.len() - i,
                {
                    out.push(v[i]);
                    i = i + 1;
                }
                assert(out@ =~= v@);
                Id { key: IdKey::Named(out) }
            },
            IdKey::Unique(n) => Id { key: IdKey::Unique(*n) },
        }
    }

    /// Whether the two identities are the same.
    pub fn same(&self, other: &Id) -> (r: bool)
        ensures
            r == (self@ == other@),
    {
        match (&self.key, &other.key) {
            (IdKey::Named(a), IdKey::Named(b)) => {
                assert(self@ == IdView::Named(a@) && other@ == IdView::Named(b@));
                if a.len() != b.len() {
                    assert(a@.len() != b@.len());
                    return false;
                }
                let mut i: usize = 0;
                while i < a.len()
                    invariant
                        a@.len() == b@.len(),
                        self@ == IdView::Named(a@),
                        other@ == IdView::Named(b@),
                        i <= a@.len(),
                        forall|j: int| 0 <= j < i ==> a@[j] == b@[j],
                    decreases a@.len() - i,
                {
                    if a[i] != b[i] {
                        assert(a@[i as int] != b@[i as int]);
                        assert(a@ != b@);
                        return false;
                    }
                    i = i + 1;
                }
                assert(a@ =~= b@);
                true
            },
            (IdKey::Unique(m), IdKey::Unique(n)) => *m == *n,
            _ => false,
        }
    }
}

} // verus!
