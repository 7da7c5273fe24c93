//! A 96-bit versionstamp: a 10-byte transaction version assigned by the
//! store at commit time, followed by a 2-byte user version chosen by the
//! caller for ordering within one transaction.
//!
//! A versionstamp is *incomplete* until a real transaction version has been
//! assigned; an incomplete one carries ten `0xFF` bytes in its place. When a
//! versionstamp is rebuilt from its 12 raw bytes, completeness is inferred
//! from whether any transaction-version byte differs from `0xFF`; a
//! legitimately assigned all-`0xFF` version would be indistinguishable, and
//! this inference is kept as-is for wire compatibility.

use vstd::prelude::*;

use crate::encoding::be_bytes;

verus! {

/// A 96-bit versionstamp value: transaction version, user version, and
/// whether the transaction version is meaningful.
#[derive(Clone, Ord, Eq, PartialOrd, PartialEq, Debug)]
pub struct Versionstamp {
    pub complete: bool,
    pub tr_version: Vec<u8>,
    pub user_version: u16,
}

impl Versionstamp {
    /// The transaction version is always ten bytes wide.
    pub open spec fn wf(&self) -> bool {
        self.tr_version@.len() == 10
    }

    /// The 12 bytes this versionstamp packs to.
    pub open spec fn spec_bytes(&self) -> Seq<u8> {
        self.tr_version@ + be_bytes(self.user_version as nat, 2)
    }

    /// Create a complete versionstamp with the given transaction and user
    /// versions.
    pub fn complete(tr_version: Vec<u8>, user_version: u16) -> (r: Versionstamp)
        requires
            tr_version@.len() == 10,
        ensures
            r.complete,
            r.tr_version@ == tr_version@,
            r.user_version == user_version,
            r.wf(),
    {
        Versionstamp { complete: true, tr_version, user_version }
    }

    /// Create an incomplete versionstamp with the given user version; the
    /// transaction version is ten `0xFF` placeholder bytes.
    pub fn incomplete(user_version: u16) -> (r: Versionstamp)
        ensures
            !r.complete,
            r.tr_version@ =~= Seq::new(10, |i: int| 0xFFu8),
            r.user_version == user_version,
            r.wf(),
    {
        let tr_version: Vec<u8> = vec![0xFF, 0xFF, 0xFF, 0xFF, 0xFF, 0xFF, 0xFF, 0xFF, 0xFF, 0xFF];
        proof {
            assert(tr_version@ =~= Seq::new(10, |i: int| 0xFFu8));
        }
        Versionstamp { complete: false, tr_version, user_version }
    }

    /// Rebuild a versionstamp from its 12 raw bytes, inferring completeness
    /// from the transaction-version bytes.
    pub fn from_bytes(version_bytes: Vec<u8>) -> (r: Versionstamp)
        requires
            version_bytes@.len() == 12,
        ensures
            r.tr_version@ == version_bytes@.subrange(0, 10),
            r.user_version as nat == (version_bytes@[10] as nat) * 256 + version_bytes@[11] as nat,
            r.complete == exists|j: int| 0 <= j < 10 && version_bytes@[j] != 0xFF,
            r.wf(),
            r.spec_bytes() == version_bytes@,
    {
        let mut complete = false;
        let mut i: usize = 0;
        while i < 10
            invariant
                i <= 10,
                version_bytes@.len() == 12,
                complete == exists|j: int| 0 <= j < i && version_bytes@[j] != 0xFF,
            decreases 10 - i,
        {
            if version_bytes[i] != 0xFF {
                complete = true;
            }
            i = i + 1;
        }
        let mut tr_version: Vec<u8> = Vec::new();
        let mut j: usize = 0;
        while j < 10
            invariant
                j <= 10,
                version_bytes@.len() == 12,
                tr_version@ =~= version_bytes@.subrange(0, j as int),
            decreases 10 - j,
        {
            tr_version.push(version_bytes[j]);
            j = j + 1;
        }
        let user_version: u16 = (version_bytes[10] as u16) * 256 + (version_bytes[11] as u16);
        let r = Versionstamp { complete, tr_version, user_version };
        proof {
            lemma_be_bytes_2(user_version);
            assert(r.spec_bytes() =~= version_bytes@);
        }
        r
    }

    /// The 12 bytes of this versionstamp: the transaction version, then the
    /// user version in big-endian order.
    pub fn get_bytes(&self) -> (r: Vec<u8>)
        requires
            self.wf(),
        ensures
            r@ == self.spec_bytes(),
    {
        let mut buf: Vec<u8> = Vec::new();
        let mut i: usize = 0;
        while i < self.tr_version.len()
            invariant
                i <= self.tr_version@.len(),
                buf@ =~= self.tr_version@.subrange(0, i as int),
            decreases self.tr_version@.len() - i,
        {
            buf.push(self.tr_version[i]);
            i = i + 1;
        }
        proof {
            assert(buf@ =~= self.tr_version@);
        }
        buf.push((self.user_version / 256) as u8);
        buf.push((self.user_version % 256) as u8);
        proof {
            lemma_be_bytes_2(self.user_version);
            assert(buf@ =~= self.spec_bytes());
        }
        buf
    }

    /// The portion of this versionstamp that is set by the store.
    pub fn get_transaction_version(&self) -> (r: &Vec<u8>)
        ensures
            r@ == self.tr_version@,
    {
        &self.tr_version
    }

    /// The portion of this versionstamp that is set by the caller.
    pub fn get_user_version(&self) -> (r: u16)
        ensures
            r == self.user_version,
    {
        self.user_version
    }

    /// Whether this versionstamp's transaction version is meaningful.
    pub fn is_complete(&self) -> (r: bool)
        ensures
            r == self.complete,
    {
        self.complete
    }
}

/// The two big-endian bytes of a 16-bit value are its quotient and
/// remainder by 256.
pub proof fn lemma_be_bytes_2(x: u16)
    ensures
        be_bytes(x as nat, 2) =~= seq![(x / 256) as u8, (x % 256) as u8],
{
    assert(be_bytes(x as nat, 2) == be_bytes(x as nat / 256, 1).push((x as nat % 256) as u8));
    assert(be_bytes(x as nat / 256, 1) == be_bytes(x as nat / 256 / 256, 0).push(
        (x as nat / 256 % 256) as u8,
    ));
    assert(be_bytes(x as nat / 256 / 256, 0) =~= Seq::<u8>::empty());
    assert(x as nat / 256 % 256 == x as nat / 256) by {
        vstd::arithmetic::div_mod::lemma_small_mod((x as nat) / 256, 256);
    }
}

} // verus!
