//! The Fiat-Shamir transcript: a deterministic, append-only challenge
//! generator seeded by every protocol message appended so far.
//!
//! A challenge is squeezed by hashing the whole running byte state with
//! SHA-256, absorbing the digest back into the state, and reducing the
//! digest's first four bytes into the field. Prover and verifier replay
//! the same appends and therefore draw the same challenges.

use vstd::prelude::*;

use crate::field::{fe_wf, fes_wf, fe_vals, Fe, FIELD_MODULUS};

verus! {

/// The 32-byte SHA-256 digest of a byte sequence; the digest is a function
/// of the input bytes alone.
pub uninterp spec fn sha256_of(bytes: Seq<u8>) -> Seq<u8>;

/// Relies on `sha2::Sha256` through `digest::Digest::digest`: the FIPS 180-4
/// SHA-256 hash, whose 32-byte digest depends on the input bytes alone.
#[verifier::external_body]
fn sha256(bytes: &Vec<u8>) -> (r: Vec<u8>)
    ensures
        r@ == sha256_of(bytes@),
        r@.len() == 32,
{
    let digest = <sha2::Sha256 as sha2::Digest>::digest(bytes.as_slice());
    digest.to_vec()
}

/// The field element read off a digest: its first four bytes, taken as a
/// little-endian integer and reduced modulo the field.
pub open spec fn squeeze_val(d: Seq<u8>) -> int {
    (d[0] + 256 * d[1] + 65536 * d[2] + 16777216 * d[3]) % (FIELD_MODULUS as int)
}

/// The byte state after one challenge has been squeezed from state `s`.
pub open spec fn squeezed_state(s: Seq<u8>) -> Seq<u8> {
    s + sha256_of(s)
}

/// The challenges and final byte state after squeezing `n` challenges in a
/// row from state `s`.
pub open spec fn sample_n_spec(s: Seq<u8>, n: nat) -> (Seq<int>, Seq<u8>)
    decreases n,
{
    if n == 0 {
        (Seq::empty(), s)
    } else {
        let rest = sample_n_spec(squeezed_state(s), (n - 1) as nat);
        (seq![squeeze_val(sha256_of(s))] + rest.0, rest.1)
    }
}

/// The append-only Fiat-Shamir transcript state.
pub struct Transcript {
    pub bytes: Vec<u8>,
}

impl View for Transcript {
    type V = Seq<u8>;

    open spec fn view(&self) -> Seq<u8> {
        self.bytes@
    }
}

impl Transcript {
    /// A fresh, empty transcript.
    pub fn new() -> (t: Transcript)
        ensures
            t@ == Seq::<u8>::empty(),
    {
        Transcript { bytes: Vec::new() }
    }

    /// Absorbs a protocol message into the transcript.
    pub fn append(&mut self, msg: &Vec<u8>)
        ensures
            final(self)@ == old(self)@ + msg@,
    {
        let mut i: usize = 0;
        while i < msg.len()
            invariant
                i <= msg.len(),
                self@ == old(self)@ + msg@.take(i as int),
            decreases msg.len() - i,
        {
            self.bytes.push(msg[i]);
            proof {
                assert(old(self)@ + msg@.take(i + 1) =~= (old(self)@ + msg@.take(i as int)).push(
                    msg@[i as int],
                ));
            }
            i += 1;
        }
        proof {
            assert(old(self)@ + msg@.take(msg@.len() as int) =~= old(self)@ + msg@);
        }
    }

    /// Squeezes one challenge field element out of the transcript.
    pub fn sample(&mut self) -> (r: Fe)
        ensures
            final(self)@ == squeezed_state(old(self)@),
            fe_wf(r),
            r.val() == squeeze_val(sha256_of(old(self)@)),
    {
        let d = sha256(&self.bytes);
        let x: u64 = d[0] as u64 + 256 * (d[1] as u64) + 65536 * (d[2] as u64) + 16777216 * (d[3]
            as u64);
        self.append(&d);
        Fe::from_u64(x)
    }

    /// Squeezes `n` challenge field elements in a row.
    pub fn sample_n(&mut self, n: usize) -> (r: Vec<Fe>)
        ensures
            r@.len() == n,
            fes_wf(r@),
            fe_vals(r@) == sample_n_spec(old(self)@, n as nat).0,
            final(self)@ == sample_n_spec(old(self)@, n as nat).1,
    {
        let mut r: Vec<Fe> = Vec::new();
        let mut i: usize = 0;
        while i < n
            invariant
                i <= n,
                r@.len() == i,
                fes_wf(r@),
                sample_n_spec(old(self)@, n as nat).0 == fe_vals(r@) + sample_n_spec(
                    self@,
                    (n - i) as nat,
                ).0,
                sample_n_spec(old(self)@, n as nat).1 == sample_n_spec(self@, (n - i) as nat).1,
            decreases n - i,
        {
            let ghost pre = self@;
            let ghost pre_vals = fe_vals(r@);
            let c = self.sample();
            r.push(c);
            proof {
                assert(fe_vals(r@) =~= pre_vals.push(c.val()));
                assert(fe_vals(r@) + sample_n_spec(self@, (n - i - 1) as nat).0 =~= pre_vals + (
                seq![squeeze_val(sha256_of(pre))] + sample_n_spec(squeezed_state(pre), (n - i
                    - 1) as nat).0));
            }
            i += 1;
        }
        proof {
            assert(fe_vals(r@) + sample_n_spec(self@, 0).0 =~= fe_vals(r@));
        }
        r
    }
}

} // verus!
