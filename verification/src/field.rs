//! Prime-field arithmetic for the protocol: integers modulo `FIELD_MODULUS`.
//!
//! Every protocol value (gate outputs, polynomial evaluations, transcript
//! challenges) is an element of this field. The modulus is the Mersenne
//! prime `2^31 - 1`, small enough that products of two reduced elements fit
//! in a `u64` without overflow.

use vstd::prelude::*;

verus! {

/// Prime modulus of the field: the Mersenne prime `2^31 - 1`.
pub const FIELD_MODULUS: u64 = 2147483647;

/// Multiplicative inverse of 2 modulo `FIELD_MODULUS`:
/// `2 * TWO_INV == 2^31 == FIELD_MODULUS + 1`.
pub const TWO_INV: u64 = 1073741824;

/// A field element: an integer fully reduced modulo `FIELD_MODULUS`.
#[derive(Clone, Copy, PartialEq, Eq, Structural, Debug)]
pub struct Fe {
    pub v: u64,
}

/// A field element is well formed when it is fully reduced.
pub open spec fn fe_wf(x: Fe) -> bool {
    x.v < FIELD_MODULUS
}

/// Field addition on mathematical integers.
pub open spec fn fadd(a: int, b: int) -> int {
    (a + b) % (FIELD_MODULUS as int)
}

/// Field subtraction on mathematical integers.
pub open spec fn fsub(a: int, b: int) -> int {
    (a - b) % (FIELD_MODULUS as int)
}

/// Field multiplication on mathematical integers.
pub open spec fn fmul(a: int, b: int) -> int {
    (a * b) % (FIELD_MODULUS as int)
}

/// Every entry of the sequence is a reduced field value.
pub open spec fn vals_wf(s: Seq<int>) -> bool {
    forall|i: int| 0 <= i < s.len() ==> 0 <= #[trigger] s[i] < FIELD_MODULUS
}

/// Field addition is associative.
pub proof fn lemma_fadd_assoc(a: int, b: int, c: int)
    ensures
        fadd(fadd(a, b), c) == fadd(a, fadd(b, c)),
{
    let m = FIELD_MODULUS as int;
    vstd::arithmetic::div_mod::lemma_add_mod_noop_right(c, a + b, m);
    vstd::arithmetic::div_mod::lemma_add_mod_noop_right(a, b + c, m);
}

/// A reduced value is its own remainder.
pub proof fn lemma_reduced(x: int)
    requires
        0 <= x < FIELD_MODULUS,
    ensures
        x % (FIELD_MODULUS as int) == x,
{
    vstd::arithmetic::div_mod::lemma_fundamental_div_mod_converse(x, FIELD_MODULUS as int, 0, x);
}

/// The integers a sequence of field elements stands for.
pub open spec fn fe_vals(s: Seq<Fe>) -> Seq<int> {
    s.map_values(|f: Fe| f.val())
}

/// Every element of a sequence is a reduced field element.
pub open spec fn fes_wf(s: Seq<Fe>) -> bool {
    forall|i: int| 0 <= i < s.len() ==> fe_wf(#[trigger] s[i])
}

/// Byte `j` of the 4-byte little-endian encoding of a field value.
pub open spec fn fe_byte(x: int, j: int) -> u8 {
    if j == 0 {
        (x % 256) as u8
    } else if j == 1 {
        ((x / 256) % 256) as u8
    } else if j == 2 {
        ((x / 65536) % 256) as u8
    } else {
        ((x / 16777216) % 256) as u8
    }
}

/// The 4-byte little-endian encoding of a field value.
pub open spec fn fe_bytes(x: int) -> Seq<u8> {
    Seq::new(4, |j: int| fe_byte(x, j))
}

/// The concatenated encodings of a sequence of field values.
pub open spec fn fes_bytes(v: Seq<int>) -> Seq<u8> {
    Seq::new(4 * v.len(), |i: int| fe_byte(v[i / 4], i % 4))
}

/// Placing a byte at offset `j` within the group of element `i` lands at
/// flat index `4 * i + j`.
pub proof fn lemma_byte_index(i: int, j: int)
    requires
        0 <= i,
        0 <= j < 4,
    ensures
        (4 * i + j) / 4 == i,
        (4 * i + j) % 4 == j,
{
    vstd::arithmetic::div_mod::lemma_fundamental_div_mod_converse(4 * i + j, 4, i, j);
}

impl Fe {
    /// The integer a field element stands for.
    pub open spec fn val(self) -> int {
        self.v as int
    }

    /// The 4-byte little-endian encoding of this element.
    pub fn to_bytes(self) -> (r: Vec<u8>)
        ensures
            r@ == fe_bytes(self.val()),
    {
        let mut r: Vec<u8> = Vec::new();
        r.push((self.v % 256) as u8);
        r.push(((self.v / 256) % 256) as u8);
        r.push(((self.v / 65536) % 256) as u8);
        r.push(((self.v / 16777216) % 256) as u8);
        proof {
            assert(r@ =~= fe_bytes(self.val()));
        }
        r
    }

    /// The additive identity.
    pub fn zero() -> (r: Fe)
        ensures
            r.val() == 0,
            fe_wf(r),
    {
        Fe { v: 0 }
    }

    /// The multiplicative identity.
    pub fn one() -> (r: Fe)
        ensures
            r.val() == 1,
            fe_wf(r),
    {
        Fe { v: 1 }
    }

    /// Reduces an arbitrary machine integer into the field.
    pub fn from_u64(x: u64) -> (r: Fe)
        ensures
            r.val() == x as int % (FIELD_MODULUS as int),
            fe_wf(r),
    {
        Fe { v: x % FIELD_MODULUS }
    }

    /// Field addition.
    pub fn add(self, other: Fe) -> (r: Fe)
        requires
            fe_wf(self),
            fe_wf(other),
        ensures
            r.val() == fadd(self.val(), other.val()),
            fe_wf(r),
    {
        Fe { v: (self.v + other.v) % FIELD_MODULUS }
    }

    /// Field subtraction.
    pub fn sub(self, other: Fe) -> (r: Fe)
        requires
            fe_wf(self),
            fe_wf(other),
        ensures
            r.val() == fsub(self.val(), other.val()),
            fe_wf(r),
    {
        proof {
            vstd::arithmetic::div_mod::lemma_mod_add_multiples_vanish(
                self.val() - other.val(),
                FIELD_MODULUS as int,
            );
        }
        Fe { v: (self.v + FIELD_MODULUS - other.v) % FIELD_MODULUS }
    }

    /// Field multiplication.
    pub fn mul(self, other: Fe) -> (r: Fe)
        requires
            fe_wf(self),
            fe_wf(other),
        ensures
            r.val() == fmul(self.val(), other.val()),
            fe_wf(r),
    {
        proof {
            assert(self.v * other.v <= 2147483646u64 * 2147483646u64) by (nonlinear_arith)
                requires
                    self.v < 2147483647,
                    other.v < 2147483647,
            ;
        }
        Fe { v: (self.v * other.v) % FIELD_MODULUS }
    }
}

/// The concatenated 4-byte encodings of a vector of field elements.
pub fn fes_to_bytes(v: &Vec<Fe>) -> (r: Vec<u8>)
    ensures
        r@ == fes_bytes(fe_vals(v@)),
{
    let mut r: Vec<u8> = Vec::new();
    let mut i: usize = 0;
    while i < v.len()
        invariant
            i <= v.len(),
            r@.len() == 4 * i,
            forall|k: int| 0 <= k < 4 * i ==> r@[k] == fe_byte(fe_vals(v@)[k / 4], k % 4),
        decreases v.len() - i,
    {
        let b = v[i].to_bytes();
        r.push(b[0]);
        r.push(b[1]);
        r.push(b[2]);
        r.push(b[3]);
        proof {
            assert forall|k: int| 0 <= k < 4 * (i + 1) implies r@[k] == fe_byte(
                fe_vals(v@)[k / 4],
                k % 4,
            ) by {
                if k >= 4 * i {
                    lemma_byte_index(i as int, k - 4 * i);
                    assert(r@[k] == fe_bytes(v@[i as int].val())[k - 4 * i]);
                }
            }
        }
        i += 1;
    }
    proof {
        assert(r@ =~= fes_bytes(fe_vals(v@)));
    }
    r
}

} // verus!
