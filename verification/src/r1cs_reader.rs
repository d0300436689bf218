//! The binary `.r1cs` format that circom writes: a magic word, a version, and
//! the header, constraint and wire-map sections in that order.

use crate::circom_circuit::{constraints_view, terms_view, Constraint, LinearTerms};
use crate::field::{limb_base, limbs_value, modulus, FieldElement};
use byteorder::{ByteOrder, LittleEndian};
use vstd::arithmetic::power::pow;
use vstd::prelude::*;

verus! {

/// The number that little-endian bytes stand for.
pub open spec fn le_value(b: Seq<u8>) -> nat
    decreases b.len(),
{
    if b.len() == 0 {
        0
    } else {
        b[0] as nat + 256 * le_value(b.drop_first())
    }
}

/// The little-endian 32-bit number at `p`.
pub open spec fn u32_at(b: Seq<u8>, p: int) -> nat {
    le_value(b.subrange(p, p + 4))
}

/// The little-endian 64-bit number at `p`.
pub open spec fn u64_at(b: Seq<u8>, p: int) -> nat {
    le_value(b.subrange(p, p + 8))
}

/// The number that the 32 bytes at `p` stand for, read as four little-endian
/// 64-bit limbs, least significant first.
pub open spec fn field_value_at(b: Seq<u8>, p: int) -> nat {
    u64_at(b, p) + limb_base() * (u64_at(b, p + 8) + limb_base() * (u64_at(b, p + 16)
        + limb_base() * u64_at(b, p + 24)))
}

/// `LittleEndian::read_u32` of byteorder, on the bytes from `pos` on.
/// The claim: the number whose little-endian bytes are the four at `pos`.
#[verifier::external_body]
fn read_u32_le(buf: &[u8], pos: usize) -> (r: u32)
    requires
        pos + 4 <= buf@.len(),
    ensures
        r as nat == u32_at(buf@, pos as int),
{
    LittleEndian::read_u32(&buf[pos..])
}

/// `LittleEndian::read_u64` of byteorder, on the bytes from `pos` on.
/// The claim: the number whose little-endian bytes are the eight at `pos`.
#[verifier::external_body]
fn read_u64_le(buf: &[u8], pos: usize) -> (r: u64)
    requires
        pos + 8 <= buf@.len(),
    ensures
        r as nat == u64_at(buf@, pos as int),
{
    LittleEndian::read_u64(&buf[pos..])
}

/// Why a `.r1cs` file was refused.
#[derive(Debug, Clone, Copy, PartialEq, Eq, Structural)]
pub enum R1csError {
    /// The bytes ended before the file did.
    UnexpectedEof,
    /// The file does not start with "r1cs".
    InvalidMagic,
    /// The version is not 1.
    UnsupportedVersion,
    /// The header section's size does not match its field size.
    InvalidHeaderSize,
    /// The field elements are not 32 bytes long.
    UnsupportedFieldSize,
    /// The field is not the BN256 scalar field.
    UnsupportedPrime,
    /// A coefficient is not below the field order.
    InvalidFieldElement,
    /// The wire-map section's size does not match the number of wires.
    InvalidMapSize,
    /// Wire 0 is not mapped to label 0.
    WireZeroNotMapped,
}

/// A linear combination as read: pairs of a wire index and a coefficient value.
pub type SpecTerms = Seq<(nat, nat)>;

/// A constraint as read: its three linear combinations.
pub type SpecConstraint = (SpecTerms, SpecTerms, SpecTerms);

/// The `n` terms (a 32-bit wire index, then a 32-byte coefficient) from `p` on,
/// appended to `acc`, and the position after them.
pub open spec fn spec_terms(b: Seq<u8>, p: int, n: nat, acc: SpecTerms) -> Result<
    (SpecTerms, int),
    R1csError,
>
    decreases n,
{
    if n == 0 {
        Ok((acc, p))
    } else if b.len() - p < 36 {
        Err(R1csError::UnexpectedEof)
    } else if field_value_at(b, p + 4) >= modulus() {
        Err(R1csError::InvalidFieldElement)
    } else {
        spec_terms(b, p + 36, (n - 1) as nat, acc.push((u32_at(b, p), field_value_at(b, p + 4))))
    }
}

/// A linear combination at `p`: its number of terms, then the terms.
pub open spec fn spec_linear_combination(b: Seq<u8>, p: int) -> Result<(SpecTerms, int), R1csError> {
    if b.len() - p < 4 {
        Err(R1csError::UnexpectedEof)
    } else {
        spec_terms(b, p + 4, u32_at(b, p), Seq::empty())
    }
}

/// The `n` constraints from `p` on, appended to `acc`, and the position after them.
pub open spec fn spec_constraints(b: Seq<u8>, p: int, n: nat, acc: Seq<SpecConstraint>) -> Result<
    (Seq<SpecConstraint>, int),
    R1csError,
>
    decreases n,
{
    if n == 0 {
        Ok((acc, p))
    } else {
        match spec_linear_combination(b, p) {
            Err(e) => Err(e),
            Ok((a, p1)) => match spec_linear_combination(b, p1) {
                Err(e) => Err(e),
                Ok((bb, p2)) => match spec_linear_combination(b, p2) {
                    Err(e) => Err(e),
                    Ok((c, p3)) => spec_constraints(b, p3, (n - 1) as nat, acc.push((a, bb, c))),
                },
            },
        }
    }
}

/// Reads the field element at `pos`.
fn read_field(buf: &[u8], pos: usize) -> (r: Result<FieldElement, R1csError>)
    requires
        pos + 32 <= buf@.len(),
    ensures
        match r {
            Ok(e) => field_value_at(buf@, pos as int) < modulus() && e@ == field_value_at(
                buf@,
                pos as int,
            ),
            Err(e) => e == R1csError::InvalidFieldElement && field_value_at(buf@, pos as int)
                >= modulus(),
        },
{
    let _len = buf.len();
    let l0 = read_u64_le(buf, pos);
    let l1 = read_u64_le(buf, pos + 8);
    let l2 = read_u64_le(buf, pos + 16);
    let l3 = read_u64_le(buf, pos + 24);
    let limbs: [u64; 4] = [l0, l1, l2, l3];
    assert(limbs_value(limbs) == field_value_at(buf@, pos as int));
    match FieldElement::from_limbs(limbs) {
        Some(e) => Ok(e),
        None => Err(R1csError::InvalidFieldElement),
    }
}

/// Reads the linear combination at `pos`.
fn read_linear_combination(buf: &[u8], pos: usize) -> (r: Result<(LinearTerms, usize), R1csError>)
    requires
        pos <= buf@.len(),
    ensures
        match r {
            Ok((v, q)) => spec_linear_combination(buf@, pos as int) == Ok::<(SpecTerms, int), R1csError>((terms_view(v), q as int)) && q <= buf@.len(),
            Err(e) => spec_linear_combination(buf@, pos as int) == Err::<(SpecTerms, int), R1csError>(e),
        },
{
    if buf.len() - pos < 4 {
        return Err(R1csError::UnexpectedEof);
    }
    let n = read_u32_le(buf, pos);
    let mut p = pos + 4;
    let mut v: LinearTerms = Vec::new();
    let mut i: u32 = 0;
    assert(terms_view(v) =~= Seq::empty());
    while i < n
        invariant
            pos + 4 <= p <= buf@.len(),
            i <= n,
            n as nat == u32_at(buf@, pos as int),
            spec_terms(buf@, pos + 4, n as nat, Seq::empty()) == spec_terms(
                buf@,
                p as int,
                (n - i) as nat,
                terms_view(v),
            ),
        decreases n - i,
    {
        if buf.len() - p < 36 {
            return Err(R1csError::UnexpectedEof);
        }
        let idx = read_u32_le(buf, p);
        let fe = match read_field(buf, p + 4) {
            Ok(e) => e,
            Err(e) => {
                return Err(e);
            },
        };
        let ghost before = v;
        v.push((idx as usize, fe));
        assert(terms_view(v) =~= terms_view(before).push((u32_at(buf@, p as int), field_value_at(buf@, p + 4))));
        p = p + 36;
        i = i + 1;
    }
    Ok((v, p))
}

/// Reads the `n` constraints from `pos` on.
fn read_constraints(buf: &[u8], pos: usize, n: u32) -> (r: Result<(Vec<Constraint>, usize), R1csError>)
    requires
        pos <= buf@.len(),
    ensures
        match r {
            Ok((v, q)) => spec_constraints(buf@, pos as int, n as nat, Seq::empty()) == Ok::<
                (Seq<SpecConstraint>, int),
                R1csError,
            >((constraints_view(v@), q as int)) && q <= buf@.len(),
            Err(e) => spec_constraints(buf@, pos as int, n as nat, Seq::empty()) == Err::<
                (Seq<SpecConstraint>, int),
                R1csError,
            >(e),
        },
{
    let mut p = pos;
    let mut v: Vec<Constraint> = Vec::new();
    let mut i: u32 = 0;
    assert(constraints_view(v@) =~= Seq::empty());
    while i < n
        invariant
            p <= buf@.len(),
            i <= n,
            spec_constraints(buf@, pos as int, n as nat, Seq::empty()) == spec_constraints(
                buf@,
                p as int,
                (n - i) as nat,
                constraints_view(v@),
            ),
        decreases n - i,
    {
        let (a, p1) = match read_linear_combination(buf, p) {
            Ok(x) => x,
            Err(e) => {
                return Err(e);
            },
        };
        let (b, p2) = match read_linear_combination(buf, p1) {
            Ok(x) => x,
            Err(e) => {
                return Err(e);
            },
        };
        let (c, p3) = match read_linear_combination(buf, p2) {
            Ok(x) => x,
            Err(e) => {
                return Err(e);
            },
        };
        let ghost before = v@;
        v.push((a, b, c));
        assert(constraints_view(v@) =~= constraints_view(before).push(
            (terms_view(a), terms_view(b), terms_view(c)),
        ));
        p = p3;
        i = i + 1;
    }
    Ok((v, p))
}

/// The header section as read.
pub struct SpecHeader {
    pub field_size: nat,
    pub prime_size: Seq<u8>,
    pub n_wires: nat,
    pub n_pub_out: nat,
    pub n_pub_in: nat,
    pub n_prv_in: nat,
    pub n_labels: nat,
    pub n_constraints: nat,
}

/// The header section of a `.r1cs` file.
pub struct Header {
    pub field_size: u32,
    pub prime_size: Vec<u8>,
    pub n_wires: u32,
    pub n_pub_out: u32,
    pub n_pub_in: u32,
    pub n_prv_in: u32,
    pub n_labels: u64,
    pub n_constraints: u32,
}

impl View for Header {
    type V = SpecHeader;

    open spec fn view(&self) -> SpecHeader {
        SpecHeader {
            field_size: self.field_size as nat,
            prime_size: self.prime_size@,
            n_wires: self.n_wires as nat,
            n_pub_out: self.n_pub_out as nat,
            n_pub_in: self.n_pub_in as nat,
            n_prv_in: self.n_prv_in as nat,
            n_labels: self.n_labels as nat,
            n_constraints: self.n_constraints as nat,
        }
    }
}

/// The header section at `p`, whose size is given as `size`: the field size,
/// that many bytes of the prime, then the counts of wires, public outputs, public
/// inputs, private inputs, labels (64-bit) and constraints.
pub open spec fn spec_header(b: Seq<u8>, p: int, size: nat) -> Result<(SpecHeader, int), R1csError> {
    if b.len() - p < 4 {
        Err(R1csError::UnexpectedEof)
    } else {
        let fs = u32_at(b, p);
        let q = p + 4 + fs;
        if b.len() - (p + 4) < fs {
            Err(R1csError::UnexpectedEof)
        } else if size != 32 + fs {
            Err(R1csError::InvalidHeaderSize)
        } else if b.len() - q < 28 {
            Err(R1csError::UnexpectedEof)
        } else {
            Ok(
                (
                    SpecHeader {
                        field_size: fs,
                        prime_size: b.subrange(p + 4, q),
                        n_wires: u32_at(b, q),
                        n_pub_out: u32_at(b, q + 4),
                        n_pub_in: u32_at(b, q + 8),
                        n_prv_in: u32_at(b, q + 12),
                        n_labels: u64_at(b, q + 16),
                        n_constraints: u32_at(b, q + 24),
                    },
                    q + 28,
                ),
            )
        }
    }
}

/// Reads the header section at `pos`, of the given size.
fn read_header(buf: &[u8], pos: usize, size: u64) -> (r: Result<(Header, usize), R1csError>)
    requires
        pos <= buf@.len(),
    ensures
        match r {
            Ok((h, q)) => spec_header(buf@, pos as int, size as nat) == Ok::<(SpecHeader, int), R1csError>((h@, q as int)) && q <= buf@.len(),
            Err(e) => spec_header(buf@, pos as int, size as nat) == Err::<(SpecHeader, int), R1csError>(e),
        },
{
    let len = buf.len();
    if len - pos < 4 {
        return Err(R1csError::UnexpectedEof);
    }
    let field_size = read_u32_le(buf, pos);
    let start = pos + 4;
    if ((len - start) as u64) < field_size as u64 {
        return Err(R1csError::UnexpectedEof);
    }
    let q = start + field_size as usize;
    let mut prime_size: Vec<u8> = Vec::new();
    let mut k = start;
    while k < q
        invariant
            start <= k <= q <= len,
            len == buf@.len(),
            prime_size@ == buf@.subrange(start as int, k as int),
        decreases q - k,
    {
        prime_size.push(buf[k]);
        k = k + 1;
        assert(prime_size@ =~= buf@.subrange(start as int, k as int));
    }
    if size != 32 + field_size as u64 {
        return Err(R1csError::InvalidHeaderSize);
    }
    if len - q < 28 {
        return Err(R1csError::UnexpectedEof);
    }
    let header = Header {
        field_size,
        prime_size,
        n_wires: read_u32_le(buf, q),
        n_pub_out: read_u32_le(buf, q + 4),
        n_pub_in: read_u32_le(buf, q + 8),
        n_prv_in: read_u32_le(buf, q + 12),
        n_labels: read_u64_le(buf, q + 16),
        n_constraints: read_u32_le(buf, q + 24),
    };
    Ok((header, q + 28))
}

/// The wire-map section at `p`, whose size is given as `size`: one 64-bit label
/// per wire, wire 0 carrying label 0.
pub open spec fn spec_wire_map(b: Seq<u8>, p: int, size: nat, n_wires: nat) -> Result<Seq<nat>, R1csError> {
    if size != n_wires * 8 {
        Err(R1csError::InvalidMapSize)
    } else if b.len() - p < n_wires * 8 {
        Err(R1csError::UnexpectedEof)
    } else if n_wires == 0 || u64_at(b, p) != 0 {
        Err(R1csError::WireZeroNotMapped)
    } else {
        Ok(Seq::new(n_wires, |i: int| u64_at(b, p + 8 * i)))
    }
}

/// Reads the wire-map section at `pos`, of the given size.
fn read_wire_map(buf: &[u8], pos: usize, size: u64, n_wires: u32) -> (r: Result<Vec<u64>, R1csError>)
    requires
        pos <= buf@.len(),
    ensures
        match r {
            Ok(m) => spec_wire_map(buf@, pos as int, size as nat, n_wires as nat) == Ok::<Seq<nat>, R1csError>(m@.map_values(|x: u64| x as nat)),
            Err(e) => spec_wire_map(buf@, pos as int, size as nat, n_wires as nat) == Err::<Seq<nat>, R1csError>(e),
        },
{
    let len = buf.len();
    if size != n_wires as u64 * 8 {
        return Err(R1csError::InvalidMapSize);
    }
    if ((len - pos) as u64) < n_wires as u64 * 8 {
        return Err(R1csError::UnexpectedEof);
    }
    let mut m: Vec<u64> = Vec::new();
    let mut i: u32 = 0;
    while i < n_wires
        invariant
            i <= n_wires,
            len == buf@.len(),
            pos as int + n_wires as int * 8 <= len,
            m@.len() == i,
            forall|j: int| 0 <= j < i ==> m@[j] as nat == #[trigger] u64_at(buf@, pos + 8 * j),
        decreases n_wires - i,
    {
        let x = read_u64_le(buf, pos + 8 * (i as usize));
        m.push(x);
        i = i + 1;
    }
    assert(n_wires > 0 ==> m@[0] as nat == u64_at(buf@, pos + 8 * 0));
    assert(pos + 8 * 0 == pos);
    if n_wires == 0 || m[0] != 0 {
        return Err(R1csError::WireZeroNotMapped);
    }
    assert(m@.map_values(|x: u64| x as nat) =~= Seq::new(n_wires as nat, |i: int| u64_at(buf@, pos + 8 * i)));
    Ok(m)
}

/// The little-endian bytes of the BN256 scalar field order, as the header
/// section of a BN256 circuit holds them.
pub open spec fn spec_bn256_prime_bytes() -> Seq<u8> {
    seq![
        0x01u8, 0x00u8, 0x00u8, 0xf0u8, 0x93u8, 0xf5u8, 0xe1u8, 0x43u8,
        0x91u8, 0x70u8, 0xb9u8, 0x79u8, 0x48u8, 0xe8u8, 0x33u8, 0x28u8,
        0x5du8, 0x58u8, 0x81u8, 0x81u8, 0xb6u8, 0x45u8, 0x50u8, 0xb8u8,
        0x29u8, 0xa0u8, 0x31u8, 0xe1u8, 0x72u8, 0x4eu8, 0x64u8, 0x30u8,
    ]
}

/// The bytes "r1cs" that a `.r1cs` file starts with.
pub open spec fn spec_magic() -> Seq<u8> {
    seq![0x72u8, 0x31u8, 0x63u8, 0x73u8]
}

/// A `.r1cs` file as read.
pub struct SpecR1csFile {
    pub version: nat,
    pub header: SpecHeader,
    pub constraints: Seq<SpecConstraint>,
    pub wire_mapping: Seq<nat>,
}

/// What the bytes of a `.r1cs` file hold: the magic word, version 1, the number of
/// sections, then three sections, each a 32-bit type and a 64-bit size before
/// its contents: the header (32-byte BN256 field only), the constraints and the
/// wire map. Section types, the section count, the constraint section's size and
/// bytes after the wire map are not looked at.
pub open spec fn spec_read(b: Seq<u8>) -> Result<SpecR1csFile, R1csError> {
    if b.len() < 4 {
        Err(R1csError::UnexpectedEof)
    } else if b.subrange(0, 4) != spec_magic() {
        Err(R1csError::InvalidMagic)
    } else if b.len() < 8 {
        Err(R1csError::UnexpectedEof)
    } else if u32_at(b, 4) != 1 {
        Err(R1csError::UnsupportedVersion)
    } else if b.len() < 24 {
        Err(R1csError::UnexpectedEof)
    } else {
        match spec_header(b, 24, u64_at(b, 16)) {
            Err(e) => Err(e),
            Ok((h, p)) => if h.field_size != 32 {
                Err(R1csError::UnsupportedFieldSize)
            } else if h.prime_size != spec_bn256_prime_bytes() {
                Err(R1csError::UnsupportedPrime)
            } else if b.len() - p < 12 {
                Err(R1csError::UnexpectedEof)
            } else {
                match spec_constraints(b, p + 12, h.n_constraints, Seq::empty()) {
                    Err(e) => Err(e),
                    Ok((cs, q)) => if b.len() - q < 12 {
                        Err(R1csError::UnexpectedEof)
                    } else {
                        match spec_wire_map(b, q + 12, u64_at(b, q + 4), h.n_wires) {
                            Err(e) => Err(e),
                            Ok(m) => Ok(
                                SpecR1csFile {
                                    version: 1,
                                    header: h,
                                    constraints: cs,
                                    wire_mapping: m,
                                },
                            ),
                        }
                    },
                }
            },
        }
    }
}

/// A `.r1cs` file: its version, header, constraints and wire map.
pub struct R1CSFile {
    pub version: u32,
    pub header: Header,
    pub constraints: Vec<Constraint>,
    pub wire_mapping: Vec<u64>,
}

impl View for R1CSFile {
    type V = SpecR1csFile;

    open spec fn view(&self) -> SpecR1csFile {
        SpecR1csFile {
            version: self.version as nat,
            header: self.header@,
            constraints: constraints_view(self.constraints@),
            wire_mapping: self.wire_mapping@.map_values(|x: u64| x as nat),
        }
    }
}

/// Whether `buf` holds `expected` from `pos` on.
fn bytes_match(buf: &[u8], pos: usize, expected: &[u8]) -> (r: bool)
    requires
        pos + expected@.len() <= buf@.len(),
    ensures
        r == (buf@.subrange(pos as int, pos + expected@.len()) == expected@),
{
    let _len = buf.len();
    let n = expected.len();
    let mut k: usize = 0;
    while k < n
        invariant
            k <= n,
            n == expected@.len(),
            pos + n <= buf@.len(),
            buf@.len() <= usize::MAX,
            forall|j: int| 0 <= j < k ==> buf@[pos + j] == expected@[j],
        decreases n - k,
    {
        if buf[pos + k] != expected[k] {
            assert(buf@.subrange(pos as int, pos + n)[k as int] != expected@[k as int]);
            return false;
        }
        k = k + 1;
    }
    assert(buf@.subrange(pos as int, pos + n) =~= expected@);
    true
}

/// Reads a `.r1cs` file from its bytes.
pub fn read(buf: &[u8]) -> (r: Result<R1CSFile, R1csError>)
    ensures
        match r {
            Ok(f) => spec_read(buf@) == Ok::<SpecR1csFile, R1csError>(f@),
            Err(e) => spec_read(buf@) == Err::<SpecR1csFile, R1csError>(e),
        },
{
    let len = buf.len();
    if len < 4 {
        return Err(R1csError::UnexpectedEof);
    }
    let magic: [u8; 4] = [0x72u8, 0x31u8, 0x63u8, 0x73u8];
    assert(magic@ == spec_magic());
    if !bytes_match(buf, 0, &magic) {
        return Err(R1csError::InvalidMagic);
    }
    if len < 8 {
        return Err(R1csError::UnexpectedEof);
    }
    let version = read_u32_le(buf, 4);
    if version != 1 {
        return Err(R1csError::UnsupportedVersion);
    }
    if len < 24 {
        return Err(R1csError::UnexpectedEof);
    }
    let _num_sections = read_u32_le(buf, 8);
    let _header_type = read_u32_le(buf, 12);
    let header_size = read_u64_le(buf, 16);
    let (header, p) = match read_header(buf, 24, header_size) {
        Ok(x) => x,
        Err(e) => {
            return Err(e);
        },
    };
    if header.field_size != 32 {
        return Err(R1csError::UnsupportedFieldSize);
    }
    let prime: [u8; 32] = [
        0x01u8, 0x00u8, 0x00u8, 0xf0u8, 0x93u8, 0xf5u8, 0xe1u8, 0x43u8,
        0x91u8, 0x70u8, 0xb9u8, 0x79u8, 0x48u8, 0xe8u8, 0x33u8, 0x28u8,
        0x5du8, 0x58u8, 0x81u8, 0x81u8, 0xb6u8, 0x45u8, 0x50u8, 0xb8u8,
        0x29u8, 0xa0u8, 0x31u8, 0xe1u8, 0x72u8, 0x4eu8, 0x64u8, 0x30u8,
    ];
    assert(prime@ == spec_bn256_prime_bytes());
    assert(header.prime_size@.len() == 32);
    assert(header.prime_size@.subrange(0, 32) =~= header.prime_size@);
    if !bytes_match(header.prime_size.as_slice(), 0, &prime) {
        return Err(R1csError::UnsupportedPrime);
    }
    if len - p < 12 {
        return Err(R1csError::UnexpectedEof);
    }
    let _constraints_type = read_u32_le(buf, p);
    let _constraints_size = read_u64_le(buf, p + 4);
    let (constraints, q) = match read_constraints(buf, p + 12, header.n_constraints) {
        Ok(x) => x,
        Err(e) => {
            return Err(e);
        },
    };
    if len - q < 12 {
        return Err(R1csError::UnexpectedEof);
    }
    let _map_type = read_u32_le(buf, q);
    let map_size = read_u64_le(buf, q + 4);
    let wire_mapping = match read_wire_map(buf, q + 12, map_size, header.n_wires) {
        Ok(m) => m,
        Err(e) => {
            return Err(e);
        },
    };
    Ok(R1CSFile { version, header, constraints, wire_mapping })
}

/// Reading `n` constraints gives `n` more.
proof fn lemma_constraints_count(b: Seq<u8>, p: int, n: nat, acc: Seq<SpecConstraint>)
    ensures
        spec_constraints(b, p, n, acc) matches Ok((cs, q)) ==> cs.len() == acc.len() + n,
    decreases n,
{
    if n > 0 {
        match spec_linear_combination(b, p) {
            Err(_) => {},
            Ok((a, p1)) => match spec_linear_combination(b, p1) {
                Err(_) => {},
                Ok((bb, p2)) => match spec_linear_combination(b, p2) {
                    Err(_) => {},
                    Ok((c, p3)) => lemma_constraints_count(b, p3, (n - 1) as nat, acc.push((a, bb, c))),
                },
            },
        }
    }
}

/// A file that reads without error is of version 1 over the 32-byte BN256 field,
/// has as many constraints as its header counts and one label per wire, and maps
/// wire 0 to label 0.
pub proof fn lemma_read_file_shape(b: Seq<u8>)
    ensures
        spec_read(b) matches Ok(f) ==> {
            &&& f.version == 1
            &&& f.header.field_size == 32
            &&& f.header.prime_size == spec_bn256_prime_bytes()
            &&& f.constraints.len() == f.header.n_constraints
            &&& f.wire_mapping.len() == f.header.n_wires
            &&& f.wire_mapping.len() > 0
            &&& f.wire_mapping[0] == 0
        },
{
    if b.len() >= 24 {
        match spec_header(b, 24, u64_at(b, 16)) {
            Err(_) => {},
            Ok((h, p)) => {
                lemma_constraints_count(b, p + 12, h.n_constraints, Seq::empty());
                match spec_constraints(b, p + 12, h.n_constraints, Seq::empty()) {
                    Err(_) => {},
                    Ok((cs, q)) => {
                        assert(q + 12 + 8 * 0 == q + 12);
                    },
                }
            },
        }
    }
}

/// The prime bytes that the reader accepts are the little-endian bytes of the
/// field order.
pub proof fn lemma_prime_bytes_are_field_order()
    ensures
        le_value(spec_bn256_prime_bytes()) == modulus(),
{
    reveal_with_fuel(le_value, 33);
}

/// The `n` little-endian bytes of `v`.
pub open spec fn le_bytes(v: nat, n: nat) -> Seq<u8>
    decreases n,
{
    if n == 0 {
        Seq::empty()
    } else {
        seq![(v % 256) as u8] + le_bytes(v / 256, (n - 1) as nat)
    }
}

/// Little-endian bytes read back to the number they were written from.
pub proof fn lemma_le_bytes_read_back(v: nat, n: nat)
    requires
        v < pow(256, n),
    ensures
        le_bytes(v, n).len() == n,
        le_value(le_bytes(v, n)) == v,
    decreases n,
{
    if n == 0 {
        reveal(pow);
        assert(le_bytes(v, n) =~= Seq::<u8>::empty());
    } else {
        let rest = le_bytes(v / 256, (n - 1) as nat);
        assert(v / 256 < pow(256, (n - 1) as nat)) by {
            vstd::arithmetic::div_mod::lemma_div_is_ordered_by_denominator(v as int, 1, 256);
            assert(pow(256, n) == 256 * pow(256, (n - 1) as nat)) by {
                reveal(pow);
            }
            vstd::arithmetic::div_mod::lemma_div_by_multiple_is_strongly_ordered(
                v as int,
                pow(256, n),
                pow(256, (n - 1) as nat),
                256,
            );
            vstd::arithmetic::mul::lemma_mul_is_commutative(256, pow(256, (n - 1) as nat));
            vstd::arithmetic::div_mod::lemma_div_by_multiple(pow(256, (n - 1) as nat), 256);
        }
        lemma_le_bytes_read_back(v / 256, (n - 1) as nat);
        assert(le_bytes(v, n).drop_first() =~= rest);
        assert(le_bytes(v, n)[0] == (v % 256) as u8);
        vstd::arithmetic::div_mod::lemma_fundamental_div_mod(v as int, 256);
        assert(le_value(le_bytes(v, n)) == (v % 256) + 256 * le_value(rest));
    }
}

/// The number that two byte strings one after the other stand for, little-endian.
pub proof fn lemma_le_value_concat(a: Seq<u8>, c: Seq<u8>)
    ensures
        le_value(a + c) == le_value(a) + pow(256, a.len()) * le_value(c),
    decreases a.len(),
{
    if a.len() == 0 {
        reveal(pow);
        assert(a + c =~= c);
    } else {
        assert((a + c)[0] == a[0]);
        lemma_le_value_concat(a.drop_first(), c);
        assert((a + c).drop_first() =~= a.drop_first() + c);
        let p = pow(256, (a.len() - 1) as nat);
        assert(pow(256, a.len()) == 256 * p) by {
            reveal(pow);
        }
        assert(256 * (le_value(a.drop_first()) + p * le_value(c)) == 256 * le_value(a.drop_first())
            + (256 * p) * le_value(c)) by (nonlinear_arith);
    }
}

/// The coefficient at `p` is the number that its 32 bytes stand for, read as
/// one little-endian number.
pub proof fn lemma_field_value_is_le_value(b: Seq<u8>, p: int)
    requires
        0 <= p,
        p + 32 <= b.len(),
    ensures
        field_value_at(b, p) == le_value(b.subrange(p, p + 32)),
{
    let s0 = b.subrange(p, p + 8);
    let s1 = b.subrange(p + 8, p + 16);
    let s2 = b.subrange(p + 16, p + 24);
    let s3 = b.subrange(p + 24, p + 32);
    assert(b.subrange(p, p + 32) =~= s0 + (s1 + (s2 + s3)));
    lemma_le_value_concat(s2, s3);
    lemma_le_value_concat(s1, s2 + s3);
    lemma_le_value_concat(s0, s1 + (s2 + s3));
    assert(pow(256, 8) == limb_base()) by {
        reveal_with_fuel(pow, 9);
    }
}

/// The header section of a `.r1cs` file holds, after the field size and the
/// prime, the wire count, the public output count, the public input count, the
/// private input count (32-bit each), the label count (64-bit) and the
/// constraint count (32-bit), little-endian: written so, they read back as such.
pub proof fn lemma_header_layout(
    b: Seq<u8>,
    p: int,
    prime: Seq<u8>,
    n_wires: nat,
    n_pub_out: nat,
    n_pub_in: nat,
    n_prv_in: nat,
    n_labels: nat,
    n_constraints: nat,
)
    requires
        0 <= p,
        prime.len() < pow(256, 4),
        n_wires < pow(256, 4),
        n_pub_out < pow(256, 4),
        n_pub_in < pow(256, 4),
        n_prv_in < pow(256, 4),
        n_labels < pow(256, 8),
        n_constraints < pow(256, 4),
        p + 32 + prime.len() <= b.len(),
        b.subrange(p, p + 32 + prime.len()) == le_bytes(prime.len(), 4) + prime + le_bytes(
            n_wires,
            4,
        ) + le_bytes(n_pub_out, 4) + le_bytes(n_pub_in, 4) + le_bytes(n_prv_in, 4) + le_bytes(
            n_labels,
            8,
        ) + le_bytes(n_constraints, 4),
    ensures
        spec_header(b, p, 32 + prime.len()) == Ok::<(SpecHeader, int), R1csError>(
            (
                SpecHeader {
                    field_size: prime.len(),
                    prime_size: prime,
                    n_wires,
                    n_pub_out,
                    n_pub_in,
                    n_prv_in,
                    n_labels,
                    n_constraints,
                },
                p + 32 + prime.len(),
            ),
        ),
{
    let fs = prime.len() as int;
    let q = p + 4 + fs;
    let enc = b.subrange(p, p + 32 + fs);
    lemma_le_bytes_read_back(prime.len(), 4);
    lemma_le_bytes_read_back(n_wires, 4);
    lemma_le_bytes_read_back(n_pub_out, 4);
    lemma_le_bytes_read_back(n_pub_in, 4);
    lemma_le_bytes_read_back(n_prv_in, 4);
    lemma_le_bytes_read_back(n_labels, 8);
    lemma_le_bytes_read_back(n_constraints, 4);
    assert(b.subrange(p, p + 4) =~= le_bytes(prime.len(), 4)) by {
        assert(b.subrange(p, p + 4) =~= enc.subrange(0, 4));
    }
    assert(b.subrange(p + 4, q) =~= prime) by {
        assert(b.subrange(p + 4, q) =~= enc.subrange(4, 4 + fs));
    }
    assert(b.subrange(q, q + 4) =~= le_bytes(n_wires, 4)) by {
        assert(b.subrange(q, q + 4) =~= enc.subrange(4 + fs, 8 + fs));
    }
    assert(b.subrange(q + 4, q + 8) =~= le_bytes(n_pub_out, 4)) by {
        assert(b.subrange(q + 4, q + 8) =~= enc.subrange(8 + fs, 12 + fs));
    }
    assert(b.subrange(q + 8, q + 12) =~= le_bytes(n_pub_in, 4)) by {
        assert(b.subrange(q + 8, q + 12) =~= enc.subrange(12 + fs, 16 + fs));
    }
    assert(b.subrange(q + 12, q + 16) =~= le_bytes(n_prv_in, 4)) by {
        assert(b.subrange(q + 12, q + 16) =~= enc.subrange(16 + fs, 20 + fs));
    }
    assert(b.subrange(q + 16, q + 24) =~= le_bytes(n_labels, 8)) by {
        assert(b.subrange(q + 16, q + 24) =~= enc.subrange(20 + fs, 28 + fs));
    }
    assert(b.subrange(q + 24, q + 28) =~= le_bytes(n_constraints, 4)) by {
        assert(b.subrange(q + 24, q + 28) =~= enc.subrange(28 + fs, 32 + fs));
    }
}

/// Bytes of `x` found at `p` in `b`: any stretch of `x` is found at its offset.
proof fn lemma_chunk(b: Seq<u8>, p: int, x: Seq<u8>, i: int, j: int)
    requires
        0 <= p,
        p + x.len() <= b.len(),
        b.subrange(p, p + x.len()) == x,
        0 <= i <= j <= x.len(),
    ensures
        b.subrange(p + i, p + j) == x.subrange(i, j),
{
    assert(b.subrange(p + i, p + j) =~= b.subrange(p, p + x.len()).subrange(i, j));
}

/// The bytes of the terms of a linear combination: each a 32-bit wire index and
/// a 32-byte coefficient, little-endian.
pub open spec fn terms_bytes(ts: SpecTerms) -> Seq<u8>
    decreases ts.len(),
{
    if ts.len() == 0 {
        Seq::empty()
    } else {
        le_bytes(ts[0].0, 4) + le_bytes(ts[0].1, 32) + terms_bytes(ts.drop_first())
    }
}

/// The bytes of a linear combination: its number of terms, then the terms.
pub open spec fn lc_bytes(ts: SpecTerms) -> Seq<u8> {
    le_bytes(ts.len(), 4) + terms_bytes(ts)
}

/// The bytes of a list of constraints: each its three linear combinations.
pub open spec fn constraints_bytes(cs: Seq<SpecConstraint>) -> Seq<u8>
    decreases cs.len(),
{
    if cs.len() == 0 {
        Seq::empty()
    } else {
        lc_bytes(cs[0].0) + lc_bytes(cs[0].1) + lc_bytes(cs[0].2) + constraints_bytes(
            cs.drop_first(),
        )
    }
}

/// The bytes of a wire map: one 64-bit little-endian label per wire.
pub open spec fn map_bytes(m: Seq<nat>) -> Seq<u8>
    decreases m.len(),
{
    if m.len() == 0 {
        Seq::empty()
    } else {
        le_bytes(m[0], 8) + map_bytes(m.drop_first())
    }
}

/// Whether a linear combination can be written: indices fit in 32 bits, and
/// coefficients are below the field order.
pub open spec fn terms_writable(ts: SpecTerms) -> bool {
    forall|j: int| 0 <= j < ts.len() ==> (#[trigger] ts[j]).0 < pow(256, 4) && ts[j].1 < modulus()
}

/// Whether constraints can be written.
pub open spec fn constraints_writable(cs: Seq<SpecConstraint>) -> bool {
    forall|i: int|
        0 <= i < cs.len() ==> {
            let c = #[trigger] cs[i];
            &&& c.0.len() < pow(256, 4) && terms_writable(c.0)
            &&& c.1.len() < pow(256, 4) && terms_writable(c.1)
            &&& c.2.len() < pow(256, 4) && terms_writable(c.2)
        }
}

proof fn lemma_modulus_below_256_pow_32()
    ensures
        modulus() < pow(256, 32),
{
    reveal_with_fuel(pow, 33);
}

/// Written terms read back, each term taking 36 bytes.
proof fn lemma_terms_read_back(b: Seq<u8>, p: int, ts: SpecTerms, acc: SpecTerms)
    requires
        0 <= p,
        terms_writable(ts),
        p + terms_bytes(ts).len() <= b.len(),
        b.subrange(p, p + terms_bytes(ts).len()) == terms_bytes(ts),
    ensures
        terms_bytes(ts).len() == 36 * ts.len(),
        spec_terms(b, p, ts.len(), acc) == Ok::<(SpecTerms, int), R1csError>(
            (acc + ts, p + 36 * ts.len()),
        ),
    decreases ts.len(),
{
    if ts.len() == 0 {
        assert(acc + ts =~= acc);
    } else {
        let t = ts[0];
        let rest = ts.drop_first();
        let x = terms_bytes(ts);
        assert(terms_writable(rest)) by {
            assert forall|j: int| 0 <= j < rest.len() implies (#[trigger] rest[j]).0 < pow(256, 4)
                && rest[j].1 < modulus() by {
                assert(rest[j] == ts[j + 1]);
            }
        }
        lemma_modulus_below_256_pow_32();
        lemma_le_bytes_read_back(t.0, 4);
        lemma_le_bytes_read_back(t.1, 32);
        lemma_chunk(b, p, x, 0, 4);
        lemma_chunk(b, p, x, 4, 36);
        lemma_chunk(b, p, x, 36, x.len() as int);
        assert(x.subrange(0, 4) =~= le_bytes(t.0, 4));
        assert(x.subrange(4, 36) =~= le_bytes(t.1, 32));
        assert(x.subrange(36, x.len() as int) =~= terms_bytes(rest));
        lemma_field_value_is_le_value(b, p + 4);
        lemma_terms_read_back(b, p + 36, rest, acc.push((t.0, t.1)));
        assert(acc.push((t.0, t.1)) + rest =~= acc + ts);
    }
}

/// A written linear combination reads back.
proof fn lemma_lc_read_back(b: Seq<u8>, p: int, ts: SpecTerms)
    requires
        0 <= p,
        ts.len() < pow(256, 4),
        terms_writable(ts),
        p + lc_bytes(ts).len() <= b.len(),
        b.subrange(p, p + lc_bytes(ts).len()) == lc_bytes(ts),
    ensures
        lc_bytes(ts).len() == 4 + 36 * ts.len(),
        spec_linear_combination(b, p) == Ok::<(SpecTerms, int), R1csError>(
            (ts, p + lc_bytes(ts).len()),
        ),
{
    let x = lc_bytes(ts);
    lemma_le_bytes_read_back(ts.len(), 4);
    lemma_chunk(b, p, x, 0, 4);
    lemma_chunk(b, p, x, 4, x.len() as int);
    assert(x.subrange(0, 4) =~= le_bytes(ts.len(), 4));
    assert(x.subrange(4, x.len() as int) =~= terms_bytes(ts));
    lemma_terms_read_back(b, p + 4, ts, Seq::empty());
    assert(Seq::<(nat, nat)>::empty() + ts =~= ts);
}

/// Written constraints read back.
proof fn lemma_constraints_read_back(b: Seq<u8>, p: int, cs: Seq<SpecConstraint>, acc: Seq<SpecConstraint>)
    requires
        0 <= p,
        constraints_writable(cs),
        p + constraints_bytes(cs).len() <= b.len(),
        b.subrange(p, p + constraints_bytes(cs).len()) == constraints_bytes(cs),
    ensures
        spec_constraints(b, p, cs.len(), acc) == Ok::<(Seq<SpecConstraint>, int), R1csError>(
            (acc + cs, p + constraints_bytes(cs).len()),
        ),
    decreases cs.len(),
{
    if cs.len() == 0 {
        assert(acc + cs =~= acc);
    } else {
        let c = cs[0];
        let rest = cs.drop_first();
        let x = constraints_bytes(cs);
        let la = lc_bytes(c.0).len() as int;
        let lb = lc_bytes(c.1).len() as int;
        let lc = lc_bytes(c.2).len() as int;
        assert(constraints_writable(rest)) by {
            assert forall|i: int| 0 <= i < rest.len() implies {
                let k = #[trigger] rest[i];
                &&& k.0.len() < pow(256, 4) && terms_writable(k.0)
                &&& k.1.len() < pow(256, 4) && terms_writable(k.1)
                &&& k.2.len() < pow(256, 4) && terms_writable(k.2)
            } by {
                assert(rest[i] == cs[i + 1]);
            }
        }
        lemma_chunk(b, p, x, 0, la);
        lemma_chunk(b, p, x, la, la + lb);
        lemma_chunk(b, p, x, la + lb, la + lb + lc);
        lemma_chunk(b, p, x, la + lb + lc, x.len() as int);
        assert(x.subrange(0, la) =~= lc_bytes(c.0));
        assert(x.subrange(la, la + lb) =~= lc_bytes(c.1));
        assert(x.subrange(la + lb, la + lb + lc) =~= lc_bytes(c.2));
        assert(x.subrange(la + lb + lc, x.len() as int) =~= constraints_bytes(rest));
        lemma_lc_read_back(b, p, c.0);
        lemma_lc_read_back(b, p + la, c.1);
        lemma_lc_read_back(b, p + la + lb, c.2);
        lemma_constraints_read_back(b, p + la + lb + lc, rest, acc.push(c));
        assert(acc.push(c) + rest =~= acc + cs);
        assert(c == (c.0, c.1, c.2));
    }
}

/// A written wire map: label `i` is found 8 bytes further for each wire.
proof fn lemma_map_read_back(b: Seq<u8>, p: int, m: Seq<nat>)
    requires
        0 <= p,
        forall|i: int| 0 <= i < m.len() ==> #[trigger] m[i] < pow(256, 8),
        p + map_bytes(m).len() <= b.len(),
        b.subrange(p, p + map_bytes(m).len()) == map_bytes(m),
    ensures
        map_bytes(m).len() == 8 * m.len(),
        forall|i: int| 0 <= i < m.len() ==> #[trigger] u64_at(b, p + 8 * i) == m[i],
    decreases m.len(),
{
    if m.len() > 0 {
        let x = map_bytes(m);
        let rest = m.drop_first();
        assert(forall|i: int| 0 <= i < rest.len() ==> #[trigger] rest[i] == m[i + 1]);
        lemma_le_bytes_read_back(m[0], 8);
        lemma_chunk(b, p, x, 0, 8);
        lemma_chunk(b, p, x, 8, x.len() as int);
        assert(x.subrange(0, 8) =~= le_bytes(m[0], 8));
        assert(x.subrange(8, x.len() as int) =~= map_bytes(rest));
        lemma_map_read_back(b, p + 8, rest);
        assert forall|i: int| 0 <= i < m.len() implies #[trigger] u64_at(b, p + 8 * i) == m[i] by {
            if i > 0 {
                assert(u64_at(b, (p + 8) + 8 * (i - 1)) == rest[i - 1]);
                assert((p + 8) + 8 * (i - 1) == p + 8 * i);
            } else {
                assert(p + 8 * i == p);
            }
        }
    }
}

/// A `.r1cs` file written as circom writes it, for the BN256 field, reads back
/// to what was written: the magic "r1cs" and version 1, then the header section
/// (field size 32, the prime, the wire, public output, public input, private
/// input, label and constraint counts), the constraint section and the wire-map
/// section, each after its type and size. Section types, the section count, the
/// constraint section's size and any bytes after the file are not looked at.
pub proof fn lemma_file_layout(
    b: Seq<u8>,
    num_sections: nat,
    header_type: nat,
    n_wires: nat,
    n_pub_out: nat,
    n_pub_in: nat,
    n_prv_in: nat,
    n_labels: nat,
    constraints_type: nat,
    constraints_size: nat,
    cs: Seq<SpecConstraint>,
    map_type: nat,
    m: Seq<nat>,
)
    requires
        num_sections < pow(256, 4),
        header_type < pow(256, 4),
        n_wires < pow(256, 4),
        n_pub_out < pow(256, 4),
        n_pub_in < pow(256, 4),
        n_prv_in < pow(256, 4),
        n_labels < pow(256, 8),
        cs.len() < pow(256, 4),
        constraints_writable(cs),
        constraints_type < pow(256, 4),
        constraints_size < pow(256, 8),
        map_type < pow(256, 4),
        m.len() == n_wires,
        m.len() > 0,
        m[0] == 0,
        forall|i: int| 0 <= i < m.len() ==> #[trigger] m[i] < pow(256, 8),
        ({
            let q = 100 + constraints_bytes(cs).len() as int;
            &&& q + 12 + map_bytes(m).len() <= b.len()
            &&& b.subrange(0, 4) == seq![0x72u8, 0x31u8, 0x63u8, 0x73u8]
            &&& b.subrange(4, 8) == le_bytes(1, 4)
            &&& b.subrange(8, 12) == le_bytes(num_sections, 4)
            &&& b.subrange(12, 16) == le_bytes(header_type, 4)
            &&& b.subrange(16, 24) == le_bytes(64, 8)
            &&& b.subrange(24, 88) == le_bytes(32, 4) + spec_bn256_prime_bytes() + le_bytes(n_wires, 4)
                + le_bytes(n_pub_out, 4) + le_bytes(n_pub_in, 4) + le_bytes(n_prv_in, 4) + le_bytes(
                n_labels,
                8,
            ) + le_bytes(cs.len(), 4)
            &&& b.subrange(88, 92) == le_bytes(constraints_type, 4)
            &&& b.subrange(92, 100) == le_bytes(constraints_size, 8)
            &&& b.subrange(100, q) == constraints_bytes(cs)
            &&& b.subrange(q, q + 4) == le_bytes(map_type, 4)
            &&& b.subrange(q + 4, q + 12) == le_bytes(8 * n_wires, 8)
            &&& b.subrange(q + 12, q + 12 + map_bytes(m).len()) == map_bytes(m)
        }),
    ensures
        spec_read(b) == Ok::<SpecR1csFile, R1csError>(
            SpecR1csFile {
                version: 1,
                header: SpecHeader {
                    field_size: 32,
                    prime_size: spec_bn256_prime_bytes(),
                    n_wires,
                    n_pub_out,
                    n_pub_in,
                    n_prv_in,
                    n_labels,
                    n_constraints: cs.len(),
                },
                constraints: cs,
                wire_mapping: m,
            },
        ),
{
    let q = 100 + constraints_bytes(cs).len() as int;
    reveal_with_fuel(pow, 9);
    lemma_le_bytes_read_back(1, 4);
    lemma_le_bytes_read_back(64, 8);
    lemma_le_bytes_read_back(8 * n_wires, 8);
    lemma_header_layout(
        b,
        24,
        spec_bn256_prime_bytes(),
        n_wires,
        n_pub_out,
        n_pub_in,
        n_prv_in,
        n_labels,
        cs.len(),
    );
    assert(spec_magic() =~= seq![0x72u8, 0x31u8, 0x63u8, 0x73u8]);
    lemma_constraints_read_back(b, 100, cs, Seq::empty());
    assert(Seq::<SpecConstraint>::empty() + cs =~= cs);
    lemma_map_read_back(b, q + 12, m);
    assert(Seq::new(n_wires, |i: int| u64_at(b, q + 12 + 8 * i)) =~= m);
    assert(u64_at(b, q + 12) == m[0]) by {
        assert(u64_at(b, q + 12 + 8 * 0) == m[0]);
    }
}

} // verus!
