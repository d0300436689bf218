use plonkit::circom_circuit::r1cs_from_bin;
use plonkit::r1cs_reader::{read, R1csError};

const PRIME: [u8; 32] = [
    0x01, 0x00, 0x00, 0xf0, 0x93, 0xf5, 0xe1, 0x43, 0x91, 0x70, 0xb9, 0x79, 0x48, 0xe8, 0x33, 0x28,
    0x5d, 0x58, 0x81, 0x81, 0xb6, 0x45, 0x50, 0xb8, 0x29, 0xa0, 0x31, 0xe1, 0x72, 0x4e, 0x64, 0x30,
];

type Terms = Vec<(u32, [u64; 4])>;

fn field_bytes(v: [u64; 4]) -> Vec<u8> {
    v.iter().flat_map(|l| l.to_le_bytes()).collect()
}

fn lc_bytes(terms: &Terms) -> Vec<u8> {
    let mut out = (terms.len() as u32).to_le_bytes().to_vec();
    for (i, v) in terms {
        out.extend(i.to_le_bytes());
        out.extend(field_bytes(*v));
    }
    out
}

struct Spec {
    version: u32,
    header_size: u64,
    field_size: u32,
    prime: Vec<u8>,
    n_wires: u32,
    n_pub_out: u32,
    n_pub_in: u32,
    n_prv_in: u32,
    constraints: Vec<(Terms, Terms, Terms)>,
    map_size: u64,
    map: Vec<u64>,
}

fn sample() -> Spec {
    Spec {
        version: 1,
        header_size: 64,
        field_size: 32,
        prime: PRIME.to_vec(),
        n_wires: 4,
        n_pub_out: 1,
        n_pub_in: 1,
        n_prv_in: 1,
        constraints: vec![
            (vec![(1, [2, 0, 0, 0])], vec![(2, [1, 0, 0, 0])], vec![(3, [1, 0, 0, 0]), (0, [0, 7, 0, 0])]),
            (vec![], vec![(0, [1, 0, 0, 0])], vec![]),
        ],
        map_size: 32,
        map: vec![0, 1, 2, 5],
    }
}

fn bytes(s: &Spec) -> Vec<u8> {
    let mut out = b"r1cs".to_vec();
    out.extend(s.version.to_le_bytes());
    out.extend(3u32.to_le_bytes());
    out.extend(1u32.to_le_bytes());
    out.extend(s.header_size.to_le_bytes());
    out.extend(s.field_size.to_le_bytes());
    out.extend(&s.prime);
    out.extend(s.n_wires.to_le_bytes());
    out.extend(s.n_pub_out.to_le_bytes());
    out.extend(s.n_pub_in.to_le_bytes());
    out.extend(s.n_prv_in.to_le_bytes());
    out.extend((s.n_wires as u64).to_le_bytes());
    out.extend((s.constraints.len() as u32).to_le_bytes());
    out.extend(2u32.to_le_bytes());
    let body: Vec<u8> = s.constraints.iter().flat_map(|(a, b, c)| {
        let mut v = lc_bytes(a);
        v.extend(lc_bytes(b));
        v.extend(lc_bytes(c));
        v
    }).collect();
    out.extend((body.len() as u64).to_le_bytes());
    out.extend(body);
    out.extend(3u32.to_le_bytes());
    out.extend(s.map_size.to_le_bytes());
    for m in &s.map {
        out.extend(m.to_le_bytes());
    }
    out
}

#[test]
fn reads_a_file() {
    let f = read(&bytes(&sample())).unwrap();
    assert_eq!(f.version, 1);
    assert_eq!(f.header.field_size, 32);
    assert_eq!(f.header.prime_size, PRIME.to_vec());
    assert_eq!(f.header.n_wires, 4);
    assert_eq!(f.header.n_pub_out, 1);
    assert_eq!(f.header.n_pub_in, 1);
    assert_eq!(f.header.n_prv_in, 1);
    assert_eq!(f.header.n_labels, 4);
    assert_eq!(f.header.n_constraints, 2);
    assert_eq!(f.constraints.len(), 2);
    let (a, b, c) = &f.constraints[0];
    assert_eq!(a[0].0, 1);
    assert_eq!(a[0].1.to_limbs(), [2, 0, 0, 0]);
    assert_eq!(b[0].0, 2);
    assert_eq!(c[1].0, 0);
    assert_eq!(c[1].1.to_limbs(), [0, 7, 0, 0]);
    assert!(f.constraints[1].0.is_empty());
    assert_eq!(f.wire_mapping, vec![0, 1, 2, 5]);
}

#[test]
fn trailing_bytes_are_ignored() {
    let mut b = bytes(&sample());
    b.extend([9, 9, 9]);
    assert!(read(&b).is_ok());
}

#[test]
fn r1cs_from_bin_counts() {
    let (cs, mapping) = r1cs_from_bin(&bytes(&sample())).unwrap();
    assert_eq!(cs.num_inputs, 3);
    assert_eq!(cs.num_variables, 4);
    assert_eq!(cs.num_aux, 1);
    assert_eq!(cs.constraints.len(), 2);
    assert_eq!(mapping, vec![0, 1, 2, 5]);
}

#[test]
fn r1cs_from_bin_passes_errors_on() {
    assert_eq!(r1cs_from_bin(b"r1c").err(), Some(R1csError::UnexpectedEof));
}

#[test]
fn every_truncation_is_an_early_end() {
    let b = bytes(&sample());
    for n in 0..b.len() {
        assert_eq!(read(&b[..n]).err(), Some(R1csError::UnexpectedEof), "at {}", n);
    }
}

#[test]
fn bad_magic() {
    let mut b = bytes(&sample());
    b[0] = b'R';
    assert_eq!(read(&b).err(), Some(R1csError::InvalidMagic));
}

#[test]
fn bad_version() {
    let mut s = sample();
    s.version = 2;
    assert_eq!(read(&bytes(&s)).err(), Some(R1csError::UnsupportedVersion));
}

#[test]
fn bad_header_size() {
    let mut s = sample();
    s.header_size = 63;
    assert_eq!(read(&bytes(&s)).err(), Some(R1csError::InvalidHeaderSize));
}

#[test]
fn bad_field_size() {
    let mut s = sample();
    s.field_size = 31;
    s.header_size = 63;
    s.prime.pop();
    assert_eq!(read(&bytes(&s)).err(), Some(R1csError::UnsupportedFieldSize));
}

#[test]
fn bad_prime() {
    let mut s = sample();
    s.prime[31] = 0x31;
    assert_eq!(read(&bytes(&s)).err(), Some(R1csError::UnsupportedPrime));
}

#[test]
fn coefficient_at_the_field_order() {
    let mut s = sample();
    s.constraints[1].1[0].1 = [0x43e1f593f0000001, 0x2833e84879b97091, 0xb85045b68181585d, 0x30644e72e131a029];
    assert_eq!(read(&bytes(&s)).err(), Some(R1csError::InvalidFieldElement));
}

#[test]
fn bad_map_size() {
    let mut s = sample();
    s.map_size = 24;
    assert_eq!(read(&bytes(&s)).err(), Some(R1csError::InvalidMapSize));
}

#[test]
fn wire_zero_must_map_to_zero() {
    let mut s = sample();
    s.map[0] = 1;
    assert_eq!(read(&bytes(&s)).err(), Some(R1csError::WireZeroNotMapped));
    let mut s = sample();
    s.n_wires = 0;
    s.map_size = 0;
    s.map = vec![];
    assert_eq!(read(&bytes(&s)).err(), Some(R1csError::WireZeroNotMapped));
}
