//! Rank-1 constraint systems of circom circuits, and the plan by which a circuit
//! allocates its variables and enforces its constraints.

use crate::field::{decimal_value, digit_value, is_digit_char, is_field_decimal, modulus, FieldElement};
use crate::r1cs_reader::{read, spec_read, R1CSFile, R1csError, SpecConstraint, SpecHeader};
use crate::utils::{decimal_string, lemma_decimal_string_digits};
use vstd::prelude::*;
use vstd::std_specs::iter::IteratorSpec;

verus! {

/// A linear combination: pairs of a wire index and a coefficient.
pub type LinearTerms = Vec<(usize, FieldElement)>;

/// One constraint `a * b = c`, each side a linear combination.
pub type Constraint = (LinearTerms, LinearTerms, LinearTerms);

/// A linear combination as pairs of numbers.
pub open spec fn terms_view(lc: LinearTerms) -> Seq<(nat, nat)> {
    lc@.map_values(|t: (usize, FieldElement)| (t.0 as nat, t.1@))
}

/// A constraint as three linear combinations of pairs of numbers.
pub open spec fn constraint_view(c: Constraint) -> (Seq<(nat, nat)>, Seq<(nat, nat)>, Seq<(nat, nat)>) {
    (terms_view(c.0), terms_view(c.1), terms_view(c.2))
}

/// A list of constraints as numbers.
pub open spec fn constraints_view(cs: Seq<Constraint>) -> Seq<(Seq<(nat, nat)>, Seq<(nat, nat)>, Seq<(nat, nat)>)> {
    cs.map_values(|c: Constraint| constraint_view(c))
}

/// The constraint system of a circuit: wire 0 is the constant one, wires
/// `1..num_inputs` are public inputs and outputs, the rest are auxiliary.
#[derive(Clone)]
pub struct R1CS {
    pub num_inputs: usize,
    pub num_aux: usize,
    pub num_variables: usize,
    pub constraints: Vec<Constraint>,
}

/// The digits of a decimal index: the string without one leading '+'.
pub open spec fn index_digits(s: Seq<char>) -> Seq<char> {
    if s.len() > 0 && s[0] == '+' {
        s.drop_first()
    } else {
        s
    }
}

/// The strings that `str::parse::<usize>` accepts: an optional '+' and then one
/// or more decimal digits whose value fits in a `usize`.
pub open spec fn is_index_decimal(s: Seq<char>) -> bool {
    let d = index_digits(s);
    &&& d.len() > 0
    &&& forall|i: int| 0 <= i < d.len() ==> is_digit_char(#[trigger] d[i])
    &&& decimal_value(d) <= usize::MAX
}

/// The index that such a string stands for.
pub open spec fn index_value(s: Seq<char>) -> nat {
    decimal_value(index_digits(s))
}

proof fn lemma_decimal_value_push(d: Seq<char>, c: char)
    ensures
        decimal_value(d.push(c)) == decimal_value(d) * 10 + digit_value(c),
{
    assert(d.push(c).drop_last() =~= d);
}

/// Parses a wire index as `str::parse::<usize>` does.
pub fn parse_index(s: &str) -> (r: Option<usize>)
    ensures
        r is Some <==> is_index_decimal(s@),
        r matches Some(v) ==> v == index_value(s@),
{
    let ghost d = index_digits(s@);
    let mut chars = s.chars();
    let mut first = true;
    let mut seen_digit = false;
    let mut v: usize = 0;
    // the number of characters read, and where the digits start
    let ghost mut k: int = 0;
    let ghost start: int = if s@.len() > 0 && s@[0] == '+' { 1int } else { 0int };
    assert(d =~= s@.skip(start));
    loop
        invariant
            0 <= start <= 1,
            0 <= k <= s@.len(),
            chars.remaining() == s@.skip(k),
            first <==> k == 0,
            start == (if s@.len() > 0 && s@[0] == '+' { 1int } else { 0int }),
            k > 0 ==> start <= k,
            d == s@.skip(start),
            seen_digit <==> k > start,
            forall|i: int| start <= i < k ==> is_digit_char(#[trigger] s@[i]),
            k > 0 ==> v as nat == decimal_value(s@.subrange(start, k)),
            k == 0 ==> v == 0,
        decreases s@.len() - k,
    {
        match chars.next() {
            None => {
                assert(k == s@.len());
                assert(s@.subrange(start, k) =~= d);
                if !seen_digit {
                    return None;
                }
                assert forall|i: int| 0 <= i < d.len() implies is_digit_char(#[trigger] d[i]) by {
                    assert(d[i] == s@[start + i]);
                }
                assert(d.len() > 0);
                assert(decimal_value(d) == v);
                assert(index_digits(s@) == d);
                assert(is_index_decimal(s@));
                return Some(v);
            },
            Some(c) => {
                assert(c == s@[k]);
                if first && c == '+' {
                    first = false;
                    proof {
                        k = k + 1;
                    }
                    assert(s@.subrange(start, k) =~= Seq::<char>::empty());
                } else {
                    first = false;
                    if c < '0' || c > '9' {
                        assert(!is_digit_char(d[k - start]));
                        return None;
                    }
                    let digit = (c as u32 - '0' as u32) as usize;
                    proof {
                        if k == 0 {
                            assert(s@.subrange(start, k) =~= Seq::<char>::empty());
                        }
                        assert(s@.subrange(start, k + 1) =~= s@.subrange(start, k).push(c));
                        lemma_decimal_value_push(s@.subrange(start, k), c);
                        assert(digit_value(c) == digit);
                        assert(decimal_value(s@.subrange(start, k + 1)) == v * 10 + digit);
                    }
                    if v > (usize::MAX - digit) / 10 {
                        proof {
                            let m = usize::MAX - digit;
                            assert(v * 10 + digit > usize::MAX) by (nonlinear_arith)
                                requires
                                    v > m / 10,
                                    m == usize::MAX - digit,
                                    0 <= digit <= 9,
                            ;
                            assert(d.subrange(0, k + 1 - start) =~= s@.subrange(start, k + 1));
                            if is_index_decimal(s@) {
                                assert(index_digits(s@) == d);
                                assert(k + 1 - start <= d.len());
                                lemma_decimal_prefix_bound(d, k + 1 - start);
                                assert(decimal_value(d.subrange(0, k + 1 - start)) == v * 10 + digit);
                                assert(decimal_value(d) <= usize::MAX);
                                assert(false);
                            }
                        }
                        return None;
                    }
                    v = v * 10 + digit;
                    seen_digit = true;
                    proof {
                        k = k + 1;
                    }
                }
                assert(chars.remaining() =~= s@.skip(k));
            },
        }
    }
}

/// The decimal text of any index, with or without a leading '+', is parsed
/// back to that index.
pub proof fn lemma_index_text_reads_back(n: nat)
    requires
        n <= usize::MAX,
    ensures
        is_index_decimal(decimal_string(n)),
        index_value(decimal_string(n)) == n,
        is_index_decimal(seq!['+'] + decimal_string(n)),
        index_value(seq!['+'] + decimal_string(n)) == n,
{
    lemma_decimal_string_digits(n);
    let t = decimal_string(n);
    assert(is_digit_char(t[0]));
    assert(index_digits(t) == t);
    assert((seq!['+'] + t).drop_first() =~= t);
    assert(index_digits(seq!['+'] + t) == t);
}

/// A prefix of a digit string never stands for more than the whole string.
proof fn lemma_decimal_prefix_bound(d: Seq<char>, k: int)
    requires
        0 <= k <= d.len(),
        forall|i: int| 0 <= i < d.len() ==> is_digit_char(#[trigger] d[i]),
    ensures
        decimal_value(d.subrange(0, k)) <= decimal_value(d),
    decreases d.len() - k,
{
    if k < d.len() {
        lemma_decimal_prefix_bound(d, k + 1);
        assert(d.subrange(0, k + 1).drop_last() =~= d.subrange(0, k));
        assert(is_digit_char(d[k]));
    } else {
        assert(d.subrange(0, k) =~= d);
    }
}

/// A circuit as circom's JSON export describes it: each constraint is a list of
/// at least three linear combinations, each a map from wire index to coefficient,
/// both written as decimal strings, held as its pairs in key order.
pub struct CircuitJson {
    pub constraints: Vec<Vec<Vec<(String, String)>>>,
    pub num_inputs: usize,
    pub num_outputs: usize,
    pub num_variables: usize,
}

/// Whether every pair of a JSON linear combination can be read.
pub open spec fn json_terms_readable(lc: Seq<(String, String)>) -> bool {
    forall|j: int|
        0 <= j < lc.len() ==> is_index_decimal((#[trigger] lc[j]).0@) && is_field_decimal(
            lc[j].1@,
        )
}

/// What a JSON linear combination stands for.
pub open spec fn json_terms_view(lc: Seq<(String, String)>) -> Seq<(nat, nat)> {
    lc.map_values(|t: (String, String)| (index_value(t.0@), decimal_value(t.1@) % modulus()))
}

/// Whether a JSON constraint can be read: it has three linear combinations
/// (more are ignored) and each of them can be read.
pub open spec fn json_constraint_readable(c: Seq<Vec<(String, String)>>) -> bool {
    &&& c.len() >= 3
    &&& json_terms_readable(c[0]@)
    &&& json_terms_readable(c[1]@)
    &&& json_terms_readable(c[2]@)
}

/// What a JSON constraint stands for: its first three linear combinations.
pub open spec fn json_constraint_view(c: Seq<Vec<(String, String)>>) -> SpecConstraint {
    (json_terms_view(c[0]@), json_terms_view(c[1]@), json_terms_view(c[2]@))
}

/// What the constraints of a JSON circuit stand for.
pub open spec fn json_constraints_view(cs: Seq<Vec<Vec<(String, String)>>>) -> Seq<SpecConstraint> {
    cs.map_values(|c: Vec<Vec<(String, String)>>| json_constraint_view(c@))
}

/// Whether `a` comes before `b` in the order of strings: character by character,
/// a proper prefix first.
pub open spec fn str_lt(a: Seq<char>, b: Seq<char>) -> bool
    decreases a.len(),
{
    if a.len() == 0 {
        b.len() > 0
    } else if b.len() == 0 {
        false
    } else if a[0] != b[0] {
        a[0] < b[0]
    } else {
        str_lt(a.drop_first(), b.drop_first())
    }
}

/// Whether the wire indices of a JSON linear combination are distinct and in
/// increasing string order, as the keys of a map are.
pub open spec fn json_keys_ordered(lc: Seq<(String, String)>) -> bool {
    forall|j: int, k: int| 0 <= j < k < lc.len() ==> str_lt((#[trigger] lc[j]).0@, (#[trigger] lc[k]).0@)
}

/// Whether every linear combination of a JSON constraint has ordered keys.
pub open spec fn json_constraint_ordered(c: Seq<Vec<(String, String)>>) -> bool {
    forall|m: int| 0 <= m < c.len() ==> json_keys_ordered((#[trigger] c[m])@)
}

/// Whether a JSON circuit can be read into a constraint system: its linear
/// combinations are maps (keys distinct and ordered), and it can be read.
pub open spec fn circuit_json_readable(j: CircuitJson) -> bool {
    &&& j.num_inputs + j.num_outputs + 1 <= j.num_variables
    &&& forall|i: int|
        0 <= i < j.constraints@.len() ==> json_constraint_readable(#[trigger] j.constraints@[i]@)
    &&& forall|i: int|
        0 <= i < j.constraints@.len() ==> json_constraint_ordered(#[trigger] j.constraints@[i]@)
}

/// Reads a JSON linear combination.
fn terms_from_json(lc: &Vec<(String, String)>) -> (r: LinearTerms)
    requires
        json_terms_readable(lc@),
    ensures
        terms_view(r) == json_terms_view(lc@),
{
    let mut out: LinearTerms = Vec::new();
    let mut j: usize = 0;
    while j < lc.len()
        invariant
            j <= lc@.len(),
            json_terms_readable(lc@),
            terms_view(out) == json_terms_view(lc@.subrange(0, j as int)),
        decreases lc@.len() - j,
    {
        let ghost before = out;
        let t = &lc[j];
        assert(is_index_decimal(lc@[j as int].0@));
        let index = parse_index(t.0.as_str()).unwrap();
        let coeff = FieldElement::from_decimal(t.1.as_str()).unwrap();
        out.push((index, coeff));
        assert(lc@.subrange(0, j + 1) =~= lc@.subrange(0, j as int).push(lc@[j as int]));
        assert(terms_view(out) =~= terms_view(before).push((index as nat, coeff@)));
        assert(json_terms_view(lc@.subrange(0, j + 1)) =~= json_terms_view(
            lc@.subrange(0, j as int),
        ).push((index_value(t.0@), decimal_value(t.1@) % modulus())));
        j = j + 1;
    }
    assert(lc@.subrange(0, j as int) =~= lc@);
    out
}

/// Builds the constraint system of a circuit from its JSON description: the
/// inputs are the constant one, the public inputs and the outputs, the rest of
/// the variables are auxiliary, and each constraint takes the first three linear
/// combinations of its JSON entry.
pub fn r1cs_from_json(circuit_json: &CircuitJson) -> (r: R1CS)
    requires
        circuit_json_readable(*circuit_json),
    ensures
        r.num_inputs == circuit_json.num_inputs + circuit_json.num_outputs + 1,
        r.num_aux == circuit_json.num_variables - r.num_inputs,
        r.num_variables == circuit_json.num_variables,
        r.num_inputs + r.num_aux == r.num_variables,
        constraints_view(r.constraints@) == json_constraints_view(circuit_json.constraints@),
{
    let num_inputs = circuit_json.num_inputs + circuit_json.num_outputs + 1;
    let num_aux = circuit_json.num_variables - num_inputs;
    let mut constraints: Vec<Constraint> = Vec::new();
    let mut i: usize = 0;
    while i < circuit_json.constraints.len()
        invariant
            i <= circuit_json.constraints@.len(),
            circuit_json_readable(*circuit_json),
            constraints_view(constraints@) == json_constraints_view(
                circuit_json.constraints@.subrange(0, i as int),
            ),
        decreases circuit_json.constraints@.len() - i,
    {
        let ghost before = constraints@;
        let c = &circuit_json.constraints[i];
        assert(json_constraint_readable(circuit_json.constraints@[i as int]@));
        let a = terms_from_json(&c[0]);
        let b = terms_from_json(&c[1]);
        let cc = terms_from_json(&c[2]);
        constraints.push((a, b, cc));
        assert(circuit_json.constraints@.subrange(0, i + 1) =~= circuit_json.constraints@.subrange(
            0,
            i as int,
        ).push(circuit_json.constraints@[i as int]));
        assert(constraints_view(constraints@) =~= constraints_view(before).push(
            json_constraint_view(c@),
        ));
        assert(json_constraints_view(circuit_json.constraints@.subrange(0, i + 1))
            =~= json_constraints_view(circuit_json.constraints@.subrange(0, i as int)).push(
            json_constraint_view(c@),
        ));
        i = i + 1;
    }
    assert(circuit_json.constraints@.subrange(0, i as int) =~= circuit_json.constraints@);
    R1CS { num_inputs, num_aux, num_variables: circuit_json.num_variables, constraints }
}

/// Whether the counts in the header of a `.r1cs` file give a constraint system:
/// one more than the public inputs and outputs fits in 32 bits and is at most the
/// number of wires.
pub open spec fn header_counts_fit(h: SpecHeader) -> bool {
    &&& 1 + h.n_pub_in + h.n_pub_out <= u32::MAX
    &&& 1 + h.n_pub_in + h.n_pub_out <= h.n_wires
}

/// Builds the constraint system of a circuit read from a `.r1cs` file, together
/// with its wire-to-label map.
pub fn r1cs_from_file(file: R1CSFile) -> (r: (R1CS, Vec<usize>))
    requires
        header_counts_fit(file.header@),
    ensures
        r.0.num_inputs == 1 + file.header.n_pub_in + file.header.n_pub_out,
        r.0.num_variables == file.header.n_wires,
        r.0.num_aux == r.0.num_variables - r.0.num_inputs,
        r.0.num_inputs + r.0.num_aux == r.0.num_variables,
        r.0.constraints@ == file.constraints@,
        r.1@.len() == file.wire_mapping@.len(),
        forall|i: int| 0 <= i < r.1@.len() ==> #[trigger] r.1@[i] == file.wire_mapping@[i] as usize,
{
    let num_inputs = (1 + file.header.n_pub_in + file.header.n_pub_out) as usize;
    let num_variables = file.header.n_wires as usize;
    let num_aux = num_variables - num_inputs;
    let mut mapping: Vec<usize> = Vec::new();
    let mut i: usize = 0;
    while i < file.wire_mapping.len()
        invariant
            i <= file.wire_mapping@.len(),
            mapping@.len() == i,
            forall|j: int| 0 <= j < i ==> #[trigger] mapping@[j] == file.wire_mapping@[j] as usize,
        decreases file.wire_mapping@.len() - i,
    {
        mapping.push(file.wire_mapping[i] as usize);
        i = i + 1;
    }
    (R1CS { num_aux, num_inputs, num_variables, constraints: file.constraints }, mapping)
}

/// Whether a `.r1cs` file that reads without error gives a constraint system.
pub open spec fn r1cs_bytes_fit(bytes: Seq<u8>) -> bool {
    spec_read(bytes) matches Ok(f) ==> header_counts_fit(f.header)
}

/// Reads the constraint system of a circuit, and its wire-to-label map, from the
/// bytes of a `.r1cs` file.
pub fn r1cs_from_bin(bytes: &[u8]) -> (r: Result<(R1CS, Vec<usize>), R1csError>)
    requires
        r1cs_bytes_fit(bytes@),
    ensures
        match spec_read(bytes@) {
            Err(e) => r == Err::<(R1CS, Vec<usize>), R1csError>(e),
            Ok(f) => r matches Ok((cs, mapping)) && {
                &&& cs.num_inputs == 1 + f.header.n_pub_in + f.header.n_pub_out
                &&& cs.num_variables == f.header.n_wires
                &&& cs.num_inputs + cs.num_aux == cs.num_variables
                &&& constraints_view(cs.constraints@) == f.constraints
                &&& mapping@.len() == f.wire_mapping.len()
                &&& forall|i: int| 0 <= i < mapping@.len() ==> #[trigger] mapping@[i] == f.wire_mapping[i] as usize
            },
        },
{
    match read(bytes) {
        Err(e) => Err(e),
        Ok(file) => Ok(r1cs_from_file(file)),
    }
}

/// Where a wire's value goes in the constraint system being built: among the
/// inputs (index 0 is the constant one) or among the auxiliary variables.
#[derive(Debug, Clone, Copy, PartialEq, Eq, Structural)]
pub enum VarIndex {
    Input(usize),
    Aux(usize),
}

/// A term of a linear combination over variables.
pub type Term = (VarIndex, FieldElement);

/// A linear combination over variables, as pairs of a variable and a number.
pub open spec fn var_terms_view(lc: Vec<Term>) -> Seq<(VarIndex, nat)> {
    lc@.map_values(|t: Term| (t.0, t.1@))
}

/// A circom circuit: its constraint system, and, when proving, the witness and
/// the map from wires to witness positions.
#[derive(Clone)]
pub struct CircomCircuit {
    pub r1cs: R1CS,
    pub witness: Option<Vec<FieldElement>>,
    pub wire_mapping: Option<Vec<usize>>,
    pub aux_offset: usize,
}

/// What a circuit gives the constraint system: the values of the inputs after the
/// constant one, the values of the auxiliary variables, and the constraints over
/// variables, in the order in which they are allocated and enforced.
pub struct Synthesis {
    pub inputs: Vec<FieldElement>,
    pub aux: Vec<FieldElement>,
    pub constraints: Vec<(Vec<Term>, Vec<Term>, Vec<Term>)>,
}

impl CircomCircuit {
    /// Whether the value of `wire` can be looked up: always without a witness,
    /// else the wire (through the map, if there is one) is a witness position.
    pub open spec fn value_defined(&self, wire: int) -> bool {
        match self.witness {
            None => true,
            Some(w) => match self.wire_mapping {
                None => 0 <= wire < w@.len(),
                Some(m) => 0 <= wire < m@.len() && m@[wire] < w@.len(),
            },
        }
    }

    /// The value of `wire`: one without a witness, else its witness entry,
    /// found through the map if there is one.
    pub open spec fn spec_wire_value(&self, wire: int) -> nat {
        match self.witness {
            None => 1,
            Some(w) => match self.wire_mapping {
                None => w@[wire]@,
                Some(m) => w@[m@[wire] as int]@,
            },
        }
    }

    /// The value of a wire.
    pub fn wire_value(&self, wire: usize) -> (r: FieldElement)
        requires
            self.value_defined(wire as int),
        ensures
            r@ == self.spec_wire_value(wire as int),
            match self.witness {
                None => r@ == 1,
                Some(w) => match self.wire_mapping {
                    None => r@ == w@[wire as int]@,
                    Some(m) => r@ == w@[m@[wire as int] as int]@,
                },
            },
    {
        match &self.witness {
            None => FieldElement::one(),
            Some(w) => match &self.wire_mapping {
                None => w[wire],
                Some(m) => w[m[wire]],
            },
        }
    }

    /// The variable that a wire index of a constraint stands for: inputs keep
    /// their index, the others become auxiliary variables counted from the offset.
    pub open spec fn spec_make_index(&self, index: int) -> VarIndex {
        if index < self.r1cs.num_inputs {
            VarIndex::Input(index as usize)
        } else {
            VarIndex::Aux((index - self.r1cs.num_inputs + self.aux_offset) as usize)
        }
    }

    /// Whether the auxiliary index of `index` fits in a `usize`.
    pub open spec fn index_fits(&self, index: int) -> bool {
        index < self.r1cs.num_inputs || index - self.r1cs.num_inputs + self.aux_offset <= usize::MAX
    }

    /// The variable that a wire index of a constraint stands for.
    pub fn make_index(&self, index: usize) -> (r: VarIndex)
        requires
            self.index_fits(index as int),
        ensures
            r == self.spec_make_index(index as int),
            (index as int) < self.r1cs.num_inputs ==> r == VarIndex::Input(index),
            (index as int) >= self.r1cs.num_inputs ==> r == VarIndex::Aux(
                (index - self.r1cs.num_inputs + self.aux_offset) as usize,
            ),
    {
        if index < self.r1cs.num_inputs {
            VarIndex::Input(index)
        } else {
            VarIndex::Aux(index - self.r1cs.num_inputs + self.aux_offset)
        }
    }

    /// A linear combination over wires, as one over variables.
    pub open spec fn spec_make_lc(&self, lc: Seq<(usize, FieldElement)>) -> Seq<(VarIndex, nat)> {
        lc.map_values(|t: (usize, FieldElement)| (self.spec_make_index(t.0 as int), t.1@))
    }

    /// Whether every wire of a linear combination has a variable.
    pub open spec fn lc_fits(&self, lc: Seq<(usize, FieldElement)>) -> bool {
        forall|j: int| 0 <= j < lc.len() ==> self.index_fits((#[trigger] lc[j]).0 as int)
    }

    /// Turns a linear combination over wires into one over variables, term by
    /// term and in order.
    pub fn make_lc(&self, lc: &LinearTerms) -> (r: Vec<Term>)
        requires
            self.lc_fits(lc@),
        ensures
            var_terms_view(r) == self.spec_make_lc(lc@),
    {
        let mut out: Vec<Term> = Vec::new();
        let mut j: usize = 0;
        while j < lc.len()
            invariant
                j <= lc@.len(),
                self.lc_fits(lc@),
                var_terms_view(out) == self.spec_make_lc(lc@.subrange(0, j as int)),
            decreases lc@.len() - j,
        {
            let ghost before = out;
            let (index, coeff) = lc[j];
            assert(self.index_fits(lc@[j as int].0 as int));
            let v = self.make_index(index);
            out.push((v, coeff));
            assert(lc@.subrange(0, j + 1) =~= lc@.subrange(0, j as int).push(lc@[j as int]));
            assert(var_terms_view(out) =~= var_terms_view(before).push((v, coeff@)));
            assert(self.spec_make_lc(lc@.subrange(0, j + 1)) =~= self.spec_make_lc(
                lc@.subrange(0, j as int),
            ).push((v, coeff@)));
            j = j + 1;
        }
        assert(lc@.subrange(0, j as int) =~= lc@);
        out
    }

    /// Whether the circuit can be synthesized: every allocated wire has a value,
    /// and every wire of every constraint has a variable.
    pub open spec fn can_synthesize(&self) -> bool {
        &&& forall|i: int| 1 <= i < self.r1cs.num_inputs ==> #[trigger] self.value_defined(i)
        &&& forall|i: int|
            0 <= i < self.r1cs.num_aux ==> #[trigger] self.value_defined(i + self.r1cs.num_inputs)
        &&& forall|i: int|
            0 <= i < self.r1cs.constraints@.len() ==> {
                let c = #[trigger] self.r1cs.constraints@[i];
                &&& self.lc_fits(c.0@)
                &&& self.lc_fits(c.1@)
                &&& self.lc_fits(c.2@)
            }
    }

    /// Whether `s` is what the circuit gives the constraint system: an input for
    /// each wire from 1 below the number of inputs with the wire's value, an
    /// auxiliary variable for each following wire with its value, and each
    /// constraint with its wires turned into variables.
    pub open spec fn is_synthesis(&self, s: Synthesis) -> bool {
        &&& s.inputs@.len() == (if self.r1cs.num_inputs == 0 { 0 } else { self.r1cs.num_inputs - 1 })
        &&& forall|k: int|
            0 <= k < s.inputs@.len() ==> (#[trigger] s.inputs@[k])@ == self.spec_wire_value(k + 1)
        &&& s.aux@.len() == self.r1cs.num_aux
        &&& forall|k: int|
            0 <= k < s.aux@.len() ==> (#[trigger] s.aux@[k])@ == self.spec_wire_value(
                k + self.r1cs.num_inputs,
            )
        &&& s.constraints@.len() == self.r1cs.constraints@.len()
        &&& forall|i: int|
            0 <= i < s.constraints@.len() ==> {
                let c = #[trigger] self.r1cs.constraints@[i];
                let d = s.constraints@[i];
                &&& var_terms_view(d.0) == self.spec_make_lc(c.0@)
                &&& var_terms_view(d.1) == self.spec_make_lc(c.1@)
                &&& var_terms_view(d.2) == self.spec_make_lc(c.2@)
            }
    }

    /// What the circuit gives a constraint system: the input values, the
    /// auxiliary values and the constraints over variables.
    pub fn synthesize(&self) -> (r: Synthesis)
        requires
            self.can_synthesize(),
        ensures
            self.is_synthesis(r),
            in_wire_order(*self, r),
    {
        let num_inputs = self.r1cs.num_inputs;
        let num_aux = self.r1cs.num_aux;
        let mut inputs: Vec<FieldElement> = Vec::new();
        let mut i: usize = 1;
        while i < num_inputs
            invariant
                1 <= i,
                i <= num_inputs || num_inputs == 0,
                num_inputs == 0 ==> i == 1,
                num_inputs == self.r1cs.num_inputs,
                self.can_synthesize(),
                inputs@.len() == i - 1,
                forall|k: int| 0 <= k < inputs@.len() ==> (#[trigger] inputs@[k])@ == self.spec_wire_value(k + 1),
            decreases num_inputs - i,
        {
            assert(self.value_defined(i as int));
            let v = self.wire_value(i);
            inputs.push(v);
            i = i + 1;
        }
        let mut aux: Vec<FieldElement> = Vec::new();
        let mut i: usize = 0;
        while i < num_aux
            invariant
                i <= num_aux,
                num_aux == self.r1cs.num_aux,
                num_inputs == self.r1cs.num_inputs,
                self.can_synthesize(),
                aux@.len() == i,
                forall|k: int| 0 <= k < aux@.len() ==> (#[trigger] aux@[k])@ == self.spec_wire_value(k + num_inputs),
            decreases num_aux - i,
        {
            assert(self.value_defined(i + num_inputs));
            let v = match &self.witness {
                None => FieldElement::one(),
                Some(w) => {
                    // a witness position or a map entry exists for the wire
                    let _witness_len = w.len();
                    let _map_len = match &self.wire_mapping {
                        Some(m) => m.len(),
                        None => 0,
                    };
                    self.wire_value(i + num_inputs)
                },
            };
            aux.push(v);
            i = i + 1;
        }
        let mut constraints: Vec<(Vec<Term>, Vec<Term>, Vec<Term>)> = Vec::new();
        let mut i: usize = 0;
        while i < self.r1cs.constraints.len()
            invariant
                i <= self.r1cs.constraints@.len(),
                self.can_synthesize(),
                constraints@.len() == i,
                forall|j: int|
                    0 <= j < i ==> {
                        let c = #[trigger] self.r1cs.constraints@[j];
                        let d = constraints@[j];
                        &&& var_terms_view(d.0) == self.spec_make_lc(c.0@)
                        &&& var_terms_view(d.1) == self.spec_make_lc(c.1@)
                        &&& var_terms_view(d.2) == self.spec_make_lc(c.2@)
                    },
            decreases self.r1cs.constraints@.len() - i,
        {
            let c = &self.r1cs.constraints[i];
            assert(self.r1cs.constraints@[i as int] == *c);
            let a = self.make_lc(&c.0);
            let b = self.make_lc(&c.1);
            let cc = self.make_lc(&c.2);
            constraints.push((a, b, cc));
            i = i + 1;
        }
        let r = Synthesis { inputs, aux, constraints };
        proof {
            lemma_synthesis_in_wire_order(*self, r);
        }
        r
    }
}

/// Whether `vars` is the linear combination `wires` with each wire turned into its
/// variable: a wire below `num_inputs` into the input of the same index, any
/// other wire `w` into the auxiliary variable `w - num_inputs + aux_offset`, the
/// coefficients and the order of the terms kept.
pub open spec fn lc_over_variables(
    wires: Seq<(usize, FieldElement)>,
    vars: Seq<Term>,
    num_inputs: int,
    aux_offset: int,
) -> bool {
    &&& vars.len() == wires.len()
    &&& forall|j: int|
        0 <= j < wires.len() ==> {
            let w = (#[trigger] wires[j]).0 as int;
            &&& vars[j].0 == (if w < num_inputs {
                VarIndex::Input(w as usize)
            } else {
                VarIndex::Aux((w - num_inputs + aux_offset) as usize)
            })
            &&& vars[j].1@ == wires[j].1@
        }
}

/// Whether a synthesis allocates the wires in order: the input variable `w`
/// (for `1 <= w < num_inputs`) holds the witness entry of wire `w`, the
/// auxiliary variable `j` (counted from the offset) that of wire
/// `num_inputs + j`, each through the wire map if there is one (or one, without a
/// witness), and each constraint has its wires turned into variables.
pub open spec fn in_wire_order(c: CircomCircuit, s: Synthesis) -> bool {
    let n = c.r1cs.num_inputs as int;
    &&& (n >= 1 ==> s.inputs@.len() == n - 1)
    &&& s.aux@.len() == c.r1cs.num_aux
    &&& forall|k: int|
        0 <= k < s.inputs@.len() ==> match c.witness {
            None => (#[trigger] s.inputs@[k])@ == 1,
            Some(wit) => match c.wire_mapping {
                None => s.inputs@[k]@ == wit@[k + 1]@,
                Some(m) => s.inputs@[k]@ == wit@[m@[k + 1] as int]@,
            },
        }
    &&& forall|j: int|
        0 <= j < s.aux@.len() ==> match c.witness {
            None => (#[trigger] s.aux@[j])@ == 1,
            Some(wit) => match c.wire_mapping {
                None => s.aux@[j]@ == wit@[n + j]@,
                Some(m) => s.aux@[j]@ == wit@[m@[n + j] as int]@,
            },
        }
    &&& s.constraints@.len() == c.r1cs.constraints@.len()
    &&& forall|i: int|
        0 <= i < s.constraints@.len() ==> {
            let k = #[trigger] c.r1cs.constraints@[i];
            let d = s.constraints@[i];
            &&& lc_over_variables(k.0@, d.0@, n, c.aux_offset as int)
            &&& lc_over_variables(k.1@, d.1@, n, c.aux_offset as int)
            &&& lc_over_variables(k.2@, d.2@, n, c.aux_offset as int)
        }
}

/// A synthesis of a circuit allocates its public inputs, then its auxiliary
/// wires, in wire order with their witness values, and turns each constraint's
/// wires into those variables.
pub proof fn lemma_synthesis_in_wire_order(c: CircomCircuit, s: Synthesis)
    requires
        c.is_synthesis(s),
    ensures
        in_wire_order(c, s),
{
    assert forall|i: int| 0 <= i < s.constraints@.len() implies {
        let k = #[trigger] c.r1cs.constraints@[i];
        let d = s.constraints@[i];
        &&& lc_over_variables(k.0@, d.0@, c.r1cs.num_inputs as int, c.aux_offset as int)
        &&& lc_over_variables(k.1@, d.1@, c.r1cs.num_inputs as int, c.aux_offset as int)
        &&& lc_over_variables(k.2@, d.2@, c.r1cs.num_inputs as int, c.aux_offset as int)
    } by {
        let k = c.r1cs.constraints@[i];
        let d = s.constraints@[i];
        lemma_lc_over_variables(c, k.0@, d.0);
        lemma_lc_over_variables(c, k.1@, d.1);
        lemma_lc_over_variables(c, k.2@, d.2);
    }
    assert forall|k: int| 0 <= k < s.inputs@.len() implies match c.witness {
        None => (#[trigger] s.inputs@[k])@ == 1,
        Some(wit) => match c.wire_mapping {
            None => s.inputs@[k]@ == wit@[k + 1]@,
            Some(m) => s.inputs@[k]@ == wit@[m@[k + 1] as int]@,
        },
    } by {
        assert(s.inputs@[k]@ == c.spec_wire_value(k + 1));
    }
    assert forall|j: int| 0 <= j < s.aux@.len() implies match c.witness {
        None => (#[trigger] s.aux@[j])@ == 1,
        Some(wit) => match c.wire_mapping {
            None => s.aux@[j]@ == wit@[c.r1cs.num_inputs + j]@,
            Some(m) => s.aux@[j]@ == wit@[m@[c.r1cs.num_inputs + j] as int]@,
        },
    } by {
        assert(s.aux@[j]@ == c.spec_wire_value(j + c.r1cs.num_inputs));
    }
}

proof fn lemma_lc_over_variables(c: CircomCircuit, wires: Seq<(usize, FieldElement)>, vars: Vec<Term>)
    requires
        var_terms_view(vars) == c.spec_make_lc(wires),
    ensures
        lc_over_variables(wires, vars@, c.r1cs.num_inputs as int, c.aux_offset as int),
{
    assert(vars@.len() == var_terms_view(vars).len());
    assert forall|j: int| 0 <= j < wires.len() implies {
        let w = (#[trigger] wires[j]).0 as int;
        &&& vars@[j].0 == (if w < c.r1cs.num_inputs {
            VarIndex::Input(w as usize)
        } else {
            VarIndex::Aux((w - c.r1cs.num_inputs + c.aux_offset) as usize)
        })
        &&& vars@[j].1@ == wires[j].1@
    } by {
        assert(var_terms_view(vars)[j] == c.spec_make_lc(wires)[j]);
    }
}

/// The value that a synthesis gives a variable, if it allocates it: the input
/// at index 0 is the constant one, inputs from 1 on and auxiliary variables from
/// the offset on are allocated in order.
pub open spec fn assigned_value(s: Synthesis, aux_offset: nat, v: VarIndex) -> Option<nat> {
    match v {
        VarIndex::Input(k) => if k == 0 {
            Some(1)
        } else if k - 1 < s.inputs@.len() {
            Some(s.inputs@[k - 1]@)
        } else {
            None
        },
        VarIndex::Aux(j) => if aux_offset <= j < aux_offset + s.aux@.len() {
            Some(s.aux@[j - aux_offset]@)
        } else {
            None
        },
    }
}

/// Every wire of the circuit other than the constant one refers, through
/// `make_index`, to a variable that the synthesis allocates with that wire's value;
/// wire 0 refers to the constant one.
pub proof fn lemma_wires_refer_to_their_values(c: CircomCircuit, s: Synthesis, w: int)
    requires
        c.is_synthesis(s),
        c.r1cs.num_inputs >= 1,
        c.r1cs.num_inputs + c.r1cs.num_aux == c.r1cs.num_variables,
        c.aux_offset + c.r1cs.num_aux <= usize::MAX,
        0 <= w < c.r1cs.num_variables,
    ensures
        w == 0 ==> c.spec_make_index(w) == VarIndex::Input(0),
        w > 0 ==> assigned_value(s, c.aux_offset as nat, c.spec_make_index(w)) == Some(
            c.spec_wire_value(w),
        ),
{
    if w >= c.r1cs.num_inputs {
        let k = w - c.r1cs.num_inputs;
        assert(s.aux@[k]@ == c.spec_wire_value(k + c.r1cs.num_inputs));
    } else if w > 0 {
        assert(s.inputs@[w - 1]@ == c.spec_wire_value(w - 1 + 1));
    }
}

/// The value of a linear combination over wires, each wire taking its value in
/// the circuit.
pub open spec fn wire_lc_value(c: CircomCircuit, lc: Seq<(usize, FieldElement)>) -> int
    decreases lc.len(),
{
    if lc.len() == 0 {
        0
    } else {
        wire_lc_value(c, lc.drop_last()) + lc.last().1@ * c.spec_wire_value(lc.last().0 as int)
    }
}

/// Whether the circuit's own constraints hold over the field, each wire taking
/// its value in the circuit.
pub open spec fn r1cs_satisfied(c: CircomCircuit) -> bool {
    forall|i: int|
        0 <= i < c.r1cs.constraints@.len() ==> {
            let k = #[trigger] c.r1cs.constraints@[i];
            (wire_lc_value(c, k.0@) * wire_lc_value(c, k.1@)) % (modulus() as int) == wire_lc_value(
                c,
                k.2@,
            ) % (modulus() as int)
        }
}

/// The value of a linear combination over variables, each variable taking the
/// value that the synthesis gives it (zero if it allocates none).
pub open spec fn var_lc_value(s: Synthesis, aux_offset: nat, lc: Seq<(VarIndex, nat)>) -> int
    decreases lc.len(),
{
    if lc.len() == 0 {
        0
    } else {
        var_lc_value(s, aux_offset, lc.drop_last()) + lc.last().1 * match assigned_value(
            s,
            aux_offset,
            lc.last().0,
        ) {
            Some(v) => v,
            None => 0nat,
        }
    }
}

/// Whether the constraints that a synthesis enforces hold over the field, each
/// variable taking the value that the synthesis gives it.
pub open spec fn synthesis_satisfied(s: Synthesis, aux_offset: nat) -> bool {
    forall|i: int|
        0 <= i < s.constraints@.len() ==> {
            let d = #[trigger] s.constraints@[i];
            (var_lc_value(s, aux_offset, var_terms_view(d.0)) * var_lc_value(
                s,
                aux_offset,
                var_terms_view(d.1),
            )) % (modulus() as int) == var_lc_value(s, aux_offset, var_terms_view(d.2)) % (
            modulus() as int)
        }
}

/// Whether every wire of a linear combination is below `n`.
pub open spec fn lc_wires_below(lc: Seq<(usize, FieldElement)>, n: nat) -> bool {
    forall|j: int| 0 <= j < lc.len() ==> (#[trigger] lc[j]).0 < n
}

/// Whether every wire of every constraint of the circuit is one of its variables.
pub open spec fn constraint_wires_in_range(c: CircomCircuit) -> bool {
    forall|i: int|
        0 <= i < c.r1cs.constraints@.len() ==> {
            let k = #[trigger] c.r1cs.constraints@[i];
            &&& lc_wires_below(k.0@, c.r1cs.num_variables as nat)
            &&& lc_wires_below(k.1@, c.r1cs.num_variables as nat)
            &&& lc_wires_below(k.2@, c.r1cs.num_variables as nat)
        }
}

/// A linear combination over wires has, once its wires are turned into
/// variables, the same value under the synthesis.
proof fn lemma_lc_value_kept(c: CircomCircuit, s: Synthesis, lc: Seq<(usize, FieldElement)>)
    requires
        c.is_synthesis(s),
        c.r1cs.num_inputs >= 1,
        c.r1cs.num_inputs + c.r1cs.num_aux == c.r1cs.num_variables,
        c.aux_offset + c.r1cs.num_aux <= usize::MAX,
        c.spec_wire_value(0) == 1,
        lc_wires_below(lc, c.r1cs.num_variables as nat),
    ensures
        var_lc_value(s, c.aux_offset as nat, c.spec_make_lc(lc)) == wire_lc_value(c, lc),
    decreases lc.len(),
{
    if lc.len() > 0 {
        let t = lc.last();
        assert(c.spec_make_lc(lc.drop_last()) =~= c.spec_make_lc(lc).drop_last());
        lemma_lc_value_kept(c, s, lc.drop_last());
        assert(lc[lc.len() - 1].0 < c.r1cs.num_variables);
        lemma_wires_refer_to_their_values(c, s, t.0 as int);
        assert(c.spec_make_lc(lc).last() == (c.spec_make_index(t.0 as int), t.1@));
        assert(assigned_value(s, c.aux_offset as nat, c.spec_make_index(t.0 as int)) == Some(
            c.spec_wire_value(t.0 as int),
        ));
    }
}

/// The constraints that a circuit enforces through its synthesis hold exactly
/// when the circuit's own constraints hold, when the witness gives wire 0 the
/// value one and every wire of every constraint is one of the circuit's variables.
pub proof fn lemma_synthesis_satisfied_iff_r1cs(c: CircomCircuit, s: Synthesis)
    requires
        c.is_synthesis(s),
        c.r1cs.num_inputs >= 1,
        c.r1cs.num_inputs + c.r1cs.num_aux == c.r1cs.num_variables,
        c.aux_offset + c.r1cs.num_aux <= usize::MAX,
        c.spec_wire_value(0) == 1,
        constraint_wires_in_range(c),
    ensures
        synthesis_satisfied(s, c.aux_offset as nat) <==> r1cs_satisfied(c),
{
    let off = c.aux_offset as nat;
    assert forall|i: int| #![trigger s.constraints@[i]] 0 <= i < s.constraints@.len() implies {
        let k = c.r1cs.constraints@[i];
        let d = s.constraints@[i];
        &&& var_lc_value(s, off, var_terms_view(d.0)) == wire_lc_value(c, k.0@)
        &&& var_lc_value(s, off, var_terms_view(d.1)) == wire_lc_value(c, k.1@)
        &&& var_lc_value(s, off, var_terms_view(d.2)) == wire_lc_value(c, k.2@)
    } by {
        let k = c.r1cs.constraints@[i];
        lemma_lc_value_kept(c, s, k.0@);
        lemma_lc_value_kept(c, s, k.1@);
        lemma_lc_value_kept(c, s, k.2@);
    }
}

/// Distinct wires of the circuit refer to distinct variables.
pub proof fn lemma_make_index_injective(c: CircomCircuit, w1: int, w2: int)
    requires
        c.r1cs.num_inputs + c.r1cs.num_aux == c.r1cs.num_variables,
        c.aux_offset + c.r1cs.num_aux <= usize::MAX,
        0 <= w1 < c.r1cs.num_variables,
        0 <= w2 < c.r1cs.num_variables,
        w1 != w2,
    ensures
        c.spec_make_index(w1) != c.spec_make_index(w2),
{
}

/// What `serde_json::from_str::<Vec<String>>` gives for a text: the strings of a
/// JSON array of strings, or nothing when the text is not one.
pub uninterp spec fn json_string_array(text: Seq<char>) -> Option<Seq<Seq<char>>>;

/// `serde_json::from_str::<Vec<String>>`, its error turned into `None`.
/// The claim: the result is a function of the text alone, named `json_string_array`.
/// What texts it accepts and which strings it gives is left to serde_json.
#[verifier::external_body]
fn parse_json_string_array(text: &str) -> (r: Option<Vec<String>>)
    ensures
        r is Some <==> json_string_array(text@) is Some,
        r matches Some(v) ==> v@.map_values(|x: String| x@) == json_string_array(text@)->0,
{
    serde_json::from_str::<Vec<String>>(text).ok()
}

/// Whether every string of a list is a field element in decimal.
pub open spec fn all_field_decimals(strs: Seq<Seq<char>>) -> bool {
    forall|i: int| 0 <= i < strs.len() ==> is_field_decimal(#[trigger] strs[i])
}

/// Whether a JSON text is an array of field elements in decimal.
pub open spec fn is_witness_json(text: Seq<char>) -> bool {
    json_string_array(text) matches Some(strs) && all_field_decimals(strs)
}

/// The witness that a list of decimal strings stands for.
pub open spec fn witness_values(strs: Seq<Seq<char>>) -> Seq<nat> {
    strs.map_values(|x: Seq<char>| decimal_value(x) % modulus())
}

/// Reads a witness from its decimal strings.
pub fn witness_from_strings(strs: &Vec<String>) -> (r: Vec<FieldElement>)
    requires
        all_field_decimals(strs@.map_values(|x: String| x@)),
    ensures
        r@.map_values(|e: FieldElement| e@) == witness_values(strs@.map_values(|x: String| x@)),
        r@.len() == strs@.len(),
        forall|i: int| 0 <= i < r@.len() ==> (#[trigger] r@[i])@ == decimal_value(strs@[i]@) % modulus(),
{
    let ghost views = strs@.map_values(|x: String| x@);
    let mut out: Vec<FieldElement> = Vec::new();
    let mut i: usize = 0;
    while i < strs.len()
        invariant
            i <= strs@.len(),
            views == strs@.map_values(|x: String| x@),
            all_field_decimals(views),
            out@.len() == i,
            forall|k: int| 0 <= k < i ==> (#[trigger] out@[k])@ == decimal_value(views[k]) % modulus(),
        decreases strs@.len() - i,
    {
        assert(is_field_decimal(views[i as int]));
        let e = FieldElement::from_decimal(strs[i].as_str()).unwrap();
        out.push(e);
        i = i + 1;
    }
    assert(out@.map_values(|e: FieldElement| e@) =~= witness_values(views));
    out
}

/// Reads a witness from a JSON array of decimal strings.
pub fn witness_from_json(text: &str) -> (r: Vec<FieldElement>)
    requires
        is_witness_json(text@),
    ensures
        r@.map_values(|e: FieldElement| e@) == witness_values(json_string_array(text@)->0),
        r@.len() == json_string_array(text@)->0.len(),
        forall|i: int|
            0 <= i < r@.len() ==> (#[trigger] r@[i])@ == decimal_value(json_string_array(text@)->0[i])
                % modulus(),
{
    let strs = parse_json_string_array(text).unwrap();
    let r = witness_from_strings(&strs);
    assert forall|i: int| 0 <= i < r@.len() implies (#[trigger] r@[i])@ == decimal_value(
        json_string_array(text@)->0[i],
    ) % modulus() by {
        assert(strs@.map_values(|x: String| x@)[i] == strs@[i]@);
    }
    r
}

/// A witness text is exactly a JSON array whose strings are all field elements
/// in decimal: no other bound is put on the strings.
pub proof fn lemma_witness_json_is_field_decimal_array(text: Seq<char>)
    ensures
        is_witness_json(text) <==> (json_string_array(text) matches Some(strs) && forall|i: int|
            0 <= i < strs.len() ==> is_field_decimal(#[trigger] strs[i])),
        is_witness_json(text) ==> forall|i: int|
            0 <= i < json_string_array(text)->0.len() ==> #[trigger] witness_values(
                json_string_array(text)->0,
            )[i] == decimal_value(json_string_array(text)->0[i]) % modulus(),
{
}

/// Whether a JSON text is an array of field elements in decimal.
pub fn is_witness_json_text(text: &str) -> (r: bool)
    ensures
        r == is_witness_json(text@),
        r == (json_string_array(text@) matches Some(strs) && forall|i: int|
            0 <= i < strs.len() ==> is_field_decimal(#[trigger] strs[i])),
{
    proof {
        lemma_witness_json_is_field_decimal_array(text@);
    }
    let strs = match parse_json_string_array(text) {
        Some(v) => v,
        None => {
            return false;
        },
    };
    let ghost views = strs@.map_values(|x: String| x@);
    let mut i: usize = 0;
    while i < strs.len()
        invariant
            i <= strs@.len(),
            views == strs@.map_values(|x: String| x@),
            json_string_array(text@) == Some(views),
            forall|k: int| 0 <= k < i ==> is_field_decimal(#[trigger] views[k]),
        decreases strs@.len() - i,
    {
        if FieldElement::from_decimal(strs[i].as_str()).is_none() {
            assert(!is_field_decimal(views[i as int]));
            proof {
                lemma_witness_json_is_field_decimal_array(text@);
            }
            return false;
        }
        i = i + 1;
    }
    true
}

/// Reads a witness from a JSON text, or gives `None` when the text is not an
/// array of field elements in decimal.
pub fn try_witness_from_json(text: &str) -> (r: Option<Vec<FieldElement>>)
    ensures
        r is Some <==> is_witness_json(text@),
        r matches Some(w) ==> w@.map_values(|e: FieldElement| e@) == witness_values(
            json_string_array(text@)->0,
        ),
        r is Some <==> (json_string_array(text@) matches Some(strs) && forall|i: int|
            0 <= i < strs.len() ==> is_field_decimal(#[trigger] strs[i])),
        r matches Some(w) ==> w@.len() == json_string_array(text@)->0.len() && forall|i: int|
            0 <= i < w@.len() ==> (#[trigger] w@[i])@ == decimal_value(json_string_array(text@)->0[i])
                % modulus(),
{
    proof {
        lemma_witness_json_is_field_decimal_array(text@);
    }
    if is_witness_json_text(text) {
        Some(witness_from_json(text))
    } else {
        None
    }
}

} // verus!
