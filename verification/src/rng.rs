//! Randomness that is written out: the same path gives the same draws on every
//! machine.
use vstd::prelude::*;
use vstd::utf8::encode_utf8;

use crate::logical::LogicalPath;

verus! {

/// A product within 64 bits.
pub open spec fn times64(a: u64, b: u64) -> u64 {
    ((a as int * b as int) % 0x1_0000_0000_0000_0000) as u64
}

/// A sum within 64 bits.
pub open spec fn plus64(a: u64, b: u64) -> u64 {
    ((a as int + b as int) % 0x1_0000_0000_0000_0000) as u64
}

/// Every bit of a word stirred into every other.
pub open spec fn mixed(z: u64) -> u64 {
    let a = times64(z ^ (z >> 30), 0xBF58_476D_1CE4_E5B9);
    let b = times64(a ^ (a >> 27), 0x94D0_49BB_1331_11EB);
    b ^ (b >> 31)
}

/// Every bit of a word stirred into every other.
pub fn mix64(z: u64) -> (r: u64)
    ensures
        r == mixed(z),
{
    let a: u64 = (z ^ (z >> 30)).wrapping_mul(0xBF58_476D_1CE4_E5B9);
    let b: u64 = (a ^ (a >> 27)).wrapping_mul(0x94D0_49BB_1331_11EB);
    b ^ (b >> 31)
}

/// The hash of some bytes: each is mixed in and multiplied up in turn.
pub open spec fn bytes_hash(b: Seq<u8>) -> u64
    decreases b.len(),
{
    if b.len() == 0 {
        0xCBF2_9CE4_8422_2325
    } else {
        times64(bytes_hash(b.drop_last()) ^ (b.last() as u64), 0x0000_0100_0000_01B3)
    }
}

/// The hash of some bytes.
pub fn fnv1a64(b: &[u8]) -> (r: u64)
    ensures
        r == bytes_hash(b@),
{
    let mut h: u64 = 0xCBF2_9CE4_8422_2325;
    let mut i: usize = 0;
    assert(b@.subrange(0, 0) =~= seq![]);
    while i < b.len()
        invariant
            i <= b@.len(),
            h == bytes_hash(b@.subrange(0, i as int)),
        decreases b.len() - i,
    {
        assert(b@.subrange(0, i + 1).drop_last() =~= b@.subrange(0, i as int));
        h = (h ^ (b[i] as u64)).wrapping_mul(0x0000_0100_0000_01B3);
        i = i + 1;
    }
    assert(b@.subrange(0, i as int) =~= b@);
    h
}

/// A generator for the draws about one path, for one purpose.
#[derive(Debug)]
pub struct SeededRng {
    /// Where it stands.
    pub state: u64,
}

/// Where a generator for a path and a purpose starts.
pub open spec fn seed_of(path: Seq<char>, purpose: Seq<char>) -> u64 {
    mixed(bytes_hash(encode_utf8(path)) ^ mixed(bytes_hash(encode_utf8(purpose))))
}

/// Where a generator stands after one draw.
pub open spec fn stepped(state: u64) -> u64 {
    plus64(state, 0x9E37_79B9_7F4A_7C15)
}

impl SeededRng {
    /// A generator for the draws about a path, for a purpose: it depends on the
    /// two alone.
    pub fn for_path(path: &LogicalPath, purpose: &str) -> (r: Self)
        ensures
            r.state == seed_of(path@, purpose@),
    {
        let a: u64 = fnv1a64(path.as_str().as_bytes());
        let b: u64 = mix64(fnv1a64(purpose.as_bytes()));
        SeededRng { state: mix64(a ^ b) }
    }

    /// The next draw.
    pub fn next_u64(&mut self) -> (r: u64)
        ensures
            final(self).state == stepped(old(self).state),
            r == mixed(stepped(old(self).state)),
    {
        self.state = self.state.wrapping_add(0x9E37_79B9_7F4A_7C15);
        mix64(self.state)
    }

    /// The next draw, below a bound.
    pub fn below(&mut self, bound: u64) -> (r: u64)
        requires
            bound > 0,
        ensures
            final(self).state == stepped(old(self).state),
            r == mixed(stepped(old(self).state)) % bound,
            r < bound,
    {
        self.next_u64() % bound
    }
}

/// The form of a roof.
#[derive(Debug, Clone, Copy, PartialEq, Eq, Structural)]
pub enum RoofForm {
    /// Flat.
    Flat,
    /// Stepped.
    Stepped,
    /// Pitched.
    Pitched,
}

/// How the landmark layer treats a file.
#[derive(Debug, Clone, Copy, PartialEq, Eq, Structural)]
pub enum FileClass {
    /// A building like any other.
    Ordinary,
    /// An anchor of the map.
    Monument,
    /// Drawn as part of one mass.
    Industrial,
}

impl FileClass {
    /// Is the file drawn as part of one mass?
    pub fn is_massed(self) -> (r: bool)
        ensures
            r == (self == FileClass::Industrial),
    {
        self == FileClass::Industrial
    }
}

/// The roof with a number.
pub open spec fn roof_at(i: u64) -> RoofForm {
    if i == 0 {
        RoofForm::Flat
    } else if i == 1 {
        RoofForm::Stepped
    } else {
        RoofForm::Pitched
    }
}

/// The roof of a file, from its path.
pub open spec fn roof_of(path: Seq<char>) -> RoofForm {
    roof_at(mixed(stepped(seed_of(path, "building.roof"@))) % 3)
}

/// The roof of a file, from its path.
pub fn roof_for(path: &LogicalPath) -> (r: RoofForm)
    ensures
        r == roof_of(path@),
        ({
            let draw = mixed(stepped(seed_of(path@, "building.roof"@)));
            &&& r == RoofForm::Flat <==> draw % 3 == 0
            &&& r == RoofForm::Stepped <==> draw % 3 == 1
            &&& r == RoofForm::Pitched <==> draw % 3 == 2
        }),
{
    let mut rng: SeededRng = SeededRng::for_path(path, "building.roof");
    let i: u64 = rng.below(3);
    if i == 0 {
        RoofForm::Flat
    } else if i == 1 {
        RoofForm::Stepped
    } else {
        RoofForm::Pitched
    }
}

/// The roof of a file; a monument's is always the same.
pub fn roof_for_class(path: &LogicalPath, class: FileClass) -> (r: RoofForm)
    ensures
        r == if class == FileClass::Monument {
            RoofForm::Stepped
        } else {
            roof_of(path@)
        },
        class != FileClass::Monument ==> {
            let draw = mixed(stepped(seed_of(path@, "building.roof"@)));
            &&& r == RoofForm::Flat <==> draw % 3 == 0
            &&& r == RoofForm::Stepped <==> draw % 3 == 1
            &&& r == RoofForm::Pitched <==> draw % 3 == 2
        },
{
    match class {
        FileClass::Monument => RoofForm::Stepped,
        _ => roof_for(path),
    }
}

/// Products and sums within 64 bits leave out multiples of two to the 64.
pub proof fn words_wrap_round(a: u64, b: u64)
    ensures
        (a as int * b as int - times64(a, b)) % 18_446_744_073_709_551_616 == 0,
        (a as int + b as int - plus64(a, b)) % 18_446_744_073_709_551_616 == 0,
        a + b <= u64::MAX ==> plus64(a, b) == a + b,
        a as int * b as int <= u64::MAX ==> times64(a, b) == a as int * b as int,
{
    let m = 18_446_744_073_709_551_616int;
    let (p, s) = (a as int * b as int, a as int + b as int);
    assert(p >= 0) by (nonlinear_arith)
        requires
            p == a as int * b as int,
    ;
    vstd::arithmetic::div_mod::lemma_fundamental_div_mod(p, m);
    vstd::arithmetic::div_mod::lemma_fundamental_div_mod(s, m);
    vstd::arithmetic::div_mod::lemma_mod_multiples_basic(p / m, m);
    vstd::arithmetic::div_mod::lemma_mod_multiples_basic(s / m, m);
    assert(p - times64(a, b) == (p / m) * m) by (nonlinear_arith)
        requires
            p == m * (p / m) + p % m,
            times64(a, b) == p % m,
    ;
    assert(s - plus64(a, b) == (s / m) * m) by (nonlinear_arith)
        requires
            s == m * (s / m) + s % m,
            plus64(a, b) == s % m,
    ;
    if p <= u64::MAX {
        vstd::arithmetic::div_mod::lemma_small_mod(p as nat, m as nat);
    }
    if s <= u64::MAX {
        vstd::arithmetic::div_mod::lemma_small_mod(s as nat, m as nat);
    }
}

/// A word is stirred by two products, each of it and its upper bits, and its upper bits
/// once more.
pub proof fn words_are_stirred_twice(z: u64)
    ensures
        ({
            let a = times64(z ^ (z >> 30u64), 13_787_848_793_156_543_929);
            let b = times64(a ^ (a >> 27u64), 10_723_151_780_598_845_931);
            mixed(z) == b ^ (b >> 31u64)
        }),
{
}

/// The hash of some bytes begins at its offset, takes each byte in and multiplies by its
/// prime, byte by byte.
pub proof fn bytes_are_hashed_in_turn(b: Seq<u8>)
    ensures
        bytes_hash(b) == b.fold_left(
            14_695_981_039_346_656_037u64,
            |h: u64, x: u8| times64(h ^ (x as u64), 1_099_511_628_211),
        ),
    decreases b.len(),
{
    if b.len() > 0 {
        bytes_are_hashed_in_turn(b.drop_last());
    }
}

/// A generator starts from the hashes of its path and of its purpose, the purpose stirred
/// once more than the path, and each draw moves it on by the same odd number.
pub proof fn generators_start_from_path_and_purpose(
    path: Seq<char>,
    purpose: Seq<char>,
    state: u64,
)
    ensures
        seed_of(path, purpose) == mixed(
            bytes_hash(encode_utf8(path)) ^ mixed(bytes_hash(encode_utf8(purpose))),
        ),
        (state + 11_400_714_819_323_198_485 - stepped(state)) % 18_446_744_073_709_551_616 == 0,
{
    words_wrap_round(state, 0x9E37_79B9_7F4A_7C15);
}

/// Every monument has the same roof, whatever its path, and a file of any other class the
/// roof that its path alone gives.
pub proof fn monuments_share_a_roof(
    path: LogicalPath,
    other: LogicalPath,
    class: FileClass,
    a: RoofForm,
    b: RoofForm,
    c: RoofForm,
)
    requires
        roof_for_class.ensures((&path, FileClass::Monument), a),
        roof_for_class.ensures((&other, FileClass::Monument), b),
        roof_for_class.ensures((&path, class), c),
    ensures
        a == RoofForm::Stepped && b == RoofForm::Stepped,
        class != FileClass::Monument ==> c == roof_of(path@),
{
}

} // verus!
