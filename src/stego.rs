use bit_vec::BitVec;
use std::collections::HashMap;
use vstd::prelude::*;

verus! {

broadcast use vstd::std_specs::hash::group_hash_axioms;

/// The Latin homoglyph of a Cyrillic carrier byte (single-byte Cyrillic code page).
pub open spec fn latin_of(b: u8) -> Option<u8> {
    match b {
        0xe0 => Some(0x61u8),
        0xe5 => Some(0x65u8),
        0xee => Some(0x6fu8),
        0xf0 => Some(0x70u8),
        0xf1 => Some(0x63u8),
        0xf3 => Some(0x79u8),
        0xf5 => Some(0x78u8),
        0xc0 => Some(0x41u8),
        0xc2 => Some(0x42u8),
        0xc5 => Some(0x45u8),
        0xca => Some(0x4bu8),
        0xce => Some(0x4fu8),
        0xd0 => Some(0x50u8),
        0xd1 => Some(0x43u8),
        0xd2 => Some(0x54u8),
        0xd5 => Some(0x58u8),
        _ => None,
    }
}

/// The Cyrillic homoglyph of a Latin carrier byte.
pub open spec fn cyrillic_of(b: u8) -> Option<u8> {
    match b {
        0x61 => Some(0xe0u8),
        0x65 => Some(0xe5u8),
        0x6f => Some(0xeeu8),
        0x70 => Some(0xf0u8),
        0x63 => Some(0xf1u8),
        0x79 => Some(0xf3u8),
        0x78 => Some(0xf5u8),
        0x41 => Some(0xc0u8),
        0x42 => Some(0xc2u8),
        0x45 => Some(0xc5u8),
        0x4b => Some(0xcau8),
        0x4f => Some(0xceu8),
        0x50 => Some(0xd0u8),
        0x43 => Some(0xd1u8),
        0x54 => Some(0xd2u8),
        0x58 => Some(0xd5u8),
        _ => None,
    }
}

pub open spec fn is_cyrillic(b: u8) -> bool {
    latin_of(b).is_some()
}

pub open spec fn is_latin(b: u8) -> bool {
    cyrillic_of(b).is_some()
}

/// A carrier byte is either side of a homoglyph pair; it carries one bit.
pub open spec fn is_carrier(b: u8) -> bool {
    is_cyrillic(b) || is_latin(b)
}

/// The two directions of the table are inverse to each other.
pub proof fn lemma_table_bijective()
    ensures
        forall|b: u8| #[trigger] latin_of(b) matches Some(l) ==> cyrillic_of(l) == Some(b),
        forall|b: u8| #[trigger] cyrillic_of(b) matches Some(c) ==> latin_of(c) == Some(b),
        forall|b: u8| !(#[trigger] is_cyrillic(b) && is_latin(b)),
{
}

/// What a lookup in `repl` gives for `byte`.
pub open spec fn lookup(repl: Map<u8, u8>, byte: u8) -> Option<u8> {
    if repl.contains_key(byte) {
        Some(repl[byte])
    } else {
        None
    }
}

/// Finds replacement for the byte in the map.
pub fn replacement(repl: &HashMap<u8, u8>, byte: u8) -> (r: Option<u8>)
    ensures
        r == lookup(repl@, byte),
{
    match repl.get(&byte) {
        Some(v) => Some(*v),
        None => None,
    }
}

/// The substitution table in both directions, as two maps that are
/// kept inverse to each other.
pub struct HomoglyphTable {
    ru_to_en: HashMap<u8, u8>,
    en_to_ru: HashMap<u8, u8>,
}

impl HomoglyphTable {
    pub closed spec fn wf(&self) -> bool {
        &&& forall|b: u8| #[trigger] lookup(self.ru_to_en@, b) == latin_of(b)
        &&& forall|b: u8| #[trigger] lookup(self.en_to_ru@, b) == cyrillic_of(b)
    }

    proof fn lemma_lookups(&self, b: u8)
        requires
            self.wf(),
        ensures
            lookup(self.ru_to_en@, b) == latin_of(b),
            lookup(self.en_to_ru@, b) == cyrillic_of(b),
    {
    }

    /// Builds the fixed table of sixteen Cyrillic/Latin pairs.
    pub fn new() -> (r: Self)
        ensures
            r.wf(),
    {
        let mut ru_to_en: HashMap<u8, u8> = HashMap::new();
        let mut en_to_ru: HashMap<u8, u8> = HashMap::new();
        let cyr: [u8; 16] = [0xe0, 0xe5, 0xee, 0xf0, 0xf1, 0xf3, 0xf5, 0xc0, 0xc2, 0xc5, 0xca, 0xce, 0xd0, 0xd1, 0xd2, 0xd5];
        let lat: [u8; 16] = [0x61, 0x65, 0x6f, 0x70, 0x63, 0x79, 0x78, 0x41, 0x42, 0x45, 0x4b, 0x4f, 0x50, 0x43, 0x54, 0x58];
        let mut i: usize = 0;
        while i < 16
            invariant
                0 <= i <= 16,
                cyr@ =~= seq![0xe0u8, 0xe5, 0xee, 0xf0, 0xf1, 0xf3, 0xf5, 0xc0, 0xc2, 0xc5, 0xca, 0xce, 0xd0, 0xd1, 0xd2, 0xd5],
                lat@ =~= seq![0x61u8, 0x65, 0x6f, 0x70, 0x63, 0x79, 0x78, 0x41, 0x42, 0x45, 0x4b, 0x4f, 0x50, 0x43, 0x54, 0x58],
                forall|b: u8| #[trigger] ru_to_en@.contains_key(b) <==> exists|j: int| 0 <= j < i && cyr@[j] == b,
                forall|j: int| 0 <= j < i ==> ru_to_en@[#[trigger] cyr@[j]] == lat@[j],
                forall|b: u8| #[trigger] en_to_ru@.contains_key(b) <==> exists|j: int| 0 <= j < i && lat@[j] == b,
                forall|j: int| 0 <= j < i ==> en_to_ru@[#[trigger] lat@[j]] == cyr@[j],
            decreases 16 - i,
        {
            ru_to_en.insert(cyr[i], lat[i]);
            en_to_ru.insert(lat[i], cyr[i]);
            i = i + 1;
        }
        let r = HomoglyphTable { ru_to_en, en_to_ru };
        assert forall|b: u8| #[trigger] lookup(r.ru_to_en@, b) == latin_of(b) by {
            if is_cyrillic(b) {
                assert(exists|j: int| 0 <= j < 16 && cyr@[j] == b);
            }
        }
        assert forall|b: u8| #[trigger] lookup(r.en_to_ru@, b) == cyrillic_of(b) by {
            if is_latin(b) {
                assert(exists|j: int| 0 <= j < 16 && lat@[j] == b);
            }
        }
        r
    }
}


// ---- bits ----

/// Bit `k` of byte `b`, counting from the most significant bit (`k == 0`).
pub open spec fn bit_at(b: u8, k: int) -> bool {
    (b >> ((7 - k) as u8)) & 1u8 == 1u8
}

/// The bits of a byte sequence, most significant bit of each byte first.
pub open spec fn msb_bits(s: Seq<u8>) -> Seq<bool> {
    Seq::new(8 * s.len(), |i: int| bit_at(s[i / 8], i % 8))
}

pub open spec fn bit_value(x: bool) -> u8 {
    if x {
        1u8
    } else {
        0u8
    }
}

/// The byte whose bits, most significant first, are `s[0..8]`.
pub open spec fn pack8(s: Seq<bool>) -> u8 {
    (bit_value(s[0]) << 7u8) | (bit_value(s[1]) << 6u8) | (bit_value(s[2]) << 5u8) | (
    bit_value(s[3]) << 4u8) | (bit_value(s[4]) << 3u8) | (bit_value(s[5]) << 2u8) | (bit_value(
        s[6],
    ) << 1u8) | bit_value(s[7])
}

/// The whole bytes that a bit sequence holds; trailing bits that do not
/// fill a byte are left out.
pub open spec fn packed(bits: Seq<bool>) -> Seq<u8> {
    Seq::new(bits.len() / 8, |j: int| pack8(bits.subrange(8 * j, 8 * j + 8)))
}

/// The bits of the message followed by the eight zero bits of the terminator.
pub open spec fn message_bits(msg: Seq<u8>) -> Seq<bool> {
    Seq::new(8 * (msg.len() + 1), |i: int| i < 8 * msg.len() && bit_at(msg[i / 8], i % 8))
}

/// The bits that the carrier bytes of `s` hold, in order: a Latin form
/// holds 1, a Cyrillic form 0; other bytes hold none.
pub open spec fn carrier_bits(s: Seq<u8>) -> Seq<bool>
    decreases s.len(),
{
    if s.len() == 0 {
        Seq::empty()
    } else {
        let p = carrier_bits(s.drop_last());
        if is_carrier(s.last()) {
            p.push(is_latin(s.last()))
        } else {
            p
        }
    }
}

/// A carrier byte set to the form that holds `bit`.
pub open spec fn with_bit(c: u8, bit: bool) -> u8 {
    if bit {
        if is_latin(c) {
            c
        } else {
            latin_of(c).unwrap()
        }
    } else {
        if is_cyrillic(c) {
            c
        } else {
            cyrillic_of(c).unwrap()
        }
    }
}

/// The container with the message hidden in it: the carrier of rank `k`
/// (the `k`-th carrier byte) takes bit `k` of the message bits while there
/// are any; every other byte is copied.
pub open spec fn encoded(cont: Seq<u8>, msg: Seq<u8>) -> Seq<u8> {
    Seq::new(
        cont.len(),
        |i: int|
            {
                let k = carrier_bits(cont.take(i)).len() as int;
                if is_carrier(cont[i]) && k < message_bits(msg).len() {
                    with_bit(cont[i], message_bits(msg)[k])
                } else {
                    cont[i]
                }
            },
    )
}

/// The bytes before the first zero byte, or all of them if none is zero.
pub open spec fn until_zero(b: Seq<u8>) -> Seq<u8>
    decreases b.len(),
{
    if b.len() == 0 || b[0] == 0 {
        Seq::empty()
    } else {
        seq![b[0]] + until_zero(b.drop_first())
    }
}

/// The message that a text holds: its carrier bits read as bytes, up to the
/// terminator (or to the last whole byte where there is none).
pub open spec fn decoded(text: Seq<u8>) -> Seq<u8> {
    until_zero(packed(carrier_bits(text)))
}

// ---- bit_vec ----

#[verifier::external_type_specification]
#[verifier::external_body]
#[verifier::reject_recursive_types(B)]
pub struct ExBitVec<B>(BitVec<B>);

/// The bits that a `BitVec` holds, in order.
pub uninterp spec fn bits_of(v: BitVec) -> Seq<bool>;

/// Relies on `BitVec::from_bytes`: eight bits per byte, most significant
/// first; it panics when the bit count overflows `usize`.
#[verifier::external_body]
fn bits_from_bytes(bytes: &[u8]) -> (r: BitVec)
    requires
        bytes@.len() * 8 <= usize::MAX,
    ensures
        bits_of(r) == msb_bits(bytes@),
{
    BitVec::from_bytes(bytes)
}

/// Relies on `BitVec::len`: the number of bits held.
#[verifier::external_body]
fn bit_count(v: &BitVec) -> (r: usize)
    ensures
        r == bits_of(*v).len(),
{
    v.len()
}

/// Relies on `BitVec::get`: the bit at `i`, or `None` past the end.
#[verifier::external_body]
fn bit_get(v: &BitVec, i: usize) -> (r: Option<bool>)
    ensures
        r == (if i < bits_of(*v).len() {
            Some(bits_of(*v)[i as int])
        } else {
            None
        }),
{
    v.get(i)
}

/// Relies on `BitVec::new`: an empty bit vector.
#[verifier::external_body]
fn bits_empty() -> (r: BitVec)
    ensures
        bits_of(r) == Seq::<bool>::empty(),
{
    BitVec::new()
}

/// Relies on `BitVec::push`: appends one bit; it panics when the count
/// overflows `usize`.
#[verifier::external_body]
fn bits_push(v: &mut BitVec, bit: bool)
    requires
        bits_of(*old(v)).len() < usize::MAX,
    ensures
        bits_of(*final(v)) == bits_of(*old(v)).push(bit),
{
    v.push(bit)
}

/// Relies on `BitVec::to_bytes`: eight bits per byte, most significant
/// first, a last partial byte padded with zero bits.
#[verifier::external_body]
fn bits_to_bytes(v: &BitVec) -> (r: Vec<u8>)
    ensures
        r@.len() == (bits_of(*v).len() + 7) / 8,
        forall|j: int|
            0 <= j < bits_of(*v).len() / 8 ==> #[trigger] r@[j] == pack8(
                bits_of(*v).subrange(8 * j, 8 * j + 8),
            ),
{
    v.to_bytes()
}

// ---- codec ----

/// Hides `msg` bit by bit in the carrier bytes of `cont`, followed by a
/// zero terminator byte. Where `cont` has too few carriers the message is
/// cut short without notice.
pub fn hide_message(table: &HomoglyphTable, cont: &[u8], msg: &[u8]) -> (r: Vec<u8>)
    requires
        table.wf(),
        msg@.len() * 8 + 8 <= usize::MAX,
    ensures
        r@ == encoded(cont@, msg@),
{
    let bits = bits_from_bytes(msg);
    let n_msg = bit_count(&bits);
    let n_all = n_msg + 8;
    let ghost mbits = message_bits(msg@);
    let mut res: Vec<u8> = Vec::new();
    let mut k: usize = 0;
    let mut i: usize = 0;
    while i < cont.len()
        invariant
            table.wf(),
            0 <= i <= cont@.len(),
            n_msg == 8 * msg@.len(),
            n_all == mbits.len(),
            mbits == message_bits(msg@),
            bits_of(bits) == msb_bits(msg@),
            k == carrier_bits(cont@.take(i as int)).len(),
            k <= i,
            res@ == encoded(cont@, msg@).take(i as int),
        decreases cont@.len() - i,
    {
        let c = cont[i];
        assert(cont@.take(i + 1).drop_last() =~= cont@.take(i as int));
        let lat = replacement(&table.ru_to_en, c);
        let cyr = replacement(&table.en_to_ru, c);
        proof {
            table.lemma_lookups(c);
        }
        let carrier = lat.is_some() || cyr.is_some();
        let out = if carrier && k < n_all {
            let bit = match bit_get(&bits, k) {
                Some(b) => b,
                None => false,
            };
            assert(bit == mbits[k as int]);
            if bit {
                match lat {
                    Some(l) => l,
                    None => c,
                }
            } else {
                match cyr {
                    Some(r) => r,
                    None => c,
                }
            }
        } else {
            c
        };
        res.push(out);
        if carrier {
            k = k + 1;
        }
        i = i + 1;
        assert(res@ =~= encoded(cont@, msg@).take(i as int));
    }
    assert(encoded(cont@, msg@).take(i as int) =~= encoded(cont@, msg@));
    res
}


proof fn lemma_pack8_zero(s: Seq<bool>)
    requires
        s.len() >= 8,
    ensures
        (pack8(s) == 0) <==> (forall|k: int| 0 <= k < 8 ==> !s[k]),
{
    let x0 = bit_value(s[0]);
    let x1 = bit_value(s[1]);
    let x2 = bit_value(s[2]);
    let x3 = bit_value(s[3]);
    let x4 = bit_value(s[4]);
    let x5 = bit_value(s[5]);
    let x6 = bit_value(s[6]);
    let x7 = bit_value(s[7]);
    assert(x0 <= 1 && x1 <= 1 && x2 <= 1 && x3 <= 1 && x4 <= 1 && x5 <= 1 && x6 <= 1 && x7 <= 1
        ==> (((x0 << 7u8) | (x1 << 6u8) | (x2 << 5u8) | (x3 << 4u8) | (x4 << 3u8) | (x5 << 2u8) | (
    x6 << 1u8) | x7) == 0 <==> (x0 == 0 && x1 == 0 && x2 == 0 && x3 == 0 && x4 == 0 && x5 == 0
        && x6 == 0 && x7 == 0))) by (bit_vector);
    if pack8(s) != 0 {
        assert(!(forall|k: int| 0 <= k < 8 ==> !s[k])) by {
            if forall|k: int| 0 <= k < 8 ==> !s[k] {
                assert(!s[0] && !s[1] && !s[2] && !s[3] && !s[4] && !s[5] && !s[6] && !s[7]);
            }
        }
    }
}

/// The eight bits of a byte, packed again, give the byte.
proof fn lemma_pack8_bits(b: u8, s: Seq<bool>)
    requires
        s.len() >= 8,
        forall|k: int| 0 <= k < 8 ==> s[k] == bit_at(b, k),
    ensures
        pack8(s) == b,
{
    assert(s[0] == bit_at(b, 0) && s[1] == bit_at(b, 1) && s[2] == bit_at(b, 2) && s[3] == bit_at(
        b,
        3,
    ) && s[4] == bit_at(b, 4) && s[5] == bit_at(b, 5) && s[6] == bit_at(b, 6) && s[7] == bit_at(
        b,
        7,
    ));
    assert(bit_value(s[0]) == (b >> 7u8) & 1u8) by {
        assert((b >> 7u8) & 1u8 == 0u8 || (b >> 7u8) & 1u8 == 1u8) by (bit_vector);
    }
    assert(bit_value(s[1]) == (b >> 6u8) & 1u8) by {
        assert((b >> 6u8) & 1u8 == 0u8 || (b >> 6u8) & 1u8 == 1u8) by (bit_vector);
    }
    assert(bit_value(s[2]) == (b >> 5u8) & 1u8) by {
        assert((b >> 5u8) & 1u8 == 0u8 || (b >> 5u8) & 1u8 == 1u8) by (bit_vector);
    }
    assert(bit_value(s[3]) == (b >> 4u8) & 1u8) by {
        assert((b >> 4u8) & 1u8 == 0u8 || (b >> 4u8) & 1u8 == 1u8) by (bit_vector);
    }
    assert(bit_value(s[4]) == (b >> 3u8) & 1u8) by {
        assert((b >> 3u8) & 1u8 == 0u8 || (b >> 3u8) & 1u8 == 1u8) by (bit_vector);
    }
    assert(bit_value(s[5]) == (b >> 2u8) & 1u8) by {
        assert((b >> 2u8) & 1u8 == 0u8 || (b >> 2u8) & 1u8 == 1u8) by (bit_vector);
    }
    assert(bit_value(s[6]) == (b >> 1u8) & 1u8) by {
        assert((b >> 1u8) & 1u8 == 0u8 || (b >> 1u8) & 1u8 == 1u8) by (bit_vector);
    }
    assert(bit_value(s[7]) == (b >> 0u8) & 1u8) by {
        assert((b >> 0u8) & 1u8 == 0u8 || (b >> 0u8) & 1u8 == 1u8) by (bit_vector);
    }
    assert(b == ((((b >> 7u8) & 1u8) << 7u8) | (((b >> 6u8) & 1u8) << 6u8) | (((b >> 5u8) & 1u8)
        << 5u8) | (((b >> 4u8) & 1u8) << 4u8) | (((b >> 3u8) & 1u8) << 3u8) | (((b >> 2u8) & 1u8)
        << 2u8) | (((b >> 1u8) & 1u8) << 1u8) | ((b >> 0u8) & 1u8))) by (bit_vector);
}

/// The carrier bits of a prefix are a prefix of the carrier bits.
proof fn lemma_carrier_prefix(s: Seq<u8>, i: int)
    requires
        0 <= i <= s.len(),
    ensures
        carrier_bits(s.take(i)).len() <= carrier_bits(s).len(),
        carrier_bits(s.take(i)) =~= carrier_bits(s).take(carrier_bits(s.take(i)).len() as int),
    decreases s.len(),
{
    if i == s.len() {
        assert(s.take(i) =~= s);
    } else {
        assert(s.drop_last().take(i) =~= s.take(i));
        lemma_carrier_prefix(s.drop_last(), i);
    }
}

/// Whole bytes of a prefix of bits are a prefix of the whole bytes.
proof fn lemma_packed_prefix(a: Seq<bool>, b: Seq<bool>)
    requires
        a.len() <= b.len(),
        a =~= b.take(a.len() as int),
    ensures
        packed(a).len() <= packed(b).len(),
        packed(a) =~= packed(b).take(packed(a).len() as int),
{
    assert(a.len() / 8 <= b.len() / 8) by (nonlinear_arith)
        requires
            a.len() <= b.len(),
    ;
    assert forall|j: int| 0 <= j < a.len() / 8 implies #[trigger] packed(a)[j] == packed(b)[j] by {
        assert(8 * j + 8 <= a.len()) by (nonlinear_arith)
            requires
                0 <= j < a.len() / 8,
        ;
        assert(a.subrange(8 * j, 8 * j + 8) =~= b.subrange(8 * j, 8 * j + 8));
    }
}

proof fn lemma_until_zero(b: Seq<u8>, n: int)
    requires
        0 <= n <= b.len(),
        forall|j: int| 0 <= j < n ==> b[j] != 0,
        n == b.len() || b[n] == 0,
    ensures
        until_zero(b) =~= b.take(n),
    decreases n,
{
    if n > 0 {
        lemma_until_zero(b.drop_first(), n - 1);
        assert(b.take(n) =~= seq![b[0]] + b.drop_first().take(n - 1));
    }
}

/// A text without carrier bytes holds no bits.
proof fn lemma_no_carriers(s: Seq<u8>)
    requires
        forall|i: int| 0 <= i < s.len() ==> !is_carrier(#[trigger] s[i]),
    ensures
        carrier_bits(s) =~= Seq::<bool>::empty(),
    decreases s.len(),
{
    if s.len() > 0 {
        lemma_no_carriers(s.drop_last());
    }
}

/// Extracts the hidden message from the carrier bytes of `text`: the bytes
/// up to the zero terminator, or all whole bytes where no terminator comes.
pub fn unhide(table: &HomoglyphTable, text: &[u8]) -> (r: Vec<u8>)
    requires
        table.wf(),
    ensures
        r@ == decoded(text@),
{
    let mut bits = bits_empty();
    let mut full: usize = 0;
    let mut cur_zero = true;
    let mut done = false;
    let mut i: usize = 0;
    while i < text.len() && !done
        invariant
            table.wf(),
            0 <= i <= text@.len(),
            bits_of(bits) == carrier_bits(text@.take(i as int)),
            bits_of(bits).len() <= i,
            forall|j: int| 0 <= j < full ==> packed(bits_of(bits))[j] != 0,
            !done ==> full == bits_of(bits).len() / 8,
            !done ==> (cur_zero <==> forall|m: int|
                8 * full <= m < bits_of(bits).len() ==> !bits_of(bits)[m]),
            done ==> 8 * full + 8 == bits_of(bits).len() && packed(bits_of(bits))[full as int] == 0,
        decreases text@.len() - i,
    {
        let c = text[i];
        assert(text@.take(i + 1).drop_last() =~= text@.take(i as int));
        let ghost prev = bits_of(bits);
        proof {
            table.lemma_lookups(c);
        }
        let bit: Option<bool> = if replacement(&table.ru_to_en, c).is_some() {
            Some(false)
        } else if replacement(&table.en_to_ru, c).is_some() {
            Some(true)
        } else {
            None
        };
        if let Some(b) = bit {
            bits_push(&mut bits, b);
            let n = bit_count(&bits);
            if b {
                cur_zero = false;
            }
            let ghost now = bits_of(bits);
            assert(now[now.len() - 1] == b);
            assert(forall|m: int| 0 <= m < prev.len() ==> #[trigger] now[m] == prev[m]);
            assert(prev =~= now.take(prev.len() as int));
            proof {
                lemma_packed_prefix(prev, now);
                assert forall|j: int| 0 <= j < full implies #[trigger] packed(now)[j] != 0 by {
                    assert(packed(now)[j] == packed(prev)[j]);
                }
            }
            assert(cur_zero <==> forall|m: int| 8 * full <= m < now.len() ==> !now[m]) by {
                if !cur_zero && (forall|m: int| 8 * full <= m < now.len() ==> !now[m]) {
                    if b {
                        assert(!now[now.len() - 1]);
                    } else {
                        assert(!(forall|m: int| 8 * full <= m < prev.len() ==> !prev[m]));
                        let m = choose|m: int| 8 * full <= m < prev.len() && prev[m];
                        assert(!now[m]);
                    }
                }
            }
            if n % 8 == 0 {
                assert(bits_of(bits).subrange(8 * full, 8 * full + 8)[0] == bits_of(bits)[8 * full]);
                proof {
                    lemma_pack8_zero(bits_of(bits).subrange(8 * full, 8 * full + 8));
                }
                assert(cur_zero <==> packed(bits_of(bits))[full as int] == 0);
                if cur_zero {
                    done = true;
                } else {
                    full = full + 1;
                    cur_zero = true;
                }
            }
        }
        i = i + 1;
    }
    proof {
        if !done {
            assert(text@.take(i as int) =~= text@);
        }
        lemma_carrier_prefix(text@, i as int);
        lemma_packed_prefix(bits_of(bits), carrier_bits(text@));
        let all = packed(carrier_bits(text@));
        assert forall|j: int| 0 <= j < full implies #[trigger] all[j] != 0 by {
            assert(all[j] == packed(bits_of(bits))[j]);
        }
        if done {
            assert(all[full as int] == packed(bits_of(bits))[full as int]);
        }
        lemma_until_zero(all, full as int);
    }
    let bytes = bits_to_bytes(&bits);
    let mut res: Vec<u8> = Vec::new();
    let mut j: usize = 0;
    while j < full
        invariant
            0 <= j <= full,
            8 * full <= bits_of(bits).len(),
            bytes@.len() == (bits_of(bits).len() + 7) / 8,
            forall|t: int|
                0 <= t < bits_of(bits).len() / 8 ==> #[trigger] bytes@[t] == pack8(
                    bits_of(bits).subrange(8 * t, 8 * t + 8),
                ),
            res@ =~= packed(bits_of(bits)).take(j as int),
        decreases full - j,
    {
        res.push(bytes[j]);
        j = j + 1;
    }
    res
}


// ---- laws ----

proof fn lemma_with_bit(c: u8, bit: bool)
    requires
        is_carrier(c),
    ensures
        is_carrier(with_bit(c, bit)),
        is_latin(with_bit(c, bit)) == bit,
        is_cyrillic(with_bit(c, bit)) == !bit,
{
}

/// The carrier bits of an encoded prefix are the message bits, as far as
/// both reach.
proof fn lemma_encoded_bits(cont: Seq<u8>, msg: Seq<u8>, i: int)
    requires
        0 <= i <= cont.len(),
    ensures
        carrier_bits(encoded(cont, msg).take(i)).len() == carrier_bits(cont.take(i)).len(),
        forall|k: int|
            0 <= k < carrier_bits(cont.take(i)).len() && k < message_bits(msg).len()
                ==> #[trigger] carrier_bits(encoded(cont, msg).take(i))[k] == message_bits(msg)[k],
    decreases i,
{
    if i > 0 {
        let out = encoded(cont, msg);
        lemma_encoded_bits(cont, msg, i - 1);
        assert(out.take(i).drop_last() =~= out.take(i - 1));
        assert(cont.take(i).drop_last() =~= cont.take(i - 1));
        let c = cont[i - 1];
        if is_carrier(c) {
            let k = carrier_bits(cont.take(i - 1)).len() as int;
            if k < message_bits(msg).len() {
                lemma_with_bit(c, message_bits(msg)[k]);
            }
        }
    }
}

/// Decoding an encoded container gives back the message, where the
/// container has a carrier for every message bit and for the terminator,
/// and the message holds no zero byte (which would read as the terminator).
pub proof fn lemma_round_trip(cont: Seq<u8>, msg: Seq<u8>)
    requires
        carrier_bits(cont).len() >= 8 * (msg.len() + 1),
        forall|j: int| 0 <= j < msg.len() ==> msg[j] != 0,
    ensures
        decoded(encoded(cont, msg)) == msg,
{
    let out = encoded(cont, msg);
    let mbits = message_bits(msg);
    lemma_encoded_bits(cont, msg, cont.len() as int);
    assert(out.take(cont.len() as int) =~= out);
    assert(cont.take(cont.len() as int) =~= cont);
    let bits = carrier_bits(out);
    let all = packed(bits);
    let n = msg.len() as int;
    assert(all.len() >= n + 1);
    assert forall|j: int| 0 <= j < n implies #[trigger] all[j] == msg[j] by {
        let sub = bits.subrange(8 * j, 8 * j + 8);
        assert forall|k: int| 0 <= k < 8 implies sub[k] == bit_at(msg[j], k) by {
            assert((8 * j + k) / 8 == j && (8 * j + k) % 8 == k);
            assert(sub[k] == mbits[8 * j + k]);
        }
        lemma_pack8_bits(msg[j], sub);
    }
    let last = bits.subrange(8 * n, 8 * n + 8);
    assert forall|k: int| 0 <= k < 8 implies !last[k] by {
        assert(last[k] == mbits[8 * n + k]);
    }
    lemma_pack8_zero(last);
    lemma_until_zero(all, n);
    assert(all.take(n) =~= msg);
}

/// Hiding the empty message puts only the terminator in: the first eight
/// carriers (the very first one among them) take their Cyrillic form and
/// every other byte is copied.
pub proof fn lemma_empty_message(cont: Seq<u8>)
    ensures
        encoded(cont, Seq::empty()).len() == cont.len(),
        forall|i: int|
            0 <= i < cont.len() ==> #[trigger] encoded(cont, Seq::empty())[i] == if is_carrier(
                cont[i],
            ) && carrier_bits(cont.take(i)).len() < 8 {
                with_bit(cont[i], false)
            } else {
                cont[i]
            },
        forall|i: int|
            0 <= i < cont.len() && is_carrier(cont[i]) && carrier_bits(cont.take(i)).len() == 0
                ==> is_cyrillic(#[trigger] encoded(cont, Seq::empty())[i]),
{
    assert forall|i: int|
        0 <= i < cont.len() && is_carrier(cont[i]) implies is_cyrillic(
        #[trigger] encoded(cont, Seq::empty())[i],
    ) || carrier_bits(cont.take(i)).len() >= 8 by {
        lemma_with_bit(cont[i], false);
    }
}

/// A container without carrier bytes comes back unchanged.
pub proof fn lemma_no_carrier_container(cont: Seq<u8>, msg: Seq<u8>)
    requires
        forall|i: int| 0 <= i < cont.len() ==> !is_carrier(#[trigger] cont[i]),
    ensures
        encoded(cont, msg) == cont,
{
    assert(encoded(cont, msg) =~= cont);
}

/// A text without carrier bytes holds the empty message.
pub proof fn lemma_no_carrier_text(text: Seq<u8>)
    requires
        forall|i: int| 0 <= i < text.len() ==> !is_carrier(#[trigger] text[i]),
    ensures
        decoded(text) == Seq::<u8>::empty(),
{
    lemma_no_carriers(text);
    assert(until_zero(packed(carrier_bits(text))) =~= Seq::<u8>::empty());
}

} // verus!
