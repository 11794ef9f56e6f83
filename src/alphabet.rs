//! Residue codes, packed word keys and the substitution matrix.
use vstd::prelude::*;
use vstd::arithmetic::div_mod::lemma_div_denominator;

verus! {

/// Code of a byte that is not one of the twenty standard residues.
pub const INVALID_AA: u8 = 255;

/// Longest word that fits a 64-bit key at five bits per residue.
pub const MAX_WORD: usize = 12;

/// The residue code of a byte: `0..=19` for the twenty standard amino acids
/// (upper or lower case, in the order `ACDEFGHIKLMNPQRSTVWY`), `INVALID_AA` otherwise.
pub open spec fn aa_code(b: u8) -> u8 {
    let u = if 97 <= b && b <= 122 { (b - 32) as u8 } else { b };
    if u == 65 { 0 }
    else if u == 67 { 1 }
    else if u == 68 { 2 }
    else if u == 69 { 3 }
    else if u == 70 { 4 }
    else if u == 71 { 5 }
    else if u == 72 { 6 }
    else if u == 73 { 7 }
    else if u == 75 { 8 }
    else if u == 76 { 9 }
    else if u == 77 { 10 }
    else if u == 78 { 11 }
    else if u == 80 { 12 }
    else if u == 81 { 13 }
    else if u == 82 { 14 }
    else if u == 83 { 15 }
    else if u == 84 { 16 }
    else if u == 86 { 17 }
    else if u == 87 { 18 }
    else if u == 89 { 19 }
    else { INVALID_AA }
}

/// The upper-case letter of a residue code, `?` for a value outside `0..=19`.
pub open spec fn aa_letter(v: nat) -> u8 {
    if v == 0 { 65 }
    else if v == 1 { 67 }
    else if v == 2 { 68 }
    else if v == 3 { 69 }
    else if v == 4 { 70 }
    else if v == 5 { 71 }
    else if v == 6 { 72 }
    else if v == 7 { 73 }
    else if v == 8 { 75 }
    else if v == 9 { 76 }
    else if v == 10 { 77 }
    else if v == 11 { 78 }
    else if v == 12 { 80 }
    else if v == 13 { 81 }
    else if v == 14 { 82 }
    else if v == 15 { 83 }
    else if v == 16 { 84 }
    else if v == 17 { 86 }
    else if v == 18 { 87 }
    else if v == 19 { 89 }
    else { 63 }
}

/// Upper-case residue letters: the alphabet the codec round-trips.
pub open spec fn is_standard_residue(b: u8) -> bool {
    aa_code(b) != INVALID_AA && !(97 <= b && b <= 122)
}

/// Every byte of `s` has a residue code.
pub open spec fn all_valid(s: Seq<u8>) -> bool {
    forall|i: int| 0 <= i < s.len() ==> aa_code(#[trigger] s[i]) != INVALID_AA
}

pub open spec fn pow32(n: nat) -> nat
    decreases n,
{
    if n == 0 { 1 } else { 32 * pow32((n - 1) as nat) }
}

/// The residue codes of `s` read as base-32 digits, first residue most significant.
pub open spec fn pack(s: Seq<u8>) -> nat
    decreases s.len(),
{
    if s.len() == 0 { 0 } else { pack(s.drop_last()) * 32 + aa_code(s.last()) as nat }
}

/// The key of a contiguous word: absent when it is longer than twelve residues
/// or holds a byte without a residue code.
pub open spec fn kmer_key(s: Seq<u8>) -> Option<u64> {
    if s.len() <= MAX_WORD && all_valid(s) { Some(pack(s) as u64) } else { None }
}

/// The bytes of `s` at the positions where `mask` is set, in order.
pub open spec fn selected(s: Seq<u8>, mask: Seq<bool>) -> Seq<u8>
    decreases mask.len(),
{
    if mask.len() == 0 {
        Seq::empty()
    } else if mask.last() {
        selected(s, mask.drop_last()).push(s[mask.len() - 1])
    } else {
        selected(s, mask.drop_last())
    }
}

/// Number of set positions of a mask.
pub open spec fn weight(mask: Seq<bool>) -> nat
    decreases mask.len(),
{
    if mask.len() == 0 { 0 } else { weight(mask.drop_last()) + if mask.last() { 1nat } else { 0nat } }
}

/// The key of a spaced word: the contiguous key of its selected residues.
pub open spec fn spaced_key(s: Seq<u8>, mask: Seq<bool>) -> Option<u64> {
    kmer_key(selected(s, mask))
}

/// The mask of a contiguous word of length `k`.
pub open spec fn ones(k: nat) -> Seq<bool> {
    Seq::new(k, |i: int| true)
}

/// Base-32 digit `j` of `e`, counted from the least significant.
pub open spec fn digit(e: nat, j: nat) -> nat {
    (e / pow32(j)) % 32
}

/// The letters that `decode_kmer(e, k)` spells.
pub open spec fn decoded(e: nat, k: nat) -> Seq<char> {
    Seq::new(k, |i: int| aa_letter(digit(e, (k - 1 - i) as nat)) as char)
}

pub proof fn lemma_pow32_pos(n: nat)
    ensures
        pow32(n) >= 1,
    decreases n,
{
    if n > 0 {
        lemma_pow32_pos((n - 1) as nat);
    }
}

pub proof fn lemma_pow32_mono(a: nat, b: nat)
    requires
        a <= b,
    ensures
        pow32(a) <= pow32(b),
    decreases b,
{
    if a < b {
        lemma_pow32_mono(a, (b - 1) as nat);
        lemma_pow32_pos((b - 1) as nat);
    }
}

pub proof fn lemma_pack_bound(s: Seq<u8>)
    requires
        all_valid(s),
    ensures
        pack(s) < pow32(s.len()),
    decreases s.len(),
{
    if s.len() > 0 {
        let p = s.drop_last();
        assert(all_valid(p)) by {
            assert forall|i: int| 0 <= i < p.len() implies aa_code(#[trigger] p[i]) != INVALID_AA by {
                assert(p[i] == s[i]);
            }
        }
        lemma_pack_bound(p);
        assert(aa_code(s[s.len() - 1]) != INVALID_AA);
        assert(aa_code(s.last()) < 32);
        assert(pack(s) == pack(p) * 32 + aa_code(s.last()) as nat);
        assert(pack(p) + 1 <= pow32(p.len()));
        assert((pack(p) + 1) * 32 <= pow32(p.len()) * 32) by (nonlinear_arith)
            requires
                pack(p) + 1 <= pow32(p.len()),
        ;
    }
}

proof fn lemma_pow32_12()
    ensures
        pow32(12) == 0x1000000000000000nat,
{
    reveal_with_fuel(pow32, 13);
}

/// The residue code of a byte.
pub fn aa_code_of(b: u8) -> (r: u8)
    ensures
        r == aa_code(b),
{
    let u: u8 = if 97 <= b && b <= 122 { b - 32 } else { b };
    match u {
        65 => 0,
        67 => 1,
        68 => 2,
        69 => 3,
        70 => 4,
        71 => 5,
        72 => 6,
        73 => 7,
        75 => 8,
        76 => 9,
        77 => 10,
        78 => 11,
        80 => 12,
        81 => 13,
        82 => 14,
        83 => 15,
        84 => 16,
        86 => 17,
        87 => 18,
        89 => 19,
        _ => INVALID_AA,
    }
}

proof fn lemma_shift_or(e: u64, v: u64)
    requires
        e < 0x0800000000000000u64,
        v < 32,
    ensures
        (e << 5u64) | v == e * 32 + v,
{
    assert((e << 5u64) | v == e * 32 + v) by (bit_vector)
        requires
            e < 0x0800000000000000u64,
            v < 32,
    ;
}

/// Packs a contiguous word into its key.
pub fn encode_kmer(seq: &[u8]) -> (r: Option<u64>)
    ensures
        r == kmer_key(seq@),
{
    if seq.len() > MAX_WORD {
        return None;
    }
    let mut encoded: u64 = 0;
    let mut i: usize = 0;
    while i < seq.len()
        invariant
            i <= seq@.len() <= MAX_WORD,
            all_valid(seq@.subrange(0, i as int)),
            encoded as nat == pack(seq@.subrange(0, i as int)),
        decreases seq@.len() - i,
    {
        let val = aa_code_of(seq[i]);
        let ghost pre = seq@.subrange(0, i as int);
        let ghost next = seq@.subrange(0, i + 1);
        assert(next.drop_last() =~= pre);
        if val == INVALID_AA {
            assert(!all_valid(seq@)) by {
                assert(aa_code(seq@[i as int]) == INVALID_AA);
            }
            return None;
        }
        proof {
            lemma_pack_bound(pre);
            lemma_pow32_mono(pre.len(), 11);
            lemma_pow32_12();
            assert(pow32(12) == 32 * pow32(11));
            lemma_shift_or(encoded, val as u64);
            assert(all_valid(next)) by {
                assert forall|j: int| 0 <= j < next.len() implies aa_code(#[trigger] next[j]) != INVALID_AA by {
                    if j < i {
                        assert(next[j] == pre[j]);
                    }
                }
            }
        }
        encoded = (encoded << 5) | (val as u64);
        i += 1;
    }
    assert(seq@.subrange(0, seq@.len() as int) =~= seq@);
    Some(encoded)
}

pub proof fn lemma_selected_len(s: Seq<u8>, mask: Seq<bool>)
    ensures
        selected(s, mask).len() == weight(mask),
    decreases mask.len(),
{
    if mask.len() > 0 {
        lemma_selected_len(s, mask.drop_last());
    }
}

pub proof fn lemma_weight_prefix(mask: Seq<bool>, a: int)
    requires
        0 <= a <= mask.len(),
    ensures
        weight(mask.subrange(0, a)) <= weight(mask),
    decreases mask.len(),
{
    if a < mask.len() {
        assert(mask.drop_last().subrange(0, a) =~= mask.subrange(0, a));
        lemma_weight_prefix(mask.drop_last(), a);
    } else {
        assert(mask.subrange(0, a) =~= mask);
    }
}

proof fn lemma_valid_prefix(s: Seq<u8>, n: int)
    requires
        all_valid(s),
        0 <= n <= s.len(),
    ensures
        all_valid(s.subrange(0, n)),
{
    let p = s.subrange(0, n);
    assert forall|i: int| 0 <= i < p.len() implies aa_code(#[trigger] p[i]) != INVALID_AA by {
        assert(p[i] == s[i]);
    }
}

proof fn lemma_selected_valid_prefix(s: Seq<u8>, mask: Seq<bool>, a: int)
    requires
        0 <= a <= mask.len(),
        all_valid(selected(s, mask)),
    ensures
        all_valid(selected(s, mask.subrange(0, a))),
    decreases mask.len(),
{
    if a < mask.len() {
        let d = mask.drop_last();
        assert(d.subrange(0, a) =~= mask.subrange(0, a));
        if mask.last() {
            let sd = selected(s, d);
            assert(selected(s, mask).drop_last() =~= sd);
            lemma_valid_prefix(selected(s, mask), sd.len() as int);
            assert(selected(s, mask).subrange(0, sd.len() as int) =~= sd);
        }
        lemma_selected_valid_prefix(s, d, a);
    } else {
        assert(mask.subrange(0, a) =~= mask);
    }
}

/// Packs the residues that `mask` selects from the start of `seq` into a key.
pub fn encode_spaced(seq: &[u8], mask: &[bool]) -> (r: Option<u64>)
    requires
        mask@.len() <= seq@.len(),
        weight(mask@) <= MAX_WORD,
    ensures
        r == spaced_key(seq@, mask@),
{
    let mut encoded: u64 = 0;
    let mut i: usize = 0;
    while i < mask.len()
        invariant
            i <= mask@.len() <= seq@.len(),
            weight(mask@) <= MAX_WORD,
            all_valid(selected(seq@, mask@.subrange(0, i as int))),
            encoded as nat == pack(selected(seq@, mask@.subrange(0, i as int))),
            selected(seq@, mask@.subrange(0, i as int)).len() <= MAX_WORD,
        decreases mask@.len() - i,
    {
        let ghost pre = mask@.subrange(0, i as int);
        let ghost next = mask@.subrange(0, i + 1);
        proof {
            assert(next.drop_last() =~= pre);
            lemma_selected_len(seq@, next);
            lemma_weight_prefix(mask@, i + 1);
        }
        if mask[i] {
            let val = aa_code_of(seq[i]);
            let ghost sp = selected(seq@, pre);
            let ghost sn = selected(seq@, next);
            assert(sn == sp.push(seq@[i as int]));
            if val == INVALID_AA {
                proof {
                    assert(!all_valid(sn)) by {
                        assert(sn[sn.len() - 1] == seq@[i as int]);
                    }
                    if all_valid(selected(seq@, mask@)) {
                        lemma_selected_valid_prefix(seq@, mask@, i + 1);
                    }
                }
                return None;
            }
            proof {
                lemma_pack_bound(sp);
                lemma_pow32_mono(sp.len(), 11);
                lemma_pow32_12();
                assert(pow32(12) == 32 * pow32(11));
                lemma_shift_or(encoded, val as u64);
                assert(sn.drop_last() =~= sp);
                assert(all_valid(sn)) by {
                    assert forall|j: int| 0 <= j < sn.len() implies aa_code(#[trigger] sn[j]) != INVALID_AA by {
                        if j < sp.len() {
                            assert(sn[j] == sp[j]);
                        }
                    }
                }
            }
            encoded = (encoded << 5) | (val as u64);
        }
        i += 1;
    }
    assert(mask@.subrange(0, mask@.len() as int) =~= mask@);
    Some(encoded)
}

proof fn lemma_low_bits(e: u64)
    ensures
        e & 31u64 == e % 32,
        e >> 5u64 == e / 32,
{
    assert(e & 31u64 == e % 32) by (bit_vector);
    assert(e >> 5u64 == e / 32) by (bit_vector);
}

/// The upper-case letter of a residue code, `?` for a value outside `0..=19`.
fn aa_letter_of(v: u64) -> (r: u8)
    ensures
        r == aa_letter(v as nat),
        r < 128,
{
    match v {
        0 => 65,
        1 => 67,
        2 => 68,
        3 => 69,
        4 => 70,
        5 => 71,
        6 => 72,
        7 => 73,
        8 => 75,
        9 => 76,
        10 => 77,
        11 => 78,
        12 => 80,
        13 => 81,
        14 => 82,
        15 => 83,
        16 => 84,
        17 => 86,
        18 => 87,
        19 => 89,
        _ => 63,
    }
}

/// Relies on `String::from_utf8`: a byte string of ASCII characters is valid UTF-8,
/// and the resulting string holds those characters.
#[verifier::external_body]
fn ascii_string(bytes: Vec<u8>) -> (r: String)
    requires
        forall|i: int| 0 <= i < bytes@.len() ==> bytes@[i] < 128,
    ensures
        r@ == bytes@.map_values(|b: u8| b as char),
{
    String::from_utf8(bytes).unwrap()
}

/// Spells the `k` lowest base-32 digits of a key as residue letters, most
/// significant first; a digit above 19 is spelled `?`.
pub fn decode_kmer(encoded: u64, k: usize) -> (r: String)
    ensures
        r@ == decoded(encoded as nat, k as nat),
{
    let mut chars: Vec<u8> = vec![0u8; k];
    let mut cur: u64 = encoded;
    let mut j: usize = 0;
    assert(pow32(0) == 1);
    while j < k
        invariant
            j <= k,
            chars@.len() == k,
            cur as nat == encoded as nat / pow32(j as nat),
            forall|i: int| 0 <= i < k ==> chars@[i] < 128,
            forall|i: int|
                k - j <= i < k ==> chars@[i] == aa_letter(digit(encoded as nat, (k - 1 - i) as nat)),
        decreases k - j,
    {
        proof {
            lemma_low_bits(cur);
            lemma_pow32_pos(j as nat);
            lemma_div_denominator(encoded as int, pow32(j as nat) as int, 32);
            assert(pow32((j + 1) as nat) == pow32(j as nat) * 32);
        }
        let letter = aa_letter_of(cur & 31);
        chars.set(k - 1 - j, letter);
        cur = cur >> 5;
        j += 1;
    }
    let r = ascii_string(chars);
    assert(r@ =~= decoded(encoded as nat, k as nat));
    r
}

proof fn lemma_letter_of_code(b: u8)
    requires
        is_standard_residue(b),
    ensures
        aa_letter(aa_code(b) as nat) == b,
{
}

proof fn lemma_digit_pack(s: Seq<u8>, j: nat)
    requires
        all_valid(s),
        j < s.len(),
    ensures
        digit(pack(s), j) == aa_code(s[s.len() - 1 - j]) as nat,
    decreases j,
{
    let p = s.drop_last();
    let c = aa_code(s.last()) as nat;
    assert(c < 32);
    assert(pack(s) == pack(p) * 32 + c);
    assert(pack(s) / 32 == pack(p)) by (nonlinear_arith)
        requires
            pack(s) == pack(p) * 32 + c,
            c < 32,
    ;
    assert(pack(s) % 32 == c) by (nonlinear_arith)
        requires
            pack(s) == pack(p) * 32 + c,
            c < 32,
    ;
    if j == 0 {
        assert(pow32(0) == 1);
    } else {
        assert(all_valid(p)) by {
            assert forall|i: int| 0 <= i < p.len() implies aa_code(#[trigger] p[i]) != INVALID_AA by {
                assert(p[i] == s[i]);
            }
        }
        lemma_digit_pack(p, (j - 1) as nat);
        lemma_pow32_pos((j - 1) as nat);
        lemma_div_denominator(pack(s) as int, 32, pow32((j - 1) as nat) as int);
        assert(pow32(j) == 32 * pow32((j - 1) as nat));
        assert(p[p.len() - 1 - (j - 1)] == s[s.len() - 1 - j]);
    }
}

/// Decoding the key of a word of upper-case standard residues spells the word
/// again; a word with a byte outside the alphabet has no key.
pub proof fn lemma_codec_round_trip(s: Seq<u8>)
    requires
        s.len() <= MAX_WORD,
    ensures
        (forall|i: int| 0 <= i < s.len() ==> is_standard_residue(#[trigger] s[i])) ==> {
            &&& kmer_key(s) is Some
            &&& decoded(kmer_key(s)->0 as nat, s.len()) == s.map_values(|b: u8| b as char)
        },
        (exists|i: int| 0 <= i < s.len() && aa_code(#[trigger] s[i]) == INVALID_AA) ==> kmer_key(s)
            is None,
{
    if forall|i: int| 0 <= i < s.len() ==> is_standard_residue(#[trigger] s[i]) {
        assert(all_valid(s)) by {
            assert forall|i: int| 0 <= i < s.len() implies aa_code(#[trigger] s[i]) != INVALID_AA by {
                assert(is_standard_residue(s[i]));
            }
        }
        lemma_pack_bound(s);
        lemma_pow32_mono(s.len(), 12);
        lemma_pow32_12();
        let e = pack(s);
        assert(kmer_key(s)->0 as nat == e);
        assert forall|i: int| 0 <= i < s.len() implies #[trigger] decoded(e, s.len())[i] == (s[i] as char) by {
            let j = (s.len() - 1 - i) as nat;
            lemma_digit_pack(s, j);
            assert(s.len() - 1 - j == i);
            lemma_letter_of_code(s[i]);
        }
        assert(decoded(e, s.len()) =~= s.map_values(|b: u8| b as char));
    }
}

/// BLOSUM62, row-major over the residue order
/// `A R N D C Q E G H I L K M F P S T W Y V B Z X *`.
pub const BLOSUM62: [i8; 576] = [
    4, -1, -2, -2,  0, -1, -1,  0, -2, -1, -1, -1, -1, -2, -1,  1,  0, -3, -2,  0, -2, -1,  0, -4,
    -1,  5,  0, -2, -3,  1,  0, -2,  0, -3, -2,  2, -1, -3, -2, -1, -1, -3, -2, -3, -1,  0, -1, -4,
    -2,  0,  6,  1, -3,  0,  0,  0,  1, -3, -3,  0, -2, -3, -2,  1,  0, -4, -3, -3,  3,  0, -1, -4,
    -2, -2,  1,  6, -3,  0,  2, -1, -1, -3, -4, -1, -3, -3, -1,  0, -1, -4, -3, -3,  4,  1, -1, -4,
    0, -3, -3, -3,  9, -3, -4, -3, -3, -1, -1, -3, -1, -2, -3, -1, -1, -2, -2, -1, -3, -3, -2, -4,
    -1,  1,  0,  0, -3,  5,  2, -2,  0, -3, -2,  1,  0, -3, -1,  0, -1, -2, -1, -2,  0,  3, -1, -4,
    -1,  0,  0,  2, -4,  2,  5, -2,  0, -3, -3,  1, -2, -3, -1,  0, -1, -3, -2, -2,  1,  4, -1, -4,
    0, -2,  0, -1, -3, -2, -2,  6, -2, -4, -4, -2, -3, -3, -2,  0, -2, -2, -3, -3, -1, -2, -1, -4,
    -2,  0,  1, -1, -3,  0,  0, -2,  8, -3, -3, -1, -2, -1, -2, -1, -2, -2,  2, -3,  0,  0, -1, -4,
    -1, -3, -3, -3, -1, -3, -3, -4, -3,  4,  2, -3,  1,  0, -3, -2, -1, -3, -1,  3, -3, -3, -1, -4,
    -1, -2, -3, -4, -1, -2, -3, -4, -3,  2,  4, -2,  2,  0, -3, -2, -1, -2, -1,  1, -4, -3, -1, -4,
    -1,  2,  0, -1, -3,  1,  1, -2, -1, -3, -2,  5, -1, -3, -1,  0, -1, -3, -2, -2,  0,  1, -1, -4,
    -1, -1, -2, -3, -1,  0, -2, -3, -2,  1,  2, -1,  5,  0, -2, -1, -1, -1, -1,  1, -3, -1, -1, -4,
    -2, -3, -3, -3, -2, -3, -3, -3, -1,  0,  0, -3,  0,  6, -4, -2, -2,  1,  3, -1, -3, -3, -1, -4,
    -1, -2, -2, -1, -3, -1, -1, -2, -2, -3, -3, -1, -2, -4,  7, -1, -1, -4, -3, -2, -2, -1, -2, -4,
    1, -1,  1,  0, -1,  0,  0,  0, -1, -2, -2,  0, -1, -2, -1,  4,  1, -3, -2, -2,  0,  0,  0, -4,
    0, -1,  0, -1, -1, -1, -1, -2, -2, -1, -1, -1, -1, -2, -1,  1,  5, -2, -2,  0, -1, -1,  0, -4,
    -3, -3, -4, -4, -2, -2, -3, -2, -2, -3, -2, -3, -1,  1, -4, -3, -2, 11,  2, -3, -4, -2, -2, -4,
    -2, -2, -3, -3, -2, -1, -2, -3,  2, -1, -1, -2, -1,  3, -3, -2, -2,  2,  7, -1, -3, -2, -1, -4,
    0, -3, -3, -3, -1, -2, -2, -3, -3,  3,  1, -2,  1, -1, -2, -2,  0, -3, -1,  4, -3, -2, -1, -4,
    -2, -1,  3,  4, -3,  0,  1, -1,  0, -3, -4,  0, -3, -3, -2,  0, -1, -4, -3, -3,  4,  1, -1, -4,
    -1,  0,  0,  1, -3,  3,  4, -2,  0, -3, -3,  1, -1, -3, -1,  0, -1, -2, -2, -2,  1,  4, -1, -4,
    0, -1, -1, -1, -2, -1, -1, -1, -1, -1, -1, -1, -1, -1, -2,  0,  0, -2, -1, -1, -1, -1, -1, -4,
    -4, -4, -4, -4, -4, -4, -4, -4, -4, -4, -4, -4, -4, -4, -4, -4, -4, -4, -4, -4, -4, -4, -4,  1,
];

/// Row of a byte in `BLOSUM62`; upper and lower case share a row, and a byte
/// outside the table's alphabet takes the row of `X`.
pub open spec fn blosum_index(b: u8) -> nat {
    let u = if 97 <= b && b <= 122 { (b - 32) as u8 } else { b };
    if u == 65 { 0 }
    else if u == 82 { 1 }
    else if u == 78 { 2 }
    else if u == 68 { 3 }
    else if u == 67 { 4 }
    else if u == 81 { 5 }
    else if u == 69 { 6 }
    else if u == 71 { 7 }
    else if u == 72 { 8 }
    else if u == 73 { 9 }
    else if u == 76 { 10 }
    else if u == 75 { 11 }
    else if u == 77 { 12 }
    else if u == 70 { 13 }
    else if u == 80 { 14 }
    else if u == 83 { 15 }
    else if u == 84 { 16 }
    else if u == 87 { 17 }
    else if u == 89 { 18 }
    else if u == 86 { 19 }
    else if u == 66 { 20 }
    else if u == 90 { 21 }
    else if u == 42 { 23 }
    else { 22 }
}

fn blosum_index_of(b: u8) -> (r: usize)
    ensures
        r == blosum_index(b),
        r < 24,
{
    let u: u8 = if 97 <= b && b <= 122 { b - 32 } else { b };
    match u {
        65 => 0,
        82 => 1,
        78 => 2,
        68 => 3,
        67 => 4,
        81 => 5,
        69 => 6,
        71 => 7,
        72 => 8,
        73 => 9,
        76 => 10,
        75 => 11,
        77 => 12,
        70 => 13,
        80 => 14,
        83 => 15,
        84 => 16,
        87 => 17,
        89 => 18,
        86 => 19,
        66 => 20,
        90 => 21,
        42 => 23,
        _ => 22,
    }
}

/// The BLOSUM62 score of a pair of residue bytes.
pub fn get_score(a: u8, b: u8) -> (r: i32)
    ensures
        r == BLOSUM62@[(blosum_index(a) * 24 + blosum_index(b)) as int] as i32,
        r == BLOSUM62@[(blosum_index(b) * 24 + blosum_index(a)) as int] as i32,
        -4 <= r <= 11,
{
    proof {
        lemma_blosum62_symmetric();
        lemma_blosum62_range();
    }
    let i = blosum_index_of(a);
    let j = blosum_index_of(b);
    BLOSUM62[i * 24 + j] as i32
}

proof fn lemma_selected_ones(s: Seq<u8>, m: nat)
    requires
        m <= s.len(),
    ensures
        selected(s, ones(m)) == s.subrange(0, m as int),
    decreases m,
{
    if m > 0 {
        assert(ones(m).drop_last() =~= ones((m - 1) as nat));
        lemma_selected_ones(s, (m - 1) as nat);
        assert(s.subrange(0, m - 1).push(s[m - 1]) =~= s.subrange(0, m as int));
    } else {
        assert(s.subrange(0, 0) =~= Seq::<u8>::empty());
    }
}

/// A word under the all-ones mask of its own length has its contiguous key.
pub proof fn lemma_kmer_is_spaced(w: Seq<u8>)
    ensures
        spaced_key(w, ones(w.len())) == kmer_key(w),
        weight(ones(w.len())) == w.len(),
{
    lemma_selected_ones(w, w.len());
    assert(w.subrange(0, w.len() as int) =~= w);
    lemma_selected_len(w, ones(w.len()));
}

pub proof fn lemma_weight_le_len(mask: Seq<bool>)
    ensures
        weight(mask) <= mask.len(),
    decreases mask.len(),
{
    if mask.len() > 0 {
        lemma_weight_le_len(mask.drop_last());
    }
}

// Row `r` of BLOSUM62 equals column `r`, checked entry by entry.
proof fn lemma_blosum_row_0(j: int)
    requires
        0 <= j < 24,
    ensures
        BLOSUM62@[0 * 24 + j] == BLOSUM62@[j * 24 + 0],
{
    if j == 0 {} else if j == 1 {} else if j == 2 {} else if j == 3 {} else if j == 4 {} else if j == 5 {} else if j == 6 {} else if j == 7 {} else
    if j == 8 {} else if j == 9 {} else if j == 10 {} else if j == 11 {} else if j == 12 {} else if j == 13 {} else if j == 14 {} else if j == 15 {} else
    if j == 16 {} else if j == 17 {} else if j == 18 {} else if j == 19 {} else if j == 20 {} else if j == 21 {} else if j == 22 {} else {}
}

proof fn lemma_blosum_row_1(j: int)
    requires
        0 <= j < 24,
    ensures
        BLOSUM62@[1 * 24 + j] == BLOSUM62@[j * 24 + 1],
{
    if j == 0 {} else if j == 1 {} else if j == 2 {} else if j == 3 {} else if j == 4 {} else if j == 5 {} else if j == 6 {} else if j == 7 {} else
    if j == 8 {} else if j == 9 {} else if j == 10 {} else if j == 11 {} else if j == 12 {} else if j == 13 {} else if j == 14 {} else if j == 15 {} else
    if j == 16 {} else if j == 17 {} else if j == 18 {} else if j == 19 {} else if j == 20 {} else if j == 21 {} else if j == 22 {} else {}
}

proof fn lemma_blosum_row_2(j: int)
    requires
        0 <= j < 24,
    ensures
        BLOSUM62@[2 * 24 + j] == BLOSUM62@[j * 24 + 2],
{
    if j == 0 {} else if j == 1 {} else if j == 2 {} else if j == 3 {} else if j == 4 {} else if j == 5 {} else if j == 6 {} else if j == 7 {} else
    if j == 8 {} else if j == 9 {} else if j == 10 {} else if j == 11 {} else if j == 12 {} else if j == 13 {} else if j == 14 {} else if j == 15 {} else
    if j == 16 {} else if j == 17 {} else if j == 18 {} else if j == 19 {} else if j == 20 {} else if j == 21 {} else if j == 22 {} else {}
}

proof fn lemma_blosum_row_3(j: int)
    requires
        0 <= j < 24,
    ensures
        BLOSUM62@[3 * 24 + j] == BLOSUM62@[j * 24 + 3],
{
    if j == 0 {} else if j == 1 {} else if j == 2 {} else if j == 3 {} else if j == 4 {} else if j == 5 {} else if j == 6 {} else if j == 7 {} else
    if j == 8 {} else if j == 9 {} else if j == 10 {} else if j == 11 {} else if j == 12 {} else if j == 13 {} else if j == 14 {} else if j == 15 {} else
    if j == 16 {} else if j == 17 {} else if j == 18 {} else if j == 19 {} else if j == 20 {} else if j == 21 {} else if j == 22 {} else {}
}

proof fn lemma_blosum_row_4(j: int)
    requires
        0 <= j < 24,
    ensures
        BLOSUM62@[4 * 24 + j] == BLOSUM62@[j * 24 + 4],
{
    if j == 0 {} else if j == 1 {} else if j == 2 {} else if j == 3 {} else if j == 4 {} else if j == 5 {} else if j == 6 {} else if j == 7 {} else
    if j == 8 {} else if j == 9 {} else if j == 10 {} else if j == 11 {} else if j == 12 {} else if j == 13 {} else if j == 14 {} else if j == 15 {} else
    if j == 16 {} else if j == 17 {} else if j == 18 {} else if j == 19 {} else if j == 20 {} else if j == 21 {} else if j == 22 {} else {}
}

proof fn lemma_blosum_row_5(j: int)
    requires
        0 <= j < 24,
    ensures
        BLOSUM62@[5 * 24 + j] == BLOSUM62@[j * 24 + 5],
{
    if j == 0 {} else if j == 1 {} else if j == 2 {} else if j == 3 {} else if j == 4 {} else if j == 5 {} else if j == 6 {} else if j == 7 {} else
    if j == 8 {} else if j == 9 {} else if j == 10 {} else if j == 11 {} else if j == 12 {} else if j == 13 {} else if j == 14 {} else if j == 15 {} else
    if j == 16 {} else if j == 17 {} else if j == 18 {} else if j == 19 {} else if j == 20 {} else if j == 21 {} else if j == 22 {} else {}
}

proof fn lemma_blosum_row_6(j: int)
    requires
        0 <= j < 24,
    ensures
        BLOSUM62@[6 * 24 + j] == BLOSUM62@[j * 24 + 6],
{
    if j == 0 {} else if j == 1 {} else if j == 2 {} else if j == 3 {} else if j == 4 {} else if j == 5 {} else if j == 6 {} else if j == 7 {} else
    if j == 8 {} else if j == 9 {} else if j == 10 {} else if j == 11 {} else if j == 12 {} else if j == 13 {} else if j == 14 {} else if j == 15 {} else
    if j == 16 {} else if j == 17 {} else if j == 18 {} else if j == 19 {} else if j == 20 {} else if j == 21 {} else if j == 22 {} else {}
}

proof fn lemma_blosum_row_7(j: int)
    requires
        0 <= j < 24,
    ensures
        BLOSUM62@[7 * 24 + j] == BLOSUM62@[j * 24 + 7],
{
    if j == 0 {} else if j == 1 {} else if j == 2 {} else if j == 3 {} else if j == 4 {} else if j == 5 {} else if j == 6 {} else if j == 7 {} else
    if j == 8 {} else if j == 9 {} else if j == 10 {} else if j == 11 {} else if j == 12 {} else if j == 13 {} else if j == 14 {} else if j == 15 {} else
    if j == 16 {} else if j == 17 {} else if j == 18 {} else if j == 19 {} else if j == 20 {} else if j == 21 {} else if j == 22 {} else {}
}

proof fn lemma_blosum_row_8(j: int)
    requires
        0 <= j < 24,
    ensures
        BLOSUM62@[8 * 24 + j] == BLOSUM62@[j * 24 + 8],
{
    if j == 0 {} else if j == 1 {} else if j == 2 {} else if j == 3 {} else if j == 4 {} else if j == 5 {} else if j == 6 {} else if j == 7 {} else
    if j == 8 {} else if j == 9 {} else if j == 10 {} else if j == 11 {} else if j == 12 {} else if j == 13 {} else if j == 14 {} else if j == 15 {} else
    if j == 16 {} else if j == 17 {} else if j == 18 {} else if j == 19 {} else if j == 20 {} else if j == 21 {} else if j == 22 {} else {}
}

proof fn lemma_blosum_row_9(j: int)
    requires
        0 <= j < 24,
    ensures
        BLOSUM62@[9 * 24 + j] == BLOSUM62@[j * 24 + 9],
{
    if j == 0 {} else if j == 1 {} else if j == 2 {} else if j == 3 {} else if j == 4 {} else if j == 5 {} else if j == 6 {} else if j == 7 {} else
    if j == 8 {} else if j == 9 {} else if j == 10 {} else if j == 11 {} else if j == 12 {} else if j == 13 {} else if j == 14 {} else if j == 15 {} else
    if j == 16 {} else if j == 17 {} else if j == 18 {} else if j == 19 {} else if j == 20 {} else if j == 21 {} else if j == 22 {} else {}
}

proof fn lemma_blosum_row_10(j: int)
    requires
        0 <= j < 24,
    ensures
        BLOSUM62@[10 * 24 + j] == BLOSUM62@[j * 24 + 10],
{
    if j == 0 {} else if j == 1 {} else if j == 2 {} else if j == 3 {} else if j == 4 {} else if j == 5 {} else if j == 6 {} else if j == 7 {} else
    if j == 8 {} else if j == 9 {} else if j == 10 {} else if j == 11 {} else if j == 12 {} else if j == 13 {} else if j == 14 {} else if j == 15 {} else
    if j == 16 {} else if j == 17 {} else if j == 18 {} else if j == 19 {} else if j == 20 {} else if j == 21 {} else if j == 22 {} else {}
}

proof fn lemma_blosum_row_11(j: int)
    requires
        0 <= j < 24,
    ensures
        BLOSUM62@[11 * 24 + j] == BLOSUM62@[j * 24 + 11],
{
    if j == 0 {} else if j == 1 {} else if j == 2 {} else if j == 3 {} else if j == 4 {} else if j == 5 {} else if j == 6 {} else if j == 7 {} else
    if j == 8 {} else if j == 9 {} else if j == 10 {} else if j == 11 {} else if j == 12 {} else if j == 13 {} else if j == 14 {} else if j == 15 {} else
    if j == 16 {} else if j == 17 {} else if j == 18 {} else if j == 19 {} else if j == 20 {} else if j == 21 {} else if j == 22 {} else {}
}

proof fn lemma_blosum_row_12(j: int)
    requires
        0 <= j < 24,
    ensures
        BLOSUM62@[12 * 24 + j] == BLOSUM62@[j * 24 + 12],
{
    if j == 0 {} else if j == 1 {} else if j == 2 {} else if j == 3 {} else if j == 4 {} else if j == 5 {} else if j == 6 {} else if j == 7 {} else
    if j == 8 {} else if j == 9 {} else if j == 10 {} else if j == 11 {} else if j == 12 {} else if j == 13 {} else if j == 14 {} else if j == 15 {} else
    if j == 16 {} else if j == 17 {} else if j == 18 {} else if j == 19 {} else if j == 20 {} else if j == 21 {} else if j == 22 {} else {}
}

proof fn lemma_blosum_row_13(j: int)
    requires
        0 <= j < 24,
    ensures
        BLOSUM62@[13 * 24 + j] == BLOSUM62@[j * 24 + 13],
{
    if j == 0 {} else if j == 1 {} else if j == 2 {} else if j == 3 {} else if j == 4 {} else if j == 5 {} else if j == 6 {} else if j == 7 {} else
    if j == 8 {} else if j == 9 {} else if j == 10 {} else if j == 11 {} else if j == 12 {} else if j == 13 {} else if j == 14 {} else if j == 15 {} else
    if j == 16 {} else if j == 17 {} else if j == 18 {} else if j == 19 {} else if j == 20 {} else if j == 21 {} else if j == 22 {} else {}
}

proof fn lemma_blosum_row_14(j: int)
    requires
        0 <= j < 24,
    ensures
        BLOSUM62@[14 * 24 + j] == BLOSUM62@[j * 24 + 14],
{
    if j == 0 {} else if j == 1 {} else if j == 2 {} else if j == 3 {} else if j == 4 {} else if j == 5 {} else if j == 6 {} else if j == 7 {} else
    if j == 8 {} else if j == 9 {} else if j == 10 {} else if j == 11 {} else if j == 12 {} else if j == 13 {} else if j == 14 {} else if j == 15 {} else
    if j == 16 {} else if j == 17 {} else if j == 18 {} else if j == 19 {} else if j == 20 {} else if j == 21 {} else if j == 22 {} else {}
}

proof fn lemma_blosum_row_15(j: int)
    requires
        0 <= j < 24,
    ensures
        BLOSUM62@[15 * 24 + j] == BLOSUM62@[j * 24 + 15],
{
    if j == 0 {} else if j == 1 {} else if j == 2 {} else if j == 3 {} else if j == 4 {} else if j == 5 {} else if j == 6 {} else if j == 7 {} else
    if j == 8 {} else if j == 9 {} else if j == 10 {} else if j == 11 {} else if j == 12 {} else if j == 13 {} else if j == 14 {} else if j == 15 {} else
    if j == 16 {} else if j == 17 {} else if j == 18 {} else if j == 19 {} else if j == 20 {} else if j == 21 {} else if j == 22 {} else {}
}

proof fn lemma_blosum_row_16(j: int)
    requires
        0 <= j < 24,
    ensures
        BLOSUM62@[16 * 24 + j] == BLOSUM62@[j * 24 + 16],
{
    if j == 0 {} else if j == 1 {} else if j == 2 {} else if j == 3 {} else if j == 4 {} else if j == 5 {} else if j == 6 {} else if j == 7 {} else
    if j == 8 {} else if j == 9 {} else if j == 10 {} else if j == 11 {} else if j == 12 {} else if j == 13 {} else if j == 14 {} else if j == 15 {} else
    if j == 16 {} else if j == 17 {} else if j == 18 {} else if j == 19 {} else if j == 20 {} else if j == 21 {} else if j == 22 {} else {}
}

proof fn lemma_blosum_row_17(j: int)
    requires
        0 <= j < 24,
    ensures
        BLOSUM62@[17 * 24 + j] == BLOSUM62@[j * 24 + 17],
{
    if j == 0 {} else if j == 1 {} else if j == 2 {} else if j == 3 {} else if j == 4 {} else if j == 5 {} else if j == 6 {} else if j == 7 {} else
    if j == 8 {} else if j == 9 {} else if j == 10 {} else if j == 11 {} else if j == 12 {} else if j == 13 {} else if j == 14 {} else if j == 15 {} else
    if j == 16 {} else if j == 17 {} else if j == 18 {} else if j == 19 {} else if j == 20 {} else if j == 21 {} else if j == 22 {} else {}
}

proof fn lemma_blosum_row_18(j: int)
    requires
        0 <= j < 24,
    ensures
        BLOSUM62@[18 * 24 + j] == BLOSUM62@[j * 24 + 18],
{
    if j == 0 {} else if j == 1 {} else if j == 2 {} else if j == 3 {} else if j == 4 {} else if j == 5 {} else if j == 6 {} else if j == 7 {} else
    if j == 8 {} else if j == 9 {} else if j == 10 {} else if j == 11 {} else if j == 12 {} else if j == 13 {} else if j == 14 {} else if j == 15 {} else
    if j == 16 {} else if j == 17 {} else if j == 18 {} else if j == 19 {} else if j == 20 {} else if j == 21 {} else if j == 22 {} else {}
}

proof fn lemma_blosum_row_19(j: int)
    requires
        0 <= j < 24,
    ensures
        BLOSUM62@[19 * 24 + j] == BLOSUM62@[j * 24 + 19],
{
    if j == 0 {} else if j == 1 {} else if j == 2 {} else if j == 3 {} else if j == 4 {} else if j == 5 {} else if j == 6 {} else if j == 7 {} else
    if j == 8 {} else if j == 9 {} else if j == 10 {} else if j == 11 {} else if j == 12 {} else if j == 13 {} else if j == 14 {} else if j == 15 {} else
    if j == 16 {} else if j == 17 {} else if j == 18 {} else if j == 19 {} else if j == 20 {} else if j == 21 {} else if j == 22 {} else {}
}

proof fn lemma_blosum_row_20(j: int)
    requires
        0 <= j < 24,
    ensures
        BLOSUM62@[20 * 24 + j] == BLOSUM62@[j * 24 + 20],
{
    if j == 0 {} else if j == 1 {} else if j == 2 {} else if j == 3 {} else if j == 4 {} else if j == 5 {} else if j == 6 {} else if j == 7 {} else
    if j == 8 {} else if j == 9 {} else if j == 10 {} else if j == 11 {} else if j == 12 {} else if j == 13 {} else if j == 14 {} else if j == 15 {} else
    if j == 16 {} else if j == 17 {} else if j == 18 {} else if j == 19 {} else if j == 20 {} else if j == 21 {} else if j == 22 {} else {}
}

proof fn lemma_blosum_row_21(j: int)
    requires
        0 <= j < 24,
    ensures
        BLOSUM62@[21 * 24 + j] == BLOSUM62@[j * 24 + 21],
{
    if j == 0 {} else if j == 1 {} else if j == 2 {} else if j == 3 {} else if j == 4 {} else if j == 5 {} else if j == 6 {} else if j == 7 {} else
    if j == 8 {} else if j == 9 {} else if j == 10 {} else if j == 11 {} else if j == 12 {} else if j == 13 {} else if j == 14 {} else if j == 15 {} else
    if j == 16 {} else if j == 17 {} else if j == 18 {} else if j == 19 {} else if j == 20 {} else if j == 21 {} else if j == 22 {} else {}
}

proof fn lemma_blosum_row_22(j: int)
    requires
        0 <= j < 24,
    ensures
        BLOSUM62@[22 * 24 + j] == BLOSUM62@[j * 24 + 22],
{
    if j == 0 {} else if j == 1 {} else if j == 2 {} else if j == 3 {} else if j == 4 {} else if j == 5 {} else if j == 6 {} else if j == 7 {} else
    if j == 8 {} else if j == 9 {} else if j == 10 {} else if j == 11 {} else if j == 12 {} else if j == 13 {} else if j == 14 {} else if j == 15 {} else
    if j == 16 {} else if j == 17 {} else if j == 18 {} else if j == 19 {} else if j == 20 {} else if j == 21 {} else if j == 22 {} else {}
}

proof fn lemma_blosum_row_23(j: int)
    requires
        0 <= j < 24,
    ensures
        BLOSUM62@[23 * 24 + j] == BLOSUM62@[j * 24 + 23],
{
    if j == 0 {} else if j == 1 {} else if j == 2 {} else if j == 3 {} else if j == 4 {} else if j == 5 {} else if j == 6 {} else if j == 7 {} else
    if j == 8 {} else if j == 9 {} else if j == 10 {} else if j == 11 {} else if j == 12 {} else if j == 13 {} else if j == 14 {} else if j == 15 {} else
    if j == 16 {} else if j == 17 {} else if j == 18 {} else if j == 19 {} else if j == 20 {} else if j == 21 {} else if j == 22 {} else {}
}

/// BLOSUM62 is symmetric.
pub proof fn lemma_blosum62_symmetric()
    ensures
        forall|i: int, j: int| 0 <= i < 24 && 0 <= j < 24 ==> #[trigger] BLOSUM62@[i * 24 + j] == BLOSUM62@[j * 24 + i],
{
    assert forall|i: int, j: int| 0 <= i < 24 && 0 <= j < 24 implies #[trigger] BLOSUM62@[i * 24 + j] == BLOSUM62@[j * 24 + i] by {
        if i == 0 {
            lemma_blosum_row_0(j);
        } else if i == 1 {
            lemma_blosum_row_1(j);
        } else if i == 2 {
            lemma_blosum_row_2(j);
        } else if i == 3 {
            lemma_blosum_row_3(j);
        } else if i == 4 {
            lemma_blosum_row_4(j);
        } else if i == 5 {
            lemma_blosum_row_5(j);
        } else if i == 6 {
            lemma_blosum_row_6(j);
        } else if i == 7 {
            lemma_blosum_row_7(j);
        } else if i == 8 {
            lemma_blosum_row_8(j);
        } else if i == 9 {
            lemma_blosum_row_9(j);
        } else if i == 10 {
            lemma_blosum_row_10(j);
        } else if i == 11 {
            lemma_blosum_row_11(j);
        } else if i == 12 {
            lemma_blosum_row_12(j);
        } else if i == 13 {
            lemma_blosum_row_13(j);
        } else if i == 14 {
            lemma_blosum_row_14(j);
        } else if i == 15 {
            lemma_blosum_row_15(j);
        } else if i == 16 {
            lemma_blosum_row_16(j);
        } else if i == 17 {
            lemma_blosum_row_17(j);
        } else if i == 18 {
            lemma_blosum_row_18(j);
        } else if i == 19 {
            lemma_blosum_row_19(j);
        } else if i == 20 {
            lemma_blosum_row_20(j);
        } else if i == 21 {
            lemma_blosum_row_21(j);
        } else if i == 22 {
            lemma_blosum_row_22(j);
        } else if i == 23 {
            lemma_blosum_row_23(j);
        }
    }
}

// One entry of BLOSUM62 at a time.
proof fn lemma_blosum62_entry(k: int)
    requires
        0 <= k < 576,
    ensures
        -4 <= BLOSUM62@[k] <= 11,
{
    if k == 0 {} else if k == 1 {} else if k == 2 {} else if k == 3 {} else if k == 4 {} else if k == 5 {} else if k == 6 {} else if k == 7 {} else
    if k == 8 {} else if k == 9 {} else if k == 10 {} else if k == 11 {} else if k == 12 {} else if k == 13 {} else if k == 14 {} else if k == 15 {} else
    if k == 16 {} else if k == 17 {} else if k == 18 {} else if k == 19 {} else if k == 20 {} else if k == 21 {} else if k == 22 {} else if k == 23 {} else
    if k == 24 {} else if k == 25 {} else if k == 26 {} else if k == 27 {} else if k == 28 {} else if k == 29 {} else if k == 30 {} else if k == 31 {} else
    if k == 32 {} else if k == 33 {} else if k == 34 {} else if k == 35 {} else if k == 36 {} else if k == 37 {} else if k == 38 {} else if k == 39 {} else
    if k == 40 {} else if k == 41 {} else if k == 42 {} else if k == 43 {} else if k == 44 {} else if k == 45 {} else if k == 46 {} else if k == 47 {} else
    if k == 48 {} else if k == 49 {} else if k == 50 {} else if k == 51 {} else if k == 52 {} else if k == 53 {} else if k == 54 {} else if k == 55 {} else
    if k == 56 {} else if k == 57 {} else if k == 58 {} else if k == 59 {} else if k == 60 {} else if k == 61 {} else if k == 62 {} else if k == 63 {} else
    if k == 64 {} else if k == 65 {} else if k == 66 {} else if k == 67 {} else if k == 68 {} else if k == 69 {} else if k == 70 {} else if k == 71 {} else
    if k == 72 {} else if k == 73 {} else if k == 74 {} else if k == 75 {} else if k == 76 {} else if k == 77 {} else if k == 78 {} else if k == 79 {} else
    if k == 80 {} else if k == 81 {} else if k == 82 {} else if k == 83 {} else if k == 84 {} else if k == 85 {} else if k == 86 {} else if k == 87 {} else
    if k == 88 {} else if k == 89 {} else if k == 90 {} else if k == 91 {} else if k == 92 {} else if k == 93 {} else if k == 94 {} else if k == 95 {} else
    if k == 96 {} else if k == 97 {} else if k == 98 {} else if k == 99 {} else if k == 100 {} else if k == 101 {} else if k == 102 {} else if k == 103 {} else
    if k == 104 {} else if k == 105 {} else if k == 106 {} else if k == 107 {} else if k == 108 {} else if k == 109 {} else if k == 110 {} else if k == 111 {} else
    if k == 112 {} else if k == 113 {} else if k == 114 {} else if k == 115 {} else if k == 116 {} else if k == 117 {} else if k == 118 {} else if k == 119 {} else
    if k == 120 {} else if k == 121 {} else if k == 122 {} else if k == 123 {} else if k == 124 {} else if k == 125 {} else if k == 126 {} else if k == 127 {} else
    if k == 128 {} else if k == 129 {} else if k == 130 {} else if k == 131 {} else if k == 132 {} else if k == 133 {} else if k == 134 {} else if k == 135 {} else
    if k == 136 {} else if k == 137 {} else if k == 138 {} else if k == 139 {} else if k == 140 {} else if k == 141 {} else if k == 142 {} else if k == 143 {} else
    if k == 144 {} else if k == 145 {} else if k == 146 {} else if k == 147 {} else if k == 148 {} else if k == 149 {} else if k == 150 {} else if k == 151 {} else
    if k == 152 {} else if k == 153 {} else if k == 154 {} else if k == 155 {} else if k == 156 {} else if k == 157 {} else if k == 158 {} else if k == 159 {} else
    if k == 160 {} else if k == 161 {} else if k == 162 {} else if k == 163 {} else if k == 164 {} else if k == 165 {} else if k == 166 {} else if k == 167 {} else
    if k == 168 {} else if k == 169 {} else if k == 170 {} else if k == 171 {} else if k == 172 {} else if k == 173 {} else if k == 174 {} else if k == 175 {} else
    if k == 176 {} else if k == 177 {} else if k == 178 {} else if k == 179 {} else if k == 180 {} else if k == 181 {} else if k == 182 {} else if k == 183 {} else
    if k == 184 {} else if k == 185 {} else if k == 186 {} else if k == 187 {} else if k == 188 {} else if k == 189 {} else if k == 190 {} else if k == 191 {} else
    if k == 192 {} else if k == 193 {} else if k == 194 {} else if k == 195 {} else if k == 196 {} else if k == 197 {} else if k == 198 {} else if k == 199 {} else
    if k == 200 {} else if k == 201 {} else if k == 202 {} else if k == 203 {} else if k == 204 {} else if k == 205 {} else if k == 206 {} else if k == 207 {} else
    if k == 208 {} else if k == 209 {} else if k == 210 {} else if k == 211 {} else if k == 212 {} else if k == 213 {} else if k == 214 {} else if k == 215 {} else
    if k == 216 {} else if k == 217 {} else if k == 218 {} else if k == 219 {} else if k == 220 {} else if k == 221 {} else if k == 222 {} else if k == 223 {} else
    if k == 224 {} else if k == 225 {} else if k == 226 {} else if k == 227 {} else if k == 228 {} else if k == 229 {} else if k == 230 {} else if k == 231 {} else
    if k == 232 {} else if k == 233 {} else if k == 234 {} else if k == 235 {} else if k == 236 {} else if k == 237 {} else if k == 238 {} else if k == 239 {} else
    if k == 240 {} else if k == 241 {} else if k == 242 {} else if k == 243 {} else if k == 244 {} else if k == 245 {} else if k == 246 {} else if k == 247 {} else
    if k == 248 {} else if k == 249 {} else if k == 250 {} else if k == 251 {} else if k == 252 {} else if k == 253 {} else if k == 254 {} else if k == 255 {} else
    if k == 256 {} else if k == 257 {} else if k == 258 {} else if k == 259 {} else if k == 260 {} else if k == 261 {} else if k == 262 {} else if k == 263 {} else
    if k == 264 {} else if k == 265 {} else if k == 266 {} else if k == 267 {} else if k == 268 {} else if k == 269 {} else if k == 270 {} else if k == 271 {} else
    if k == 272 {} else if k == 273 {} else if k == 274 {} else if k == 275 {} else if k == 276 {} else if k == 277 {} else if k == 278 {} else if k == 279 {} else
    if k == 280 {} else if k == 281 {} else if k == 282 {} else if k == 283 {} else if k == 284 {} else if k == 285 {} else if k == 286 {} else if k == 287 {} else
    if k == 288 {} else if k == 289 {} else if k == 290 {} else if k == 291 {} else if k == 292 {} else if k == 293 {} else if k == 294 {} else if k == 295 {} else
    if k == 296 {} else if k == 297 {} else if k == 298 {} else if k == 299 {} else if k == 300 {} else if k == 301 {} else if k == 302 {} else if k == 303 {} else
    if k == 304 {} else if k == 305 {} else if k == 306 {} else if k == 307 {} else if k == 308 {} else if k == 309 {} else if k == 310 {} else if k == 311 {} else
    if k == 312 {} else if k == 313 {} else if k == 314 {} else if k == 315 {} else if k == 316 {} else if k == 317 {} else if k == 318 {} else if k == 319 {} else
    if k == 320 {} else if k == 321 {} else if k == 322 {} else if k == 323 {} else if k == 324 {} else if k == 325 {} else if k == 326 {} else if k == 327 {} else
    if k == 328 {} else if k == 329 {} else if k == 330 {} else if k == 331 {} else if k == 332 {} else if k == 333 {} else if k == 334 {} else if k == 335 {} else
    if k == 336 {} else if k == 337 {} else if k == 338 {} else if k == 339 {} else if k == 340 {} else if k == 341 {} else if k == 342 {} else if k == 343 {} else
    if k == 344 {} else if k == 345 {} else if k == 346 {} else if k == 347 {} else if k == 348 {} else if k == 349 {} else if k == 350 {} else if k == 351 {} else
    if k == 352 {} else if k == 353 {} else if k == 354 {} else if k == 355 {} else if k == 356 {} else if k == 357 {} else if k == 358 {} else if k == 359 {} else
    if k == 360 {} else if k == 361 {} else if k == 362 {} else if k == 363 {} else if k == 364 {} else if k == 365 {} else if k == 366 {} else if k == 367 {} else
    if k == 368 {} else if k == 369 {} else if k == 370 {} else if k == 371 {} else if k == 372 {} else if k == 373 {} else if k == 374 {} else if k == 375 {} else
    if k == 376 {} else if k == 377 {} else if k == 378 {} else if k == 379 {} else if k == 380 {} else if k == 381 {} else if k == 382 {} else if k == 383 {} else
    if k == 384 {} else if k == 385 {} else if k == 386 {} else if k == 387 {} else if k == 388 {} else if k == 389 {} else if k == 390 {} else if k == 391 {} else
    if k == 392 {} else if k == 393 {} else if k == 394 {} else if k == 395 {} else if k == 396 {} else if k == 397 {} else if k == 398 {} else if k == 399 {} else
    if k == 400 {} else if k == 401 {} else if k == 402 {} else if k == 403 {} else if k == 404 {} else if k == 405 {} else if k == 406 {} else if k == 407 {} else
    if k == 408 {} else if k == 409 {} else if k == 410 {} else if k == 411 {} else if k == 412 {} else if k == 413 {} else if k == 414 {} else if k == 415 {} else
    if k == 416 {} else if k == 417 {} else if k == 418 {} else if k == 419 {} else if k == 420 {} else if k == 421 {} else if k == 422 {} else if k == 423 {} else
    if k == 424 {} else if k == 425 {} else if k == 426 {} else if k == 427 {} else if k == 428 {} else if k == 429 {} else if k == 430 {} else if k == 431 {} else
    if k == 432 {} else if k == 433 {} else if k == 434 {} else if k == 435 {} else if k == 436 {} else if k == 437 {} else if k == 438 {} else if k == 439 {} else
    if k == 440 {} else if k == 441 {} else if k == 442 {} else if k == 443 {} else if k == 444 {} else if k == 445 {} else if k == 446 {} else if k == 447 {} else
    if k == 448 {} else if k == 449 {} else if k == 450 {} else if k == 451 {} else if k == 452 {} else if k == 453 {} else if k == 454 {} else if k == 455 {} else
    if k == 456 {} else if k == 457 {} else if k == 458 {} else if k == 459 {} else if k == 460 {} else if k == 461 {} else if k == 462 {} else if k == 463 {} else
    if k == 464 {} else if k == 465 {} else if k == 466 {} else if k == 467 {} else if k == 468 {} else if k == 469 {} else if k == 470 {} else if k == 471 {} else
    if k == 472 {} else if k == 473 {} else if k == 474 {} else if k == 475 {} else if k == 476 {} else if k == 477 {} else if k == 478 {} else if k == 479 {} else
    if k == 480 {} else if k == 481 {} else if k == 482 {} else if k == 483 {} else if k == 484 {} else if k == 485 {} else if k == 486 {} else if k == 487 {} else
    if k == 488 {} else if k == 489 {} else if k == 490 {} else if k == 491 {} else if k == 492 {} else if k == 493 {} else if k == 494 {} else if k == 495 {} else
    if k == 496 {} else if k == 497 {} else if k == 498 {} else if k == 499 {} else if k == 500 {} else if k == 501 {} else if k == 502 {} else if k == 503 {} else
    if k == 504 {} else if k == 505 {} else if k == 506 {} else if k == 507 {} else if k == 508 {} else if k == 509 {} else if k == 510 {} else if k == 511 {} else
    if k == 512 {} else if k == 513 {} else if k == 514 {} else if k == 515 {} else if k == 516 {} else if k == 517 {} else if k == 518 {} else if k == 519 {} else
    if k == 520 {} else if k == 521 {} else if k == 522 {} else if k == 523 {} else if k == 524 {} else if k == 525 {} else if k == 526 {} else if k == 527 {} else
    if k == 528 {} else if k == 529 {} else if k == 530 {} else if k == 531 {} else if k == 532 {} else if k == 533 {} else if k == 534 {} else if k == 535 {} else
    if k == 536 {} else if k == 537 {} else if k == 538 {} else if k == 539 {} else if k == 540 {} else if k == 541 {} else if k == 542 {} else if k == 543 {} else
    if k == 544 {} else if k == 545 {} else if k == 546 {} else if k == 547 {} else if k == 548 {} else if k == 549 {} else if k == 550 {} else if k == 551 {} else
    if k == 552 {} else if k == 553 {} else if k == 554 {} else if k == 555 {} else if k == 556 {} else if k == 557 {} else if k == 558 {} else if k == 559 {} else
    if k == 560 {} else if k == 561 {} else if k == 562 {} else if k == 563 {} else if k == 564 {} else if k == 565 {} else if k == 566 {} else if k == 567 {} else
    if k == 568 {} else if k == 569 {} else if k == 570 {} else if k == 571 {} else if k == 572 {} else if k == 573 {} else if k == 574 {} else {}
}

/// Every BLOSUM62 score lies in `-4..=11`.
pub proof fn lemma_blosum62_range()
    ensures
        forall|k: int| 0 <= k < 576 ==> -4 <= #[trigger] BLOSUM62@[k] <= 11,
{
    assert forall|k: int| 0 <= k < 576 implies -4 <= #[trigger] BLOSUM62@[k] <= 11 by {
        lemma_blosum62_entry(k);
    }
}

} // verus!
