//! Identifiers: a text is known by the number that its MD5 digest spells.

use vstd::prelude::*;

verus! {

/// Identifier of a text.
pub type Id = u128;

/// The MD5 digest of the UTF-8 bytes of a text.
pub uninterp spec fn md5_digest(text: Seq<char>) -> Seq<u8>;

/// The number that bytes spell, highest byte first.
pub open spec fn be_number(bytes: Seq<u8>) -> nat
    decreases bytes.len(),
{
    if bytes.len() == 0 {
        0
    } else {
        be_number(bytes.drop_last()) * 256 + bytes.last() as nat
    }
}

/// The identifier of a text.
pub open spec fn text_id(text: Seq<char>) -> Id {
    be_number(md5_digest(text)) as u128
}

/// `md5::compute`. Trusted: the sixteen bytes depend on the text alone.
#[verifier::external_body]
fn md5_compute(text: &str) -> (digest: [u8; 16])
    ensures
        digest@ == md5_digest(text@),
{
    md5::compute(text).0
}

/// The number that sixteen bytes spell, highest byte first.
pub fn number_from_be_bytes(bytes: [u8; 16]) -> (number: u128)
    ensures
        number == be_number(bytes@),
{
    let mut number: u128 = 0;
    let mut i: usize = 0;
    proof {
        vstd::arithmetic::power::lemma_pow0(256);
    }
    while i < 16
        invariant
            i <= 16,
            number == be_number(bytes@.take(i as int)),
            number < vstd::arithmetic::power::pow(256, i as nat),
        decreases 16 - i,
    {
        proof {
            lemma_pow256(i as nat);
            assert(bytes@.take(i + 1).drop_last() =~= bytes@.take(i as int));
            assert(bytes@.take(i + 1).last() == bytes@[i as int]);
        }
        number = number * 256 + bytes[i] as u128;
        i = i + 1;
    }
    proof {
        assert(bytes@.take(16) =~= bytes@);
    }
    number
}

/// The identifier of a text: the number that its MD5 digest spells.
pub fn id_of_text(text: &str) -> (id: Id)
    ensures
        id == text_id(text@),
{
    let digest = md5_compute(text);
    number_from_be_bytes(digest)
}

/// A number spells its bytes: divided by 256 as often as there are bytes behind it, it leaves
/// each of them as the remainder, highest byte first.
pub proof fn law_number_spells_its_bytes(bytes: Seq<u8>, k: int)
    requires
        0 <= k < bytes.len(),
    ensures
        be_number(bytes) < vstd::arithmetic::power::pow(256, bytes.len()),
        (be_number(bytes) as int / vstd::arithmetic::power::pow(
            256,
            (bytes.len() - 1 - k) as nat,
        )) % 256 == bytes[k],
    decreases bytes.len(),
{
    let front = bytes.drop_last();
    let last = bytes.last() as int;
    let n = be_number(bytes) as int;
    let m = be_number(front) as int;
    vstd::arithmetic::power::lemma_pow_positive(256, front.len());
    vstd::arithmetic::power::lemma_pow0(256);
    assert(vstd::arithmetic::power::pow(256, bytes.len()) == 256 * vstd::arithmetic::power::pow(
        256,
        front.len(),
    )) by {
        reveal(vstd::arithmetic::power::pow);
    }
    if front.len() > 0 {
        law_number_spells_its_bytes(front, 0);
    }
    assert(m < vstd::arithmetic::power::pow(256, front.len()));
    assert(n / 256 == m && n % 256 == last) by (nonlinear_arith)
        requires
            n == m * 256 + last,
            0 <= m,
            0 <= last < 256,
    ;
    if k < front.len() {
        law_number_spells_its_bytes(front, k);
        let behind = (front.len() - 1 - k) as nat;
        let power = vstd::arithmetic::power::pow(256, behind);
        vstd::arithmetic::power::lemma_pow_positive(256, behind);
        assert(vstd::arithmetic::power::pow(256, behind + 1) == 256 * power) by {
            reveal(vstd::arithmetic::power::pow);
        }
        vstd::arithmetic::div_mod::lemma_div_denominator(n, 256, power);
        assert(bytes.len() - 1 - k == behind + 1);
    } else {
        assert(n / 1 == n);
    }
}

/// The identifier of a text holds the bytes of its digest, highest byte first.
pub proof fn law_id_spells_the_digest(text: Seq<char>, k: int)
    requires
        md5_digest(text).len() == 16,
        0 <= k < 16,
    ensures
        (text_id(text) as int / vstd::arithmetic::power::pow(256, (15 - k) as nat)) % 256
            == md5_digest(text)[k],
{
    law_number_spells_its_bytes(md5_digest(text), k);
    lemma_pow256(15);
}

proof fn lemma_pow256(i: nat)
    requires
        i < 16,
    ensures
        vstd::arithmetic::power::pow(256, i + 1) == 256 * vstd::arithmetic::power::pow(256, i),
        vstd::arithmetic::power::pow(256, i + 1) <= u128::MAX + 1,
{
    vstd::arithmetic::power::lemma_pow_increases(256, i + 1, 16);
    reveal(vstd::arithmetic::power::pow);
    assert(vstd::arithmetic::power::pow(256, 16) == 0x1_0000_0000_0000_0000_0000_0000_0000_0000) by {
        reveal_with_fuel(vstd::arithmetic::power::pow, 17);
    }
}

} // verus!
