//! Object ids and their hexadecimal form.

use vstd::prelude::*;
use vstd::utf8::encode_utf8;

verus! {

/// The lower-case hexadecimal digit for `n`, which is below 16.
pub open spec fn hex_digit(n: int) -> char {
    if n < 10 {
        ('0' as int + n) as char
    } else {
        ('a' as int + n - 10) as char
    }
}

/// Whether `c` is a hexadecimal digit, of either case.
pub open spec fn is_hex_digit(c: char) -> bool {
    ||| '0' <= c <= '9'
    ||| 'a' <= c <= 'f'
    ||| 'A' <= c <= 'F'
}

/// What the hexadecimal digit `c` stands for.
pub open spec fn digit_value(c: char) -> int {
    if '0' <= c <= '9' {
        c as int - '0' as int
    } else if 'a' <= c <= 'f' {
        c as int - 'a' as int + 10
    } else {
        c as int - 'A' as int + 10
    }
}

/// The bytes `id` written as lower-case hexadecimal digits, two for a byte.
pub open spec fn hex(id: Seq<u8>) -> Seq<char> {
    Seq::new(
        2 * id.len(),
        |i: int| hex_digit(if i % 2 == 0 { id[i / 2] as int / 16 } else { id[i / 2] as int % 16 }),
    )
}

/// What the digit at position `i` of `s` stands for, 0 past its end.
pub open spec fn digit_at(s: Seq<char>, i: int) -> int {
    if i < s.len() {
        digit_value(s[i])
    } else {
        0
    }
}

/// The id that the digits `s` spell: digits that are missing at the end count as 0.
pub open spec fn spelled(s: Seq<char>) -> Seq<u8> {
    Seq::new(20, |i: int| (16 * digit_at(s, 2 * i) + digit_at(s, 2 * i + 1)) as u8)
}

/// Whether `s` is read as an object id: 1 to 40 hexadecimal digits.
pub open spec fn is_oid_text(s: Seq<char>) -> bool {
    &&& 0 < s.len() <= 40
    &&& forall|i: int| 0 <= i < s.len() ==> is_hex_digit(#[trigger] s[i])
}

/// Why a text that is no object id is refused.
pub open spec fn oid_failure(s: Seq<char>) -> Seq<char> {
    if s.len() == 0 {
        "unable to parse OID - too short; class=Invalid (3)"@
    } else if encode_utf8(s).len() > 40 {
        "unable to parse OID - too long; class=Invalid (3)"@
    } else {
        "unable to parse OID - contains invalid characters; class=Invalid (3)"@
    }
}

/// Calls `git2::Oid::from_str`. It accepts exactly the texts of 1 to 40
/// hexadecimal digits, of either case, and fills up with zeros the id that a
/// shorter text begins. Its error, printed, names the first of three faults:
/// no text, more than 40 bytes, a byte that is no hexadecimal digit.
#[verifier::external_body]
fn git_oid_from_str(s: &str) -> (r: Result<[u8; 20], String>)
    ensures
        r is Ok <==> is_oid_text(s@),
        r matches Ok(bytes) ==> bytes@ == spelled(s@),
        r matches Err(failure) ==> failure@ == oid_failure(s@),
{
    match git2::Oid::from_str(s) {
        Ok(oid) => Ok(oid.as_bytes().try_into().unwrap()),
        Err(e) => Err(e.to_string()),
    }
}

/// Calls `git2::Oid`'s `to_string`, on the id made of `bytes`: the 40
/// lower-case hexadecimal digits of its 20 bytes.
#[verifier::external_body]
fn git_oid_to_string(bytes: &[u8; 20]) -> (r: String)
    ensures
        r@ == hex(bytes@),
{
    git2::Oid::from_bytes(bytes).unwrap().to_string()
}

/// The id of an object.
#[derive(Clone, Copy, Debug)]
pub struct Oid {
    /// The id's bytes.
    pub bytes: [u8; 20],
}

impl View for Oid {
    type V = Seq<u8>;

    open spec fn view(&self) -> Seq<u8> {
        self.bytes@
    }
}

impl Oid {
    /// Reads an id from its hexadecimal form, which may be cut short.
    pub fn from_str(s: &str) -> (r: Result<Oid, String>)
        ensures
            r is Ok <==> is_oid_text(s@),
            r matches Ok(oid) ==> oid@ == spelled(s@),
            r matches Err(failure) ==> failure@ == oid_failure(s@),
            forall|id: Seq<u8>|
                id.len() == 20 && s@ == #[trigger] hex(id) ==> (r matches Ok(oid) && oid@ == id),
            r matches Ok(oid) ==> forall|i: int|
                0 <= i < s@.len() ==> digit_value(#[trigger] hex(oid@)[i]) == digit_value(s@[i]),
    {
        proof {
            lemma_reads_what_is_written(s@);
        }
        match git_oid_from_str(s) {
            Ok(bytes) => Ok(Oid { bytes }),
            Err(failure) => Err(failure),
        }
    }

    /// The id as 40 lower-case hexadecimal digits.
    pub fn to_string(&self) -> (r: String)
        ensures
            r@ == hex(self@),
            r@.len() == 40,
            r.is_ascii(),
    {
        let text = git_oid_to_string(&self.bytes);
        proof {
            lemma_hex_is_ascii(self@);
        }
        text
    }
}

impl PartialEq for Oid {
    fn eq(&self, other: &Oid) -> (r: bool) {
        let mut i: usize = 0;
        while i < 20
            invariant
                i <= 20,
                forall|j: int| 0 <= j < i ==> self.bytes@[j] == other.bytes@[j],
            decreases 20 - i,
        {
            if self.bytes[i] != other.bytes[i] {
                assert(self@[i as int] != other@[i as int]);
                return false;
            }
            i = i + 1;
        }
        assert(self@ =~= other@);
        true
    }
}

impl vstd::std_specs::cmp::PartialEqSpecImpl for Oid {
    open spec fn obeys_eq_spec() -> bool {
        true
    }

    open spec fn eq_spec(&self, other: &Oid) -> bool {
        self@ == other@
    }
}

impl Eq for Oid {

}

proof fn lemma_hex_is_ascii(id: Seq<u8>)
    ensures
        vstd::utf8::is_ascii_chars(hex(id)),
{
    assert forall|i: int| 0 <= i < hex(id).len() implies 0 <= #[trigger] hex(id)[i] as u32 <= 127 by {
        assert(0 <= id[i / 2] as int / 16 < 16);
    }
}

/// Digits of `hex` are lower-case hexadecimal digits.
pub proof fn lemma_hex_digits(id: Seq<u8>)
    ensures
        hex(id).len() == 2 * id.len(),
        forall|i: int| 0 <= i < hex(id).len() ==> is_hex_digit(#[trigger] hex(id)[i]),
{
    assert forall|i: int| 0 <= i < hex(id).len() implies is_hex_digit(#[trigger] hex(id)[i]) by {
        assert(0 <= id[i / 2] as int / 16 < 16);
    }
}

/// Digits of `hex` are lower-case ones.
pub proof fn lemma_hex_is_lower_case(id: Seq<u8>, i: int)
    requires
        0 <= i < hex(id).len(),
    ensures
        '0' <= hex(id)[i] <= '9' || 'a' <= hex(id)[i] <= 'f',
{
    assert(0 <= id[i / 2] as int / 16 < 16);
}

/// An id read from its own hexadecimal form is the same id.
pub proof fn law_oid_round_trip(id: Seq<u8>)
    requires
        id.len() == 20,
    ensures
        is_oid_text(hex(id)),
        spelled(hex(id)) == id,
{
    lemma_hex_digits(id);
    let text = hex(id);
    assert forall|i: int| 0 <= i < 20 implies spelled(text)[i] == id[i] by {
        assert(text[2 * i] == hex_digit(id[i] as int / 16)) by {
            assert((2 * i) % 2 == 0 && (2 * i) / 2 == i);
        }
        assert(text[2 * i + 1] == hex_digit(id[i] as int % 16)) by {
            assert((2 * i + 1) % 2 == 1 && (2 * i + 1) / 2 == i);
        }
        assert(0 <= id[i] as int / 16 < 16);
    }
    assert(spelled(text) =~= id);
}

/// A text that is read as an id begins the hexadecimal form of that id, but for the
/// case of its digits, and zeros fill the rest of it.
pub proof fn law_read_id_spells_its_text(text: Seq<char>, i: int)
    requires
        is_oid_text(text),
        0 <= i < 40,
    ensures
        spelled(text).len() == 20,
        hex(spelled(text)).len() == 40,
        if i < text.len() {
            digit_value(hex(spelled(text))[i]) == digit_value(text[i])
        } else {
            hex(spelled(text))[i] == '0'
        },
        i < text.len() && !('A' <= text[i] <= 'F') ==> hex(spelled(text))[i] == text[i],
{
    let k = i / 2;
    assert(2 * k < text.len() ==> is_hex_digit(text[2 * k]));
    assert(2 * k + 1 < text.len() ==> is_hex_digit(text[2 * k + 1]));
    assert(i == 2 * k || i == 2 * k + 1);
    let high = digit_at(text, 2 * k);
    let low = digit_at(text, 2 * k + 1);
    assert(0 <= high < 16 && 0 <= low < 16);
    assert(spelled(text)[k] == 16 * high + low);
    assert((16 * high + low) / 16 == high && (16 * high + low) % 16 == low);
}

/// A text of 40 lower-case digits is the hexadecimal form of the id that is read
/// from it.
pub proof fn law_canonical_text_round_trip(text: Seq<char>)
    requires
        text.len() == 40,
        forall|i: int|
            0 <= i < text.len() ==> '0' <= #[trigger] text[i] <= '9' || 'a' <= text[i] <= 'f',
    ensures
        is_oid_text(text),
        hex(spelled(text)) == text,
{
    assert forall|i: int| 0 <= i < 40 implies hex(spelled(text))[i] == text[i] by {
        law_read_id_spells_its_text(text, i);
    }
    assert(hex(spelled(text)) =~= text);
}

/// Reading an id is the inverse of writing it.
proof fn lemma_reads_what_is_written(text: Seq<char>)
    ensures
        forall|id: Seq<u8>|
            id.len() == 20 && text == #[trigger] hex(id) ==> is_oid_text(text) && spelled(text)
                == id,
        is_oid_text(text) ==> forall|i: int|
            0 <= i < text.len() ==> digit_value(#[trigger] hex(spelled(text))[i]) == digit_value(
                text[i],
            ),
{
    assert forall|id: Seq<u8>| id.len() == 20 && text == #[trigger] hex(id) implies is_oid_text(
        text,
    ) && spelled(text) == id by {
        law_oid_round_trip(id);
    }
    if is_oid_text(text) {
        assert forall|i: int| 0 <= i < text.len() implies digit_value(
            #[trigger] hex(spelled(text))[i],
        ) == digit_value(text[i]) by {
            law_read_id_spells_its_text(text, i);
        }
    }
}

/// Two ids with the same hexadecimal form are the same id.
pub proof fn law_hex_is_injective(a: Seq<u8>, b: Seq<u8>)
    requires
        a.len() == 20,
        b.len() == 20,
        hex(a) == hex(b),
    ensures
        a == b,
{
    law_oid_round_trip(a);
    law_oid_round_trip(b);
}

} // verus!
