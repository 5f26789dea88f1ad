//! Document identities: 128-bit values drawn from random v4 UUIDs, and their
//! hyphenated text form as stored in the log.
use vstd::prelude::*;

verus! {

/// 16 to the power `e`.
pub open spec fn pow16(e: nat) -> int
    decreases e,
{
    if e == 0 {
        1
    } else {
        16 * pow16((e - 1) as nat)
    }
}

/// The `k`-th hex digit of `id`, counted from the most significant one.
pub open spec fn nibble(id: u128, k: int) -> int {
    (id as int / pow16((31 - k) as nat)) % 16
}

/// The ASCII byte of a lower-case hex digit.
pub open spec fn hex_byte(n: int) -> u8 {
    if n < 10 {
        (48 + n) as u8
    } else {
        (87 + n) as u8
    }
}

/// Which hex digit sits at position `i` of the hyphenated text.
pub open spec fn digit_index(i: int) -> int {
    if i < 8 {
        i
    } else if i < 13 {
        i - 1
    } else if i < 18 {
        i - 2
    } else if i < 23 {
        i - 3
    } else {
        i - 4
    }
}

pub open spec fn is_hyphen_pos(i: int) -> bool {
    i == 8 || i == 13 || i == 18 || i == 23
}

/// The lower-case hyphenated text of an id, `xxxxxxxx-xxxx-xxxx-xxxx-xxxxxxxxxxxx`,
/// digits in big-endian order.
pub open spec fn uuid_text(id: u128) -> Seq<u8> {
    Seq::new(36, |i: int| if is_hyphen_pos(i) { 45u8 } else { hex_byte(nibble(id, digit_index(i))) })
}

/// A text in the form `uuid_text` gives: 36 bytes, hyphens at 8, 13, 18 and
/// 23, lower-case hex digits elsewhere.
pub open spec fn canonical_text(t: Seq<u8>) -> bool {
    &&& t.len() == 36
    &&& forall|i: int|
        0 <= i < 36 ==> if is_hyphen_pos(i) {
            t[i] == 45u8
        } else {
            (48u8 <= #[trigger] t[i] <= 57u8) || (97u8 <= t[i] <= 102u8)
        }
}

/// Whether a text is in canonical form.
pub fn is_canonical_text(t: &[u8]) -> (r: bool)
    ensures
        r == canonical_text(t@),
{
    if t.len() != 36 {
        return false;
    }
    let mut i: usize = 0;
    while i < 36
        invariant
            t@.len() == 36,
            i <= 36,
            forall|j: int|
                0 <= j < i ==> if is_hyphen_pos(j) {
                    t@[j] == 45u8
                } else {
                    (48u8 <= #[trigger] t@[j] <= 57u8) || (97u8 <= t@[j] <= 102u8)
                },
        decreases 36 - i,
    {
        let c = t[i];
        let ok = if i == 8 || i == 13 || i == 18 || i == 23 {
            c == 45u8
        } else {
            (48u8 <= c && c <= 57u8) || (97u8 <= c && c <= 102u8)
        };
        if !ok {
            return false;
        }
        i = i + 1;
    }
    true
}

/// Every byte of an id's text is a hex digit or a hyphen: none is a quote,
/// a brace or a newline.
pub proof fn lemma_uuid_text_bytes(id: u128)
    ensures
        uuid_text(id).len() == 36,
        canonical_text(uuid_text(id)),
        forall|i: int|
            0 <= i < 36 ==> (uuid_text(id)[i] == 45u8 || (48 <= uuid_text(id)[i] <= 57) || (97
                <= uuid_text(id)[i] <= 102)),
{
    assert forall|i: int| 0 <= i < 36 implies (uuid_text(id)[i] == 45u8 || (48 <= uuid_text(id)[i]
        <= 57) || (97 <= uuid_text(id)[i] <= 102)) by {
        if !is_hyphen_pos(i) {
            let n = nibble(id, digit_index(i));
            assert(0 <= n < 16);
        }
    }
}

/// Relies on uuid::Uuid::new_v4: a random id. Nothing is known of its value.
#[verifier::external_body]
pub(crate) fn random_id() -> (r: u128) {
    uuid::Uuid::new_v4().as_u128()
}

/// Relies on uuid::Uuid::from_u128 and the `Display` of `Hyphenated`: the
/// digits of the value in big-endian order, lower case, hyphenated 8-4-4-4-12.
#[verifier::external_body]
pub(crate) fn id_text(id: u128) -> (r: Vec<u8>)
    ensures
        r@ == uuid_text(id),
{
    uuid::Uuid::from_u128(id).hyphenated().to_string().into_bytes()
}

/// Relies on uuid::Uuid::try_parse_ascii and Uuid::as_u128: a hyphenated
/// lower-case text parses back to the value it was written from, and every
/// such text parses to the value whose text it is.
#[verifier::external_body]
pub(crate) fn parse_id(text: &[u8]) -> (r: Result<u128, uuid::Error>)
    ensures
        forall|x: u128| #[trigger] uuid_text(x) == text@ ==> (r is Ok && r->Ok_0 == x),
        canonical_text(text@) ==> (r is Ok && uuid_text(r->Ok_0) == text@),
{
    uuid::Uuid::try_parse_ascii(text).map(|u| u.as_u128())
}

#[verifier::external_type_specification]
#[verifier::external_body]
pub struct ExUuidError(uuid::Error);

} // verus!
