//! The shapes in which the governance modules hand their data to the
//! indexer, and the parsing of the values that they hold as text.

use vstd::prelude::*;
use vstd::string::StringSliceAdditionalSpecFns;
use vstd::utf8::is_char_boundary;

verus! {

/// The name of a type of a module.
#[derive(Clone, Debug, PartialEq, Eq)]
pub struct TypeDef {
    pub account_address: String,
    pub module_name: String,
    pub struct_name: String,
}

/// An optional value as a module stores it: a vector that is empty or
/// holds the value.
#[derive(Clone, Debug, PartialEq, Eq)]
pub struct MoveOption<T> {
    pub vec: Vec<T>,
}

/// A table of a module: its handle and, as text, its length.
#[derive(Clone, Debug, PartialEq, Eq)]
pub struct MoveTable {
    pub inner: MoveTableHandle,
    pub length: String,
}

/// The handle of a table.
#[derive(Clone, Debug, PartialEq, Eq)]
pub struct MoveTableHandle {
    pub handle: String,
}

/// What an organization holds of one member.
#[derive(Clone, Debug, PartialEq, Eq)]
pub struct MemberDataType {
    pub member_metadata: MemberMetadata,
    pub role: String,
    pub status: i64,
}

/// What a member has done in an organization.
#[derive(Clone, Debug, PartialEq, Eq)]
pub struct MemberMetadata {
    pub proposal_created: i64,
    pub aptocracy_address: String,
}

/// A member has accepted a membership.
#[derive(Clone, Debug, PartialEq, Eq)]
pub struct AcceptMembershipEvent {
    pub member_address: String,
    pub organization_address: String,
    pub member_status: i64,
    pub role: String,
}

/// The treasury that a deposit record belongs to.
#[derive(Clone, Debug, PartialEq, Eq)]
pub struct TreasuryMetadata {
    pub governance_id: String,
    pub aptocracy_address: String,
}

/// The coin that a treasury holds.
#[derive(Clone, Debug, PartialEq, Eq)]
pub struct TreasuryCoin {
    pub account_address: String,
    pub module_name: String,
    pub struct_name: String,
}

/// The account on whose behalf a treasury signs.
#[derive(Clone, Debug, PartialEq, Eq)]
pub struct MoveSignerCapability {
    pub account: String,
}

/// A member has paid into a treasury.
#[derive(Clone, Debug, PartialEq, Eq)]
pub struct DepositRecordEvent {
    pub member_address: String,
    pub deposit_amount: String,
    pub accumulated_deposit_record_amount: String,
    pub treasury_metadata: TreasuryMetadata,
    pub treasury_address: String,
}

/// A member has drawn from a treasury.
#[derive(Clone, Debug, PartialEq, Eq)]
pub struct WithdrawEvent {
    pub member_address: String,
    pub withdraw_amount: String,
    pub accumulated_deposit_record_amount: String,
    pub treasury_metadata: TreasuryMetadata,
    pub treasury_address: String,
}

/// Whether `c` is a decimal digit.
pub open spec fn is_digit(c: char) -> bool {
    '0' <= c <= '9'
}

/// The number that the decimal digits `digits` spell; 0 for none.
pub open spec fn decimal_value(digits: Seq<char>) -> int
    decreases digits.len(),
{
    if digits.len() == 0 {
        0
    } else {
        10 * decimal_value(digits.drop_last()) + (digits.last() as int - '0' as int)
    }
}

/// The `i64` that the text `s` spells in decimal: an optional sign, `+` or
/// `-`, and then one digit or more, and nothing else; `None` for any other
/// text, and for a number that an `i64` cannot hold.
pub open spec fn parse_decimal(s: Seq<char>) -> Option<i64> {
    let signed = s.len() > 0 && (s[0] == '-' || s[0] == '+');
    let digits = if signed {
        s.skip(1)
    } else {
        s
    };
    let magnitude = decimal_value(digits);
    let value = if signed && s[0] == '-' {
        -magnitude
    } else {
        magnitude
    };
    if digits.len() == 0 || !(forall|i: int| 0 <= i < digits.len() ==> is_digit(#[trigger] digits[i]))
        || value < i64::MIN || value > i64::MAX {
        None
    } else {
        Some(value as i64)
    }
}

/// Calls `str::parse::<i64>` of the standard library, and keeps the number
/// where it returns one. Its documentation gives the contract: the text
/// is an optional sign followed by digits only; an empty text, any other
/// character, also at either end, and a number out of the range of `i64`
/// are errors.
#[verifier::external_body]
fn parse_i64(s: &str) -> (r: Option<i64>)
    ensures
        r == parse_decimal(s@),
{
    s.parse::<i64>().ok()
}

/// The number that an optional value of a module holds as text, if it
/// holds one. The text has to spell an `i64`.
pub fn parse_move_option(mvw: MoveOption<String>) -> (r: Option<i64>)
    requires
        mvw.vec@.len() > 0 ==> parse_decimal(mvw.vec@[0]@) is Some,
    ensures
        r == (if mvw.vec@.len() == 0 {
            None
        } else {
            parse_decimal(mvw.vec@[0]@)
        }),
{
    if mvw.vec.len() > 0 {
        parse_i64(mvw.vec[0].as_str())
    } else {
        None
    }
}

/// Whether `parse_move_option` takes `mvw`: it is empty, or its value
/// spells an `i64`.
pub fn is_parsable_move_option(mvw: &MoveOption<String>) -> (ok: bool)
    ensures
        ok == (mvw.vec@.len() > 0 ==> parse_decimal(mvw.vec@[0]@) is Some),
{
    if mvw.vec.len() > 0 {
        parse_i64(mvw.vec[0].as_str()).is_some()
    } else {
        true
    }
}

/// The text between the first and the last byte of `value`: what a module
/// hands out in quotes, without the quotes. Both bytes have to be
/// characters of their own.
pub fn parse_move_string(value: &str) -> (inner: &str)
    requires
        2 <= value.spec_bytes().len() <= usize::MAX,
        is_char_boundary(value.spec_bytes(), 1),
        is_char_boundary(value.spec_bytes(), value.spec_bytes().len() - 1),
    ensures
        inner.spec_bytes() == value.spec_bytes().subrange(1, value.spec_bytes().len() - 1),
{
    let ghost bytes = value.spec_bytes();
    let end: usize = value.len() - 1;
    proof {
        vstd::utf8::encode_utf8_valid_utf8(value@);
        vstd::utf8::valid_utf8_split(bytes, end as int);
    }
    let (head, _) = value.split_at(end);
    proof {
        if head.spec_bytes().len() > 1 {
            vstd::utf8::is_char_boundary_iff_not_is_continuation_byte(bytes, 1);
            vstd::utf8::is_char_boundary_iff_not_is_continuation_byte(head.spec_bytes(), 1);
        } else {
            vstd::utf8::is_char_boundary_start_end_of_seq(head.spec_bytes());
        }
    }
    let (_, inner) = head.split_at(1);
    assert(inner.spec_bytes() =~= bytes.subrange(1, bytes.len() - 1));
    inner
}

/// Whether `parse_move_string` takes `value`: it has two bytes or more,
/// and its first and its last byte are characters of their own.
pub fn is_quoted_move_string(value: &str) -> (ok: bool)
    requires
        value.spec_bytes().len() <= usize::MAX,
    ensures
        ok == (2 <= value.spec_bytes().len() && is_char_boundary(value.spec_bytes(), 1)
            && is_char_boundary(value.spec_bytes(), value.spec_bytes().len() - 1)),
{
    let len: usize = value.len();
    len >= 2 && value.is_char_boundary(1) && value.is_char_boundary(len - 1)
}

} // verus!
