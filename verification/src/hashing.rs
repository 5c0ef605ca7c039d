//! Digests and canonical text: the few calls into `sha2`, `serde_json` and
//! `chrono` that the ledger rests on, and the verified framing around them.

use sha2::{Digest, Sha256};
use vstd::prelude::*;
use vstd::string::*;

verus! {

/// The lowercase hexadecimal SHA-256 digest of the UTF-8 bytes of `text`.
pub uninterp spec fn sha256_hex_text(text: Seq<char>) -> Seq<char>;

/// The JSON string literal that stands for `text`: quoted, with the escapes
/// that `serde_json` writes.
pub uninterp spec fn json_string_text(text: Seq<char>) -> Seq<char>;

/// The decimal digit for a value below ten.
pub open spec fn digit_char(d: nat) -> char {
    if d == 0 {
        '0'
    } else if d == 1 {
        '1'
    } else if d == 2 {
        '2'
    } else if d == 3 {
        '3'
    } else if d == 4 {
        '4'
    } else if d == 5 {
        '5'
    } else if d == 6 {
        '6'
    } else if d == 7 {
        '7'
    } else if d == 8 {
        '8'
    } else {
        '9'
    }
}

/// The decimal digits of a natural number, most significant first, without
/// leading zeros.
pub open spec fn decimal_digits(n: nat) -> Seq<char>
    decreases n,
{
    if n < 10 {
        seq![digit_char(n)]
    } else {
        decimal_digits(n / 10).push(digit_char(n % 10))
    }
}

/// The decimal text of an integer: a minus sign for a negative one, then its
/// digits.
pub open spec fn decimal_text(n: int) -> Seq<char> {
    if n < 0 {
        seq!['-'] + decimal_digits((-n) as nat)
    } else {
        decimal_digits(n as nat)
    }
}

/// Trusted: `sha2::Sha256::digest` on the bytes of `text`, the 32-byte digest
/// rendered with `{:x}`. The contract only names the result: the same text
/// always gives the same digest.
#[verifier::external_body]
pub(crate) fn sha256_hex(text: &str) -> (digest: String)
    ensures
        digest@ == sha256_hex_text(text@),
{
    format!("{:x}", Sha256::digest(text))
}

/// Trusted: `serde_json::to_string` on a string slice. Writing a string into an
/// in-memory buffer cannot fail, so the result is always present; its text is
/// named, not spelled out.
#[verifier::external_body]
pub(crate) fn json_string(text: &str) -> (quoted: Option<String>)
    ensures
        quoted is Some,
        quoted->Some_0@ == json_string_text(text@),
{
    serde_json::to_string(text).ok()
}

/// Trusted: `serde_json::to_string` on an `i64`, which writes the integer in
/// decimal, with a leading minus sign when it is negative.
#[verifier::external_body]
pub(crate) fn json_integer(value: i64) -> (rendered: Option<String>)
    ensures
        rendered is Some,
        rendered->Some_0@ == decimal_text(value as int),
{
    serde_json::to_string(&value).ok()
}

/// Trusted: `chrono::Utc::now().timestamp()`, the seconds since the Unix epoch
/// on the machine's clock. Nothing is promised about the value. `chrono`
/// panics where the clock stands before the epoch; no contract can rule that
/// out.
#[verifier::external_body]
pub(crate) fn unix_now() -> i64 {
    chrono::Utc::now().timestamp()
}

/// The text that is hashed for a record: a JSON object whose keys come in the
/// fixed order `id`, `data`, `timestamp`, `prevhash`, written without
/// whitespace. `data` is the payload's own JSON text and is embedded as it is.
pub open spec fn canonical_text(
    id: Seq<char>,
    data: Seq<char>,
    timestamp: int,
    prevhash: Seq<char>,
) -> Seq<char> {
    "{\"id\":"@ + json_string_text(id) + ",\"data\":"@ + data + ",\"timestamp\":"@ + decimal_text(
        timestamp,
    ) + ",\"prevhash\":"@ + json_string_text(prevhash) + "}"@
}

/// The content hash of a record with these four fields.
pub open spec fn record_digest(
    id: Seq<char>,
    data: Seq<char>,
    timestamp: int,
    prevhash: Seq<char>,
) -> Seq<char> {
    sha256_hex_text(canonical_text(id, data, timestamp, prevhash))
}

/// The hash of the concatenation `left || right`, the parent of two nodes of a
/// Merkle tree.
pub open spec fn parent_digest(left: Seq<char>, right: Seq<char>) -> Seq<char> {
    sha256_hex_text(left + right)
}

/// Builds the canonical text of a record.
pub fn canonical_form(id: &str, data: &str, timestamp: i64, prevhash: &str) -> (text: String)
    ensures
        text@ == canonical_text(id@, data@, timestamp as int, prevhash@),
{
    let quoted_id = json_string(id).unwrap();
    let rendered = json_integer(timestamp).unwrap();
    let quoted_prev = json_string(prevhash).unwrap();
    let mut text = String::from_str("{\"id\":");
    text.append(quoted_id.as_str());
    text.append(",\"data\":");
    text.append(data);
    text.append(",\"timestamp\":");
    text.append(rendered.as_str());
    text.append(",\"prevhash\":");
    text.append(quoted_prev.as_str());
    text.append("}");
    text
}

/// Hashes the canonical text of a record's four logical fields.
pub fn hash_fields(id: &str, data: &str, timestamp: i64, prevhash: &str) -> (digest: String)
    ensures
        digest@ == record_digest(id@, data@, timestamp as int, prevhash@),
{
    let text = canonical_form(id, data, timestamp, prevhash);
    sha256_hex(text.as_str())
}

/// Hashes `left || right`.
pub fn hash_pair(left: &str, right: &str) -> (digest: String)
    ensures
        digest@ == parent_digest(left@, right@),
{
    let mut combined = String::from_str(left);
    combined.append(right);
    sha256_hex(combined.as_str())
}

/// Texts that differ still differ with the same text put before them.
pub proof fn lemma_same_prefix(prefix: Seq<char>, a: Seq<char>, b: Seq<char>)
    requires
        a != b,
    ensures
        prefix + a != prefix + b,
{
    if prefix + a == prefix + b {
        assert(a.len() == (prefix + a).len() - prefix.len());
        assert(b.len() == (prefix + b).len() - prefix.len());
        assert forall|i: int| 0 <= i < a.len() implies a[i] == b[i] by {
            assert(a[i] == (prefix + a)[prefix.len() + i]);
            assert(b[i] == (prefix + b)[prefix.len() + i]);
        }
        assert(a =~= b);
    }
}

/// Texts that differ still differ with the same text put after them.
pub proof fn lemma_same_suffix(a: Seq<char>, b: Seq<char>, suffix: Seq<char>)
    requires
        a != b,
    ensures
        a + suffix != b + suffix,
{
    if a + suffix == b + suffix {
        assert(a.len() == (a + suffix).len() - suffix.len());
        assert(b.len() == (b + suffix).len() - suffix.len());
        assert forall|i: int| 0 <= i < a.len() implies a[i] == b[i] by {
            assert(a[i] == (a + suffix)[i]);
            assert(b[i] == (b + suffix)[i]);
        }
        assert(a =~= b);
    }
}

} // verus!
