//! How the content hash reacts to a change of one field: the hashed text
//! changes, so the hash changes unless SHA-256 maps both texts to one digest.

use crate::hashing::{canonical_text, decimal_digits, decimal_text, digit_char};
use crate::hashing::{json_string_text, lemma_same_prefix, lemma_same_suffix, sha256_hex_text};
use crate::models::EntryView;
use vstd::prelude::*;

verus! {

/// The decimal digits of a number are never empty, begin with a digit, and
/// are more than one exactly from ten on.
pub proof fn lemma_digits_shape(n: nat)
    ensures
        decimal_digits(n).len() >= 1,
        n >= 10 ==> decimal_digits(n).len() >= 2,
        decimal_digits(n)[0] != '-',
    decreases n,
{
    if n >= 10 {
        lemma_digits_shape(n / 10);
        let front = decimal_digits(n / 10);
        assert(front.push(digit_char(n % 10))[0] == front[0]);
    }
}

/// Different numbers have different decimal digits.
pub proof fn lemma_digits_differ(n: nat, m: nat)
    requires
        n != m,
    ensures
        decimal_digits(n) != decimal_digits(m),
    decreases n,
{
    lemma_digits_shape(n);
    lemma_digits_shape(m);
    if n < 10 && m < 10 {
        assert(decimal_digits(n)[0] == digit_char(n));
        assert(decimal_digits(m)[0] == digit_char(m));
    } else if n >= 10 && m >= 10 {
        let a = decimal_digits(n / 10);
        let b = decimal_digits(m / 10);
        if decimal_digits(n) == decimal_digits(m) {
            assert(a.push(digit_char(n % 10)).drop_last() =~= a);
            assert(b.push(digit_char(m % 10)).drop_last() =~= b);
            assert(a.push(digit_char(n % 10)).last() == digit_char(n % 10));
            assert(b.push(digit_char(m % 10)).last() == digit_char(m % 10));
            assert(n % 10 == m % 10);
            if n / 10 != m / 10 {
                lemma_digits_differ(n / 10, m / 10);
            }
        }
    }
}

/// Different integers have different decimal texts.
pub proof fn lemma_decimal_texts_differ(n: int, m: int)
    requires
        n != m,
    ensures
        decimal_text(n) != decimal_text(m),
{
    let minus = seq!['-'];
    if n < 0 && m < 0 {
        lemma_digits_differ((-n) as nat, (-m) as nat);
        lemma_same_prefix(minus, decimal_digits((-n) as nat), decimal_digits((-m) as nat));
    } else if n >= 0 && m >= 0 {
        lemma_digits_differ(n as nat, m as nat);
    } else if n < 0 {
        lemma_digits_shape(m as nat);
        assert(decimal_text(n)[0] == '-');
    } else {
        lemma_digits_shape(n as nat);
        assert(decimal_text(m)[0] == '-');
    }
}

/// Two records differ in exactly one of `id`, `data`, `timestamp` and
/// `prevhash`.
pub open spec fn differ_in_one_field(first: EntryView, second: EntryView) -> bool {
    ||| (first.id != second.id && first.data == second.data && first.timestamp
        == second.timestamp && first.prevhash == second.prevhash)
    ||| (first.id == second.id && first.data != second.data && first.timestamp
        == second.timestamp && first.prevhash == second.prevhash)
    ||| (first.id == second.id && first.data == second.data && first.timestamp
        != second.timestamp && first.prevhash == second.prevhash)
    ||| (first.id == second.id && first.data == second.data && first.timestamp
        == second.timestamp && first.prevhash != second.prevhash)
}

/// Where the strings of the two records differ, their JSON literals differ.
pub open spec fn literals_differ(first: EntryView, second: EntryView) -> bool {
    &&& first.id != second.id ==> json_string_text(first.id) != json_string_text(second.id)
    &&& first.prevhash != second.prevhash ==> json_string_text(first.prevhash) != json_string_text(
        second.prevhash,
    )
}

/// The text that is hashed for a record.
pub open spec fn hashed_text(entry: EntryView) -> Seq<char> {
    canonical_text(entry.id, entry.data, entry.timestamp, entry.prevhash)
}

/// Changing one field of a record changes the text that is hashed for it; for
/// `id` and `prevhash`, as long as the changed string has another JSON literal.
pub proof fn law_one_field_changes_hashed_text(first: EntryView, second: EntryView)
    requires
        differ_in_one_field(first, second),
        literals_differ(first, second),
    ensures
        hashed_text(first) != hashed_text(second),
{
    let id1 = "{\"id\":"@ + json_string_text(first.id);
    let id2 = "{\"id\":"@ + json_string_text(second.id);
    if first.id != second.id {
        lemma_same_prefix("{\"id\":"@, json_string_text(first.id), json_string_text(second.id));
    }
    let key1 = id1 + ",\"data\":"@;
    let key2 = id2 + ",\"data\":"@;
    if id1 != id2 {
        lemma_same_suffix(id1, id2, ",\"data\":"@);
    }
    let data1 = key1 + first.data;
    let data2 = key2 + second.data;
    if key1 != key2 {
        lemma_same_suffix(key1, key2, first.data);
    } else if first.data != second.data {
        lemma_same_prefix(key1, first.data, second.data);
    }
    let stamp1 = data1 + ",\"timestamp\":"@;
    let stamp2 = data2 + ",\"timestamp\":"@;
    if data1 != data2 {
        lemma_same_suffix(data1, data2, ",\"timestamp\":"@);
    }
    let time1 = stamp1 + decimal_text(first.timestamp);
    let time2 = stamp2 + decimal_text(second.timestamp);
    if stamp1 != stamp2 {
        lemma_same_suffix(stamp1, stamp2, decimal_text(first.timestamp));
    } else if first.timestamp != second.timestamp {
        lemma_decimal_texts_differ(first.timestamp, second.timestamp);
        lemma_same_prefix(stamp1, decimal_text(first.timestamp), decimal_text(second.timestamp));
    }
    let link1 = time1 + ",\"prevhash\":"@;
    let link2 = time2 + ",\"prevhash\":"@;
    if time1 != time2 {
        lemma_same_suffix(time1, time2, ",\"prevhash\":"@);
    }
    let prev1 = link1 + json_string_text(first.prevhash);
    let prev2 = link2 + json_string_text(second.prevhash);
    if link1 != link2 {
        lemma_same_suffix(link1, link2, json_string_text(first.prevhash));
    } else if first.prevhash != second.prevhash {
        lemma_same_prefix(
            link1,
            json_string_text(first.prevhash),
            json_string_text(second.prevhash),
        );
    }
    if prev1 != prev2 {
        lemma_same_suffix(prev1, prev2, "}"@);
    }
    assert(hashed_text(first) == prev1 + "}"@);
    assert(hashed_text(second) == prev2 + "}"@);
}

/// Changing one field of a record changes its content hash, unless SHA-256
/// maps the two hashed texts to one digest; for `id` and `prevhash`, as long as
/// the changed string has another JSON literal.
pub proof fn law_one_field_changes_digest(first: EntryView, second: EntryView)
    requires
        differ_in_one_field(first, second),
        literals_differ(first, second),
        hashed_text(first) != hashed_text(second) ==> sha256_hex_text(hashed_text(first))
            != sha256_hex_text(hashed_text(second)),
    ensures
        first.digest() != second.digest(),
{
    law_one_field_changes_hashed_text(first, second);
}

} // verus!
