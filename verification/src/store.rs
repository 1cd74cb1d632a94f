//! Challenge identity and creation.
//!
//! A challenge id is the first three bytes of a SHA-1 digest over the
//! author's name, the decimal form of the creation timestamp, and the title,
//! written as six lower-case hex characters. The id is an unguessable,
//! practically-unique short token, not a security boundary.

use vstd::prelude::*;
use crate::challenge::{Challenge, TextBlock};
use crate::numerals::{dec_of, hex_byte, hex_digit, is_hex_char, push_hex_byte};
use crate::text::push_char;

verus! {

/// What `sha1::Sha1` returns on a given byte string.
pub uninterp spec fn sha1_of(bytes: Seq<u8>) -> Seq<u8>;

/// Relies on `sha1::Sha1` through `digest::Digest::digest`: the SHA-1 digest
/// is a function of the input bytes alone, and is twenty bytes long.
#[verifier::external_body]
fn sha1_digest(bytes: &Vec<u8>) -> (r: Vec<u8>)
    ensures
        r@ == sha1_of(bytes@),
        r@.len() == 20,
{
    let d = <sha1::Sha1 as sha1::Digest>::digest(bytes.as_slice());
    d.to_vec()
}

/// The decimal numeral of a possibly negative number.
pub open spec fn dec_of_int(n: int) -> Seq<char> {
    if n < 0 {
        seq!['-'] + dec_of((-n) as nat)
    } else {
        dec_of(n as nat)
    }
}

/// Prints a signed number in decimal.
pub fn i64_to_dec(n: i64) -> (s: String)
    ensures
        s@ == dec_of_int(n as int),
{
    if n >= 0 {
        crate::numerals::u64_to_dec(n as u64)
    } else {
        let m: u64 = ((-(n + 1)) as u64) + 1;
        proof {
            assert(m == -(n as int));
        }
        let mut s = String::new();
        push_char(&mut s, '-');
        let digits = crate::numerals::u64_to_dec(m);
        s.append(digits.as_str());
        proof {
            assert(s@ =~= seq!['-'] + dec_of((-(n as int)) as nat));
        }
        s
    }
}

/// The bytes the id digest is taken over: author, decimal timestamp, title.
pub open spec fn id_seed(author: Seq<char>, timestamp: int, title: Seq<char>) -> Seq<u8> {
    vstd::utf8::encode_utf8(author) + vstd::utf8::encode_utf8(dec_of_int(timestamp))
        + vstd::utf8::encode_utf8(title)
}

/// The id assigned to a challenge: six lower-case hex characters of the
/// first three digest bytes.
pub open spec fn id_of(author: Seq<char>, timestamp: int, title: Seq<char>) -> Seq<char> {
    let d = sha1_of(id_seed(author, timestamp, title));
    hex_byte(d[0]) + hex_byte(d[1]) + hex_byte(d[2])
}

/// Computes the id of a challenge. Identical `(author, timestamp, title)`
/// always yield the identical id.
pub fn challenge_id(author: &String, timestamp: i64, title: &String) -> (r: String)
    ensures
        r@ == id_of(author@, timestamp as int, title@),
        r@.len() == 6,
        forall|i: int| 0 <= i < 6 ==> is_hex_char(#[trigger] r@[i]),
{
    let mut bytes = author.as_str().as_bytes_vec();
    let ts = i64_to_dec(timestamp);
    let mut ts_bytes = ts.as_str().as_bytes_vec();
    bytes.append(&mut ts_bytes);
    let mut title_bytes = title.as_str().as_bytes_vec();
    bytes.append(&mut title_bytes);
    proof {
        assert(bytes@ =~= id_seed(author@, timestamp as int, title@));
    }
    let digest = sha1_digest(&bytes);
    let mut id = String::new();
    push_hex_byte(&mut id, digest[0]);
    push_hex_byte(&mut id, digest[1]);
    push_hex_byte(&mut id, digest[2]);
    proof {
        let d = sha1_of(id_seed(author@, timestamp as int, title@));
        assert(id@ =~= hex_byte(d[0]) + hex_byte(d[1]) + hex_byte(d[2]));
        assert forall|i: int| 0 <= i < 6 implies is_hex_char(#[trigger] id@[i]) by {
            let b = d[i / 2];
            vstd::arithmetic::div_mod::lemma_fundamental_div_mod(b as int, 16);
            assert(0 <= b as int / 16 < 16);
            assert(0 <= b as int % 16 < 16);
            crate::numerals::lemma_hex_digit_is_hex(b as int / 16);
            crate::numerals::lemma_hex_digit_is_hex(b as int % 16);
            assert(id@[i] == hex_digit(b as int / 16) || id@[i] == hex_digit(b as int % 16));
        }
    }
    id
}

/// Builds a fresh challenge: computes the id from `(author, timestamp,
/// title)` and starts an empty submission ledger.
pub fn create(
    title: String,
    input: TextBlock,
    output: TextBlock,
    author: &String,
    timestamp: i64,
) -> (r: Challenge)
    requires
        input@.content.len() > 0,
        output@.content.len() > 0,
    ensures
        r@.id == id_of(author@, timestamp as int, title@),
        r@.title == title@,
        r@.input == input@,
        r@.output == output@,
        r@.created_at == timestamp as int,
        r@.submissions == Seq::<crate::challenge::SubmissionView>::empty(),
        r.well_formed(),
{
    let id = challenge_id(author, timestamp, &title);
    Challenge::new(title, input, output, id, timestamp)
}

/// The durable-storage key of a challenge id.
pub fn filename(id: &String) -> (r: String)
    ensures
        r@ == "challenge_"@ + id@ + ".golf"@,
{
    let mut s = String::new();
    s.append("challenge_");
    s.append(id.as_str());
    s.append(".golf");
    s
}

/// Of the still-live challenges, the one created last (ties resolved to the
/// earliest listed), or none where none are live.
pub fn most_recent(mut challs: Vec<Challenge>) -> (r: Option<Challenge>)
    ensures
        match r {
            None => challs@.len() == 0,
            Some(c) => {
                &&& exists|i: int| 0 <= i < challs@.len() && c == challs@[i]
                &&& forall|j: int|
                    0 <= j < challs@.len() ==> challs@[j].created_at <= c.created_at
            },
        },
{
    if challs.len() == 0 {
        return None;
    }
    let ghost orig = challs@;
    let mut best: usize = 0;
    let mut k: usize = 1;
    while k < challs.len()
        invariant
            challs@ == orig,
            best < k <= challs@.len(),
            forall|j: int| 0 <= j < k ==> challs@[j].created_at <= challs@[best as int].created_at,
        decreases challs@.len() - k,
    {
        if challs[k].created_at > challs[best].created_at {
            best = k;
        }
        k = k + 1;
    }
    let c = challs.remove(best);
    Some(c)
}

} // verus!
