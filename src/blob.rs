//! The on-disk and on-wire form of an encrypted blob: the JSON object
//! `{"ciphertext":[..],"nonce":[..]}` with each byte written in decimal, and
//! for the remote mirror that JSON in standard base64.

use crate::error::SyncError;
use base64::engine::general_purpose::STANDARD;
use base64::Engine;
use vstd::prelude::*;

verus! {

/// The error of the base64 decoder.
#[verifier::external_type_specification]
#[verifier::external_body]
pub struct ExDecodeError(base64::DecodeError);

/// Standard base64 (with padding) of a byte sequence, as ASCII bytes.
pub uninterp spec fn b64_of(data: Seq<u8>) -> Seq<u8>;

/// A byte of the standard base64 alphabet, padding included.
pub open spec fn is_b64_byte(c: u8) -> bool {
    (65 <= c <= 90) || (97 <= c <= 122) || (48 <= c <= 57) || c == 43 || c == 47 || c == 61
}

/// Relies on `base64::engine::general_purpose::STANDARD.encode`: the output is
/// written in the standard alphabet with `=` padding.
#[verifier::external_body]
fn b64_encode(data: &[u8]) -> (r: Vec<u8>)
    ensures
        r@ == b64_of(data@),
        forall|i: int| 0 <= i < r@.len() ==> is_b64_byte(#[trigger] r@[i]),
{
    STANDARD.encode(data).into_bytes()
}

/// The bytes a decoding produced, if it succeeded.
pub open spec fn decoded(r: Result<Vec<u8>, base64::DecodeError>) -> Option<Seq<u8>> {
    match r {
        Ok(w) => Some(w@),
        Err(_) => None,
    }
}

/// `decoded` is what was encoded whenever `text` is the base64 form of
/// some bytes.
pub open spec fn inverts_b64(text: Seq<u8>, decoded: Option<Seq<u8>>) -> bool {
    forall|v: Seq<u8>| #[trigger] b64_of(v) == text ==> decoded == Some(v)
}

/// Relies on `base64::engine::general_purpose::STANDARD.decode`: decoding what
/// the same engine encoded gives the encoded bytes back, and since the engine
/// requires canonical padding and no trailing bits, only such text decodes.
#[verifier::external_body]
fn b64_decode(text: &[u8]) -> (r: Result<Vec<u8>, base64::DecodeError>)
    ensures
        inverts_b64(text@, decoded(r)),
        r matches Ok(v) ==> b64_of(v@) == text@,
{
    STANDARD.decode(text)
}

/// A sealed payload and the nonce it was sealed under.
#[derive(Debug, Clone, PartialEq, Eq)]
pub struct EncryptedBlob {
    pub ciphertext: Vec<u8>,
    pub nonce: [u8; 24],
}

pub open spec fn is_digit(c: u8) -> bool {
    48 <= c <= 57
}

/// The shortest decimal form of a byte.
pub open spec fn dec(b: u8) -> Seq<u8> {
    if b < 10 {
        seq![(48 + b) as u8]
    } else if b < 100 {
        seq![(48 + b / 10) as u8, (48 + b % 10) as u8]
    } else {
        seq![(48 + b / 100) as u8, (48 + (b / 10) % 10) as u8, (48 + b % 10) as u8]
    }
}

/// The comma-separated decimal forms of the bytes.
pub open spec fn items(s: Seq<u8>) -> Seq<u8>
    decreases s.len(),
{
    if s.len() == 0 {
        Seq::empty()
    } else if s.len() == 1 {
        dec(s[0])
    } else {
        items(s.drop_last()) + seq![44u8] + dec(s.last())
    }
}

/// A JSON array of the bytes.
pub open spec fn json_array(s: Seq<u8>) -> Seq<u8> {
    seq![91u8] + items(s) + seq![93u8]
}

/// `{"ciphertext":`
pub open spec fn ciphertext_key() -> Seq<u8> {
    seq![123u8, 34, 99, 105, 112, 104, 101, 114, 116, 101, 120, 116, 34, 58]
}

/// `,"nonce":`
pub open spec fn nonce_key() -> Seq<u8> {
    seq![44u8, 34, 110, 111, 110, 99, 101, 34, 58]
}

/// The JSON form of a blob.
pub open spec fn blob_json(ciphertext: Seq<u8>, nonce: Seq<u8>) -> Seq<u8> {
    ciphertext_key() + json_array(ciphertext) + nonce_key() + json_array(nonce) + seq![125u8]
}

fn push_ciphertext_key(out: &mut Vec<u8>)
    ensures
        final(out)@ == old(out)@ + ciphertext_key(),
{
    out.push(123);
    out.push(34);
    out.push(99);
    out.push(105);
    out.push(112);
    out.push(104);
    out.push(101);
    out.push(114);
    out.push(116);
    out.push(101);
    out.push(120);
    out.push(116);
    out.push(34);
    out.push(58);
    assert(out@ =~= old(out)@ + ciphertext_key());
}

fn push_nonce_key(out: &mut Vec<u8>)
    ensures
        final(out)@ == old(out)@ + nonce_key(),
{
    out.push(44);
    out.push(34);
    out.push(110);
    out.push(111);
    out.push(110);
    out.push(99);
    out.push(101);
    out.push(34);
    out.push(58);
    assert(out@ =~= old(out)@ + nonce_key());
}

fn push_decimal(out: &mut Vec<u8>, b: u8)
    ensures
        final(out)@ == old(out)@ + dec(b),
{
    if b < 10 {
        out.push(48 + b);
    } else if b < 100 {
        out.push(48 + b / 10);
        out.push(48 + b % 10);
    } else {
        out.push(48 + b / 100);
        out.push(48 + (b / 10) % 10);
        out.push(48 + b % 10);
    }
    assert(out@ =~= old(out)@ + dec(b));
}

proof fn lemma_items_step(s: Seq<u8>, k: int)
    requires
        0 <= k < s.len(),
    ensures
        items(s.take(k + 1)) == items(s.take(k)) + (if k == 0 { Seq::<u8>::empty() } else { seq![44u8] }) + dec(s[k]),
{
    assert(s.take(k + 1).drop_last() =~= s.take(k));
    if k == 0 {
        assert(items(s.take(0)) =~= Seq::<u8>::empty());
        assert(items(s.take(1)) == dec(s[0]));
        assert(Seq::<u8>::empty() + Seq::<u8>::empty() + dec(s[0]) =~= dec(s[0]));
    }
}

fn push_json_array(out: &mut Vec<u8>, s: &[u8])
    ensures
        final(out)@ == old(out)@ + json_array(s@),
{
    out.push(91);
    let mut i: usize = 0;
    assert(items(s@.take(0)) =~= Seq::<u8>::empty());
    while i < s.len()
        invariant
            i <= s@.len(),
            out@ == old(out)@ + seq![91u8] + items(s@.take(i as int)),
        decreases s@.len() - i,
    {
        proof {
            lemma_items_step(s@, i as int);
        }
        if i > 0 {
            out.push(44);
        }
        push_decimal(out, s[i]);
        assert(out@ =~= old(out)@ + seq![91u8] + items(s@.take(i as int + 1)));
        i = i + 1;
    }
    assert(s@.take(i as int) =~= s@);
    out.push(93);
    assert(out@ =~= old(out)@ + json_array(s@));
}

/// Reads the decimal form of one byte at `q`, followed by a non-digit.
fn parse_byte(input: &[u8], q: usize) -> (r: Option<(u8, usize)>)
    requires
        q <= input@.len(),
    ensures
        r matches Some((b, e)) ==> q < e <= input@.len(),
        forall|b: u8|
            q + dec(b).len() <= input@.len() && input@.subrange(q as int, q + dec(b).len()) == #[trigger] dec(b)
                && (q + dec(b).len() == input@.len() || !is_digit(input@[q + dec(b).len()]))
                ==> r == Some((b, (q + dec(b).len()) as usize)),
{
    let mut value: u32 = 0;
    let mut e: usize = q;
    while e < input.len() && e - q < 3 && 48 <= input[e] && input[e] <= 57
        invariant
            q <= e <= q + 3,
            e <= input@.len(),
            value < 1000,
            e == q ==> value == 0,
            e == q + 1 ==> value == input@[q as int] - 48,
            e == q + 2 ==> value == (input@[q as int] - 48) * 10 + (input@[q + 1] - 48),
            e == q + 3 ==> value == ((input@[q as int] - 48) * 10 + (input@[q + 1] - 48)) * 10 + (input@[q + 2] - 48),
            forall|j: int| q <= j < e ==> is_digit(#[trigger] input@[j]),
        decreases q + 3 - e,
    {
        value = value * 10 + (input[e] - 48) as u32;
        e = e + 1;
    }
    assert forall|b: u8|
        q + dec(b).len() <= input@.len() && input@.subrange(q as int, q + dec(b).len()) == #[trigger] dec(b)
            && (q + dec(b).len() == input@.len() || !is_digit(input@[q + dec(b).len()]))
            implies e == q + dec(b).len() && value == b by {
        let d = dec(b);
        assert(forall|j: int| 0 <= j < d.len() ==> input@[q + j] == #[trigger] d[j]);
        if b < 10 {
            assert(input@[q as int] == d[0]);
        } else if b < 100 {
            assert(input@[q as int] == d[0] && input@[q + 1] == d[1]);
            assert((b / 10) * 10 + b % 10 == b);
        } else {
            assert(input@[q as int] == d[0] && input@[q + 1] == d[1] && input@[q + 2] == d[2]);
            assert(((b / 100) * 10 + (b / 10) % 10) * 10 + b % 10 == b);
        }
    }
    if e == q || value > 255 {
        None
    } else {
        Some((value as u8, e))
    }
}

/// `input` holds the JSON array of `s` at `pos`.
pub open spec fn array_at(input: Seq<u8>, pos: int, s: Seq<u8>) -> bool {
    &&& pos + json_array(s).len() <= input.len()
    &&& input.subrange(pos, pos + json_array(s).len()) == json_array(s)
}

proof fn lemma_items_prefix(s: Seq<u8>, j: int)
    requires
        0 <= j <= s.len(),
    ensures
        items(s.take(j)).len() <= items(s).len(),
        forall|i: int| 0 <= i < items(s.take(j)).len() ==> items(s)[i] == #[trigger] items(s.take(j))[i],
    decreases s.len() - j,
{
    if j == s.len() {
        assert(s.take(j) =~= s);
    } else {
        lemma_items_prefix(s, j + 1);
        lemma_items_step(s, j);
        let a = items(s.take(j));
        let b = items(s.take(j + 1));
        assert forall|i: int| 0 <= i < a.len() implies items(s)[i] == #[trigger] a[i] by {
            assert(b[i] == a[i]);
        }
    }
}

proof fn lemma_dec_len(b: u8)
    ensures
        1 <= dec(b).len() <= 3,
        forall|i: int| 0 <= i < dec(b).len() ==> is_digit(#[trigger] dec(b)[i]),
{
}

/// Reads the JSON array of bytes that starts at `pos`.
fn parse_array(input: &[u8], pos: usize, Ghost(s): Ghost<Seq<u8>>) -> (r: Option<(Vec<u8>, usize)>)
    requires
        pos <= input@.len(),
    ensures
        r matches Some((v, e)) ==> pos < e <= input@.len(),
        array_at(input@, pos as int, s) ==> (r matches Some((v, e)) && v@ == s && e == pos + json_array(s).len()),
{
    if pos >= input.len() || input[pos] != 91 {
        proof {
            if array_at(input@, pos as int, s) {
                assert(input@[pos as int] == json_array(s)[0]);
            }
        }
        return None;
    }
    let mut q: usize = pos + 1;
    let mut v: Vec<u8> = Vec::new();
    if q < input.len() && input[q] == 93 {
        proof {
            if array_at(input@, pos as int, s) {
                if s.len() > 0 {
                    lemma_items_prefix(s, 1);
                    lemma_items_step(s, 0);
                    lemma_dec_len(s[0]);
                    assert(s.take(0) =~= Seq::<u8>::empty());
                    assert(items(s.take(1))[0] == dec(s[0])[0]);
                    assert(input@[q as int] == json_array(s)[1]);
                }
                assert(v@ =~= s);
                assert(items(s) =~= Seq::<u8>::empty());
            }
        }
        return Some((v, q + 1));
    }
    proof {
        if array_at(input@, pos as int, s) && s.len() == 0 {
            assert(items(s) =~= Seq::<u8>::empty());
            assert(input@[q as int] == json_array(s)[1]);
        }
        assert(v@ =~= s.take(0));
    }
    loop
        invariant
            pos < q <= input@.len(),
            array_at(input@, pos as int, s) ==> {
                &&& 0 < s.len()
                &&& v@.len() < s.len()
                &&& v@ == s.take(v@.len() as int)
                &&& q == pos + 1 + items(s.take(v@.len() as int)).len() + (if v@.len() > 0 { 1int } else { 0int })
            },
        decreases input@.len() - q,
    {
        let ghost k = v@.len() as int;
        proof {
            if array_at(input@, pos as int, s) {
                lemma_items_step(s, k);
                lemma_items_prefix(s, k + 1);
                lemma_dec_len(s[k]);
                let pre = items(s.take(k + 1));
                let d = dec(s[k]);
                let start = pos + 1 + items(s.take(k)).len() + (if k > 0 { 1int } else { 0int });
                assert(start == q);
                assert forall|i: int| 0 <= i < d.len() implies input@[q + i] == #[trigger] d[i] by {
                    assert(pre[q - pos - 1 + i] == d[i]);
                    assert(items(s)[q - pos - 1 + i] == pre[q - pos - 1 + i]);
                    assert(json_array(s)[q - pos + i] == items(s)[q - pos - 1 + i]);
                    assert(input@[q + i] == json_array(s)[q - pos + i]);
                }
                assert(input@.subrange(q as int, q + d.len()) =~= d);
                let after = pos + 1 + pre.len();
                if k + 1 < s.len() {
                    lemma_items_step(s, k + 1);
                    lemma_items_prefix(s, k + 2);
                    assert(items(s.take(k + 2))[pre.len() as int] == 44u8);
                    assert(json_array(s)[after - pos] == items(s)[pre.len() as int]);
                    assert(input@[after] == json_array(s)[after - pos]);
                } else {
                    assert(s.take(k + 1) =~= s);
                    assert(json_array(s)[after - pos] == 93u8);
                    assert(input@[after] == json_array(s)[after - pos]);
                }
            }
        }
        match parse_byte(input, q) {
            None => {
                return None;
            },
            Some((b, e)) => {
                v.push(b);
                q = e;
            },
        }
        proof {
            if array_at(input@, pos as int, s) {
                assert(v@ =~= s.take(k + 1));
            }
        }
        if q >= input.len() {
            return None;
        }
        if input[q] == 44 {
            q = q + 1;
        } else if input[q] == 93 {
            proof {
                if array_at(input@, pos as int, s) {
                    assert(s.take(k + 1) =~= s);
                }
            }
            return Some((v, q + 1));
        } else {
            return None;
        }
    }
}

proof fn lemma_items_chars(s: Seq<u8>)
    ensures
        forall|i: int| 0 <= i < items(s).len() ==> is_digit(#[trigger] items(s)[i]) || items(s)[i] == 44,
    decreases s.len(),
{
    if s.len() > 1 {
        lemma_items_chars(s.drop_last());
        lemma_dec_len(s.last());
        let x = items(s.drop_last());
        let d = dec(s.last());
        assert forall|i: int| 0 <= i < items(s).len() implies is_digit(#[trigger] items(s)[i]) || items(s)[i] == 44 by {
            if i < x.len() {
                assert(items(s)[i] == x[i]);
            } else if i > x.len() {
                assert(items(s)[i] == d[i - x.len() - 1]);
            }
        }
    } else if s.len() == 1 {
        lemma_dec_len(s[0]);
    }
}

proof fn lemma_dec_len_exact(b: u8)
    ensures
        dec(b).len() == if b < 10 { 1nat } else if b < 100 { 2nat } else { 3nat },
{
    if b < 10 {
        assert(dec(b) == seq![(48 + b) as u8]);
    } else if b < 100 {
        assert(dec(b) == seq![(48 + b / 10) as u8, (48 + b % 10) as u8]);
    } else {
        assert(dec(b) == seq![(48 + b / 100) as u8, (48 + (b / 10) % 10) as u8, (48 + b % 10) as u8]);
    }
}

proof fn lemma_dec_injective(a: u8, b: u8)
    requires
        dec(a) == dec(b),
    ensures
        a == b,
{
    let da = dec(a);
    let db = dec(b);
    lemma_dec_len_exact(a);
    lemma_dec_len_exact(b);
    assert(da.len() == db.len());
    if a < 10 {
        assert(b < 10);
        assert(da[0] == 48 + a && db[0] == 48 + b);
    } else if a < 100 {
        assert(10 <= b < 100);
        assert(da[0] == 48 + a / 10 && db[0] == 48 + b / 10);
        assert(da[1] == 48 + a % 10 && db[1] == 48 + b % 10);
        assert(a / 10 == b / 10 && a % 10 == b % 10);
        assert(a == (a / 10) * 10 + a % 10);
        assert(b == (b / 10) * 10 + b % 10);
    } else {
        assert(b >= 100);
        assert(da[0] == 48 + a / 100 && db[0] == 48 + b / 100);
        assert(da[1] == 48 + (a / 10) % 10 && db[1] == 48 + (b / 10) % 10);
        assert(da[2] == 48 + a % 10 && db[2] == 48 + b % 10);
        assert(a / 100 == b / 100 && (a / 10) % 10 == (b / 10) % 10 && a % 10 == b % 10);
        assert(a / 10 == (a / 100) * 10 + (a / 10) % 10);
        assert(b / 10 == (b / 100) * 10 + (b / 10) % 10);
        assert(a == (a / 10) * 10 + a % 10);
        assert(b == (b / 10) * 10 + b % 10);
    }
}

proof fn lemma_items_injective(s: Seq<u8>, t: Seq<u8>)
    requires
        items(s) == items(t),
    ensures
        s == t,
    decreases s.len(),
{
    if s.len() > 0 {
        lemma_dec_len(s[0]);
    }
    if t.len() > 0 {
        lemma_dec_len(t[0]);
    }
    if s.len() >= 2 {
        lemma_dec_len(s.last());
        lemma_items_chars(s.drop_last());
    }
    if t.len() >= 2 {
        lemma_dec_len(t.last());
        lemma_items_chars(t.drop_last());
    }
    let l = items(s).len();
    if s.len() == 1 && t.len() >= 2 {
        let y = items(t.drop_last());
        assert(items(t)[y.len() as int] == 44u8);
        assert(is_digit(dec(s[0])[y.len() as int]));
    } else if t.len() == 1 && s.len() >= 2 {
        let x = items(s.drop_last());
        assert(items(s)[x.len() as int] == 44u8);
        assert(is_digit(dec(t[0])[x.len() as int]));
    } else if s.len() == 1 && t.len() == 1 {
        lemma_dec_injective(s[0], t[0]);
        assert(s =~= t);
    } else if s.len() >= 2 && t.len() >= 2 {
        let x = items(s.drop_last());
        let y = items(t.drop_last());
        let da = dec(s.last());
        let db = dec(t.last());
        if da.len() < db.len() {
            assert(items(s)[l - da.len() - 1] == 44u8);
            assert(items(t)[l - da.len() - 1] == db[db.len() - da.len() - 1]);
        } else if db.len() < da.len() {
            assert(items(t)[l - db.len() - 1] == 44u8);
            assert(items(s)[l - db.len() - 1] == da[da.len() - db.len() - 1]);
        } else {
            assert(da =~= items(s).subrange(l - da.len(), l as int));
            assert(db =~= items(t).subrange(l - db.len(), l as int));
            lemma_dec_injective(s.last(), t.last());
            assert(x =~= items(s).subrange(0, x.len() as int));
            assert(y =~= items(t).subrange(0, y.len() as int));
            lemma_items_injective(s.drop_last(), t.drop_last());
            assert(s =~= s.drop_last().push(s.last()));
            assert(t =~= t.drop_last().push(t.last()));
        }
    } else if s.len() == 0 && t.len() > 0 {
        assert(items(t).len() > 0);
    } else if t.len() == 0 && s.len() > 0 {
        assert(items(s).len() > 0);
    } else {
        assert(s =~= t);
    }
}

proof fn lemma_array_unique(input: Seq<u8>, pos: int, s: Seq<u8>, t: Seq<u8>)
    requires
        0 <= pos,
        array_at(input, pos, s),
        array_at(input, pos, t),
    ensures
        s == t,
{
    let a = json_array(s);
    let b = json_array(t);
    lemma_items_chars(s);
    lemma_items_chars(t);
    assert forall|i: int| 0 <= i < a.len() && 0 <= i < b.len() implies a[i] == b[i] by {
        assert(a[i] == input[pos + i]);
        assert(b[i] == input[pos + i]);
    }
    if a.len() < b.len() {
        assert(a[a.len() - 1] == 93u8);
        assert(b[a.len() - 1] == items(t)[a.len() - 2]);
    } else if b.len() < a.len() {
        assert(b[b.len() - 1] == 93u8);
        assert(a[b.len() - 1] == items(s)[b.len() - 2]);
    } else {
        assert(items(s) =~= a.subrange(1, a.len() - 1));
        assert(items(t) =~= b.subrange(1, b.len() - 1));
        assert(a =~= b);
        lemma_items_injective(s, t);
    }
}

/// The JSON form determines the blob: two blobs with the same JSON form have
/// the same ciphertext and the same nonce.
pub proof fn lemma_blob_json_injective(c1: Seq<u8>, n1: Seq<u8>, c2: Seq<u8>, n2: Seq<u8>)
    requires
        blob_json(c1, n1) == blob_json(c2, n2),
    ensures
        c1 == c2,
        n1 == n2,
{
    let input = blob_json(c1, n1);
    assert(input.subrange(14, 14 + json_array(c1).len() as int) =~= json_array(c1));
    assert(input.subrange(14, 14 + json_array(c2).len() as int) =~= json_array(c2));
    lemma_array_unique(input, 14, c1, c2);
    let nonce_at: int = 14 + json_array(c1).len() as int + 9;
    assert(input.subrange(nonce_at, nonce_at + json_array(n1).len() as int) =~= json_array(n1));
    assert(input.subrange(nonce_at, nonce_at + json_array(n2).len() as int) =~= json_array(n2));
    lemma_array_unique(input, nonce_at, n1, n2);
}

fn bytes_equal(a: &[u8], b: &[u8]) -> (r: bool)
    ensures
        r == (a@ == b@),
{
    if a.len() != b.len() {
        return false;
    }
    let mut i: usize = 0;
    while i < a.len()
        invariant
            a@.len() == b@.len(),
            i <= a@.len(),
            forall|j: int| 0 <= j < i ==> a@[j] == b@[j],
        decreases a@.len() - i,
    {
        if a[i] != b[i] {
            return false;
        }
        i = i + 1;
    }
    assert(a@ =~= b@);
    true
}

/// `text` is the JSON form of some blob.
pub open spec fn is_blob_json(text: Seq<u8>) -> bool {
    exists|c: Seq<u8>, n: Seq<u8>| n.len() == 24 && #[trigger] blob_json(c, n) == text
}

/// `text` is the base64 of the JSON form of some blob.
pub open spec fn is_blob_text(text: Seq<u8>) -> bool {
    exists|c: Seq<u8>, n: Seq<u8>| n.len() == 24 && b64_of(#[trigger] blob_json(c, n)) == text
}

/// ASCII whitespace, which transports insert into long base64 text.
pub open spec fn is_space(c: u8) -> bool {
    c == 32 || c == 9 || c == 10 || c == 13 || c == 12
}

/// The bytes with every ASCII whitespace byte taken out.
pub open spec fn without_spaces(s: Seq<u8>) -> Seq<u8>
    decreases s.len(),
{
    if s.len() == 0 {
        s
    } else if is_space(s.last()) {
        without_spaces(s.drop_last())
    } else {
        without_spaces(s.drop_last()).push(s.last())
    }
}

proof fn lemma_without_spaces_of_b64(s: Seq<u8>)
    requires
        forall|i: int| 0 <= i < s.len() ==> is_b64_byte(#[trigger] s[i]),
    ensures
        without_spaces(s) == s,
    decreases s.len(),
{
    if s.len() > 0 {
        let t = s.drop_last();
        assert forall|i: int| 0 <= i < t.len() implies is_b64_byte(#[trigger] t[i]) by {
            assert(t[i] == s[i]);
        }
        lemma_without_spaces_of_b64(t);
        assert(is_b64_byte(s[s.len() - 1]));
        assert(t.push(s.last()) =~= s);
    }
}

/// Text stored on the mirror reads back to the blob that wrote it: base64
/// text in the standard alphabet is left as it is by whitespace removal, so
/// `decode_text` returns the encoded ciphertext and nonce.
pub proof fn lemma_stored_text_round_trip(c: Seq<u8>, n: Seq<u8>, text: Seq<u8>)
    requires
        n.len() == 24,
        text == b64_of(blob_json(c, n)),
        forall|i: int| 0 <= i < text.len() ==> is_b64_byte(#[trigger] text[i]),
    ensures
        without_spaces(text) == text,
        is_blob_text(without_spaces(text)),
{
    lemma_without_spaces_of_b64(text);
}

/// Takes out every ASCII whitespace byte.
pub fn strip_spaces(text: &[u8]) -> (r: Vec<u8>)
    ensures
        r@ == without_spaces(text@),
{
    let mut out: Vec<u8> = Vec::new();
    let mut i: usize = 0;
    while i < text.len()
        invariant
            i <= text@.len(),
            out@ == without_spaces(text@.take(i as int)),
        decreases text@.len() - i,
    {
        proof {
            assert(text@.take(i as int + 1).drop_last() =~= text@.take(i as int));
        }
        let c = text[i];
        if !(c == 32 || c == 9 || c == 10 || c == 13 || c == 12) {
            out.push(c);
        }
        i = i + 1;
    }
    assert(text@.take(i as int) =~= text@);
    out
}

impl EncryptedBlob {
    /// The JSON form `{"ciphertext":[..],"nonce":[..]}`.
    pub fn to_json(&self) -> (r: Vec<u8>)
        ensures
            r@ == blob_json(self.ciphertext@, self.nonce@),
    {
        let mut out: Vec<u8> = Vec::new();
        push_ciphertext_key(&mut out);
        push_json_array(&mut out, self.ciphertext.as_slice());
        push_nonce_key(&mut out);
        push_json_array(&mut out, self.nonce.as_slice());
        out.push(125);
        assert(out@ =~= blob_json(self.ciphertext@, self.nonce@));
        out
    }

    /// Reads the JSON form back. Only the compact form that `to_json` writes
    /// is read (no whitespace, keys in that order, shortest decimals); it is
    /// exactly the on-disk format. Succeeds exactly on that form of a blob,
    /// and returns the blob that wrote it.
    pub fn from_json(input: &[u8]) -> (r: Result<EncryptedBlob, SyncError>)
        ensures
            r is Ok <==> is_blob_json(input@),
            r matches Ok(b) ==> blob_json(b.ciphertext@, b.nonce@) == input@,
            forall|c: Seq<u8>, n: Seq<u8>| n.len() == 24 && #[trigger] blob_json(c, n) == input@
                ==> (r matches Ok(b) && b.ciphertext@ == c && b.nonce@ == n),
            r is Err ==> r == Err::<EncryptedBlob, SyncError>(SyncError::Protocol),
    {
        let ghost (c, n) = choose|c: Seq<u8>, n: Seq<u8>| n.len() == 24 && #[trigger] blob_json(c, n) == input@;
        let ghost wanted = is_blob_json(input@);
        proof {
            if wanted {
                let j = blob_json(c, n);
                assert(j == input@);
                assert(input@.subrange(14, 14 + json_array(c).len() as int) =~= json_array(c));
                let nonce_at: int = 14 + json_array(c).len() as int + 9;
                assert(input@.subrange(nonce_at, nonce_at + json_array(n).len() as int) =~= json_array(n));
            }
        }
        if input.len() < 14 {
            return Err(SyncError::Protocol);
        }
        let (ciphertext, e1) = match parse_array(input, 14, Ghost(c)) {
            Some(x) => x,
            None => {
                return Err(SyncError::Protocol);
            },
        };
        if input.len() - e1 < 9 {
            return Err(SyncError::Protocol);
        }
        let (nonce_bytes, _e2) = match parse_array(input, e1 + 9, Ghost(n)) {
            Some(x) => x,
            None => {
                return Err(SyncError::Protocol);
            },
        };
        if nonce_bytes.len() != 24 {
            return Err(SyncError::Protocol);
        }
        let mut nonce = [0u8; 24];
        let mut i: usize = 0;
        while i < 24
            invariant
                i <= 24,
                nonce_bytes@.len() == 24,
                forall|j: int| 0 <= j < i ==> nonce@[j] == nonce_bytes@[j],
            decreases 24 - i,
        {
            nonce[i] = nonce_bytes[i];
            i = i + 1;
        }
        assert(nonce@ =~= nonce_bytes@);
        let blob = EncryptedBlob { ciphertext, nonce };
        let again = blob.to_json();
        if bytes_equal(again.as_slice(), input) {
            proof {
                assert forall|c2: Seq<u8>, n2: Seq<u8>| n2.len() == 24 && #[trigger] blob_json(c2, n2) == input@
                    implies blob.ciphertext@ == c2 && blob.nonce@ == n2 by {
                    lemma_blob_json_injective(blob.ciphertext@, blob.nonce@, c2, n2);
                }
            }
            Ok(blob)
        } else {
            Err(SyncError::Protocol)
        }
    }

    /// The text stored on the remote mirror: base64 of the JSON form.
    pub fn encode_text(&self) -> (r: Vec<u8>)
        ensures
            r@ == b64_of(blob_json(self.ciphertext@, self.nonce@)),
            forall|i: int| 0 <= i < r@.len() ==> is_b64_byte(#[trigger] r@[i]),
            without_spaces(r@) == r@,
    {
        let json = self.to_json();
        let r = b64_encode(json.as_slice());
        proof {
            lemma_without_spaces_of_b64(r@);
        }
        r
    }

    /// Reads text stored on the remote mirror, ignoring whitespace. Text that
    /// `encode_text` wrote is read back to the blob that wrote it.
    pub fn decode_text(text: &[u8]) -> (r: Result<EncryptedBlob, SyncError>)
        ensures
            r is Ok <==> is_blob_text(without_spaces(text@)),
            forall|c: Seq<u8>, n: Seq<u8>| n.len() == 24 && b64_of(#[trigger] blob_json(c, n)) == without_spaces(text@)
                ==> (r matches Ok(b) && b.ciphertext@ == c && b.nonce@ == n),
            r is Err ==> r == Err::<EncryptedBlob, SyncError>(SyncError::Protocol),
    {
        let clean = strip_spaces(text);
        let ghost (c, n) = choose|c: Seq<u8>, n: Seq<u8>| n.len() == 24 && b64_of(#[trigger] blob_json(c, n)) == clean@;
        match b64_decode(clean.as_slice()) {
            Ok(json) => {
                proof {
                    if is_blob_text(clean@) {
                        assert(b64_of(blob_json(c, n)) == clean@);
                        assert(json@ == blob_json(c, n));
                        assert(is_blob_json(json@));
                    }
                }
                let r = EncryptedBlob::from_json(json.as_slice());
                proof {
                    if r is Ok {
                        let b = r->Ok_0;
                        assert(b64_of(blob_json(b.ciphertext@, b.nonce@)) == clean@);
                    }
                    assert forall|c2: Seq<u8>, n2: Seq<u8>| n2.len() == 24 && b64_of(#[trigger] blob_json(c2, n2)) == clean@
                        implies (r matches Ok(b) && b.ciphertext@ == c2 && b.nonce@ == n2) by {
                        assert(json@ == blob_json(c2, n2));
                    }
                }
                r
            },
            Err(_) => {
                proof {
                    if is_blob_text(clean@) {
                        assert(b64_of(blob_json(c, n)) == clean@);
                    }
                }
                Err(SyncError::Protocol)
            },
        }
    }
}

} // verus!
