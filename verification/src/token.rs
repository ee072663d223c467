use vstd::prelude::*;
use vstd::string::StrSliceExecFns;
use vstd::string::StringExecFns;

verus! {

// ----- names for what the outside calls return -----

/// The base64url (no padding) encoding of the UTF-8 bytes of `s`.
pub uninterp spec fn b64url_of(s: Seq<char>) -> Seq<char>;

/// Holds when no character of `s` is a dot; both base64url parts and HS256
/// signatures are over a dot-free alphabet, which is what lets a token be
/// split at its dots.
pub open spec fn dot_free(s: Seq<char>) -> bool {
    forall|i: int| 0 <= i < s.len() ==> s[i] != '.'
}

/// The base64url (no padding) HMAC-SHA256 signature of the UTF-8 bytes of
/// `message` under `key`.
pub uninterp spec fn hs256_sig_of(message: Seq<char>, key: Seq<u8>) -> Seq<char>;

// ----- trusted wrappers around the outside calls -----

/// Relies on base64's `URL_SAFE_NO_PAD` engine: the encoding is a function of
/// the input bytes alone, over the `A-Z a-z 0-9 - _` alphabet, so it never
/// contains a dot.
#[verifier::external_body]
pub(crate) fn b64url_encode(s: &str) -> (r: String)
    ensures
        r@ == b64url_of(s@),
        dot_free(r@),
{
    base64::Engine::encode(&base64::engine::general_purpose::URL_SAFE_NO_PAD, s.as_bytes())
}

/// Relies on base64's `URL_SAFE_NO_PAD` decode, which rejects padding and
/// non-zero trailing bits and so accepts exactly the canonical encodings, and
/// on std's `String::from_utf8`.
#[verifier::external_body]
pub(crate) fn b64url_decode(s: &str) -> (r: Option<String>)
    ensures
        r matches Some(v) ==> s@ == b64url_of(v@),
        r matches Some(v) ==> forall|p: Seq<char>| s@ == b64url_of(p) ==> v@ == p,
        r is None ==> forall|p: Seq<char>| s@ != b64url_of(p),
{
    match base64::Engine::decode(&base64::engine::general_purpose::URL_SAFE_NO_PAD, s.as_bytes()) {
        Ok(bytes) => match String::from_utf8(bytes) {
            Ok(v) => Some(v),
            Err(_) => None,
        },
        Err(_) => None,
    }
}

/// Relies on jsonwebtoken's `crypto::sign` with HS256: the signature is the
/// base64url (no padding) HMAC-SHA256 of the message under the key, a
/// function of the two alone, and signing never fails for the HS family.
#[verifier::external_body]
pub(crate) fn hs256_sign(message: &str, secret: &[u8]) -> (r: String)
    ensures
        r@ == hs256_sig_of(message@, secret@),
        dot_free(r@),
{
    jsonwebtoken::crypto::sign(
        message.as_bytes(),
        &jsonwebtoken::EncodingKey::from_secret(secret),
        jsonwebtoken::Algorithm::HS256,
    ).unwrap()
}

/// Relies on jsonwebtoken's `crypto::verify` with HS256, which re-signs the
/// message and compares the two signature strings byte for byte, in constant
/// time.
#[verifier::external_body]
pub(crate) fn hs256_verify(signature: &str, message: &str, secret: &[u8]) -> (r: bool)
    ensures
        r == (signature@ == hs256_sig_of(message@, secret@)),
{
    jsonwebtoken::crypto::verify(
        signature,
        message.as_bytes(),
        &jsonwebtoken::DecodingKey::from_secret(secret),
        jsonwebtoken::Algorithm::HS256,
    ).unwrap_or(false)
}

/// Relies on std's `String::push`: appends exactly one character.
#[verifier::external_body]
pub(crate) fn push_char(s: &mut String, c: char)
    ensures
        final(s)@ == old(s)@ + seq![c],
{
    s.push(c);
}

// ----- the claims document, as a sequence of characters -----

/// How one character is written inside a JSON string literal: quote and
/// backslash take a leading backslash, everything else stands as itself.
pub open spec fn esc_char(c: char) -> Seq<char> {
    if c == '"' {
        seq!['\\', '"']
    } else if c == '\\' {
        seq!['\\', '\\']
    } else {
        seq![c]
    }
}

pub open spec fn json_escaped(s: Seq<char>) -> Seq<char>
    decreases s.len(),
{
    if s.len() == 0 {
        Seq::empty()
    } else {
        esc_char(s[0]) + json_escaped(s.drop_first())
    }
}

pub open spec fn digit_char(n: int) -> char {
    if n == 0 {
        '0'
    } else if n == 1 {
        '1'
    } else if n == 2 {
        '2'
    } else if n == 3 {
        '3'
    } else if n == 4 {
        '4'
    } else if n == 5 {
        '5'
    } else if n == 6 {
        '6'
    } else if n == 7 {
        '7'
    } else if n == 8 {
        '8'
    } else {
        '9'
    }
}

pub open spec fn digit_val(c: char) -> int {
    if c == '0' {
        0
    } else if c == '1' {
        1
    } else if c == '2' {
        2
    } else if c == '3' {
        3
    } else if c == '4' {
        4
    } else if c == '5' {
        5
    } else if c == '6' {
        6
    } else if c == '7' {
        7
    } else if c == '8' {
        8
    } else if c == '9' {
        9
    } else {
        -1
    }
}

pub open spec fn is_digit(c: char) -> bool {
    digit_val(c) >= 0
}

/// The usual decimal writing of a non-negative integer: no sign, no leading
/// zeros.
pub open spec fn dec_digits(n: int) -> Seq<char>
    decreases n,
{
    if n <= 9 {
        seq![digit_char(n)]
    } else {
        dec_digits(n / 10) + seq![digit_char(n % 10)]
    }
}

pub open spec fn claims_prefix() -> Seq<char> {
    seq!['{', '"', 's', 'u', 'b', '"', ':', '"']
}

pub open spec fn claims_mid() -> Seq<char> {
    seq!['"', ',', '"', 'e', 'x', 'p', '"', ':']
}

/// The claims document minted for subject `sub` and expiry `exp`:
/// `{"sub":"<escaped sub>","exp":<decimal exp>}`.
pub open spec fn claims_json(sub: Seq<char>, exp: u64) -> Seq<char> {
    claims_prefix() + json_escaped(sub) + claims_mid() + dec_digits(exp as int) + seq!['}']
}

pub open spec fn header_json() -> Seq<char> {
    seq!['{', '"', 't', 'y', 'p', '"', ':', '"', 'J', 'W', 'T', '"', ',', '"', 'a', 'l', 'g', '"', ':', '"', 'H', 'S', '2', '5', '6', '"', '}']
}

/// The signing input of a token: base64url(header) "." base64url(claims).
pub open spec fn message_of(sub: Seq<char>, exp: u64) -> Seq<char> {
    b64url_of(header_json()) + seq!['.'] + b64url_of(claims_json(sub, exp))
}

/// A whole token: the signing input, a dot, and its HS256 signature.
pub open spec fn token_of(sub: Seq<char>, exp: u64, secret: Seq<u8>) -> Seq<char> {
    message_of(sub, exp) + seq!['.'] + hs256_sig_of(message_of(sub, exp), secret)
}

// ----- rendering -----

proof fn lemma_json_escaped_push(s: Seq<char>, c: char)
    ensures
        json_escaped(s.push(c)) == json_escaped(s) + esc_char(c),
    decreases s.len(),
{
    if s.len() == 0 {
        assert(s.push(c).drop_first() =~= Seq::<char>::empty());
        assert(s.push(c)[0] == c);
        assert(json_escaped(Seq::<char>::empty()) =~= Seq::<char>::empty());
        assert(json_escaped(s.push(c)) =~= esc_char(c) + json_escaped(
            s.push(c).drop_first(),
        ));
        assert(json_escaped(s.push(c)) =~= json_escaped(s) + esc_char(c));
    } else {
        lemma_json_escaped_push(s.drop_first(), c);
        assert(s.push(c).drop_first() =~= s.drop_first().push(c));
        assert(s.push(c)[0] == s[0]);
        assert(json_escaped(s.push(c)) =~= json_escaped(s) + esc_char(c));
    }
}

fn append_escaped(out: &mut String, s: &str)
    ensures
        final(out)@ == old(out)@ + json_escaped(s@),
{
    let n = s.unicode_len();
    let mut i: usize = 0;
    while i < n
        invariant
            i <= n,
            n == s@.len(),
            out@ == old(out)@ + json_escaped(s@.take(i as int)),
        decreases n - i,
    {
        let c = s.get_char(i);
        if c == '"' {
            push_char(out, '\\');
            push_char(out, '"');
        } else if c == '\\' {
            push_char(out, '\\');
            push_char(out, '\\');
        } else {
            push_char(out, c);
        }
        proof {
            lemma_json_escaped_push(s@.take(i as int), s@[i as int]);
            assert(s@.take(i + 1) =~= s@.take(i as int).push(s@[i as int]));
            assert(out@ =~= old(out)@ + json_escaped(s@.take(i + 1)));
        }
        i = i + 1;
    }
    proof {
        assert(s@.take(n as int) =~= s@);
    }
}

fn digit_of(r: u64) -> (c: char)
    requires
        r < 10,
    ensures
        c == digit_char(r as int),
{
    if r == 0 {
        '0'
    } else if r == 1 {
        '1'
    } else if r == 2 {
        '2'
    } else if r == 3 {
        '3'
    } else if r == 4 {
        '4'
    } else if r == 5 {
        '5'
    } else if r == 6 {
        '6'
    } else if r == 7 {
        '7'
    } else if r == 8 {
        '8'
    } else {
        '9'
    }
}

fn append_decimal(out: &mut String, n: u64)
    ensures
        final(out)@ == old(out)@ + dec_digits(n as int),
{
    let mut buf: Vec<char> = Vec::new();
    let mut m: u64 = n;
    if m <= 9 {
        push_char(out, digit_of(m));
        return ;
    }
    while m > 9
        invariant
            dec_digits(m as int) + buf@ =~= dec_digits(n as int),
        decreases m,
    {
        let d = digit_of(m % 10);
        buf.insert(0, d);
        proof {
            assert(buf@ =~= seq![digit_char((m % 10) as int)] + buf@.drop_first());
            assert(dec_digits(m as int) =~= dec_digits(m as int / 10) + seq![
                digit_char(m as int % 10),
            ]);
            assert(dec_digits((m / 10) as int) + buf@ =~= dec_digits(n as int));
        }
        m = m / 10;
    }
    push_char(out, digit_of(m));
    let mut i: usize = 0;
    while i < buf.len()
        invariant
            i <= buf@.len(),
            out@ == old(out)@ + seq![digit_char(m as int)] + buf@.take(i as int),
            dec_digits(m as int) + buf@ =~= dec_digits(n as int),
            m <= 9,
        decreases buf@.len() - i,
    {
        push_char(out, buf[i]);
        proof {
            assert(buf@.take(i + 1) =~= buf@.take(i as int).push(buf@[i as int]));
            assert(out@ =~= old(out)@ + seq![digit_char(m as int)] + buf@.take(i + 1));
        }
        i = i + 1;
    }
    proof {
        assert(buf@.take(buf@.len() as int) =~= buf@);
        assert(out@ =~= old(out)@ + dec_digits(n as int));
    }
}

// ----- parsing: lemmas -----

proof fn lemma_json_escaped_concat(a: Seq<char>, b: Seq<char>)
    ensures
        json_escaped(a + b) == json_escaped(a) + json_escaped(b),
    decreases a.len(),
{
    if a.len() == 0 {
        assert(a + b =~= b);
        assert(json_escaped(a) =~= Seq::<char>::empty());
        assert(json_escaped(a + b) =~= json_escaped(a) + json_escaped(b));
    } else {
        lemma_json_escaped_concat(a.drop_first(), b);
        assert((a + b).drop_first() =~= a.drop_first() + b);
        assert((a + b)[0] == a[0]);
        assert(json_escaped(a + b) =~= json_escaped(a) + json_escaped(b));
    }
}

/// The numeric value a digit string denotes, most significant digit first.
pub open spec fn digits_val(ds: Seq<char>) -> int
    decreases ds.len(),
{
    if ds.len() == 0 {
        0
    } else {
        digits_val(ds.drop_last()) * 10 + digit_val(ds.last())
    }
}

pub open spec fn all_digits(ds: Seq<char>) -> bool {
    forall|i: int| 0 <= i < ds.len() ==> is_digit(#[trigger] ds[i])
}

proof fn lemma_digits_val_nonneg(ds: Seq<char>)
    requires
        all_digits(ds),
    ensures
        digits_val(ds) >= 0,
    decreases ds.len(),
{
    if ds.len() > 0 {
        assert(all_digits(ds.drop_last())) by {
            assert(forall|i: int|
                0 <= i < ds.drop_last().len() ==> ds.drop_last()[i] == ds[i]);
        }
        lemma_digits_val_nonneg(ds.drop_last());
        assert(digit_val(ds.last()) >= 0);
    }
}

proof fn lemma_digits_val_push(ds: Seq<char>, c: char)
    ensures
        digits_val(ds.push(c)) == digits_val(ds) * 10 + digit_val(c),
{
    assert(ds.push(c).drop_last() =~= ds);
    assert(ds.push(c).last() == c);
}

/// The decimal writing of `n` evaluates back to `n`, is all digits, and has
/// a leading zero only when it is the single digit of zero.
proof fn lemma_dec_digits_val(n: int)
    requires
        n >= 0,
    ensures
        digits_val(dec_digits(n)) == n,
        all_digits(dec_digits(n)),
        dec_digits(n).len() >= 1,
        dec_digits(n)[0] == '0' ==> n == 0,
        n <= 9 ==> dec_digits(n).len() == 1,
        n > 9 ==> dec_digits(n).len() > 1,
    decreases n,
{
    if n <= 9 {
        assert(digits_val(dec_digits(n)) == digits_val(Seq::<char>::empty()) * 10 + digit_val(
            digit_char(n),
        )) by {
            assert(dec_digits(n).drop_last() =~= Seq::<char>::empty());
        }
        assert(digit_val(digit_char(n)) == n);
    } else {
        lemma_dec_digits_val(n / 10);
        let pre = dec_digits(n / 10);
        let d = digit_char(n % 10);
        assert(0 <= n % 10 < 10) by (nonlinear_arith)
            requires n >= 0;
        assert(dec_digits(n) == pre.push(d)) by {
            assert(pre + seq![d] =~= pre.push(d));
        }
        lemma_digits_val_push(pre, d);
        assert(digit_val(d) == n % 10);
        assert((n / 10) * 10 + n % 10 == n) by (nonlinear_arith)
            requires n >= 0;
        assert(digits_val(dec_digits(n)) == n);
        assert(all_digits(dec_digits(n))) by {
            assert(forall|i: int| 0 <= i < pre.len() ==> dec_digits(n)[i] == pre[i]);
            assert(dec_digits(n)[pre.len() as int] == d);
        }
        assert(dec_digits(n)[0] == pre[0]);
        assert(n / 10 >= 1) by (nonlinear_arith)
            requires n > 9;
    }
}

proof fn lemma_digits_val_pos(ds: Seq<char>)
    requires
        ds.len() >= 1,
        all_digits(ds),
        ds[0] != '0',
    ensures
        digits_val(ds) >= 1,
    decreases ds.len(),
{
    if ds.len() == 1 {
        assert(ds.last() == ds[0]);
        assert(digits_val(ds.drop_last()) == 0) by {
            assert(ds.drop_last() =~= Seq::<char>::empty());
        }
        assert(digit_val(ds[0]) >= 1);
    } else {
        assert(all_digits(ds.drop_last())) by {
            assert(forall|i: int|
                0 <= i < ds.drop_last().len() ==> ds.drop_last()[i] == ds[i]);
        }
        assert(ds.drop_last()[0] == ds[0]);
        lemma_digits_val_pos(ds.drop_last());
        assert(digit_val(ds.last()) >= 0);
        assert(digits_val(ds) >= 10);
    }
}

/// A digit string without a needless leading zero is the decimal writing of
/// its own value.
proof fn lemma_digits_val_inverse(ds: Seq<char>)
    requires
        ds.len() >= 1,
        all_digits(ds),
        ds[0] != '0' || ds.len() == 1,
    ensures
        dec_digits(digits_val(ds)) == ds,
        digits_val(ds) >= 0,
    decreases ds.len(),
{
    lemma_digits_val_nonneg(ds);
    if ds.len() == 1 {
        assert(ds.last() == ds[0]);
        assert(digits_val(ds.drop_last()) == 0) by {
            assert(ds.drop_last() =~= Seq::<char>::empty());
        }
        let v = digits_val(ds);
        assert(v == digit_val(ds[0]));
        assert(0 <= v <= 9);
        assert(digit_char(v) == ds[0]);
        assert(dec_digits(v) =~= ds);
    } else {
        let ds0 = ds.drop_last();
        let dl = ds.last();
        assert(all_digits(ds0)) by {
            assert(forall|i: int| 0 <= i < ds0.len() ==> ds0[i] == ds[i]);
        }
        assert(ds0[0] == ds[0]);
        lemma_digits_val_inverse(ds0);
        lemma_digits_val_pos(ds0);
        let v0 = digits_val(ds0);
        let d = digit_val(dl);
        let v = digits_val(ds);
        assert(v == v0 * 10 + d);
        assert(v > 9) by (nonlinear_arith)
            requires v0 >= 1, d >= 0, v == v0 * 10 + d;
        assert(v / 10 == v0 && v % 10 == d) by (nonlinear_arith)
            requires 0 <= d < 10, v == v0 * 10 + d, v0 >= 0;
        assert(digit_char(v % 10) == dl);
        assert(dec_digits(v) == dec_digits(v0) + seq![dl]);
        assert(dec_digits(v) =~= ds) by {
            assert(ds0 + seq![dl] =~= ds);
        }
    }
}

proof fn lemma_digits_val_take_le(ds: Seq<char>, k: int)
    requires
        all_digits(ds),
        0 <= k <= ds.len(),
    ensures
        digits_val(ds.take(k)) <= digits_val(ds),
        digits_val(ds.take(k)) >= 0,
    decreases ds.len() - k,
{
    assert(all_digits(ds.take(k))) by {
        assert(forall|i: int| 0 <= i < k ==> ds.take(k)[i] == ds[i]);
    }
    lemma_digits_val_nonneg(ds.take(k));
    if k == ds.len() {
        assert(ds.take(k) =~= ds);
    } else {
        lemma_digits_val_take_le(ds, k + 1);
        assert(ds.take(k + 1).drop_last() =~= ds.take(k));
        assert(ds.take(k + 1).last() == ds[k]);
        assert(digits_val(ds.take(k + 1)) == digits_val(ds.take(k)) * 10 + digit_val(ds[k]));
        assert(digit_val(ds[k]) >= 0);
        assert(digits_val(ds.take(k)) * 10 >= digits_val(ds.take(k))) by (nonlinear_arith)
            requires digits_val(ds.take(k)) >= 0;
    }
}

/// Where each part of a claims document sits, by index.
proof fn lemma_claims_index(sub: Seq<char>, exp: u64)
    ensures
        claims_json(sub, exp).len() == 17 + json_escaped(sub).len() + dec_digits(
            exp as int,
        ).len(),
        forall|j: int| 0 <= j < 8 ==> claims_json(sub, exp)[j] == claims_prefix()[j],
        forall|j: int|
            0 <= j < json_escaped(sub).len() ==> claims_json(sub, exp)[8 + j] == json_escaped(
                sub,
            )[j],
        forall|j: int|
            0 <= j < 8 ==> claims_json(sub, exp)[8 + json_escaped(sub).len() + j]
                == claims_mid()[j],
        forall|j: int|
            0 <= j < dec_digits(exp as int).len() ==> claims_json(sub, exp)[16 + json_escaped(
                sub,
            ).len() + j] == dec_digits(exp as int)[j],
        claims_json(sub, exp)[claims_json(sub, exp).len() - 1] == '}',
{
}

/// At the boundary after `k` subject characters, what the escaped form shows
/// next.
proof fn lemma_scan_boundary(sub0: Seq<char>, k: int)
    requires
        0 <= k <= sub0.len(),
    ensures
        json_escaped(sub0.take(k)).len() <= json_escaped(sub0).len(),
        k == sub0.len() ==> json_escaped(sub0).len() == json_escaped(sub0.take(k)).len(),
        k < sub0.len() ==> json_escaped(sub0.take(k)).len() + esc_char(sub0[k]).len()
            <= json_escaped(sub0).len(),
        k < sub0.len() ==> forall|j: int|
            0 <= j < esc_char(sub0[k]).len() ==> json_escaped(sub0)[json_escaped(
                sub0.take(k),
            ).len() + j] == esc_char(sub0[k])[j],
        k < sub0.len() ==> json_escaped(sub0.take(k + 1)) == json_escaped(sub0.take(k))
            + esc_char(sub0[k]),
{
    assert(sub0 =~= sub0.take(k) + sub0.skip(k));
    lemma_json_escaped_concat(sub0.take(k), sub0.skip(k));
    if k < sub0.len() {
        assert(sub0.skip(k).len() > 0);
        assert(sub0.skip(k)[0] == sub0[k]);
        assert(json_escaped(sub0.skip(k)) == esc_char(sub0[k]) + json_escaped(
            sub0.skip(k).drop_first(),
        ));
        assert(sub0.take(k + 1) =~= sub0.take(k).push(sub0[k]));
        lemma_json_escaped_push(sub0.take(k), sub0[k]);
    } else {
        assert(sub0.take(k) =~= sub0);
    }
}

fn digit_value(c: char) -> (r: Option<u64>)
    ensures
        r matches Some(v) ==> is_digit(c) && v == digit_val(c),
        r is None ==> !is_digit(c),
{
    if c == '0' {
        Some(0)
    } else if c == '1' {
        Some(1)
    } else if c == '2' {
        Some(2)
    } else if c == '3' {
        Some(3)
    } else if c == '4' {
        Some(4)
    } else if c == '5' {
        Some(5)
    } else if c == '6' {
        Some(6)
    } else if c == '7' {
        Some(7)
    } else if c == '8' {
        Some(8)
    } else if c == '9' {
        Some(9)
    } else {
        None
    }
}

/// Reads a claims document back. It succeeds exactly on the documents this
/// library writes: the result is `(sub, exp)` precisely when the input is
/// `claims_json(sub, exp)`.
pub fn parse_claims(s: &str) -> (r: Option<(String, u64)>)
    ensures
        r matches Some(p) ==> s@ == claims_json(p.0@, p.1),
        forall|sub: Seq<char>, exp: u64|
            s@ == #[trigger] claims_json(sub, exp) ==> (r matches Some(p) && p.0@ == sub
                && p.1 == exp),
{
    let n = s.unicode_len();
    if n < 8 {
        proof {
            assert forall|sub0: Seq<char>, exp0: u64|
                s@ != #[trigger] claims_json(sub0, exp0) by {
                if s@ == claims_json(sub0, exp0) {
                    lemma_claims_index(sub0, exp0);
                    lemma_dec_digits_val(exp0 as int);
                }
            }
        }
        return None;
    }
    let okp = s.get_char(0) == '{' && s.get_char(1) == '"' && s.get_char(2) == 's' && s.get_char(
        3,
    ) == 'u' && s.get_char(4) == 'b' && s.get_char(5) == '"' && s.get_char(6) == ':'
        && s.get_char(7) == '"';
    if !okp {
        proof {
            assert forall|sub0: Seq<char>, exp0: u64|
                s@ != #[trigger] claims_json(sub0, exp0) by {
                if s@ == claims_json(sub0, exp0) {
                    lemma_claims_index(sub0, exp0);
                }
            }
        }
        return None;
    }
    let mut i: usize = 8;
    let mut sub = String::new();
    loop
        invariant
            8 <= i <= n,
            n == s@.len(),
            n >= 8,
            s@.subrange(8, i as int) == json_escaped(sub@),
            forall|sub0: Seq<char>, exp0: u64|
                s@ == #[trigger] claims_json(sub0, exp0) ==> sub@.len() <= sub0.len() && sub@
                    == sub0.take(sub@.len() as int),
        ensures
            8 <= i < n,
            n == s@.len(),
            s@.subrange(8, i as int) == json_escaped(sub@),
            s@[i as int] == '"',
            forall|sub0: Seq<char>, exp0: u64|
                s@ == #[trigger] claims_json(sub0, exp0) ==> sub@ == sub0 && i == 8
                    + json_escaped(sub0).len(),
        decreases n - i,
    {
        proof {
            assert(i - 8 == json_escaped(sub@).len());
        }
        if i >= n {
            proof {
                assert forall|sub0: Seq<char>, exp0: u64|
                    s@ != #[trigger] claims_json(sub0, exp0) by {
                    if s@ == claims_json(sub0, exp0) {
                        lemma_claims_index(sub0, exp0);
                        lemma_dec_digits_val(exp0 as int);
                        lemma_scan_boundary(sub0, sub@.len() as int);
                        assert(json_escaped(sub@) == json_escaped(sub0.take(sub@.len() as int)));
                        assert(i <= 8 + json_escaped(sub0).len());
                        assert(n == 17 + json_escaped(sub0).len() + dec_digits(
                            exp0 as int,
                        ).len());
                    }
                }
            }
            return None;
        }
        let c = s.get_char(i);
        proof {
            assert forall|sub0: Seq<char>, exp0: u64|
                s@ == #[trigger] claims_json(sub0, exp0) && sub@.len() < sub0.len() implies s@[i as int] == esc_char(sub0[sub@.len() as int])[0] && esc_char(
                sub0[sub@.len() as int],
            )[0] != '"' by {
                let k = sub@.len() as int;
                lemma_claims_index(sub0, exp0);
                lemma_scan_boundary(sub0, k);
                assert(json_escaped(sub@) == json_escaped(sub0.take(k)));
                assert(s@[8 + json_escaped(sub0.take(k)).len() as int] == json_escaped(sub0)[
                    json_escaped(sub0.take(k)).len() as int]);
            }
            assert forall|sub0: Seq<char>, exp0: u64|
                s@ == #[trigger] claims_json(sub0, exp0) && sub@.len() == sub0.len() implies s@[i as int] == '"' by {
                let k = sub@.len() as int;
                lemma_claims_index(sub0, exp0);
                lemma_scan_boundary(sub0, k);
                assert(i == 8 + json_escaped(sub0).len());
                assert(s@[i as int] == claims_mid()[0]);
            }
        }
        if c == '"' {
            proof {
                assert forall|sub0: Seq<char>, exp0: u64|
                    s@ == #[trigger] claims_json(sub0, exp0) implies sub@ == sub0 && i == 8
                        + json_escaped(sub0).len() by {
                    let k = sub@.len() as int;
                    if k < sub0.len() {
                        assert(s@[i as int] != '"');
                        assert(false);
                    }
                    assert(sub0.take(k) =~= sub0);
                    lemma_scan_boundary(sub0, k);
                    assert(json_escaped(sub@) == json_escaped(sub0.take(k)));
                }
            }
            break ;
        }
        if c == '\\' {
            if i + 1 >= n {
                proof {
                    assert forall|sub0: Seq<char>, exp0: u64|
                        s@ != #[trigger] claims_json(sub0, exp0) by {
                        if s@ == claims_json(sub0, exp0) {
                            let k = sub@.len() as int;
                            lemma_claims_index(sub0, exp0);
                            lemma_dec_digits_val(exp0 as int);
                            lemma_scan_boundary(sub0, k);
                            assert(k < sub0.len());
                            assert(json_escaped(sub@) == json_escaped(sub0.take(k)));
                            assert(i - 8 + esc_char(sub0[k]).len() <= json_escaped(
                                sub0,
                            ).len());
                            assert(n == 17 + json_escaped(sub0).len() + dec_digits(
                                exp0 as int,
                            ).len());
                        }
                    }
                }
                return None;
            }
            let d = s.get_char(i + 1);
            proof {
                assert forall|sub0: Seq<char>, exp0: u64|
                    s@ == #[trigger] claims_json(sub0, exp0) implies (sub0[sub@.len() as int]
                        == '"' || sub0[sub@.len() as int] == '\\') && s@[i + 1] == sub0[sub@.len() as int] by {
                    let k = sub@.len() as int;
                    assert(k < sub0.len());
                    lemma_claims_index(sub0, exp0);
                    lemma_scan_boundary(sub0, k);
                    assert(json_escaped(sub@) == json_escaped(sub0.take(k)));
                    assert(esc_char(sub0[k])[0] == '\\');
                    if sub0[k] != '"' && sub0[k] != '\\' {
                        assert(esc_char(sub0[k]) =~= seq![sub0[k]]);
                        assert(false);
                    }
                    assert(esc_char(sub0[k]).len() == 2);
                    assert(s@[8 + json_escaped(sub0.take(k)).len() as int + 1] == esc_char(sub0[k])[1]);
                    assert(esc_char(sub0[k])[1] == sub0[k]);
                }
            }
            if d == '"' || d == '\\' {
                let ghost pre_sub = sub@;
                push_char(&mut sub, d);
                proof {
                    lemma_json_escaped_push(pre_sub, d);
                    assert(pre_sub.push(d) =~= sub@);
                    assert(esc_char(d) =~= seq!['\\', d]);
                    assert(s@.subrange(8, i + 2 as int) =~= s@.subrange(8, i as int) + seq![
                        s@[i as int],
                        s@[i + 1],
                    ]);
                    assert(s@.subrange(8, i + 2 as int) =~= json_escaped(pre_sub) + esc_char(d));
                    assert(s@.subrange(8, i + 2 as int) == json_escaped(sub@));
                    assert forall|sub0: Seq<char>, exp0: u64|
                        s@ == #[trigger] claims_json(sub0, exp0) implies sub@.len()
                            <= sub0.len() && sub@ == sub0.take(sub@.len() as int) by {
                        let k = pre_sub.len() as int;
                        assert(pre_sub == sub0.take(k));
                        assert(d == sub0[k]);
                        assert(sub0.take(k + 1) =~= sub0.take(k).push(sub0[k]));
                        assert(sub@ =~= sub0.take(k + 1));
                    }
                }
                i = i + 2;
            } else {
                proof {
                    assert forall|sub0: Seq<char>, exp0: u64|
                        s@ != #[trigger] claims_json(sub0, exp0) by {
                        if s@ == claims_json(sub0, exp0) {
                            assert(s@[i + 1] == sub0[sub@.len() as int]);
                        }
                    }
                }
                return None;
            }
        } else {
            let ghost pre_sub = sub@;
            push_char(&mut sub, c);
            proof {
                lemma_json_escaped_push(pre_sub, c);
                assert(pre_sub.push(c) =~= sub@);
                assert(esc_char(c) =~= seq![c]);
                assert(s@.subrange(8, i + 1 as int) =~= s@.subrange(8, i as int) + seq![
                    s@[i as int],
                ]);
                assert(s@.subrange(8, i + 1 as int) =~= json_escaped(pre_sub) + esc_char(c));
                assert(s@.subrange(8, i + 1 as int) == json_escaped(sub@));
                assert forall|sub0: Seq<char>, exp0: u64|
                    s@ == #[trigger] claims_json(sub0, exp0) implies sub@.len() <= sub0.len()
                        && sub@ == sub0.take(sub@.len() as int) by {
                    let k = pre_sub.len() as int;
                    assert(pre_sub == sub0.take(k));
                    assert(k < sub0.len());
                    if sub0[k] == '"' || sub0[k] == '\\' {
                        assert(esc_char(sub0[k])[0] == '\\');
                        assert(false);
                    }
                    assert(esc_char(sub0[k]) =~= seq![sub0[k]]);
                    assert(c == sub0[k]);
                    assert(sub0.take(k + 1) =~= sub0.take(k).push(sub0[k]));
                    assert(sub@ =~= sub0.take(k + 1));
                }
            }
            i = i + 1;
        }
    }
    if n - i < 10 {
        proof {
            assert forall|sub0: Seq<char>, exp0: u64|
                s@ != #[trigger] claims_json(sub0, exp0) by {
                if s@ == claims_json(sub0, exp0) {
                    lemma_claims_index(sub0, exp0);
                    lemma_dec_digits_val(exp0 as int);
                }
            }
        }
        return None;
    }
    let okm = s.get_char(i + 1) == ',' && s.get_char(i + 2) == '"' && s.get_char(i + 3) == 'e'
        && s.get_char(i + 4) == 'x' && s.get_char(i + 5) == 'p' && s.get_char(i + 6) == '"'
        && s.get_char(i + 7) == ':';
    if !okm {
        proof {
            assert forall|sub0: Seq<char>, exp0: u64|
                s@ != #[trigger] claims_json(sub0, exp0) by {
                if s@ == claims_json(sub0, exp0) {
                    lemma_claims_index(sub0, exp0);
                }
            }
        }
        return None;
    }
    if s.get_char(n - 1) != '}' {
        proof {
            assert forall|sub0: Seq<char>, exp0: u64|
                s@ != #[trigger] claims_json(sub0, exp0) by {
                if s@ == claims_json(sub0, exp0) {
                    lemma_claims_index(sub0, exp0);
                }
            }
        }
        return None;
    }
    let dstart = i + 8;
    let dend = n - 1;
    proof {
        assert forall|sub0: Seq<char>, exp0: u64|
            s@ == #[trigger] claims_json(sub0, exp0) implies s@.subrange(
            dstart as int,
            dend as int,
        ) == dec_digits(exp0 as int) && dend - dstart == dec_digits(exp0 as int).len() by {
            lemma_claims_index(sub0, exp0);
            let dd = dec_digits(exp0 as int);
            assert(dend - dstart == dd.len());
            assert forall|j: int| 0 <= j < dd.len() implies s@.subrange(
                dstart as int,
                dend as int,
            )[j] == dd[j] by {
                assert(s@[16 + json_escaped(sub0).len() + j] == dd[j]);
            }
            assert(s@.subrange(dstart as int, dend as int) =~= dd);
        }
    }
    let mut j = dstart;
    let mut v: u64 = 0;
    while j < dend
        invariant
            dstart <= j <= dend,
            dstart == i + 8,
            8 <= i < n,
            dend == n - 1,
            dstart < dend,
            n == s@.len(),
            all_digits(s@.subrange(dstart as int, j as int)),
            v == digits_val(s@.subrange(dstart as int, j as int)),
            j > dstart ==> (s@[dstart as int] != '0' || dend == dstart + 1),
            forall|sub0: Seq<char>, exp0: u64|
                s@ == #[trigger] claims_json(sub0, exp0) ==> s@.subrange(
                    dstart as int,
                    dend as int,
                ) == dec_digits(exp0 as int),
        decreases dend - j,
    {
        let c = s.get_char(j);
        let dv = digit_value(c);
        proof {
            assert forall|sub0: Seq<char>, exp0: u64|
                s@ == #[trigger] claims_json(sub0, exp0) implies is_digit(c) && c
                    == dec_digits(exp0 as int)[j - dstart] by {
                lemma_dec_digits_val(exp0 as int);
                assert(s@.subrange(dstart as int, dend as int)[j - dstart] == s@[j as int]);
            }
        }
        match dv {
            None => {
                proof {
                    assert forall|sub0: Seq<char>, exp0: u64|
                        s@ != #[trigger] claims_json(sub0, exp0) by {
                        if s@ == claims_json(sub0, exp0) {
                            assert(is_digit(c));
                        }
                    }
                }
                return None;
            },
            Some(d) => {
                if j == dstart && c == '0' && dend - dstart > 1 {
                    proof {
                        assert forall|sub0: Seq<char>, exp0: u64|
                            s@ != #[trigger] claims_json(sub0, exp0) by {
                            if s@ == claims_json(sub0, exp0) {
                                lemma_dec_digits_val(exp0 as int);
                                assert(dec_digits(exp0 as int)[0] == '0');
                                assert(exp0 == 0);
                                assert(dend - dstart == 1);
                            }
                        }
                    }
                    return None;
                }
                proof {
                    assert forall|sub0: Seq<char>, exp0: u64|
                        s@ == #[trigger] claims_json(sub0, exp0) implies v * 10 + d
                            <= exp0 by {
                        let dd = dec_digits(exp0 as int);
                        lemma_dec_digits_val(exp0 as int);
                        assert(s@.subrange(dstart as int, j + 1 as int) =~= dd.take(
                            j + 1 - dstart,
                        ));
                        assert(s@.subrange(dstart as int, j as int) =~= dd.take(j - dstart));
                        lemma_digits_val_take_le(dd, j + 1 - dstart);
                        lemma_digits_val_push(dd.take(j - dstart), dd[j - dstart]);
                        assert(dd.take(j + 1 - dstart) =~= dd.take(j - dstart).push(
                            dd[j - dstart],
                        ));
                        assert(digits_val(dd.take(j + 1 - dstart)) == v * 10 + d);
                    }
                }
                let step = match v.checked_mul(10) {
                    Some(w) => w.checked_add(d),
                    None => None,
                };
                match step {
                    None => {
                        proof {
                            assert forall|sub0: Seq<char>, exp0: u64|
                                s@ != #[trigger] claims_json(sub0, exp0) by {
                                if s@ == claims_json(sub0, exp0) {
                                    assert(v * 10 + d <= exp0);
                                }
                            }
                        }
                        return None;
                    },
                    Some(w) => {
                        proof {
                            lemma_digits_val_push(
                                s@.subrange(dstart as int, j as int),
                                s@[j as int],
                            );
                            assert(s@.subrange(dstart as int, j + 1 as int) =~= s@.subrange(
                                dstart as int,
                                j as int,
                            ).push(s@[j as int]));
                            assert(all_digits(s@.subrange(dstart as int, j + 1 as int)));
                        }
                        v = w;
                        j = j + 1;
                    },
                }
            },
        }
    }
    proof {
        let region = s@.subrange(dstart as int, dend as int);
        assert(region =~= s@.subrange(dstart as int, j as int));
        assert(region.len() >= 1);
        assert(region[0] == s@[dstart as int]);
        lemma_digits_val_inverse(region);
        assert(dec_digits(v as int) == region);
        let cj = claims_json(sub@, v);
        lemma_claims_index(sub@, v);
        assert(cj.len() == n) by {
            assert(json_escaped(sub@).len() == i - 8);
            assert(dec_digits(v as int).len() == dend - dstart);
        }
        assert forall|x: int| 0 <= x < n implies s@[x] == cj[x] by {
            if x < 8 {
                assert(cj[x] == claims_prefix()[x]);
            } else if x < i {
                assert(cj[x] == json_escaped(sub@)[x - 8]);
                assert(s@.subrange(8, i as int)[x - 8] == s@[x]);
            } else if x < dstart {
                assert(cj[x] == claims_mid()[x - i]);
            } else if x < dend {
                assert(cj[x] == dec_digits(v as int)[x - dstart]);
                assert(region[x - dstart] == s@[x]);
            } else {
                assert(x == n - 1);
                assert(cj[x] == '}');
            }
        }
        assert(s@ =~= cj);
        assert forall|sub0: Seq<char>, exp0: u64|
            s@ == #[trigger] claims_json(sub0, exp0) implies sub@ == sub0 && v == exp0 by {
            lemma_dec_digits_val(exp0 as int);
            assert(region == dec_digits(exp0 as int));
            assert(digits_val(dec_digits(exp0 as int)) == exp0);
        }
    }
    Some((sub, v))
}

/// Writes the claims document for `sub` and `exp`.
pub fn render_claims(sub: &str, exp: u64) -> (r: String)
    ensures
        r@ == claims_json(sub@, exp),
{
    let mut out = String::from_str("{\"sub\":\"");
    proof {
        reveal_strlit("{\"sub\":\"");
        assert(out@ =~= claims_prefix());
    }
    append_escaped(&mut out, sub);
    out.append("\",\"exp\":");
    proof {
        reveal_strlit("\",\"exp\":");
        assert("\",\"exp\":"@ =~= claims_mid());
    }
    append_decimal(&mut out, exp);
    push_char(&mut out, '}');
    proof {
        assert(out@ =~= claims_json(sub@, exp));
    }
    out
}

/// Mints the token for subject `sub` expiring at `exp`, signed with `secret`.
pub fn mint_token(sub: &str, exp: u64, secret: &[u8]) -> (r: String)
    ensures
        r@ == token_of(sub@, exp, secret@),
{
    let header = "{\"typ\":\"JWT\",\"alg\":\"HS256\"}";
    proof {
        reveal_strlit("{\"typ\":\"JWT\",\"alg\":\"HS256\"}");
        assert(header@ =~= header_json());
    }
    let mut msg = b64url_encode(header);
    push_char(&mut msg, '.');
    let payload = render_claims(sub, exp);
    let p64 = b64url_encode(payload.as_str());
    msg.append(p64.as_str());
    proof {
        assert(msg@ =~= message_of(sub@, exp));
    }
    let sig = hs256_sign(msg.as_str(), secret);
    let mut tok = msg;
    push_char(&mut tok, '.');
    tok.append(sig.as_str());
    proof {
        assert(tok@ =~= token_of(sub@, exp, secret@));
    }
    tok
}

} // verus!
