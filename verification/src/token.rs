//! The provider's token response.
//!
//! A provider answers with a JSON object of exactly the shape
//! `{"access_token": <string>, "expires_in": <non-negative integer>}` — the
//! two members in either order, with optional whitespace between tokens.
//! The credential is a plain ASCII string without escapes; the lifetime a
//! decimal integer. Anything else — other members, other value types,
//! trailing bytes — is rejected, and the caller reports the provider's
//! response as invalid.

use vstd::prelude::*;
use vstd::utf8::is_ascii_chars;
use crate::ascii::{
    ascii_to_string, bytes_of_chars, chars_of_bytes, lemma_chars_of_bytes_ascii,
};
use crate::auth::AuthResponse;
use crate::decimal::{dec_val, is_digit_byte, lemma_dec_val_extend_ge};
use crate::req::{is_ws, prefix_len, ws_len, lemma_ws_len_at, lemma_prefix_len_at};

verus! {

/// Input after leading whitespace.
pub open spec fn jskip(s: Seq<u8>) -> Seq<u8> {
    s.skip(ws_len(s))
}

pub open spec fn json_string_byte(b: u8) -> bool {
    32 <= b && b < 127 && b != 34 && b != 92
}

/// A quoted string without escapes: its printable ASCII content and the
/// input after the closing quote.
pub open spec fn take_jstring(s: Seq<u8>) -> Option<(Seq<u8>, Seq<u8>)> {
    if s.len() == 0 || s[0] != 34 {
        None
    } else {
        let c = prefix_len(s.drop_first(), |b: u8| b == 34);
        if c >= s.len() - 1 {
            None
        } else {
            let content = s.subrange(1, 1 + c);
            if forall|i: int| 0 <= i < content.len() ==> json_string_byte(#[trigger] content[i]) {
                Some((content, s.skip(c + 2)))
            } else {
                None
            }
        }
    }
}

/// A decimal integer that fits in `u64`, and the input after its digits.
pub open spec fn take_jnumber(s: Seq<u8>) -> Option<(u64, Seq<u8>)> {
    let n = prefix_len(s, |b: u8| !is_digit_byte(b));
    if n == 0 {
        None
    } else if dec_val(s.take(n)) > u64::MAX {
        None
    } else {
        Some((dec_val(s.take(n)) as u64, s.skip(n)))
    }
}

pub open spec fn access_token_key() -> Seq<u8> {
    bytes_of_chars("access_token"@)
}

pub open spec fn expires_in_key() -> Seq<u8> {
    bytes_of_chars("expires_in"@)
}

pub ghost enum JMember {
    TokenField(Seq<char>),
    ExpiryField(u64),
}

/// One `"key": value` member; the value's type is fixed by the key.
pub open spec fn take_member(s: Seq<u8>) -> Option<(JMember, Seq<u8>)> {
    match take_jstring(jskip(s)) {
        None => None,
        Some((key, r1)) => {
            let r2 = jskip(r1);
            if r2.len() == 0 || r2[0] != 58 {
                None
            } else {
                let r3 = jskip(r2.drop_first());
                if key == access_token_key() {
                    match take_jstring(r3) {
                        None => None,
                        Some((tok, r4)) => Some((JMember::TokenField(chars_of_bytes(tok)), r4)),
                    }
                } else if key == expires_in_key() {
                    match take_jnumber(r3) {
                        None => None,
                        Some((v, r4)) => Some((JMember::ExpiryField(v), r4)),
                    }
                } else {
                    None
                }
            }
        },
    }
}

/// The whole response: an object holding exactly one `access_token` string
/// and one `expires_in` integer, in either order, and nothing after it.
pub open spec fn spec_parse_token_response(s: Seq<u8>) -> Option<(Seq<char>, u64)> {
    let r0 = jskip(s);
    if r0.len() == 0 || r0[0] != 123 {
        None
    } else {
        match take_member(r0.drop_first()) {
            None => None,
            Some((m1, r1)) => {
                let r2 = jskip(r1);
                if r2.len() == 0 || r2[0] != 44 {
                    None
                } else {
                    match take_member(r2.drop_first()) {
                        None => None,
                        Some((m2, r3)) => {
                            let r4 = jskip(r3);
                            if r4.len() == 0 || r4[0] != 125 {
                                None
                            } else if jskip(r4.drop_first()).len() != 0 {
                                None
                            } else {
                                match (m1, m2) {
                                    (JMember::TokenField(t), JMember::ExpiryField(e)) => Some(
                                        (t, e),
                                    ),
                                    (JMember::ExpiryField(e), JMember::TokenField(t)) => Some(
                                        (t, e),
                                    ),
                                    _ => None,
                                }
                            }
                        },
                    }
                }
            },
        }
    }
}

// ---------------------------------------------------------------------------
// Executable parser
// ---------------------------------------------------------------------------

/// Index just past the leading whitespace at `i`.
#[verifier::loop_isolation(false)]
fn skip_ws_at(s: &[u8], i: usize) -> (j: usize)
    requires
        i <= s@.len(),
    ensures
        i <= j <= s@.len(),
        j - i == ws_len(s@.skip(i as int)),
        s@.skip(j as int) == jskip(s@.skip(i as int)),
{
    let n = s.len();
    let mut j: usize = i;
    while j < n && (s[j] == 32 || s[j] == 9 || s[j] == 13 || s[j] == 10)
        invariant
            i <= j <= n,
            forall|k: int| i <= k < j ==> is_ws(#[trigger] s@[k]),
        decreases n - j,
    {
        j = j + 1;
    }
    proof {
        let t = s@.skip(i as int);
        assert forall|k: int| 0 <= k < j - i implies is_ws(#[trigger] t[k]) by {
            assert(t[k] == s@[k + i]);
        }
        if j < n {
            assert(t[j - i] == s@[j as int]);
        }
        lemma_ws_len_at(t, j - i);
        assert(s@.skip(j as int) =~= t.skip(j - i));
    }
    j
}

/// A quoted string at `i`: its content and the index past the closing
/// quote.
#[verifier::loop_isolation(false)]
fn take_jstring_at(s: &[u8], i: usize) -> (r: Option<(String, usize)>)
    requires
        i <= s@.len(),
    ensures
        match r {
            Some(p) => take_jstring(s@.skip(i as int)) matches Some(q) && q.0 == bytes_of_chars(
                p.0@,
            ) && p.0@ == chars_of_bytes(q.0) && is_ascii_chars(p.0@) && i < p.1 <= s@.len()
                && s@.skip(p.1 as int) == q.1,
            None => take_jstring(s@.skip(i as int)) is None,
        },
{
    let n = s.len();
    let ghost t = s@.skip(i as int);
    if i == n || s[i] != 34 {
        return None;
    }
    let mut j: usize = i + 1;
    while j < n && s[j] != 34
        invariant
            i + 1 <= j <= n,
            forall|k: int| i + 1 <= k < j ==> #[trigger] s@[k] != 34,
        decreases n - j,
    {
        j = j + 1;
    }
    proof {
        let u = t.drop_first();
        assert(u =~= s@.skip(i + 1));
        assert forall|k: int| 0 <= k < j - (i + 1) implies #[trigger] u[k] != 34 by {
            assert(u[k] == s@[k + i + 1]);
        }
        if j < n {
            assert(u[j - (i + 1)] == s@[j as int]);
        }
        lemma_prefix_len_at(u, |b: u8| b == 34, j - (i + 1));
    }
    if j == n {
        return None;
    }
    // collect and vet the content
    let mut content: Vec<u8> = Vec::new();
    let mut k: usize = i + 1;
    while k < j
        invariant
            i + 1 <= k <= j <= n,
            content@ == s@.subrange(i + 1, k as int),
            forall|x: int| 0 <= x < content@.len() ==> json_string_byte(#[trigger] content@[x]),
        decreases j - k,
    {
        let b = s[k];
        if b < 32 || b >= 127 || b == 92 {
            proof {
                assert(t.subrange(1, 1 + (j - (i + 1)))[k - (i + 1)] == s@[k as int]);
            }
            return None;
        }
        content.push(b);
        k = k + 1;
        proof {
            assert(content@ =~= s@.subrange(i + 1, k as int));
        }
    }
    proof {
        assert(content@ =~= t.subrange(1, 1 + (j - (i + 1))));
        assert forall|x: int| 0 <= x < content@.len() implies #[trigger] content@[x] < 128 by {}
        lemma_chars_of_bytes_ascii(content@);
        assert(s@.skip(j + 1) =~= t.skip((j - (i + 1)) + 2));
    }
    let text = ascii_to_string(&content);
    Some((text, j + 1))
}

/// A decimal `u64` at `i` and the index past its digits.
#[verifier::loop_isolation(false)]
fn take_jnumber_at(s: &[u8], i: usize) -> (r: Option<(u64, usize)>)
    requires
        i <= s@.len(),
    ensures
        match r {
            Some(p) => take_jnumber(s@.skip(i as int)) == Some((p.0, s@.skip(p.1 as int))) && i
                < p.1 <= s@.len(),
            None => take_jnumber(s@.skip(i as int)) is None,
        },
{
    let n = s.len();
    let ghost t = s@.skip(i as int);
    let mut j: usize = i;
    while j < n && 48 <= s[j] && s[j] <= 57
        invariant
            i <= j <= n,
            forall|k: int| i <= k < j ==> is_digit_byte(#[trigger] s@[k]),
        decreases n - j,
    {
        j = j + 1;
    }
    proof {
        assert forall|k: int| 0 <= k < j - i implies !((|b: u8| !is_digit_byte(b))(
            #[trigger] t[k],
        )) by {
            assert(t[k] == s@[k + i]);
        }
        if j < n {
            assert(t[j - i] == s@[j as int]);
        }
        lemma_prefix_len_at(t, |b: u8| !is_digit_byte(b), j - i);
    }
    if j == i {
        return None;
    }
    let ghost digits = t.take(j - i);
    let mut acc: u64 = 0;
    let mut k: usize = i;
    while k < j
        invariant
            i <= k <= j <= n,
            forall|x: int| i <= x < j ==> is_digit_byte(#[trigger] s@[x]),
            acc == dec_val(digits.take(k - i)),
        decreases j - k,
    {
        let d = (s[k] - 48) as u64;
        proof {
            assert(digits.take(k - i + 1).drop_last() =~= digits.take(k - i));
            assert(digits.take(k - i + 1).last() == s@[k as int]);
        }
        if acc > (u64::MAX - d) / 10 {
            proof {
                assert(dec_val(digits.take(k - i + 1)) == acc * 10 + d);
                assert(acc * 10 + d > u64::MAX) by (nonlinear_arith)
                    requires
                        acc > (u64::MAX - d) / 10,
                        d <= 9,
                ;
                assert forall|x: int| 0 <= x < digits.len() implies is_digit_byte(
                    #[trigger] digits[x],
                ) by {
                    assert(digits[x] == s@[x + i]);
                }
                lemma_dec_val_extend_ge(digits, k - i + 1);
            }
            return None;
        }
        acc = acc * 10 + d;
        k = k + 1;
    }
    proof {
        assert(digits.take(j - i) =~= digits);
        assert(s@.skip(j as int) =~= t.skip(j - i));
    }
    Some((acc, j))
}

/// One member at `i`.
enum MemberValue {
    TokenField(String),
    ExpiryField(u64),
}

fn take_member_at(s: &[u8], i: usize) -> (r: Option<(MemberValue, usize)>)
    requires
        i <= s@.len(),
    ensures
        match r {
            Some(p) => match p.0 {
                MemberValue::TokenField(tok) => take_member(s@.skip(i as int)) == Some(
                    (JMember::TokenField(tok@), s@.skip(p.1 as int)),
                ) && is_ascii_chars(tok@) && i <= p.1 <= s@.len(),
                MemberValue::ExpiryField(v) => take_member(s@.skip(i as int)) == Some(
                    (JMember::ExpiryField(v), s@.skip(p.1 as int)),
                ) && i <= p.1 <= s@.len(),
            },
            None => take_member(s@.skip(i as int)) is None,
        },
{
    proof {
        reveal_strlit("access_token");
        reveal_strlit("expires_in");
        assert(is_ascii_chars("access_token"@));
        assert(is_ascii_chars("expires_in"@));
    }
    let j0 = skip_ws_at(s, i);
    let (key, j1) = match take_jstring_at(s, j0) {
        None => {
            return None;
        },
        Some(p) => p,
    };
    let j2 = skip_ws_at(s, j1);
    if j2 == s.len() || s[j2] != 58 {
        proof {
            let r2 = jskip(s@.skip(j1 as int));
            if j2 < s@.len() {
                assert(r2[0] == s@[j2 as int]);
            }
        }
        return None;
    }
    let j3 = skip_ws_at(s, j2 + 1);
    proof {
        let r2 = jskip(s@.skip(j1 as int));
        assert(r2[0] == s@[j2 as int]);
        assert(r2.drop_first() =~= s@.skip(j2 + 1));
    }
    let is_token_key = crate::ascii::str_eq(key.as_str(), "access_token");
    let is_expiry_key = crate::ascii::str_eq(key.as_str(), "expires_in");
    proof {
        let kb = bytes_of_chars(key@);
        if key@ == "access_token"@ {
            assert(kb =~= access_token_key());
        } else {
            assert(chars_of_bytes(access_token_key()) =~= "access_token"@) by {
                crate::ascii::lemma_bytes_of_chars_ascii("access_token"@);
            }
            if kb == access_token_key() {
                assert(chars_of_bytes(kb) == key@) by {
                    crate::ascii::lemma_bytes_of_chars_ascii(key@);
                }
                assert(false);
            }
        }
        if key@ == "expires_in"@ {
            assert(kb =~= expires_in_key());
        } else {
            assert(chars_of_bytes(expires_in_key()) =~= "expires_in"@) by {
                crate::ascii::lemma_bytes_of_chars_ascii("expires_in"@);
            }
            if kb == expires_in_key() {
                assert(chars_of_bytes(kb) == key@) by {
                    crate::ascii::lemma_bytes_of_chars_ascii(key@);
                }
                assert(false);
            }
        }
    }
    if is_token_key {
        match take_jstring_at(s, j3) {
            None => None,
            Some((tok, j4)) => Some((MemberValue::TokenField(tok), j4)),
        }
    } else if is_expiry_key {
        match take_jnumber_at(s, j3) {
            None => None,
            Some((v, j4)) => Some((MemberValue::ExpiryField(v), j4)),
        }
    } else {
        None
    }
}

/// Reads a provider's token response. Exactly the responses described by
/// `spec_parse_token_response` are accepted.
pub fn parse_token_response(body: &[u8]) -> (r: Option<AuthResponse>)
    ensures
        match r {
            Some(a) => spec_parse_token_response(body@) == Some((a.access_token@, a.expires_in))
                && is_ascii_chars(a.access_token@),
            None => spec_parse_token_response(body@) is None,
        },
{
    proof {
        assert(body@.skip(0) =~= body@);
    }
    let j0 = skip_ws_at(body, 0);
    if j0 == body.len() || body[j0] != 123 {
        proof {
            let r0 = jskip(body@);
            if j0 < body@.len() {
                assert(r0[0] == body@[j0 as int]);
            }
        }
        return None;
    }
    proof {
        let r0 = jskip(body@);
        assert(r0[0] == body@[j0 as int]);
        assert(r0.drop_first() =~= body@.skip(j0 + 1));
    }
    let m1 = match take_member_at(body, j0 + 1) {
        None => {
            return None;
        },
        Some(p) => p,
    };
    let j1 = m1.1;
    let j2 = skip_ws_at(body, j1);
    if j2 == body.len() || body[j2] != 44 {
        proof {
            let r2 = jskip(body@.skip(j1 as int));
            if j2 < body@.len() {
                assert(r2[0] == body@[j2 as int]);
            }
        }
        return None;
    }
    proof {
        let r2 = jskip(body@.skip(j1 as int));
        assert(r2[0] == body@[j2 as int]);
        assert(r2.drop_first() =~= body@.skip(j2 + 1));
    }
    let m2 = match take_member_at(body, j2 + 1) {
        None => {
            return None;
        },
        Some(p) => p,
    };
    let j3 = m2.1;
    let j4 = skip_ws_at(body, j3);
    if j4 == body.len() || body[j4] != 125 {
        proof {
            let r4 = jskip(body@.skip(j3 as int));
            if j4 < body@.len() {
                assert(r4[0] == body@[j4 as int]);
            }
        }
        return None;
    }
    proof {
        let r4 = jskip(body@.skip(j3 as int));
        assert(r4[0] == body@[j4 as int]);
        assert(r4.drop_first() =~= body@.skip(j4 + 1));
    }
    let j5 = skip_ws_at(body, j4 + 1);
    if j5 != body.len() {
        proof {
            assert(jskip(body@.skip(j4 + 1)).len() == body@.len() - j5);
        }
        return None;
    }
    proof {
        assert(jskip(body@.skip(j4 + 1)).len() == 0);
    }
    match (m1.0, m2.0) {
        (MemberValue::TokenField(t), MemberValue::ExpiryField(e)) => Some(
            AuthResponse { access_token: t, expires_in: e },
        ),
        (MemberValue::ExpiryField(e), MemberValue::TokenField(t)) => Some(
            AuthResponse { access_token: t, expires_in: e },
        ),
        _ => None,
    }
}

} // verus!
