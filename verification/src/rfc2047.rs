//! RFC 2047 encoded words in header text: `=?charset?encoding?content?=`
//! tokens are found, decoded — `q` as quoted-printable-like text, `b` as
//! base64 — and transcoded through the charset label.  Whitespace between
//! two adjacent encoded words is elided first, so they join seamlessly.

use vstd::prelude::*;
use vstd::string::{StrSliceExecFns, StringExecFns};

use crate::text::is_text_ws;
use crate::text::is_text_ws_exec;
use crate::trusted::{base64_decode, charset_decode, charset_decoded, from_base64_str, string_push};

verus! {

/// The characters allowed in the charset and encoding parts of an encoded
/// word.
pub open spec fn is_token_char(c: char) -> bool {
    !(c == ' ' || c == '"' || c == '(' || c == '}' || c == '<' || c == '>' || c == '@' || c
        == ',' || c == ';' || c == ':' || c == '/' || c == '[' || c == ']' || c == '?' || c
        == '.' || c == '=')
}

/// The characters allowed in the content part of an encoded word.
pub open spec fn is_enc_char(c: char) -> bool {
    !(c == '?' || c == ' ')
}

fn is_token_char_exec(c: char) -> (r: bool)
    ensures
        r == is_token_char(c),
{
    !(c == ' ' || c == '"' || c == '(' || c == '}' || c == '<' || c == '>' || c == '@' || c
        == ',' || c == ';' || c == ':' || c == '/' || c == '[' || c == ']' || c == '?' || c
        == '.' || c == '=')
}

fn is_enc_char_exec(c: char) -> (r: bool)
    ensures
        r == is_enc_char(c),
{
    !(c == '?' || c == ' ')
}

/// The end of the run of token characters that starts at `k`.
pub open spec fn scan_token_end(s: Seq<char>, k: int) -> int
    decreases s.len() - k,
{
    if 0 <= k < s.len() && is_token_char(s[k]) {
        scan_token_end(s, k + 1)
    } else {
        k
    }
}

/// The end of the run of content characters that starts at `k`.
pub open spec fn scan_enc_end(s: Seq<char>, k: int) -> int
    decreases s.len() - k,
{
    if 0 <= k < s.len() && is_enc_char(s[k]) {
        scan_enc_end(s, k + 1)
    } else {
        k
    }
}

/// The end of the run of whitespace characters that starts at `k`.
pub open spec fn scan_ws_end(s: Seq<char>, k: int) -> int
    decreases s.len() - k,
{
    if 0 <= k < s.len() && is_text_ws(s[k]) {
        scan_ws_end(s, k + 1)
    } else {
        k
    }
}

pub proof fn lemma_scan_token_bounds(s: Seq<char>, k: int)
    requires
        0 <= k <= s.len(),
    ensures
        k <= scan_token_end(s, k) <= s.len(),
    decreases s.len() - k,
{
    if k < s.len() && is_token_char(s[k]) {
        lemma_scan_token_bounds(s, k + 1);
    }
}

pub proof fn lemma_scan_enc_bounds(s: Seq<char>, k: int)
    requires
        0 <= k <= s.len(),
    ensures
        k <= scan_enc_end(s, k) <= s.len(),
    decreases s.len() - k,
{
    if k < s.len() && is_enc_char(s[k]) {
        lemma_scan_enc_bounds(s, k + 1);
    }
}

pub proof fn lemma_scan_ws_bounds(s: Seq<char>, k: int)
    requires
        0 <= k <= s.len(),
    ensures
        k <= scan_ws_end(s, k) <= s.len(),
    decreases s.len() - k,
{
    if k < s.len() && is_text_ws(s[k]) {
        lemma_scan_ws_bounds(s, k + 1);
    }
}

/// The encoded word starting exactly at `i`, if any: its charset,
/// encoding, content, and end position.
pub open spec fn word_at(s: Seq<char>, i: int) -> Option<(Seq<char>, Seq<char>, Seq<char>, int)> {
    if !(0 <= i && i + 1 < s.len() && s[i] == '=' && s[i + 1] == '?') {
        None
    } else {
        let a = i + 2;
        let b = scan_token_end(s, a);
        if !(b < s.len() && s[b] == '?') {
            None
        } else {
            let c = b + 1;
            let d = scan_token_end(s, c);
            if !(d < s.len() && s[d] == '?') {
                None
            } else {
                let e = d + 1;
                let f = scan_enc_end(s, e);
                if !(f + 1 < s.len() && s[f] == '?' && s[f + 1] == '=') {
                    None
                } else {
                    Some((s.subrange(a, b), s.subrange(c, d), s.subrange(e, f), f + 2))
                }
            }
        }
    }
}

pub proof fn lemma_word_at_bounds(s: Seq<char>, i: int)
    requires
        0 <= i <= s.len(),
    ensures
        match word_at(s, i) {
            Some(w) => i < w.3 <= s.len(),
            None => true,
        },
{
    if i + 1 < s.len() && s[i] == '=' && s[i + 1] == '?' {
        lemma_scan_token_bounds(s, i + 2);
        let b = scan_token_end(s, i + 2);
        if b < s.len() && s[b] == '?' {
            lemma_scan_token_bounds(s, b + 1);
            let d = scan_token_end(s, b + 1);
            if d < s.len() && s[d] == '?' {
                lemma_scan_enc_bounds(s, d + 1);
            }
        }
    }
}

/// The elision starting exactly at `i`, if any: `?=`, whitespace, `=?`,
/// and where it ends.
pub open spec fn elision_at(s: Seq<char>, i: int) -> Option<int> {
    if !(0 <= i && i + 1 < s.len() && s[i] == '?' && s[i + 1] == '=') {
        None
    } else {
        let j = scan_ws_end(s, i + 2);
        if j + 1 < s.len() && s[j] == '=' && s[j + 1] == '?' {
            Some(j + 2)
        } else {
            None
        }
    }
}

pub proof fn lemma_elision_at_bounds(s: Seq<char>, i: int)
    requires
        0 <= i <= s.len(),
    ensures
        match elision_at(s, i) {
            Some(e) => i < e <= s.len(),
            None => true,
        },
{
    if i + 1 < s.len() && s[i] == '?' && s[i + 1] == '=' {
        lemma_scan_ws_bounds(s, i + 2);
    }
}

/// The text with each whitespace run between two adjacent encoded words
/// elided: `?=` ws `=?` becomes `?==?`.
pub open spec fn elide_between_words(s: Seq<char>, i: int) -> Seq<char>
    decreases s.len() - i,
    when 0 <= i <= s.len()
    via elide_between_words_dec
{
    if i >= s.len() {
        Seq::empty()
    } else {
        match elision_at(s, i) {
            Some(e) => seq!['?', '=', '=', '?'] + elide_between_words(s, e),
            None => seq![s[i]] + elide_between_words(s, i + 1),
        }
    }
}

#[via_fn]
proof fn elide_between_words_dec(s: Seq<char>, i: int) {
    if 0 <= i <= s.len() {
        lemma_elision_at_bounds(s, i);
    }
}

/// Is `c` one of the hexadecimal digits, and which value does it carry?
pub open spec fn hex_val(c: char) -> Option<u8> {
    let u = c as u32;
    if 48 <= u && u <= 57 {
        Some((u - 48) as u8)
    } else if 65 <= u && u <= 70 {
        Some((u - 55) as u8)
    } else if 97 <= u && u <= 102 {
        Some((u - 87) as u8)
    } else {
        None
    }
}

fn hex_val_exec(c: char) -> (r: Option<u8>)
    ensures
        r == hex_val(c),
{
    let u = c as u32;
    proof {
        vstd::utf8::char_u32_cast(c, u);
    }
    if 48 <= u && u <= 57 {
        Some((u - 48) as u8)
    } else if 65 <= u && u <= 70 {
        Some((u - 55) as u8)
    } else if 97 <= u && u <= 102 {
        Some((u - 87) as u8)
    } else {
        None
    }
}

/// The bytes the `q` encoding denotes: `=HH` is one byte, `_` is a space,
/// a newline vanishes, anything else passes through as its own encoding.
pub open spec fn q_decode_spec(s: Seq<char>, i: int) -> Seq<u8>
    decreases s.len() - i,
{
    if !(0 <= i && i < s.len()) {
        Seq::empty()
    } else if s[i] == '=' && i + 2 < s.len() && hex_val(s[i + 1]) is Some && hex_val(
        s[i + 2],
    ) is Some {
        seq![
            (hex_val(s[i + 1]).unwrap() * 16 + hex_val(s[i + 2]).unwrap()) as u8,
        ] + q_decode_spec(s, i + 3)
    } else if s[i] == '\n' {
        q_decode_spec(s, i + 1)
    } else if s[i] == '_' {
        seq![32u8] + q_decode_spec(s, i + 1)
    } else {
        vstd::utf8::encode_utf8(seq![s[i]]) + q_decode_spec(s, i + 1)
    }
}

/// Decode `q`-encoded content into bytes.
#[verifier::loop_isolation(false)]
pub fn q_decode(content: &str) -> (r: Vec<u8>)
    ensures
        r@ == q_decode_spec(content@, 0),
{
    let n = content.unicode_len();
    let mut out: Vec<u8> = Vec::new();
    let mut i: usize = 0;
    while i < n
        invariant
            i <= n,
            out@ + q_decode_spec(content@, i as int) == q_decode_spec(content@, 0),
        decreases n - i,
    {
        let ghost out_pre = out@;
        let c = content.get_char(i);
        if c == '=' && n - i > 2 {
            let h1 = hex_val_exec(content.get_char(i + 1));
            let h2 = hex_val_exec(content.get_char(i + 2));
            match (h1, h2) {
                (Some(a), Some(b)) => {
                    out.push(a * 16 + b);
                    proof {
                        let byte = seq![(a * 16 + b) as u8];
                        assert(q_decode_spec(content@, i as int) == byte + q_decode_spec(
                            content@,
                            i + 3 as int,
                        ));
                        assert(out@ =~= out_pre + byte);
                        assert(out_pre + (byte + q_decode_spec(content@, i + 3 as int)) =~= (
                        out_pre + byte) + q_decode_spec(content@, i + 3 as int));
                    }
                    i = i + 3;
                },
                _ => {
                    push_char_bytes(&mut out, c);
                    proof {
                        let chunk = vstd::utf8::encode_utf8(seq![c]);
                        assert(q_decode_spec(content@, i as int) == chunk + q_decode_spec(
                            content@,
                            i + 1 as int,
                        ));
                        assert(out_pre + (chunk + q_decode_spec(content@, i + 1 as int)) =~= (
                        out_pre + chunk) + q_decode_spec(content@, i + 1 as int));
                    }
                    i = i + 1;
                },
            }
        } else if c == '\n' {
            i = i + 1;
        } else if c == '_' {
            out.push(32);
            proof {
                let byte = seq![32u8];
                assert(q_decode_spec(content@, i as int) == byte + q_decode_spec(
                    content@,
                    i + 1 as int,
                ));
                assert(out@ =~= out_pre + byte);
                assert(out_pre + (byte + q_decode_spec(content@, i + 1 as int)) =~= (out_pre
                    + byte) + q_decode_spec(content@, i + 1 as int));
            }
            i = i + 1;
        } else {
            push_char_bytes(&mut out, c);
            proof {
                let chunk = vstd::utf8::encode_utf8(seq![c]);
                assert(q_decode_spec(content@, i as int) == chunk + q_decode_spec(
                    content@,
                    i + 1 as int,
                ));
                assert(out_pre + (chunk + q_decode_spec(content@, i + 1 as int)) =~= (out_pre
                    + chunk) + q_decode_spec(content@, i + 1 as int));
            }
            i = i + 1;
        }
    }
    out
}

/// Append the UTF-8 encoding of one character.
fn push_char_bytes(out: &mut Vec<u8>, c: char)
    ensures
        final(out)@ == old(out)@ + vstd::utf8::encode_utf8(seq![c]),
{
    let mut s = String::new();
    string_push(&mut s, c);
    proof {
        assert(s@ =~= seq![c]);
    }
    let mut bytes = s.as_str().as_bytes_vec();
    out.append(&mut bytes);
}

/// Decode `b`-encoded (base64) content into bytes.
pub fn b_decode(content: &str) -> (r: Option<Vec<u8>>)
    ensures
        r is Some <==> base64_decode(content@) is Some,
        r matches Some(v) ==> base64_decode(content@) == Some(v@),
{
    from_base64_str(content)
}

/// What one encoded word decodes to, if everything about it is understood:
/// the encoding must be `q` or `b`, the bytes must decode, and the charset
/// label must be known.
pub open spec fn decode_word_spec(charset: Seq<char>, enc: Seq<char>, content: Seq<char>) -> Option<
    Seq<char>,
> {
    let bytes: Option<Seq<u8>> = if enc == "q"@ || enc == "Q"@ {
        Some(q_decode_spec(content, 0))
    } else if enc == "b"@ || enc == "B"@ {
        base64_decode(content)
    } else {
        None
    };
    match bytes {
        Some(b) => charset_decoded(charset, b),
        None => None,
    }
}

/// Decode one encoded word: `q` or `b` content, then the charset.
pub fn decode_word(charset: &str, encoding: &str, content: &str) -> (r: Option<String>)
    ensures
        r is Some <==> decode_word_spec(charset@, encoding@, content@) is Some,
        r matches Some(s) ==> decode_word_spec(charset@, encoding@, content@) == Some(s@),
{
    let bytes: Option<Vec<u8>> = if crate::text::str_eq(encoding, "q") || crate::text::str_eq(
        encoding,
        "Q",
    ) {
        Some(q_decode(content))
    } else if crate::text::str_eq(encoding, "b") || crate::text::str_eq(encoding, "B") {
        b_decode(content)
    } else {
        None
    };
    match bytes {
        Some(b) => charset_decode(charset, &b),
        None => None,
    }
}

/// The whole header text with every encoded word replaced: a word that
/// decodes is replaced by its decoding; one that does not is replaced by
/// `orig`, the untouched input.
pub open spec fn rfc2047_replaced(t: Seq<char>, orig: Seq<char>, i: int) -> Seq<char>
    decreases t.len() - i,
    when 0 <= i <= t.len()
    via rfc2047_replaced_dec
{
    if i >= t.len() {
        Seq::empty()
    } else {
        match word_at(t, i) {
            Some(w) => (match decode_word_spec(w.0, w.1, w.2) {
                Some(d) => d,
                None => orig,
            }) + rfc2047_replaced(t, orig, w.3),
            None => seq![t[i]] + rfc2047_replaced(t, orig, i + 1),
        }
    }
}

#[via_fn]
proof fn rfc2047_replaced_dec(t: Seq<char>, orig: Seq<char>, i: int) {
    if 0 <= i <= t.len() {
        lemma_word_at_bounds(t, i);
    }
}

/// The meaning of decoding a whole header text.
pub open spec fn rfc2047_decoded(s: Seq<char>) -> Seq<char> {
    rfc2047_replaced(elide_between_words(s, 0), s, 0)
}

/// Text that can carry RFC 2047 encoded words.
pub trait FromRFC2047 {
    fn from_rfc2047(&self) -> String;
}

/// Elide whitespace between adjacent encoded words.
#[verifier::loop_isolation(false)]
fn elide_ws(s: &str) -> (r: String)
    ensures
        r@ == elide_between_words(s@, 0),
{
    let n = s.unicode_len();
    let mut out = String::new();
    let mut i: usize = 0;
    while i < n
        invariant
            i <= n,
            out@ + elide_between_words(s@, i as int) == elide_between_words(s@, 0),
        decreases n - i,
    {
        let ghost out_pre = out@;
        let c = s.get_char(i);
        let mut matched: bool = false;
        let mut end: usize = 0;
        if c == '?' && i + 1 < n && s.get_char(i + 1) == '=' {
            let mut j = i + 2;
            while j < n && is_text_ws_exec(s.get_char(j))
                invariant
                    i + 2 <= j <= n,
                    forall|k: int| i + 2 <= k < j ==> is_text_ws(s@[k]),
                decreases n - j,
            {
                j = j + 1;
            }
            proof {
                lemma_scan_ws_from(s@, i + 2 as int, j as int);
            }
            if j < n && s.get_char(j) == '=' && j + 1 < n && s.get_char(j + 1) == '?' {
                matched = true;
                end = j + 2;
                proof {
                    assert(elision_at(s@, i as int) == Some(j + 2 as int));
                }
            } else {
                proof {
                    assert(elision_at(s@, i as int) is None);
                }
            }
        } else {
            proof {
                assert(elision_at(s@, i as int) is None);
            }
        }
        if matched {
            out.append("?==?");
            proof {
                reveal_strlit("?==?");
                assert("?==?"@ =~= seq!['?', '=', '=', '?']);
                assert(elide_between_words(s@, i as int) == seq!['?', '=', '=', '?']
                    + elide_between_words(s@, end as int));
                assert(out@ =~= out_pre + seq!['?', '=', '=', '?']);
                assert(out_pre + (seq!['?', '=', '=', '?'] + elide_between_words(
                    s@,
                    end as int,
                )) =~= (out_pre + seq!['?', '=', '=', '?']) + elide_between_words(
                    s@,
                    end as int,
                ));
            }
            i = end;
        } else {
            proof {
                assert(elide_between_words(s@, i as int) == seq![s@[i as int]]
                    + elide_between_words(s@, i + 1 as int));
            }
            string_push(&mut out, c);
            proof {
                assert(out@ =~= out_pre + seq![s@[i as int]]);
                assert(out_pre + (seq![s@[i as int]] + elide_between_words(s@, i + 1 as int))
                    =~= (out_pre + seq![s@[i as int]]) + elide_between_words(s@, i + 1 as int));
            }
            i = i + 1;
        }
    }
    out
}

/// The exec whitespace scan lands on the spec scan.
proof fn lemma_scan_ws_from(s: Seq<char>, start: int, j: int)
    requires
        0 <= start <= j <= s.len(),
        forall|k: int| start <= k < j ==> is_text_ws(s[k]),
        j == s.len() || !is_text_ws(s[j]),
    ensures
        scan_ws_end(s, start) == j,
    decreases j - start,
{
    if start < j {
        lemma_scan_ws_from(s, start + 1, j);
    }
}

/// The exec token scan lands on the spec scan.
proof fn lemma_scan_token_from(s: Seq<char>, start: int, j: int)
    requires
        0 <= start <= j <= s.len(),
        forall|k: int| start <= k < j ==> is_token_char(s[k]),
        j == s.len() || !is_token_char(s[j]),
    ensures
        scan_token_end(s, start) == j,
    decreases j - start,
{
    if start < j {
        lemma_scan_token_from(s, start + 1, j);
    }
}

/// The exec content scan lands on the spec scan.
proof fn lemma_scan_enc_from(s: Seq<char>, start: int, j: int)
    requires
        0 <= start <= j <= s.len(),
        forall|k: int| start <= k < j ==> is_enc_char(s[k]),
        j == s.len() || !is_enc_char(s[j]),
    ensures
        scan_enc_end(s, start) == j,
    decreases j - start,
{
    if start < j {
        lemma_scan_enc_from(s, start + 1, j);
    }
}

/// Decode every encoded word in a header text.
#[verifier::loop_isolation(false)]
#[verifier::rlimit(100)]
pub fn decode_rfc2047(s: &str) -> (r: String)
    ensures
        r@ == rfc2047_decoded(s@),
{
    let elided = elide_ws(s);
    let t = elided.as_str();
    let n = t.unicode_len();
    let mut out = String::new();
    let mut i: usize = 0;
    while i < n
        invariant
            i <= n,
            t@ == elide_between_words(s@, 0),
            out@ + rfc2047_replaced(t@, s@, i as int) == rfc2047_replaced(t@, s@, 0),
        decreases n - i,
    {
        let mut handled: bool = false;
        if t.get_char(i) == '=' && i + 1 < n && t.get_char(i + 1) == '?' {
            // Scan the three parts of a candidate encoded word.
            let a = i + 2;
            let mut b = a;
            while b < n && is_token_char_exec(t.get_char(b))
                invariant
                    a <= b <= n,
                    forall|k: int| a <= k < b ==> is_token_char(t@[k]),
                decreases n - b,
            {
                b = b + 1;
            }
            proof {
                lemma_scan_token_from(t@, a as int, b as int);
            }
            if b < n && t.get_char(b) == '?' {
                let c = b + 1;
                let mut d = c;
                while d < n && is_token_char_exec(t.get_char(d))
                    invariant
                        c <= d <= n,
                        forall|k: int| c <= k < d ==> is_token_char(t@[k]),
                    decreases n - d,
                {
                    d = d + 1;
                }
                proof {
                    lemma_scan_token_from(t@, c as int, d as int);
                }
                if d < n && t.get_char(d) == '?' {
                    let e = d + 1;
                    let mut f = e;
                    while f < n && is_enc_char_exec(t.get_char(f))
                        invariant
                            e <= f <= n,
                            forall|k: int| e <= k < f ==> is_enc_char(t@[k]),
                        decreases n - f,
                    {
                        f = f + 1;
                    }
                    proof {
                        lemma_scan_enc_from(t@, e as int, f as int);
                    }
                    if f < n && t.get_char(f) == '?' && f + 1 < n && t.get_char(f + 1)
                        == '=' {
                        let charset = t.substring_char(a, b);
                        let encoding = t.substring_char(c, d);
                        let content = t.substring_char(e, f);
                        proof {
                            assert(word_at(t@, i as int) == Some(
                                (
                                    t@.subrange(a as int, b as int),
                                    t@.subrange(c as int, d as int),
                                    t@.subrange(e as int, f as int),
                                    f + 2 as int,
                                ),
                            ));
                        }
                        let ghost out_pre = out@;
                        let ghost rest = rfc2047_replaced(t@, s@, f + 2 as int);
                        match decode_word(charset, encoding, content) {
                            Some(decoded) => {
                                out.append(decoded.as_str());
                                proof {
                                    assert(rfc2047_replaced(t@, s@, i as int) == decoded@
                                        + rest);
                                    assert(out_pre + (decoded@ + rest) =~= (out_pre + decoded@)
                                        + rest);
                                }
                            },
                            None => {
                                out.append(s);
                                proof {
                                    assert(rfc2047_replaced(t@, s@, i as int) == s@ + rest);
                                    assert(out_pre + (s@ + rest) =~= (out_pre + s@) + rest);
                                }
                            },
                        }
                        i = f + 2;
                        handled = true;
                    }
                }
            }
        }
        if !handled {
            proof {
                assert(word_at(t@, i as int) is None);
                assert(rfc2047_replaced(t@, s@, i as int) == seq![t@[i as int]]
                    + rfc2047_replaced(t@, s@, i + 1 as int));
            }
            let ghost out_pre = out@;
            let c0 = t.get_char(i);
            string_push(&mut out, c0);
            proof {
                assert(out@ =~= out_pre + seq![t@[i as int]]);
                assert(out_pre + (seq![t@[i as int]] + rfc2047_replaced(t@, s@, i + 1 as int))
                    =~= (out_pre + seq![t@[i as int]]) + rfc2047_replaced(t@, s@, i + 1 as int));
            }
            i = i + 1;
        }
    }
    out
}

impl FromRFC2047 for str {
    fn from_rfc2047(&self) -> (r: String)
        ensures
            r@ == rfc2047_decoded(self@),
    {
        decode_rfc2047(self)
    }
}

} // verus!
