//! Proxy credentials from a `Proxy-Authorization` header of the `Basic`
//! scheme (RFC 7617): `Basic`, white space, then the base64 encoding of
//! `user:password`.
use vstd::prelude::*;
use base64::Engine;
use base64::prelude::BASE64_STANDARD;
use vstd::utf8::{valid_utf8, decode_utf8, encode_utf8};
use crate::text::{
    words, split_on, char_views, chars_of, split_words, chars_equal, string_from_chars,
    split_chars, string_from_utf8, free_of, no_white_space, is_white_space, lemma_two_words,
    lemma_split_on_free, lemma_split_on_sep_then_free,
};

verus! {

/// What `BASE64_STANDARD.decode` of the base64 crate gives for the input
/// bytes: the decoded bytes, or `None` where it returns an error.
pub uninterp spec fn base64_standard_decode(input: Seq<u8>) -> Option<Seq<u8>>;

/// `base64::prelude::BASE64_STANDARD.decode(input)`: the standard alphabet
/// with padding. The result is `base64_standard_decode` of the input; an
/// error becomes `None`.
#[verifier::external_body]
fn decode_base64_standard(input: &[u8]) -> (r: Option<Vec<u8>>)
    ensures
        match r {
            Some(v) => base64_standard_decode(input@) == Some(v@),
            None => base64_standard_decode(input@) is None,
        },
{
    BASE64_STANDARD.decode(input).ok()
}

/// The character view of an optional string.
pub open spec fn opt_view(o: Option<String>) -> Option<Seq<char>> {
    match o {
        Some(s) => Some(s@),
        None => None,
    }
}

/// The second word of the header when there are exactly two words and the
/// first is `Basic`.
pub open spec fn basic_token(header: Seq<char>) -> Option<Seq<char>> {
    let w = words(header);
    if w.len() == 2 && w[0] == "Basic"@ {
        Some(w[1])
    } else {
        None
    }
}

/// The text that a token encodes: the base64 decoding of its UTF-8 bytes,
/// read as UTF-8.
pub open spec fn token_text_ok(token: Seq<char>) -> bool {
    let d = base64_standard_decode(encode_utf8(token));
    d is Some && valid_utf8(d->0)
}

pub open spec fn token_text(token: Seq<char>) -> Seq<char> {
    decode_utf8(base64_standard_decode(encode_utf8(token))->0)
}

/// User and password from the decoded text: the pieces around `:` when
/// there are two, the whole text as user when there is no `:`, and nothing
/// when there is more than one `:`.
pub open spec fn user_and_password(text: Seq<char>) -> (Option<Seq<char>>, Option<Seq<char>>) {
    let p = split_on(text, ':');
    if p.len() == 2 {
        (Some(p[0]), Some(p[1]))
    } else if p.len() == 1 {
        (Some(p[0]), None)
    } else {
        (None, None)
    }
}

/// The header can be read without fault: it is not of the `Basic` form, or
/// its token decodes to UTF-8 text.
pub open spec fn credentials_readable(header: Seq<char>) -> bool {
    match basic_token(header) {
        Some(token) => token_text_ok(token),
        None => true,
    }
}

/// The user and password that a header carries.
pub open spec fn credentials_of(header: Seq<char>) -> (Option<Seq<char>>, Option<Seq<char>>) {
    match basic_token(header) {
        Some(token) => user_and_password(token_text(token)),
        None => (None, None),
    }
}

/// The token of a `Basic` header.
fn basic_token_string(header_val: &str) -> (r: Option<String>)
    ensures
        opt_view(r) == basic_token(header_val@),
{
    let chars = chars_of(header_val);
    let w = split_words(&chars);
    assert(char_views(w@) == words(header_val@));
    if w.len() != 2 {
        return None;
    }
    let scheme = chars_of("Basic");
    assert(w@[0]@ == words(header_val@)[0]);
    assert(w@[1]@ == words(header_val@)[1]);
    if chars_equal(&w[0], &scheme) {
        Some(string_from_chars(&w[1]))
    } else {
        None
    }
}

/// The base64 decoding of a token's UTF-8 bytes.
fn decode_token(token: &String) -> (r: Option<Vec<u8>>)
    ensures
        match r {
            Some(v) => base64_standard_decode(encode_utf8(token@)) == Some(v@),
            None => base64_standard_decode(encode_utf8(token@)) is None,
        },
{
    let bytes = token.as_str().as_bytes();
    decode_base64_standard(bytes)
}

/// User and password from the decoded text.
fn split_user_password(text: &String) -> (r: (Option<String>, Option<String>))
    ensures
        (opt_view(r.0), opt_view(r.1)) == user_and_password(text@),
{
    let chars = chars_of(text.as_str());
    let parts = split_chars(&chars, ':');
    assert(char_views(parts@) == split_on(text@, ':'));
    if parts.len() == 2 {
        assert(parts@[0]@ == split_on(text@, ':')[0]);
        assert(parts@[1]@ == split_on(text@, ':')[1]);
        (Some(string_from_chars(&parts[0])), Some(string_from_chars(&parts[1])))
    } else if parts.len() == 1 {
        assert(parts@[0]@ == split_on(text@, ':')[0]);
        (Some(string_from_chars(&parts[0])), None)
    } else {
        (None, None)
    }
}

/// User and password from the decoded bytes of a `Basic` token: `None`
/// where the bytes are not UTF-8 text.
pub fn credentials_from_decoded(decoded: Vec<u8>) -> (r: Option<(Option<String>, Option<String>)>)
    ensures
        r is Some <==> valid_utf8(decoded@),
        r matches Some(c) ==> (opt_view(c.0), opt_view(c.1)) == user_and_password(
            decode_utf8(decoded@),
        ),
{
    match string_from_utf8(decoded) {
        Some(text) => Some(split_user_password(&text)),
        None => None,
    }
}

/// The user and password of a `Proxy-Authorization` header value. A header
/// that is not `Basic` followed by one token gives neither.
pub fn parse_credentials(header_val: &str) -> (r: (Option<String>, Option<String>))
    requires
        credentials_readable(header_val@),
    ensures
        (opt_view(r.0), opt_view(r.1)) == credentials_of(header_val@),
{
    match basic_token_string(header_val) {
        Some(token) => {
            let decoded = decode_token(&token).unwrap();
            credentials_from_decoded(decoded).unwrap()
        },
        None => (None, None),
    }
}

/// `parse_credentials` where the header can be read, `None` where its token
/// is not base64 or does not decode to UTF-8 text.
pub fn try_parse_credentials(header_val: &str) -> (r: Option<(Option<String>, Option<String>)>)
    ensures
        r is Some <==> credentials_readable(header_val@),
        r matches Some(c) ==> (opt_view(c.0), opt_view(c.1)) == credentials_of(header_val@),
{
    match basic_token_string(header_val) {
        Some(token) => {
            match decode_token(&token) {
                Some(decoded) => {
                    if credentials_from_decoded(decoded).is_none() {
                        return None;
                    }
                },
                None => {
                    return None;
                },
            }
        },
        None => {},
    }
    Some(parse_credentials(header_val))
}

/// Decoded text `user:password` gives the user and the password verbatim;
/// text without a colon is the user alone; text with more than one colon
/// gives neither.
pub proof fn lemma_user_and_password(user: Seq<char>, password: Seq<char>, rest: Seq<char>)
    requires
        free_of(user, ':'),
        free_of(password, ':'),
    ensures
        user_and_password(user + seq![':'] + password) == (Some(user), Some(password)),
        user_and_password(user) == (Some(user), None::<Seq<char>>),
        user_and_password(user + seq![':'] + password + seq![':'] + rest) == (
            None::<Seq<char>>,
            None::<Seq<char>>,
        ),
{
    lemma_split_on_free(user, ':');
    lemma_split_on_sep_then_free(user, password, ':');
    assert(seq![user].push(password) =~= seq![user, password]);
    let two = user + seq![':'] + password;
    let with_colon = two + seq![':'];
    assert(with_colon.drop_last() =~= two);
    assert(with_colon.last() == ':');
    crate::text::lemma_split_on_len(rest, ':');
    more_pieces(with_colon, rest);
}

proof fn more_pieces(s: Seq<char>, rest: Seq<char>)
    requires
        split_on(s, ':').len() >= 3,
    ensures
        split_on(s + rest, ':').len() >= 3,
    decreases rest.len(),
{
    if rest.len() > 0 {
        more_pieces(s, rest.drop_last());
        assert((s + rest).drop_last() =~= s + rest.drop_last());
    } else {
        assert(s + rest =~= s);
    }
}

/// A header of `Basic`, one white-space character, and a token whose
/// decoded text is `user:password` carries that user and that password.
pub proof fn lemma_basic_credentials(
    c: char,
    token: Seq<char>,
    user: Seq<char>,
    password: Seq<char>,
)
    requires
        is_white_space(c),
        token.len() > 0,
        no_white_space(token),
        token_text_ok(token),
        token_text(token) == user + seq![':'] + password,
        free_of(user, ':'),
        free_of(password, ':'),
    ensures
        credentials_readable("Basic"@ + seq![c] + token),
        credentials_of("Basic"@ + seq![c] + token) == (Some(user), Some(password)),
{
    reveal_strlit("Basic");
    let b = "Basic"@;
    assert(no_white_space(b));
    lemma_two_words(b, c, token);
    lemma_user_and_password(user, password, Seq::<char>::empty());
}

} // verus!
