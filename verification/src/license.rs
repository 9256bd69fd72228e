use vstd::prelude::*;
use vstd::utf8::encode_utf8;
use crate::text::{
    ascii_lower, ascii_upper, is_ascii_text, lemma_ascii_lower_of_upper, contains_sub, lowercase, own_uppercase, str_chars, str_contains, string_from_chars, to_lowercase, to_uppercase,
    uppercase,
};

verus! {

/// A user's registration: name, e-mail address and the license key given.
#[derive(Debug, Clone, Default)]
pub struct Registration {
    pub name: String,
    pub email: String,
    pub license: String,
}

/// The SHA-256 digest of `data`, as the `sha2` crate computes it.
pub uninterp spec fn sha256_digest(data: Seq<u8>) -> Seq<u8>;

/// `sha2::Sha256::digest`: the 32-byte SHA-256 digest of `data`, named as
/// `sha256_digest`.
#[verifier::external_body]
fn sha256(data: &[u8]) -> (r: Vec<u8>)
    ensures
        r@ == sha256_digest(data@),
        r@.len() == 32,
{
    <sha2::Sha256 as sha2::Digest>::digest(data).to_vec()
}

/// The uppercase hexadecimal digit of a value below 16.
pub open spec fn hex_digit(v: int) -> char {
    if v < 10 {
        (48 + v) as char
    } else {
        (55 + v) as char
    }
}

/// The bytes written as uppercase hexadecimal, two digits each.
pub open spec fn hex_upper(bytes: Seq<u8>) -> Seq<char>
    decreases bytes.len(),
{
    if bytes.len() == 0 {
        Seq::empty()
    } else {
        hex_upper(bytes.drop_last()) + seq![
            hex_digit(bytes.last() as int / 16),
            hex_digit(bytes.last() as int % 16),
        ]
    }
}

/// `hex::encode_upper`: each byte as two uppercase hexadecimal digits.
#[verifier::external_body]
fn encode_upper(bytes: &[u8]) -> (r: String)
    ensures
        r@ == hex_upper(bytes@),
{
    hex::encode_upper(bytes)
}

/// The salt mixed into every license key.
pub const SALT: &'static str = "Valhalla Delay";

/// The text hashed for a license: the name and address in lowercase and the
/// salt.
pub open spec fn key_text(name: Seq<char>, email: Seq<char>) -> Seq<char> {
    lowercase(name) + lowercase(email) + SALT@
}

/// The license key of a digest: its first 16 bytes in uppercase hexadecimal,
/// in four groups of four bytes separated by `-`.
pub open spec fn license_of(h: Seq<u8>) -> Seq<char> {
    hex_upper(h.subrange(0, 4)) + seq!['-'] + hex_upper(h.subrange(4, 8)) + seq!['-'] + hex_upper(
        h.subrange(8, 12),
    ) + seq!['-'] + hex_upper(h.subrange(12, 16))
}

/// The license key issued to `name` and `email`.
pub open spec fn license_key(name: Seq<char>, email: Seq<char>) -> Seq<char> {
    license_of(sha256_digest(encode_utf8(key_text(name, email))))
}

/// The license key issued to an ASCII name and address: the same as
/// `license_key`, with the lowercase spelt out as ASCII lowercase.
pub open spec fn license_key_ascii(name: Seq<char>, email: Seq<char>) -> Seq<char> {
    license_of(sha256_digest(encode_utf8(ascii_lower(name) + ascii_lower(email) + SALT@)))
}

/// Law: for an ASCII name and address the license key ignores case: the
/// name and address in capitals are issued the same key.
pub proof fn lemma_license_ignores_case(name: Seq<char>, email: Seq<char>)
    requires
        is_ascii_text(name),
        is_ascii_text(email),
    ensures
        is_ascii_text(ascii_upper(name)),
        is_ascii_text(ascii_upper(email)),
        license_key_ascii(ascii_upper(name), ascii_upper(email)) == license_key_ascii(name, email),
{
    lemma_ascii_lower_of_upper(name);
    lemma_ascii_lower_of_upper(email);
}

/// The license key of the first scheme: the whole digest of name, address and
/// salt as given, in uppercase hexadecimal.
pub open spec fn license_key_old(name: Seq<char>, email: Seq<char>) -> Seq<char> {
    hex_upper(sha256_digest(encode_utf8(name + email + SALT@)))
}

fn hex_digit_exec(v: u8) -> (c: char)
    requires
        v < 16,
    ensures
        c == hex_digit(v as int),
{
    if v < 10 {
        (48 + v) as char
    } else {
        (55 + v) as char
    }
}

fn push_hex(out: &mut Vec<char>, bytes: &[u8], from: usize, to: usize)
    requires
        from <= to <= bytes.len(),
    ensures
        final(out)@ == old(out)@ + hex_upper(bytes@.subrange(from as int, to as int)),
{
    let mut i: usize = from;
    assert(bytes@.subrange(from as int, from as int) =~= Seq::<u8>::empty());
    while i < to
        invariant
            from <= i <= to <= bytes.len(),
            out@ == old(out)@ + hex_upper(bytes@.subrange(from as int, i as int)),
        decreases to - i,
    {
        let b = bytes[i];
        out.push(hex_digit_exec(b / 16));
        out.push(hex_digit_exec(b % 16));
        proof {
            let s = bytes@.subrange(from as int, i + 1);
            assert(s.drop_last() =~= bytes@.subrange(from as int, i as int));
            assert(s.last() == b);
        }
        i = i + 1;
    }
}

fn concat3(a: &str, b: &str, c: &str) -> (r: String)
    ensures
        r@ == a@ + b@ + c@,
{
    let mut v: Vec<char> = Vec::new();
    crate::text::append_chars(&mut v, a);
    crate::text::append_chars(&mut v, b);
    crate::text::append_chars(&mut v, c);
    assert(v@ =~= a@ + b@ + c@);
    string_from_chars(&v)
}

/// The license key issued to a name and e-mail address: the SHA-256 digest
/// of both in lowercase and the salt, its first 16 bytes written as
/// `XXXXXXXX-XXXXXXXX-XXXXXXXX-XXXXXXXX` in uppercase hexadecimal.
pub fn generate_license_key(name: &str, email: &str) -> (r: String)
    ensures
        r@ == license_key(name@, email@),
        sha256_digest(encode_utf8(key_text(name@, email@))).len() == 32,
        is_ascii_text(name@) && is_ascii_text(email@) ==> r@ == license_key_ascii(name@, email@),
        r@.len() == 35,
{
    let n = to_lowercase(name);
    let e = to_lowercase(email);
    let text = concat3(n.as_str(), e.as_str(), SALT);
    let hash = sha256(text.as_str().as_bytes());
    let mut out: Vec<char> = Vec::new();
    push_hex(&mut out, hash.as_slice(), 0, 4);
    out.push('-');
    push_hex(&mut out, hash.as_slice(), 4, 8);
    out.push('-');
    push_hex(&mut out, hash.as_slice(), 8, 12);
    out.push('-');
    push_hex(&mut out, hash.as_slice(), 12, 16);
    assert(out@ =~= license_of(hash@));
    proof {
        lemma_hex_upper_chars(hash@.subrange(0, 4));
        lemma_hex_upper_chars(hash@.subrange(4, 8));
        lemma_hex_upper_chars(hash@.subrange(8, 12));
        lemma_hex_upper_chars(hash@.subrange(12, 16));
    }
    string_from_chars(&out)
}

/// The license key of the first scheme: the SHA-256 digest of name, address
/// and salt as given, in uppercase hexadecimal.
pub fn generate_license_key_old(name: &str, email: &str) -> (r: String)
    ensures
        r@ == license_key_old(name@, email@),
{
    let text = concat3(name, email, SALT);
    let hash = sha256(text.as_str().as_bytes());
    encode_upper(hash.as_slice())
}

/// Whether a registration holds a valid license: the key, in uppercase,
/// is the one issued to its name and address, under either scheme.
pub open spec fn registration_valid(r: Registration) -> bool {
    license_key(r.name@, r.email@) == uppercase(r.license@) || license_key_old(r.name@, r.email@)
        == uppercase(r.license@)
}

proof fn lemma_hex_upper_chars(bytes: Seq<u8>)
    ensures
        forall|i: int| 0 <= i < hex_upper(bytes).len() ==> own_uppercase(#[trigger] hex_upper(bytes)[i]),
        hex_upper(bytes).len() == 2 * bytes.len(),
    decreases bytes.len(),
{
    if bytes.len() > 0 {
        lemma_hex_upper_chars(bytes.drop_last());
        let h = hex_upper(bytes.drop_last());
        let a = bytes.last() as int / 16;
        let b = bytes.last() as int % 16;
        assert(own_uppercase(hex_digit(a)));
        assert(own_uppercase(hex_digit(b)));
        assert forall|i: int| 0 <= i < hex_upper(bytes).len() implies own_uppercase(#[trigger] hex_upper(bytes)[i]) by {
            if i < h.len() {
                assert(hex_upper(bytes)[i] == h[i]);
            }
        }
    }
}

proof fn lemma_license_chars(h: Seq<u8>)
    requires
        h.len() >= 16,
    ensures
        forall|i: int| 0 <= i < license_of(h).len() ==> own_uppercase(#[trigger] license_of(h)[i]),
{
    lemma_hex_upper_chars(h.subrange(0, 4));
    lemma_hex_upper_chars(h.subrange(4, 8));
    lemma_hex_upper_chars(h.subrange(8, 12));
    lemma_hex_upper_chars(h.subrange(12, 16));
    let l = license_of(h);
    assert forall|i: int| 0 <= i < l.len() implies own_uppercase(#[trigger] l[i]) by {
        let a = hex_upper(h.subrange(0, 4));
        let b = hex_upper(h.subrange(4, 8));
        let c = hex_upper(h.subrange(8, 12));
        let d = hex_upper(h.subrange(12, 16));
        if i < 8 {
            assert(l[i] == a[i]);
        } else if i == 8 {
        } else if i < 17 {
            assert(l[i] == b[i - 9]);
        } else if i == 17 {
        } else if i < 26 {
            assert(l[i] == c[i - 18]);
        } else if i == 26 {
        } else {
            assert(l[i] == d[i - 27]);
        }
    }
}

/// Checks a registration's license key against the key of either scheme.
/// Law: the key issued to a name and address is accepted for them.
pub fn check_reg(data: &Registration) -> (ok: bool)
    ensures
        ok == registration_valid(*data),
        data.license@ == license_key(data.name@, data.email@) ==> ok,
{
    let key = generate_license_key(data.name.as_str(), data.email.as_str());
    proof {
        let h = sha256_digest(encode_utf8(key_text(data.name@, data.email@)));
        if data.license@ == license_key(data.name@, data.email@) {
            lemma_license_chars(h);
        }
    }
    let given = to_uppercase(data.license.as_str());
    if crate::text::str_eq(key.as_str(), given.as_str()) {
        return true;
    }
    let old_key = generate_license_key_old(data.name.as_str(), data.email.as_str());
    crate::text::str_eq(old_key.as_str(), given.as_str())
}

/// Whether an error message speaks of missing permissions.
pub open spec fn is_permission_message(m: Seq<char>) -> bool {
    let l = lowercase(m);
    contains_sub(l, "permission"@) || contains_sub(l, "access denied"@) || contains_sub(
        l,
        "unauthorized"@,
    ) || contains_sub(l, "operation not permitted"@)
}

/// Whether an error message speaks of missing permissions.
pub fn is_permission_error_str(error_str: &str) -> (b: bool)
    ensures
        b == is_permission_message(error_str@),
{
    let l = to_lowercase(error_str);
    str_contains(l.as_str(), "permission") || str_contains(l.as_str(), "access denied")
        || str_contains(l.as_str(), "unauthorized") || str_contains(
        l.as_str(),
        "operation not permitted",
    )
}

} // verus!
