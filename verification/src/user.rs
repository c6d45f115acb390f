//! User records: role, login outcome, password hashing and username
//! normalization.

use vstd::prelude::*;
use vstd::string::StringExecFns;

use sha2::Digest;

verus! {

/// Authorization tier granted on a successful login.
#[derive(Debug, Clone, Copy, PartialEq, Eq, Structural)]
pub enum LoginRole {
    Admin,
    User,
}

/// Outcome of a login attempt against a user that exists in the store.
#[derive(Debug, Clone, Copy, PartialEq, Eq, Structural)]
pub enum LoginAction {
    Granted(LoginRole),
    Denied,
}

/// One account: a lowercase username, the hex digest of its password, and a
/// role.
#[derive(Debug, Clone, PartialEq)]
pub struct User {
    pub username: String,
    pub password: String,
    pub role: LoginRole,
}

/// Mathematical model of a [`User`]: the two strings as character sequences.
#[verifier::ext_equal]
pub struct UserData {
    pub username: Seq<char>,
    pub password: Seq<char>,
    pub role: LoginRole,
}

impl View for User {
    type V = UserData;

    open spec fn view(&self) -> UserData {
        UserData { username: self.username@, password: self.password@, role: self.role }
    }
}

/// The SHA-224 digest of a plaintext, written as lowercase hex digits.
/// A fixed but unstated function of the plaintext alone.
pub uninterp spec fn sha224_hex_of(plaintext: Seq<char>) -> Seq<char>;

/// The Unicode lowercase form of a string, as `str::to_lowercase` computes it.
pub uninterp spec fn lower_of(s: Seq<char>) -> Seq<char>;

/// True when every character of `s` lies in the ASCII range.
pub open spec fn ascii_only(s: Seq<char>) -> bool {
    forall|i: int| 0 <= i < s.len() ==> '\0' <= #[trigger] s[i] <= '\u{7f}'
}

/// The ASCII lowercase image of one character: `A`..`Z` map to `a`..`z`,
/// everything else is unchanged.
pub open spec fn ascii_lower_char(c: char) -> char {
    if 'A' <= c && c <= 'Z' {
        (((c as u32) + 32) as u32) as char
    } else {
        c
    }
}

/// The ASCII lowercase image of a whole string.
pub open spec fn ascii_lower(s: Seq<char>) -> Seq<char> {
    s.map_values(|c: char| ascii_lower_char(c))
}

/// True when `c` is a lowercase hexadecimal digit.
pub open spec fn is_hex_digit(c: char) -> bool {
    ('0' <= c && c <= '9') || ('a' <= c && c <= 'f')
}

/// True when every character of `s` is a lowercase hexadecimal digit.
pub open spec fn hex_digits(s: Seq<char>) -> bool {
    forall|i: int| 0 <= i < s.len() ==> is_hex_digit(#[trigger] s[i])
}

/// Computes the unsalted, unstretched SHA-224 digest of the plaintext and
/// formats it as 56 lowercase hex digits. Deterministic by construction: the
/// result is `sha224_hex_of` of the input characters.
///
/// Relies on `sha2::Sha224` (`new`, `update`, `finalize`): a pure digest of
/// the input bytes, 28 bytes long, which `{:x}` formats as two lowercase hex
/// digits per byte.
#[verifier::external_body]
pub fn hash_password(password: &str) -> (r: String)
    ensures
        r@ == sha224_hex_of(password@),
        r@.len() == 56,
        hex_digits(r@),
{
    let mut hasher = sha2::Sha224::new();
    hasher.update(password);
    format!("{:x}", hasher.finalize())
}

/// Relies on `str::to_lowercase`: the Unicode lowercase form, a function of
/// the characters alone; a character in the ASCII range maps to its ASCII
/// lowercase form and stays a single character.
#[verifier::external_body]
pub(crate) fn lowercase(s: &str) -> (r: String)
    ensures
        r@ == lower_of(s@),
        ascii_only(s@) ==> r@ == ascii_lower(s@),
{
    s.to_lowercase()
}

/// Law: hashing is deterministic — the digest is a function of the
/// plaintext alone, so equal plaintexts always hash to equal digests.
pub proof fn lemma_hash_deterministic(first: Seq<char>, second: Seq<char>)
    requires
        first == second,
    ensures
        sha224_hex_of(first) == sha224_hex_of(second),
{
}

/// Builds the greeting line shown to a user.
pub fn greet_user(name: &str) -> (r: String)
    ensures
        r@ == "Hello "@ + name@,
{
    let s = String::from_str("Hello ");
    s.concat(name)
}

impl User {
    /// Builds a record for a new account: the username normalized to
    /// lowercase, the password replaced by its digest. Pure, no I/O.
    pub fn new(username: &str, password: &str, role: LoginRole) -> (u: User)
        ensures
            u@.username == lower_of(username@),
            u@.password == sha224_hex_of(password@),
            u@.role == role,
            ascii_only(username@) ==> u@.username == ascii_lower(username@),
            u@.password.len() == 56,
            hex_digits(u@.password),
    {
        User { username: lowercase(username), password: hash_password(password), role }
    }
}

} // verus!
