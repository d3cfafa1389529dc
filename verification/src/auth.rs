//! The admin password (argon2) and the session tokens.

use argon2::password_hash::{PasswordHash, PasswordHasher, PasswordVerifier, SaltString};
use rand::RngCore;
use vstd::prelude::*;

verus! {

/// The name of the cookie that carries an admin session.
pub const SESSION_COOKIE_NAME: &'static str = "luanti_admin";

/// How long an admin session lasts: thirty days.
pub const DEFAULT_SESSION_TTL_SECS: i64 = 2592000;

/// Whether argon2 accepts `plain` against the PHC string `phc`: what
/// `PasswordHash::new(phc)` then `Argon2::default().verify_password` say
/// (false when `phc` is not a PHC string).
pub uninterp spec fn argon2_accepts(plain: Seq<char>, phc: Seq<char>) -> bool;

/// `SaltString::encode_b64(salt)`, then `Argon2::default().hash_password(plain,
/// ..)`, written as a PHC string. `SaltString::generate` makes its salt the
/// same way, from 16 random bytes.
/// Claimed: a hash that comes back verifies the same password —
/// `verify_password` recomputes the hash with the salt and parameters the PHC
/// string carries, and compares — and is not empty (a PHC string is written
/// from a leading `$`). With a salt of 16 bytes the call succeeds exactly when
/// the password has at most `MAX_PWD_LEN` (0xFFFF_FFFF) bytes: the salt
/// encodes in 22 characters and decodes back to 16 bytes (at least
/// `MIN_SALT_LEN`), the default parameters and output length (32 bytes) are
/// valid, and `verify_inputs` refuses only a longer password. Nothing else is
/// claimed of the string.
#[verifier::external_body]
fn argon2_hash(plain: &str, salt: &[u8]) -> (r: Result<String, String>)
    ensures
        r matches Ok(h) ==> argon2_accepts(plain@, h@) && h@.len() > 0,
        salt@.len() == 16 ==> (r is Ok <==> utf8_len(plain@) <= 0xFFFF_FFFF),
{
    let salt = match SaltString::encode_b64(salt) {
        Ok(s) => s,
        Err(e) => return Err(format!("argon2 salt: {e}")),
    };
    match argon2::Argon2::default().hash_password(plain.as_bytes(), &salt) {
        Ok(phc) => Ok(phc.to_string()),
        Err(e) => Err(format!("argon2 hash: {e}")),
    }
}

/// `PasswordHash::new(hash)` then `Argon2::default().verify_password(plain,
/// ..).is_ok()`; false when `hash` does not parse. Claimed: the result is
/// `argon2_accepts(plain, hash)`, a function of the two texts, and an empty
/// `hash` accepts nothing (`PasswordHash::parse` refuses an empty string).
#[verifier::external_body]
fn argon2_verify(plain: &str, hash: &str) -> (r: bool)
    ensures
        r == argon2_accepts(plain@, hash@),
        hash@.len() == 0 ==> !r,
{
    match PasswordHash::new(hash) {
        Ok(parsed) => argon2::Argon2::default().verify_password(plain.as_bytes(), &parsed).is_ok(),
        Err(_) => false,
    }
}

/// `rand::thread_rng().fill_bytes`: `n` random bytes. Only the length is
/// claimed.
#[verifier::external_body]
fn random_bytes(n: usize) -> (r: Vec<u8>)
    ensures
        r@.len() == n,
{
    let mut v: Vec<u8> = vec![0u8; n];
    rand::thread_rng().fill_bytes(&mut v);
    v
}

/// Hashes a password with a fresh salt of 16 random bytes: the PHC string
/// that goes to the settings. The hash it gives verifies the same password;
/// it fails only for a password longer than argon2 takes (0xFFFF_FFFF bytes).
pub fn hash_password(plain: &str) -> (r: Result<String, String>)
    ensures
        r matches Ok(h) ==> argon2_accepts(plain@, h@) && h@.len() > 0,
        r is Ok <==> utf8_len(plain@) <= 0xFFFF_FFFF,
{
    let salt: Vec<u8> = random_bytes(16);
    argon2_hash(plain, &salt)
}

/// Whether `plain` is the password of the PHC string `hash`.
pub fn verify_password(plain: &str, hash: &str) -> (r: bool)
    ensures
        r == argon2_accepts(plain@, hash@),
{
    argon2_verify(plain, hash)
}

/// The parent's corner of the lock screen opens only with the admin password:
/// with no password set, nothing opens it — it would be an open button within
/// the child's reach.
pub fn parent_password_ok(password: &str, stored: Option<&str>) -> (r: bool)
    ensures
        r == match stored {
            Some(h) => h@.len() > 0 && argon2_accepts(password@, h@),
            None => false,
        },
{
    match stored {
        Some(h) => {
            let c: Vec<char> = crate::text::chars_of(h);
            if c.len() > 0 {
                verify_password(password, h)
            } else {
                false
            }
        },
        None => false,
    }
}

pub open spec fn hex_digit(d: int) -> char {
    if d < 10 {
        (d + 48) as char
    } else {
        (d + 87) as char
    }
}

/// Each byte as two lowercase hexadecimal digits (`{:02x}`).
pub open spec fn hex_text(b: Seq<u8>) -> Seq<char>
    decreases b.len(),
{
    if b.len() == 0 {
        Seq::empty()
    } else {
        hex_text(b.drop_last()) + seq![hex_digit(b.last() as int / 16), hex_digit(b.last() as int % 16)]
    }
}

fn hex_char(d: u8) -> (c: char)
    requires
        d < 16,
    ensures
        c == hex_digit(d as int),
{
    if d < 10 {
        (d + 48) as char
    } else {
        (d + 87) as char
    }
}

/// The bytes written in lowercase hexadecimal, two digits each.
pub fn hex_token(bytes: &[u8]) -> (r: String)
    ensures
        r@ == hex_text(bytes@),
{
    let mut out: Vec<char> = Vec::new();
    let mut i: usize = 0;
    while i < bytes.len()
        invariant
            i <= bytes@.len(),
            out@ == hex_text(bytes@.subrange(0, i as int)),
        decreases bytes@.len() - i,
    {
        let b: u8 = bytes[i];
        assert(bytes@.subrange(0, i + 1).drop_last() == bytes@.subrange(0, i as int));
        out.push(hex_char(b / 16));
        out.push(hex_char(b % 16));
        i = i + 1;
        assert(out@ =~= hex_text(bytes@.subrange(0, i as int)));
    }
    assert(bytes@.subrange(0, bytes@.len() as int) == bytes@);
    crate::text::string_of(&out)
}

/// A session token: 32 random bytes, in hexadecimal.
pub fn random_token() -> (r: String)
    ensures
        exists|b: Seq<u8>| b.len() == 32 && r@ == hex_text(b),
{
    let b: Vec<u8> = random_bytes(32);
    hex_token(&b)
}

/// The 64 characters of a token are lowercase hexadecimal digits.
pub proof fn lemma_hex_token(b: Seq<u8>)
    ensures
        hex_text(b).len() == 2 * b.len(),
        forall|i: int|
            0 <= i < hex_text(b).len() ==> ('0' <= #[trigger] hex_text(b)[i] <= '9' || 'a'
                <= hex_text(b)[i] <= 'f'),
    decreases b.len(),
{
    if b.len() > 0 {
        lemma_hex_token(b.drop_last());
        let t = hex_text(b.drop_last());
        assert forall|i: int| 0 <= i < hex_text(b).len() implies ('0' <= #[trigger] hex_text(b)[i]
            <= '9' || 'a' <= hex_text(b)[i] <= 'f') by {
            if i < t.len() {
                assert(hex_text(b)[i] == t[i]);
            }
        }
    }
}

// ===== Choosing the password, logging in ========================================

/// The number of bytes of a character in UTF-8.
pub open spec fn utf8_width(c: char) -> nat {
    if (c as u32) < 0x80 {
        1
    } else if (c as u32) < 0x800 {
        2
    } else if (c as u32) < 0x10000 {
        3
    } else {
        4
    }
}

/// The length of a text in bytes, as `str::len` counts it (UTF-8).
pub open spec fn utf8_len(s: Seq<char>) -> nat
    decreases s.len(),
{
    if s.len() == 0 {
        0
    } else {
        utf8_len(s.drop_last()) + utf8_width(s.last())
    }
}

proof fn lemma_utf8_len_grows(s: Seq<char>, i: int)
    requires
        0 <= i <= s.len(),
    ensures
        utf8_len(s.take(i)) <= utf8_len(s),
    decreases s.len() - i,
{
    if i < s.len() {
        assert(s.take(i + 1).drop_last() == s.take(i));
        lemma_utf8_len_grows(s, i + 1);
    } else {
        assert(s.take(i) == s);
    }
}

/// Whether `s` is shorter than `n` bytes.
fn fewer_bytes(s: &str, n: usize) -> (r: bool)
    requires
        1 <= n < 1000,
    ensures
        r == (utf8_len(s@) < n),
{
    let c: Vec<char> = crate::text::chars_of(s);
    let mut acc: usize = 0;
    let mut i: usize = 0;
    while i < c.len()
        invariant
            i <= c@.len(),
            c@ == s@,
            1 <= n < 1000,
            acc == utf8_len(c@.take(i as int)),
            acc < n,
        decreases c@.len() - i,
    {
        assert(c@.take(i + 1).drop_last() == c@.take(i as int));
        assert(c@.take(i + 1).last() == c@[i as int]);
        let x: u32 = c[i] as u32;
        let w: usize = if x < 0x80 {
            1
        } else if x < 0x800 {
            2
        } else if x < 0x10000 {
            3
        } else {
            4
        };
        assert(w == utf8_width(c@[i as int]));
        acc = acc + w;
        i = i + 1;
        assert(acc == utf8_len(c@.take(i as int)));
        if acc >= n {
            proof {
                lemma_utf8_len_grows(c@, i as int);
            }
            return false;
        }
    }
    assert(c@.take(c@.len() as int) == c@);
    true
}

/// What the first visit to the admin does with the chosen password.
#[derive(Debug, Clone)]
pub enum SetupVerdict {
    /// A password exists already: go and log in.
    ToLogin,
    /// Show the form again, with this error.
    Refused(String),
    /// Store the password and open a session.
    Accept,
}

/// The first password: at least 6 bytes, typed twice the same.
pub fn setup_check(password_set: bool, password: &str, confirm: &str) -> (r: SetupVerdict)
    ensures
        password_set ==> r is ToLogin,
        !password_set && utf8_len(password@) < 6 ==> (r matches SetupVerdict::Refused(m) && m@
            == "Le mot de passe doit faire au moins 6 caractères."@),
        !password_set && utf8_len(password@) >= 6 && password@ != confirm@ ==> (
        r matches SetupVerdict::Refused(m) && m@ == "Les deux mots de passe ne correspondent pas."@),
        !password_set && utf8_len(password@) >= 6 && password@ == confirm@ ==> r is Accept,
{
    if password_set {
        return SetupVerdict::ToLogin;
    }
    if fewer_bytes(password, 6) {
        return SetupVerdict::Refused(
            crate::text::string_of(
                &crate::text::chars_of("Le mot de passe doit faire au moins 6 caractères."),
            ),
        );
    }
    let a: Vec<char> = crate::text::chars_of(password);
    let b: Vec<char> = crate::text::chars_of(confirm);
    if !crate::text::same_chars(&a, &b) {
        return SetupVerdict::Refused(
            crate::text::string_of(
                &crate::text::chars_of("Les deux mots de passe ne correspondent pas."),
            ),
        );
    }
    SetupVerdict::Accept
}

/// What a login attempt gives.
#[derive(Debug, Clone)]
pub enum LoginVerdict {
    /// No password is set: choose one first.
    ToSetup,
    /// Show the form again, with this error.
    Refused(String),
    /// Open a session.
    Accept,
}

/// The outcome of a login, as values: 0 to choose a password first, 1 for a
/// refused password, 2 for a session.
pub open spec fn login_outcome(password: Seq<char>, stored: Option<Seq<char>>) -> int {
    match stored {
        Some(h) => if h.len() == 0 {
            0
        } else if argon2_accepts(password, h) {
            2
        } else {
            1
        },
        None => 0,
    }
}

pub open spec fn login_code(v: LoginVerdict) -> int {
    match v {
        LoginVerdict::ToSetup => 0,
        LoginVerdict::Refused(_) => 1,
        LoginVerdict::Accept => 2,
    }
}

/// A login against the stored hash (`None` when no password was ever set).
pub fn login_check(password: &str, stored: Option<&str>) -> (r: LoginVerdict)
    ensures
        login_code(r) == login_outcome(
            password@,
            match stored {
                Some(h) => Some(h@),
                None => None,
            },
        ),
        r matches LoginVerdict::Refused(m) ==> m@ == "Mot de passe incorrect."@,
{
    match stored {
        None => LoginVerdict::ToSetup,
        Some(h) => {
            let c: Vec<char> = crate::text::chars_of(h);
            if c.len() == 0 {
                LoginVerdict::ToSetup
            } else if verify_password(password, h) {
                LoginVerdict::Accept
            } else {
                LoginVerdict::Refused(
                    crate::text::string_of(&crate::text::chars_of("Mot de passe incorrect.")),
                )
            }
        },
    }
}

/// The password chosen is the one that logs in: a hash made by
/// `hash_password` from `password` (so accepted by argon2 and not empty),
/// once stored, lets `login_check` open a session with the same password,
/// and opens the parent's corner of the lock screen.
pub proof fn lemma_stored_password_logs_in(password: Seq<char>, hash: Seq<char>)
    requires
        argon2_accepts(password, hash),
        hash.len() > 0,
    ensures
        login_outcome(password, Some(hash)) == 2,
{
}

// ===== Settings ===================================================================

/// The general settings: at least one question, a threshold in `[0, 100]`
/// (the form says whether it is), a session of a minute at least, and a known
/// way of locking.
pub fn check_settings(
    questions_per_test: i64,
    threshold_in_range: bool,
    session_minutes: i64,
    lock_mode: &str,
) -> (r: Result<(), String>)
    ensures
        questions_per_test < 1 ==> (r matches Err(m) && m@ == "questions_per_test doit être ≥ 1"@),
        questions_per_test >= 1 && !threshold_in_range ==> (r matches Err(m) && m@
            == "seuil hors [0,100]"@),
        questions_per_test >= 1 && threshold_in_range && session_minutes < 1 ==> (r matches Err(m)
            && m@ == "la session doit durer ≥ 1 minute"@),
        questions_per_test >= 1 && threshold_in_range && session_minutes >= 1 && lock_mode@
            != "overlay"@ && lock_mode@ != "logout"@ ==> (r matches Err(m) && m@
            == "mode de verrouillage inconnu"@),
        questions_per_test >= 1 && threshold_in_range && session_minutes >= 1 && (lock_mode@
            == "overlay"@ || lock_mode@ == "logout"@) ==> r is Ok,
{
    let fail = |m: &str| -> (e: String)
        ensures
            e@ == m@,
        { crate::text::string_of(&crate::text::chars_of(m)) };
    if questions_per_test < 1 {
        return Err(fail("questions_per_test doit être ≥ 1"));
    }
    if !threshold_in_range {
        return Err(fail("seuil hors [0,100]"));
    }
    if session_minutes < 1 {
        return Err(fail("la session doit durer ≥ 1 minute"));
    }
    let l: Vec<char> = crate::text::chars_of(lock_mode);
    if !crate::text::chars_eq_str(&l, "overlay") && !crate::text::chars_eq_str(&l, "logout") {
        return Err(fail("mode de verrouillage inconnu"));
    }
    Ok(())
}

} // verus!
