//! Password requirements and their validation.

use vstd::prelude::*;
use crate::chars::{unicode_uppercase, unicode_lowercase, unicode_alphanumeric, ascii_digit, ascii_graphic, ascii_punctuation, is_uppercase, is_lowercase, is_alphanumeric, is_ascii_digit, is_ascii_graphic, is_ascii_punctuation};
use crate::error::{Result, SynapError};
use crate::text::{concat, owned};

verus! {

/// Password requirements.
#[derive(Debug, Clone)]
pub struct PasswordRequirements {
    /// Minimum length, in characters.
    pub min_length: usize,
    /// Require an uppercase letter.
    pub require_uppercase: bool,
    /// Require a lowercase letter.
    pub require_lowercase: bool,
    /// Require an ASCII digit.
    pub require_numbers: bool,
    /// Require a special character (ASCII punctuation).
    pub require_special: bool,
    /// Reject passwords from the list of common ones.
    pub reject_common_passwords: bool,
}

/// The common passwords that are refused, in lowercase.
pub open spec fn common_passwords() -> Seq<Seq<char>> {
    seq![
        "password"@, "123456"@, "123456789"@, "12345678"@, "12345"@, "1234567"@, "1234567890"@,
        "qwerty"@, "abc123"@, "monkey"@, "123123"@, "dragon"@, "111111"@, "baseball"@, "iloveyou"@,
        "trustno1"@, "1234567"@, "sunshine"@, "master"@, "123321"@, "welcome"@, "shadow"@, "ashley"@,
        "football"@, "jesus"@, "michael"@, "ninja"@, "mustang"@, "password1"@, "root"@, "admin"@,
        "administrator"@, "letmein"@, "pass"@, "passw0rd"@, "root123"@
    ]
}

/// A special character: ASCII punctuation, or an ASCII graphic character
/// that is not alphanumeric.
pub open spec fn special_char(c: char) -> bool {
    ascii_punctuation(c) || (ascii_graphic(c) && !unicode_alphanumeric(c))
}

/// Why a password is refused, the first failed requirement's message; none
/// when it is accepted.
pub open spec fn password_refusal(req: PasswordRequirements, p: &str) -> Option<Seq<char>> {
    let s = p@;
    if s.len() < req.min_length {
        Some("Password must be at least "@ + crate::text::decimal_text(req.min_length as int) + " characters long"@)
    } else if req.require_uppercase && !(exists|i: int| 0 <= i < s.len() && unicode_uppercase(#[trigger] s[i])) {
        Some("Password must contain at least one uppercase letter"@)
    } else if req.require_lowercase && !(exists|i: int| 0 <= i < s.len() && unicode_lowercase(#[trigger] s[i])) {
        Some("Password must contain at least one lowercase letter"@)
    } else if req.require_numbers && !(exists|i: int| 0 <= i < s.len() && ascii_digit(#[trigger] s[i])) {
        Some("Password must contain at least one number"@)
    } else if req.require_special && !(exists|i: int| 0 <= i < s.len() && special_char(#[trigger] s[i])) {
        Some("Password must contain at least one special character"@)
    } else if req.reject_common_passwords && common_passwords().contains(crate::text::lowercase_text(s)) {
        Some("Password is too common. Please choose a stronger password"@)
    } else {
        None
    }
}

/// Whether some character of `v` has the class `which` (0: uppercase,
/// 1: lowercase, 2: ASCII digit, 3: special).
fn any_char(v: &Vec<char>, which: u8) -> (r: bool)
    requires
        which < 4,
    ensures
        which == 0 ==> r == exists|i: int| 0 <= i < v@.len() && unicode_uppercase(#[trigger] v@[i]),
        which == 1 ==> r == exists|i: int| 0 <= i < v@.len() && unicode_lowercase(#[trigger] v@[i]),
        which == 2 ==> r == exists|i: int| 0 <= i < v@.len() && ascii_digit(#[trigger] v@[i]),
        which == 3 ==> r == exists|i: int| 0 <= i < v@.len() && special_char(#[trigger] v@[i]),
{
    let mut i: usize = 0;
    while i < v.len()
        invariant
            i <= v@.len(),
            which < 4,
            which == 0 ==> forall|j: int| 0 <= j < i ==> !unicode_uppercase(#[trigger] v@[j]),
            which == 1 ==> forall|j: int| 0 <= j < i ==> !unicode_lowercase(#[trigger] v@[j]),
            which == 2 ==> forall|j: int| 0 <= j < i ==> !ascii_digit(#[trigger] v@[j]),
            which == 3 ==> forall|j: int| 0 <= j < i ==> !special_char(#[trigger] v@[j]),
        decreases v@.len() - i,
    {
        let c = v[i];
        let hit = if which == 0 {
            is_uppercase(c)
        } else if which == 1 {
            is_lowercase(c)
        } else if which == 2 {
            is_ascii_digit(c)
        } else {
            is_ascii_punctuation(c) || is_ascii_graphic(c) && !is_alphanumeric(c)
        };
        if hit {
            return true;
        }
        i = i + 1;
    }
    false
}

impl Default for PasswordRequirements {
    /// At least 8 characters, and not a common password.
    fn default() -> (r: Self)
        ensures
            r.min_length == 8,
            !r.require_uppercase && !r.require_lowercase && !r.require_numbers && !r.require_special,
            r.reject_common_passwords,
    {
        PasswordRequirements {
            min_length: 8,
            require_uppercase: false,
            require_lowercase: false,
            require_numbers: false,
            require_special: false,
            reject_common_passwords: true,
        }
    }
}

impl PasswordRequirements {
    /// Strict requirements: 12 characters, every character class, not common.
    pub fn strict() -> (r: Self)
        ensures
            r.min_length == 12,
            r.require_uppercase && r.require_lowercase && r.require_numbers && r.require_special,
            r.reject_common_passwords,
    {
        PasswordRequirements {
            min_length: 12,
            require_uppercase: true,
            require_lowercase: true,
            require_numbers: true,
            require_special: true,
            reject_common_passwords: true,
        }
    }

    /// Relaxed requirements: 6 characters and nothing else.
    pub fn relaxed() -> (r: Self)
        ensures
            r.min_length == 6,
            !r.require_uppercase && !r.require_lowercase && !r.require_numbers && !r.require_special,
            !r.reject_common_passwords,
    {
        PasswordRequirements {
            min_length: 6,
            require_uppercase: false,
            require_lowercase: false,
            require_numbers: false,
            require_special: false,
            reject_common_passwords: false,
        }
    }

    /// Check a password against the requirements, in order: length,
    /// uppercase, lowercase, digit, special character, common passwords.
    /// The first failed one is reported.
    pub fn validate(&self, password: &str) -> (r: Result<()>)
        ensures
            match password_refusal(*self, password) {
                None => r is Ok,
                Some(m) => r matches Err(SynapError::InvalidRequest(e)) && e@ == m,
            },
    {
        let v = crate::text::chars_of(password);
        if v.len() < self.min_length {
            let a = concat("Password must be at least ", crate::text::usize_text(self.min_length).as_str());
            return Err(SynapError::InvalidRequest(concat(a.as_str(), " characters long")));
        }
        if self.require_uppercase && !any_char(&v, 0) {
            return Err(SynapError::InvalidRequest(owned("Password must contain at least one uppercase letter")));
        }
        if self.require_lowercase && !any_char(&v, 1) {
            return Err(SynapError::InvalidRequest(owned("Password must contain at least one lowercase letter")));
        }
        if self.require_numbers && !any_char(&v, 2) {
            return Err(SynapError::InvalidRequest(owned("Password must contain at least one number")));
        }
        if self.require_special && !any_char(&v, 3) {
            return Err(SynapError::InvalidRequest(owned("Password must contain at least one special character")));
        }
        if self.reject_common_passwords && Self::is_common_password(password) {
            return Err(SynapError::InvalidRequest(owned("Password is too common. Please choose a stronger password")));
        }
        Ok(())
    }

    /// Whether the password, lowercased, is a common password.
    fn is_common_password(password: &str) -> (r: bool)
        ensures
            r == common_passwords().contains(crate::text::lowercase_text(password@)),
    {
        let common: [&str; 36] = [
            "password", "123456", "123456789", "12345678", "12345", "1234567", "1234567890",
            "qwerty", "abc123", "monkey", "123123", "dragon", "111111", "baseball", "iloveyou",
            "trustno1", "1234567", "sunshine", "master", "123321", "welcome", "shadow", "ashley",
            "football", "jesus", "michael", "ninja", "mustang", "password1", "root", "admin",
            "administrator", "letmein", "pass", "passw0rd", "root123",
        ];
        let lower = crate::text::to_lowercase(password);
        let ghost list = common_passwords();
        proof {
            assert forall|j: int| 0 <= j < 36 implies (#[trigger] common@[j])@ == list[j] by {}
        }
        let mut i: usize = 0;
        while i < 36
            invariant
                i <= 36,
                list == common_passwords(),
                lower@ == crate::text::lowercase_text(password@),
                forall|j: int| 0 <= j < 36 ==> (#[trigger] common@[j])@ == list[j],
                forall|j: int| 0 <= j < i ==> list[j] != lower@,
            decreases 36 - i,
        {
            if crate::text::same_text(lower.as_str(), common[i]) {
                proof {
                    assert(list[i as int] == lower@);
                    assert(list.contains(lower@));
                }
                return true;
            }
            i = i + 1;
        }
        false
    }
}

/// Check a password against the default requirements.
pub fn validate_password(password: &str) -> (r: Result<()>)
    ensures
        match password_refusal(PasswordRequirements {
            min_length: 8, require_uppercase: false, require_lowercase: false, require_numbers: false,
            require_special: false, reject_common_passwords: true }, password) {
            None => r is Ok,
            Some(m) => r matches Err(SynapError::InvalidRequest(e)) && e@ == m,
        },
{
    PasswordRequirements::default().validate(password)
}

/// Check a password against the strict requirements.
pub fn validate_password_strict(password: &str) -> (r: Result<()>)
    ensures
        match password_refusal(PasswordRequirements {
            min_length: 12, require_uppercase: true, require_lowercase: true, require_numbers: true,
            require_special: true, reject_common_passwords: true }, password) {
            None => r is Ok,
            Some(m) => r matches Err(SynapError::InvalidRequest(e)) && e@ == m,
        },
{
    PasswordRequirements::strict().validate(password)
}

} // verus!
