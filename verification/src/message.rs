//! Chat messages, conversations, and the model and region tables.

use vstd::prelude::*;
use rand::rngs::OsRng;
use rand::RngCore;
use std::time::{Duration, SystemTime, UNIX_EPOCH};
use crate::text::{push_str_chars, str_eq};

verus! {

/// A point in time in UTC: whole seconds since the Unix epoch and the
/// nanoseconds past that second.
#[derive(Debug, Clone, Copy, PartialEq, Eq, Structural)]
pub struct Timestamp {
    pub secs: i64,
    pub nanos: u32,
}

/// `std::time::SystemTime`, held only to be measured against the epoch.
#[verifier::external_type_specification]
#[verifier::external_body]
pub struct ExSystemTime(SystemTime);

/// `SystemTime::now`: a reading of the system clock. Nothing is stated of
/// it, since it depends on the clock.
#[verifier::external_body]
fn system_now() -> SystemTime {
    SystemTime::now()
}

/// `SystemTime::duration_since(UNIX_EPOCH)`: the time since 1970, or
/// `None` when the reading is earlier than 1970.
#[verifier::external_body]
fn since_epoch(t: &SystemTime) -> Option<Duration> {
    t.duration_since(UNIX_EPOCH).ok()
}

/// `Duration::as_secs`: the whole seconds of a duration. Nothing is stated
/// of them, since nothing here relates a duration to numbers.
#[verifier::external_body]
fn duration_secs(d: &Duration) -> u64 {
    d.as_secs()
}

/// `Duration::subsec_nanos`: the nanoseconds past the whole seconds, which
/// std documents as always less than one billion.
#[verifier::external_body]
fn duration_subsec_nanos(d: &Duration) -> (r: u32)
    ensures
        r < 1_000_000_000,
{
    d.subsec_nanos()
}

/// The timestamp for a reading of the time since 1970 in whole seconds
/// and nanoseconds: `None` when there is no reading or its seconds do not
/// fit an `i64`.
pub fn timestamp_from_epoch(reading: Option<(u64, u32)>) -> (r: Option<Timestamp>)
    ensures
        r == match reading {
            Some((s, n)) => if s <= i64::MAX as u64 {
                Some(Timestamp { secs: s as i64, nanos: n })
            } else {
                None
            },
            None => None,
        },
{
    match reading {
        Some((secs, nanos)) => if secs <= i64::MAX as u64 {
            Some(Timestamp { secs: secs as i64, nanos })
        } else {
            None
        },
        None => None,
    }
}

/// The current time in UTC, or `None` when the clock reads before 1970 or
/// too far on for whole seconds to fit an `i64`.
fn utc_now() -> (r: Option<Timestamp>)
    ensures
        r matches Some(t) ==> t.secs >= 0 && t.nanos < 1_000_000_000,
{
    let now = system_now();
    let reading = match since_epoch(&now) {
        Some(d) => Some((duration_secs(&d), duration_subsec_nanos(&d))),
        None => None,
    };
    timestamp_from_epoch(reading)
}

/// `OsRng::try_fill_bytes` on 16 bytes: fresh random bytes from the
/// operating system, or `None` when its random source fails. The bytes
/// are random, so nothing is stated of them.
#[verifier::external_body]
fn os_random_bytes() -> Option<[u8; 16]> {
    let mut bytes = [0u8; 16];
    match OsRng.try_fill_bytes(&mut bytes) {
        Ok(()) => Some(bytes),
        Err(_) => None,
    }
}

/// A lowercase hexadecimal digit.
pub open spec fn is_lower_hex(c: char) -> bool {
    ('0' <= c && c <= '9') || ('a' <= c && c <= 'f')
}

/// The hyphenated form of a version-4 UUID: 36 characters, hyphens at 8,
/// 13, 18 and 23, lowercase hex digits elsewhere, the version digit `4` at
/// 14 and a variant digit from `8`, `9`, `a`, `b` at 19.
pub open spec fn is_v4_uuid_text(s: Seq<char>) -> bool {
    &&& s.len() == 36
    &&& forall|i: int|
        0 <= i < 36 ==> if i == 8 || i == 13 || i == 18 || i == 23 {
            s[i] == '-'
        } else {
            is_lower_hex(#[trigger] s[i])
        }
    &&& s[14] == '4'
    &&& (s[19] == '8' || s[19] == '9' || s[19] == 'a' || s[19] == 'b')
}

/// The lowercase hex digit for `n < 16`.
pub open spec fn hex_digit(n: u8) -> char {
    seq!['0', '1', '2', '3', '4', '5', '6', '7', '8', '9', 'a', 'b', 'c', 'd', 'e', 'f'][n as int]
}

/// The bytes as lowercase hex, two digits each, high digit first.
pub open spec fn hex_bytes(b: Seq<u8>) -> Seq<char>
    decreases b.len(),
{
    if b.len() == 0 {
        seq![]
    } else {
        hex_bytes(b.drop_last()) + seq![hex_digit(b.last() / 16), hex_digit(b.last() % 16)]
    }
}

/// Random bytes with the version (4) and variant (RFC 4122) bits set.
pub open spec fn v4_bytes(b: Seq<u8>) -> Seq<u8> {
    b.update(6, (b[6] & 0x0f) | 0x40).update(8, (b[8] & 0x3f) | 0x80)
}

/// The hyphenated lowercase text of the version-4 UUID built from 16
/// random bytes.
pub open spec fn v4_uuid_text(b: Seq<u8>) -> Seq<char> {
    let v = v4_bytes(b);
    hex_bytes(v.subrange(0, 4)) + seq!['-'] + hex_bytes(v.subrange(4, 6)) + seq!['-'] + hex_bytes(
        v.subrange(6, 8),
    ) + seq!['-'] + hex_bytes(v.subrange(8, 10)) + seq!['-'] + hex_bytes(v.subrange(10, 16))
}

/// `uuid::Builder::from_random_bytes(bytes).into_uuid()`, then `to_string`:
/// the builder sets the version and variant bits, and `Display` writes the
/// 16 bytes as lowercase hex, hyphenated after the 4th, 6th, 8th and 10th.
#[verifier::external_body]
fn uuid_text(bytes: [u8; 16]) -> (r: String)
    ensures
        r@ == v4_uuid_text(bytes@),
{
    uuid::Builder::from_random_bytes(bytes).into_uuid().to_string()
}

proof fn lemma_hex_bytes(b: Seq<u8>)
    ensures
        hex_bytes(b).len() == 2 * b.len(),
        forall|i: int| 0 <= i < hex_bytes(b).len() ==> is_lower_hex(#[trigger] hex_bytes(b)[i]),
        b.len() > 0 ==> hex_bytes(b)[0] == hex_digit(b[0] / 16),
    decreases b.len(),
{
    if b.len() > 0 {
        lemma_hex_bytes(b.drop_last());
        let h = hex_bytes(b);
        let x = b.last();
        assert(x / 16 < 16 && x % 16 < 16);
        assert forall|i: int| 0 <= i < h.len() implies is_lower_hex(#[trigger] h[i]) by {
            if i < 2 * (b.len() - 1) {
                assert(h[i] == hex_bytes(b.drop_last())[i]);
            }
        }
        if b.len() > 1 {
            assert(h[0] == hex_bytes(b.drop_last())[0]);
            assert(b.drop_last()[0] == b[0]);
        }
    }
}

/// Every UUID text built from 16 bytes has the version-4 shape.
pub proof fn lemma_v4_uuid_text_shape(b: Seq<u8>)
    requires
        b.len() == 16,
    ensures
        is_v4_uuid_text(v4_uuid_text(b)),
{
    let v = v4_bytes(b);
    let x6 = b[6];
    let x8 = b[8];
    assert(((x6 & 0x0f) | 0x40) / 16 == 4) by (bit_vector);
    assert(8 <= ((x8 & 0x3f) | 0x80) / 16 <= 11) by (bit_vector);
    lemma_hex_bytes(v.subrange(0, 4));
    lemma_hex_bytes(v.subrange(4, 6));
    lemma_hex_bytes(v.subrange(6, 8));
    lemma_hex_bytes(v.subrange(8, 10));
    lemma_hex_bytes(v.subrange(10, 16));
    let s = v4_uuid_text(b);
    assert(v.subrange(6, 8)[0] == v[6]);
    assert(v.subrange(8, 10)[0] == v[8]);
    assert(s[14] == hex_bytes(v.subrange(6, 8))[0]);
    assert(s[19] == hex_bytes(v.subrange(8, 10))[0]);
    assert forall|i: int| 0 <= i < 36 implies if i == 8 || i == 13 || i == 18 || i == 23 {
        s[i] == '-'
    } else {
        is_lower_hex(#[trigger] s[i])
    } by {
        if i < 8 {
            assert(s[i] == hex_bytes(v.subrange(0, 4))[i]);
        } else if i == 8 {
        } else if i < 13 {
            assert(s[i] == hex_bytes(v.subrange(4, 6))[i - 9]);
        } else if i == 13 {
        } else if i < 18 {
            assert(s[i] == hex_bytes(v.subrange(6, 8))[i - 14]);
        } else if i == 18 {
        } else if i < 23 {
            assert(s[i] == hex_bytes(v.subrange(8, 10))[i - 19]);
        } else if i == 23 {
        } else {
            assert(s[i] == hex_bytes(v.subrange(10, 16))[i - 24]);
        }
    }
}

/// Roles in a conversation
#[derive(Debug, Clone, Copy, PartialEq, Eq, Structural)]
pub enum Role {
    User,
    Assistant,
}

/// The name under which a role is stored and sent.
pub open spec fn role_name(r: Role) -> Seq<char> {
    match r {
        Role::User => seq!['u', 's', 'e', 'r'],
        Role::Assistant => seq!['a', 's', 's', 'i', 's', 't', 'a', 'n', 't'],
    }
}

/// The role a stored name stands for: `assistant`, and the user for any other name.
pub open spec fn role_of_name(s: Seq<char>) -> Role {
    if s == role_name(Role::Assistant) {
        Role::Assistant
    } else {
        Role::User
    }
}

impl Role {
    pub fn as_str(&self) -> (r: &'static str)
        ensures
            r@ == role_name(*self),
    {
        match self {
            Role::User => {
                proof {
                    reveal_strlit("user");
                }
                "user"
            },
            Role::Assistant => {
                proof {
                    reveal_strlit("assistant");
                }
                "assistant"
            },
        }
    }

    pub fn from_str(s: &str) -> (r: Role)
        ensures
            r == role_of_name(s@),
    {
        proof {
            reveal_strlit("assistant");
            assert("assistant"@ =~= role_name(Role::Assistant));
        }
        if str_eq(s, "assistant") {
            Role::Assistant
        } else {
            Role::User
        }
    }
}

/// A single chat message
#[derive(Debug)]
pub struct ChatMessage {
    pub id: String,
    pub conversation_id: String,
    pub role: Role,
    pub content: String,
    pub created_at: Timestamp,
    pub version: u64,
}

/// `v + 1`, wrapping to 0 past `u64::MAX`.
pub open spec fn next_version(v: u64) -> u64 {
    if v == u64::MAX {
        0
    } else {
        (v + 1) as u64
    }
}

fn string_from(s: &str) -> (r: String)
    ensures
        r@ == s@,
{
    let mut r = String::new();
    push_str_chars(&mut r, s);
    r
}

impl Clone for ChatMessage {
    fn clone(&self) -> (r: Self)
        ensures
            r == *self,
    {
        ChatMessage {
            id: self.id.clone(),
            conversation_id: self.conversation_id.clone(),
            role: self.role,
            content: self.content.clone(),
            created_at: self.created_at,
            version: self.version,
        }
    }
}

impl ChatMessage {
    /// The message with the id that `random` gives, created at `created_at`,
    /// at version 0.
    pub fn from_parts(
        conversation_id: &str,
        role: Role,
        content: &str,
        random: [u8; 16],
        created_at: Timestamp,
    ) -> (r: Self)
        ensures
            r.id@ == v4_uuid_text(random@),
            r.conversation_id@ == conversation_id@,
            r.role == role,
            r.content@ == content@,
            r.created_at == created_at,
            r.version == 0,
    {
        ChatMessage {
            id: uuid_text(random),
            conversation_id: string_from(conversation_id),
            role,
            content: string_from(content),
            created_at,
            version: 0,
        }
    }

    /// A new message with a fresh random id, created now, at version 0;
    /// `None` when the operating system's random source fails or the clock
    /// cannot be read as a time after 1970.
    pub fn new(conversation_id: &str, role: Role, content: &str) -> (r: Option<Self>)
        ensures
            r matches Some(m) ==> {
                &&& exists|b: Seq<u8>| b.len() == 16 && m.id@ == v4_uuid_text(b)
                &&& is_v4_uuid_text(m.id@)
                &&& m.conversation_id@ == conversation_id@
                &&& m.role == role
                &&& m.content@ == content@
                &&& m.version == 0
                &&& m.created_at.secs >= 0 && m.created_at.nanos < 1_000_000_000
            },
    {
        let random = os_random_bytes();
        let now = utc_now();
        match (random, now) {
            (Some(b), Some(t)) => {
                proof {
                    lemma_v4_uuid_text_shape(b@);
                }
                Some(ChatMessage::from_parts(conversation_id, role, content, b, t))
            },
            _ => None,
        }
    }

    /// Appends a streamed token to the content and bumps the version.
    pub fn append_token(&mut self, token: &str)
        ensures
            final(self).content@ == old(self).content@ + token@,
            final(self).version == next_version(old(self).version),
            final(self).id == old(self).id,
            final(self).conversation_id == old(self).conversation_id,
            final(self).role == old(self).role,
            final(self).created_at == old(self).created_at,
    {
        push_str_chars(&mut self.content, token);
        self.version = if self.version == u64::MAX {
            0
        } else {
            self.version + 1
        };
    }
}

/// Metadata for a conversation shown in the sidebar
#[derive(Debug)]
pub struct Conversation {
    pub id: String,
    pub title: String,
    pub system_prompt: String,
    pub model_id: String,
    pub region: String,
    pub created_at: Timestamp,
    pub updated_at: Timestamp,
}

/// A model entry: (display_name, model_id, provider_group)
pub struct ModelEntry {
    pub name: &'static str,
    pub id: &'static str,
    pub provider: &'static str,
}

/// Token usage from a single API call
#[derive(Debug, Clone, Copy)]
pub struct TokenUsage {
    pub input_tokens: i32,
    pub output_tokens: i32,
    pub total_tokens: i32,
}

impl Default for TokenUsage {
    fn default() -> (r: Self)
        ensures
            r.input_tokens == 0 && r.output_tokens == 0 && r.total_tokens == 0,
    {
        TokenUsage { input_tokens: 0, output_tokens: 0, total_tokens: 0 }
    }
}

impl Clone for Conversation {
    fn clone(&self) -> (r: Self)
        ensures
            r == *self,
    {
        Conversation {
            id: self.id.clone(),
            title: self.title.clone(),
            system_prompt: self.system_prompt.clone(),
            model_id: self.model_id.clone(),
            region: self.region.clone(),
            created_at: self.created_at,
            updated_at: self.updated_at,
        }
    }
}

impl Conversation {
    /// The conversation with the id that `random` gives and an empty system
    /// prompt, created and last updated at `now`.
    pub fn from_parts(
        title: &str,
        model_id: &str,
        region: &str,
        random: [u8; 16],
        now: Timestamp,
    ) -> (r: Self)
        ensures
            r.id@ == v4_uuid_text(random@),
            r.title@ == title@,
            r.system_prompt@ == Seq::<char>::empty(),
            r.model_id@ == model_id@,
            r.region@ == region@,
            r.created_at == now,
            r.updated_at == now,
    {
        Conversation {
            id: uuid_text(random),
            title: string_from(title),
            system_prompt: String::new(),
            model_id: string_from(model_id),
            region: string_from(region),
            created_at: now,
            updated_at: now,
        }
    }

    /// A new conversation with a fresh random id and an empty system
    /// prompt, created and updated now; `None` when the operating system's
    /// random source fails or the clock cannot be read as a time after 1970.
    pub fn new(title: &str, model_id: &str, region: &str) -> (r: Option<Self>)
        ensures
            r matches Some(c) ==> {
                &&& exists|b: Seq<u8>| b.len() == 16 && c.id@ == v4_uuid_text(b)
                &&& is_v4_uuid_text(c.id@)
                &&& c.title@ == title@
                &&& c.system_prompt@ == Seq::<char>::empty()
                &&& c.model_id@ == model_id@
                &&& c.region@ == region@
                &&& c.created_at == c.updated_at
                &&& c.created_at.secs >= 0 && c.created_at.nanos < 1_000_000_000
            },
    {
        let random = os_random_bytes();
        let now = utc_now();
        match (random, now) {
            (Some(b), Some(t)) => {
                proof {
                    lemma_v4_uuid_text_shape(b@);
                }
                Some(Conversation::from_parts(title, model_id, region, b, t))
            },
            _ => None,
        }
    }
}

/// Reading back the name a role is stored under gives the role again:
/// `Role::from_str(r.as_str()) == r`.
pub proof fn lemma_role_name_round_trip(r: Role)
    ensures
        role_of_name(role_name(r)) == r,
{
    assert(role_name(Role::User).len() != role_name(Role::Assistant).len());
}

} // verus!
