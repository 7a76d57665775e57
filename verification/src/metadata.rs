//! Typed metadata envelope for entries written by memory-lifecycle hooks.
//!
//! Backends stamp a [`FrameMetadata`] envelope into their per-entry
//! string-to-string metadata map so downstream tools can decode the origin of
//! each retrieved entry uniformly, whatever the storage engine.
//!
//! The map form has one entry per field: `schema_version` (decimal),
//! `kind` (`demoted_message` or `compaction_summary`), `conversation_id`,
//! `chat_role`, `dedup_key`, and `scope` when there is one.

use std::collections::BTreeMap;

use vstd::prelude::*;

use crate::error::PolicyError;
use crate::text::{chars_of, push_char, str_eq};

verus! {

// ---------------------------------------------------------------------------
// The string-to-string map of the standard library
// ---------------------------------------------------------------------------

/// The string-to-string map in which backends keep per-entry metadata.
pub type TextMap = BTreeMap<String, String>;

/// The entries of a `BTreeMap<String, String>`, each string taken by its
/// characters.
pub uninterp spec fn text_map_view(m: TextMap) -> Map<Seq<char>, Seq<char>>;

/// `BTreeMap::new`: an empty map.
#[verifier::external_body]
fn text_map_new() -> (fresh: TextMap)
    ensures
        text_map_view(fresh) =~= Map::empty(),
{
    BTreeMap::new()
}

/// `BTreeMap::insert`: after the call the map sends `k` to `v` and keeps every
/// other entry. `String` orders and compares by its characters, so the key
/// that is replaced, if any, is the one with the same characters.
#[verifier::external_body]
fn text_map_insert(m: &mut BTreeMap<String, String>, k: String, v: String)
    ensures
        text_map_view(*final(m)) == text_map_view(*old(m)).insert(k@, v@),
{
    m.insert(k, v);
}

/// `BTreeMap::get` with a `&str` key: the value stored under the key with the
/// same characters, if there is one.
#[verifier::external_body]
fn text_map_get<'a>(m: &'a BTreeMap<String, String>, k: &str) -> (r: Option<&'a String>)
    ensures
        match r {
            Some(v) => text_map_view(*m).contains_key(k@) && text_map_view(*m)[k@] == v@,
            None => !text_map_view(*m).contains_key(k@),
        },
{
    m.get(k)
}

// ---------------------------------------------------------------------------
// Frame kinds
// ---------------------------------------------------------------------------

/// The type of entry produced by a memory lifecycle hook.
///
/// Backends pattern-match on this enum across crate boundaries, so it is
/// deliberately exhaustive: adding a variant is a breaking change.
#[derive(Debug, Clone, Copy, PartialEq, Eq, Structural)]
pub enum FrameKind {
    /// A single user/assistant interaction evicted from the working set.
    DemotedMessage,
    /// A rolled-up summary of multiple evicted interactions.
    CompactionSummary,
}

/// The snake_case name of a frame kind.
pub open spec fn frame_kind_name(k: FrameKind) -> Seq<char> {
    match k {
        FrameKind::DemotedMessage => "demoted_message"@,
        FrameKind::CompactionSummary => "compaction_summary"@,
    }
}

/// The frame kind with the given snake_case name, if any.
pub open spec fn frame_kind_named(s: Seq<char>) -> Option<FrameKind> {
    if s == "demoted_message"@ {
        Some(FrameKind::DemotedMessage)
    } else if s == "compaction_summary"@ {
        Some(FrameKind::CompactionSummary)
    } else {
        None
    }
}

impl FrameKind {
    /// Provide the snake_case string representation.
    pub fn as_str(self) -> (s: &'static str)
        ensures
            s@ == frame_kind_name(self),
    {
        match self {
            FrameKind::DemotedMessage => "demoted_message",
            FrameKind::CompactionSummary => "compaction_summary",
        }
    }
}

// ---------------------------------------------------------------------------
// Decimal text of a u8
// ---------------------------------------------------------------------------

/// The character of a decimal digit.
pub open spec fn digit_char(d: int) -> char {
    if d == 0 {
        '0'
    } else if d == 1 {
        '1'
    } else if d == 2 {
        '2'
    } else if d == 3 {
        '3'
    } else if d == 4 {
        '4'
    } else if d == 5 {
        '5'
    } else if d == 6 {
        '6'
    } else if d == 7 {
        '7'
    } else if d == 8 {
        '8'
    } else {
        '9'
    }
}

/// The decimal text of `n`, without leading zeros (as `u8::to_string`).
pub open spec fn u8_decimal(n: u8) -> Seq<char> {
    if n < 10 {
        seq![digit_char(n as int)]
    } else if n < 100 {
        seq![digit_char((n / 10) as int), digit_char((n % 10) as int)]
    } else {
        seq![digit_char((n / 100) as int), digit_char(((n / 10) % 10) as int), digit_char((n % 10) as int)]
    }
}

/// Whether every character of `s` is an ASCII digit.
pub open spec fn all_digits(s: Seq<char>) -> bool {
    forall|i: int| 0 <= i < s.len() ==> '0' <= #[trigger] s[i] && s[i] <= '9'
}

/// The value of a string of ASCII digits.
pub open spec fn digits_value(s: Seq<char>) -> int
    decreases s.len(),
{
    if s.len() == 0 {
        0
    } else {
        digits_value(s.drop_last()) * 10 + (s.last() as int - '0' as int)
    }
}

/// `u8::from_str`: an optional `+`, then at least one ASCII digit, with a
/// value of at most 255.
pub open spec fn parse_u8(s: Seq<char>) -> Option<u8> {
    let digits = if s.len() > 0 && s[0] == '+' {
        s.drop_first()
    } else {
        s
    };
    if digits.len() > 0 && all_digits(digits) && digits_value(digits) <= 255 {
        Some(digits_value(digits) as u8)
    } else {
        None
    }
}

fn digit(d: u8) -> (c: char)
    requires
        d < 10,
    ensures
        c == digit_char(d as int),
{
    if d == 0 {
        '0'
    } else if d == 1 {
        '1'
    } else if d == 2 {
        '2'
    } else if d == 3 {
        '3'
    } else if d == 4 {
        '4'
    } else if d == 5 {
        '5'
    } else if d == 6 {
        '6'
    } else if d == 7 {
        '7'
    } else if d == 8 {
        '8'
    } else {
        '9'
    }
}

/// The decimal text of `n`.
fn u8_to_decimal(n: u8) -> (s: String)
    ensures
        s@ == u8_decimal(n),
{
    let mut s = String::new();
    if n >= 100 {
        push_char(&mut s, digit(n / 100));
    }
    if n >= 10 {
        push_char(&mut s, digit((n / 10) % 10));
    }
    push_char(&mut s, digit(n % 10));
    assert(s@ =~= u8_decimal(n));
    s
}

/// Parse a `u8` the way `u8::from_str` does.
fn parse_u8_exec(s: &str) -> (r: Option<u8>)
    ensures
        r == parse_u8(s@),
{
    let cs = chars_of(s);
    let start: usize = if cs.len() > 0 && cs[0] == '+' {
        1
    } else {
        0
    };
    let ghost digits = if cs@.len() > 0 && cs@[0] == '+' {
        cs@.drop_first()
    } else {
        cs@
    };
    assert(digits =~= cs@.subrange(start as int, cs@.len() as int));
    if start >= cs.len() {
        return None;
    }
    let mut value: u32 = 0;
    let mut i = start;
    while i < cs.len()
        invariant
            start <= i <= cs@.len(),
            cs@ == s@,
            digits == (if cs@.len() > 0 && cs@[0] == '+' {
                cs@.drop_first()
            } else {
                cs@
            }),
            digits == cs@.subrange(start as int, cs@.len() as int),
            all_digits(cs@.subrange(start as int, i as int)),
            value == digits_value(cs@.subrange(start as int, i as int)),
            value <= 255,
        decreases cs.len() - i,
    {
        let c = cs[i];
        assert(cs@.subrange(start as int, i + 1).drop_last() =~= cs@.subrange(
            start as int,
            i as int,
        ));
        if c < '0' || c > '9' {
            assert(digits[i - start] == c);
            return None;
        }
        let d = (c as u32) - ('0' as u32);
        value = value * 10 + d;
        if value > 255 {
            proof {
                assert(digits.subrange(0, (i + 1 - start) as int) =~= cs@.subrange(
                    start as int,
                    i + 1,
                ));
                if all_digits(digits) {
                    lemma_digits_value_grows(digits, (i + 1 - start) as int);
                }
            }
            return None;
        }
        i = i + 1;
    }
    assert(cs@.subrange(start as int, cs@.len() as int) == digits);
    Some(value as u8)
}

/// The value of a digit string is at least the value of any of its prefixes.
proof fn lemma_digits_value_grows(s: Seq<char>, k: int)
    requires
        0 <= k <= s.len(),
        all_digits(s),
    ensures
        digits_value(s) >= digits_value(s.subrange(0, k)),
    decreases s.len(),
{
    if k < s.len() {
        assert(all_digits(s.drop_last()));
        assert(s.drop_last().subrange(0, k) =~= s.subrange(0, k));
        lemma_digits_value_grows(s.drop_last(), k);
        lemma_digits_value_nonneg(s.drop_last());
    } else {
        assert(s.subrange(0, k) =~= s);
    }
}

proof fn lemma_digits_value_nonneg(s: Seq<char>)
    requires
        all_digits(s),
    ensures
        digits_value(s) >= 0,
    decreases s.len(),
{
    if s.len() > 0 {
        assert(all_digits(s.drop_last()));
        lemma_digits_value_nonneg(s.drop_last());
    }
}

// ---------------------------------------------------------------------------
// The envelope
// ---------------------------------------------------------------------------

/// The typed schema written into a backend's per-entry metadata map for every
/// entry produced by a memory lifecycle hook.
#[derive(Debug, Clone, PartialEq, Eq)]
pub struct FrameMetadata {
    /// The schema version of this envelope. Currently `1`.
    pub schema_version: u8,
    /// What kind of memory lifecycle produced this entry.
    pub kind: FrameKind,
    /// The conversation ID from the memory context.
    pub conversation_id: String,
    /// The logical chat role (`system`, `user`, `assistant`).
    pub chat_role: String,
    /// The deterministic content-hash dedup key.
    pub dedup_key: String,
    /// The isolation scope under which this entry was written, if any.
    pub scope: Option<String>,
}

/// The map form of an envelope.
pub open spec fn metadata_entries(m: FrameMetadata) -> Map<Seq<char>, Seq<char>> {
    let base = Map::<Seq<char>, Seq<char>>::empty().insert(
        "schema_version"@,
        u8_decimal(m.schema_version),
    ).insert("kind"@, frame_kind_name(m.kind)).insert("conversation_id"@, m.conversation_id@).insert(
        "chat_role"@,
        m.chat_role@,
    ).insert("dedup_key"@, m.dedup_key@);
    match m.scope {
        Some(s) => base.insert("scope"@, s@),
        None => base,
    }
}

/// Whether a map holds a decodable envelope: every required field is
/// present, `schema_version` is a `u8` and `kind` names a frame kind. Other
/// keys are ignored.
pub open spec fn decodable(e: Map<Seq<char>, Seq<char>>) -> bool {
    &&& e.contains_key("schema_version"@)
    &&& parse_u8(e["schema_version"@]) is Some
    &&& e.contains_key("kind"@)
    &&& frame_kind_named(e["kind"@]) is Some
    &&& e.contains_key("conversation_id"@)
    &&& e.contains_key("chat_role"@)
    &&& e.contains_key("dedup_key"@)
}

/// Whether `m` is the envelope that the map `e` holds.
pub open spec fn decodes_to(e: Map<Seq<char>, Seq<char>>, m: FrameMetadata) -> bool {
    &&& Some(m.schema_version) == parse_u8(e["schema_version"@])
    &&& Some(m.kind) == frame_kind_named(e["kind"@])
    &&& m.conversation_id@ == e["conversation_id"@]
    &&& m.chat_role@ == e["chat_role"@]
    &&& m.dedup_key@ == e["dedup_key"@]
    &&& match m.scope {
        Some(s) => e.contains_key("scope"@) && s@ == e["scope"@],
        None => !e.contains_key("scope"@),
    }
}

/// Whether two envelopes have the same field values.
pub open spec fn same_metadata(a: FrameMetadata, b: FrameMetadata) -> bool {
    &&& a.schema_version == b.schema_version
    &&& a.kind == b.kind
    &&& a.conversation_id@ == b.conversation_id@
    &&& a.chat_role@ == b.chat_role@
    &&& a.dedup_key@ == b.dedup_key@
    &&& match (a.scope, b.scope) {
        (Some(x), Some(y)) => x@ == y@,
        (None, None) => true,
        _ => false,
    }
}

/// The message for a missing required field.
pub open spec fn missing_field_message(key: Seq<char>) -> Seq<char> {
    "missing field `"@ + key + "`"@
}

/// The message for a `schema_version` that is not a `u8`.
pub open spec fn bad_version_message(value: Seq<char>) -> Seq<char> {
    "invalid type: string \""@ + value + "\", expected u8"@
}

/// The message for a `kind` that names no frame kind.
pub open spec fn bad_kind_message(value: Seq<char>) -> Seq<char> {
    "unknown variant `"@ + value + "`, expected `demoted_message` or `compaction_summary`"@
}

/// The message of the first problem of an undecodable map, in the order
/// `schema_version`, `kind`, `conversation_id`, `chat_role`, `dedup_key`.
pub open spec fn decode_error_message(e: Map<Seq<char>, Seq<char>>) -> Seq<char> {
    if !e.contains_key("schema_version"@) {
        missing_field_message("schema_version"@)
    } else if parse_u8(e["schema_version"@]) is None {
        bad_version_message(e["schema_version"@])
    } else if !e.contains_key("kind"@) {
        missing_field_message("kind"@)
    } else if frame_kind_named(e["kind"@]) is None {
        bad_kind_message(e["kind"@])
    } else if !e.contains_key("conversation_id"@) {
        missing_field_message("conversation_id"@)
    } else if !e.contains_key("chat_role"@) {
        missing_field_message("chat_role"@)
    } else {
        missing_field_message("dedup_key"@)
    }
}

fn required_field(map: &BTreeMap<String, String>, key: &str) -> (r: Result<String, PolicyError>)
    ensures
        match r {
            Ok(v) => text_map_view(*map).contains_key(key@) && v@ == text_map_view(*map)[key@],
            Err(e) => !text_map_view(*map).contains_key(key@) && (e matches PolicyError::InvalidMetadata(m)
                && m@ == missing_field_message(key@)),
        },
{
    match text_map_get(map, key) {
        Some(v) => Ok(v.clone()),
        None => {
            let mut msg = String::from_str("missing field `");
            msg.append(key);
            msg.append("`");
            Err(PolicyError::InvalidMetadata(msg))
        },
    }
}

impl FrameMetadata {
    /// Decode the envelope from a string-to-string map.
    ///
    /// Unknown keys are ignored and a missing `scope` decodes to `None`. A
    /// missing required field, a `schema_version` that is not a `u8` or a
    /// `kind` that names no frame kind yields
    /// [`PolicyError::InvalidMetadata`].
    pub fn try_from_map(map: &BTreeMap<String, String>) -> (r: Result<Self, PolicyError>)
        ensures
            r is Ok <==> decodable(text_map_view(*map)),
            r matches Ok(m) ==> decodes_to(text_map_view(*map), m),
            r matches Err(e) ==> e matches PolicyError::InvalidMetadata(m) && m@ == decode_error_message(
                text_map_view(*map),
            ),
    {
        let version_text = match required_field(map, "schema_version") {
            Ok(v) => v,
            Err(e) => {
                return Err(e);
            },
        };
        let schema_version = match parse_u8_exec(version_text.as_str()) {
            Some(v) => v,
            None => {
                let mut msg = String::from_str("invalid type: string \"");
                msg.append(version_text.as_str());
                msg.append("\", expected u8");
                return Err(PolicyError::InvalidMetadata(msg));
            },
        };
        let kind_text = match required_field(map, "kind") {
            Ok(v) => v,
            Err(e) => {
                return Err(e);
            },
        };
        let kind = if str_eq(kind_text.as_str(), "demoted_message") {
            FrameKind::DemotedMessage
        } else if str_eq(kind_text.as_str(), "compaction_summary") {
            FrameKind::CompactionSummary
        } else {
            let mut msg = String::from_str("unknown variant `");
            msg.append(kind_text.as_str());
            msg.append("`, expected `demoted_message` or `compaction_summary`");
            return Err(PolicyError::InvalidMetadata(msg));
        };
        let conversation_id = match required_field(map, "conversation_id") {
            Ok(v) => v,
            Err(e) => {
                return Err(e);
            },
        };
        let chat_role = match required_field(map, "chat_role") {
            Ok(v) => v,
            Err(e) => {
                return Err(e);
            },
        };
        let dedup_key = match required_field(map, "dedup_key") {
            Ok(v) => v,
            Err(e) => {
                return Err(e);
            },
        };
        let scope = match text_map_get(map, "scope") {
            Some(s) => Some(s.clone()),
            None => None,
        };
        Ok(FrameMetadata { schema_version, kind, conversation_id, chat_role, dedup_key, scope })
    }

    /// Convert the metadata envelope into a string-to-string map.
    pub fn into_map(self) -> (map: BTreeMap<String, String>)
        ensures
            text_map_view(map) == metadata_entries(self),
    {
        let ghost m = self;
        let mut map = text_map_new();
        text_map_insert(&mut map, String::from_str("schema_version"), u8_to_decimal(self.schema_version));
        text_map_insert(&mut map, String::from_str("kind"), String::from_str(self.kind.as_str()));
        text_map_insert(&mut map, String::from_str("conversation_id"), self.conversation_id);
        text_map_insert(&mut map, String::from_str("chat_role"), self.chat_role);
        text_map_insert(&mut map, String::from_str("dedup_key"), self.dedup_key);
        match self.scope {
            Some(scope) => {
                text_map_insert(&mut map, String::from_str("scope"), scope);
            },
            None => {},
        }
        map
    }
}

// ---------------------------------------------------------------------------
// Laws
// ---------------------------------------------------------------------------

proof fn lemma_digit_char_value(d: int)
    requires
        0 <= d < 10,
    ensures
        '0' <= digit_char(d) <= '9',
        digit_char(d) as int - '0' as int == d,
{
}

/// The decimal text of a `u8` parses back to the same value.
pub proof fn lemma_u8_decimal_parses(n: u8)
    ensures
        parse_u8(u8_decimal(n)) == Some(n),
{
    let s = u8_decimal(n);
    let d0 = (n % 10) as int;
    lemma_digit_char_value(d0);
    if n < 10 {
        assert(s.drop_last() =~= Seq::<char>::empty());
        assert(digits_value(s.drop_last()) == 0);
        assert(digits_value(s) == d0);
    } else if n < 100 {
        let d1 = (n / 10) as int;
        lemma_digit_char_value(d1);
        assert(s.drop_last() =~= seq![digit_char(d1)]);
        assert(s.drop_last().drop_last() =~= Seq::<char>::empty());
        assert(digits_value(s.drop_last().drop_last()) == 0);
        assert(digits_value(s.drop_last()) == d1);
        assert(digits_value(s) == d1 * 10 + d0);
    } else {
        let d1 = ((n / 10) % 10) as int;
        let d2 = (n / 100) as int;
        lemma_digit_char_value(d1);
        lemma_digit_char_value(d2);
        assert(s.drop_last() =~= seq![digit_char(d2), digit_char(d1)]);
        assert(s.drop_last().drop_last() =~= seq![digit_char(d2)]);
        assert(s.drop_last().drop_last().drop_last() =~= Seq::<char>::empty());
        assert(digits_value(s.drop_last().drop_last().drop_last()) == 0);
        assert(digits_value(s.drop_last().drop_last()) == d2);
        assert(digits_value(s.drop_last()) == d2 * 10 + d1);
        assert(digits_value(s) == (d2 * 10 + d1) * 10 + d0);
    }
    assert(all_digits(s));
}

/// Every frame kind is named by its snake_case name.
pub proof fn lemma_frame_kind_name_round_trip(k: FrameKind)
    ensures
        frame_kind_named(frame_kind_name(k)) == Some(k),
{
    reveal_strlit("demoted_message");
    reveal_strlit("compaction_summary");
    assert("demoted_message"@[0] != "compaction_summary"@[0]);
}

/// Decoding the map form of an envelope gives back the same envelope:
/// the map is decodable, and whatever it decodes to has the field values of
/// the original.
pub proof fn lemma_metadata_round_trip(m: FrameMetadata, d: FrameMetadata)
    ensures
        decodable(metadata_entries(m)),
        decodes_to(metadata_entries(m), d) ==> same_metadata(d, m),
{
    reveal_strlit("schema_version");
    reveal_strlit("kind");
    reveal_strlit("conversation_id");
    reveal_strlit("chat_role");
    reveal_strlit("dedup_key");
    reveal_strlit("scope");
    lemma_metadata_keys_distinct();
    lemma_u8_decimal_parses(m.schema_version);
    lemma_frame_kind_name_round_trip(m.kind);
}

proof fn lemma_metadata_keys_distinct()
    ensures
        "schema_version"@ != "kind"@,
        "schema_version"@ != "conversation_id"@,
        "schema_version"@ != "chat_role"@,
        "schema_version"@ != "dedup_key"@,
        "schema_version"@ != "scope"@,
        "kind"@ != "conversation_id"@,
        "kind"@ != "chat_role"@,
        "kind"@ != "dedup_key"@,
        "kind"@ != "scope"@,
        "conversation_id"@ != "chat_role"@,
        "conversation_id"@ != "dedup_key"@,
        "conversation_id"@ != "scope"@,
        "chat_role"@ != "dedup_key"@,
        "chat_role"@ != "scope"@,
        "dedup_key"@ != "scope"@,
{
    reveal_strlit("schema_version");
    reveal_strlit("kind");
    reveal_strlit("conversation_id");
    reveal_strlit("chat_role");
    reveal_strlit("dedup_key");
    reveal_strlit("scope");
    assert("schema_version"@[0] != "conversation_id"@[0]);
    assert("schema_version"@[0] != "chat_role"@[0]);
    assert("schema_version"@[0] != "dedup_key"@[0]);
    assert("schema_version"@[0] != "kind"@[0]);
    assert("schema_version"@[2] != "scope"@[2]);
    assert("kind"@[0] != "conversation_id"@[0]);
    assert("kind"@[0] != "chat_role"@[0]);
    assert("kind"@[0] != "dedup_key"@[0]);
    assert("kind"@[0] != "scope"@[0]);
    assert("conversation_id"@[1] != "chat_role"@[1]);
    assert("conversation_id"@[0] != "dedup_key"@[0]);
    assert("conversation_id"@[0] != "scope"@[0]);
    assert("chat_role"@[0] != "dedup_key"@[0]);
    assert("chat_role"@[0] != "scope"@[0]);
    assert("dedup_key"@[0] != "scope"@[0]);
}

} // verus!
