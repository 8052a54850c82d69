//! Resolved run configuration and the on-disk configuration text.
//!
//! Options come from two sources: the command line and a configuration
//! file. The file is line-based: each non-blank line is `key = value`,
//! where a value is either a quoted string, a decimal number or a boolean.
//! Recognized keys are the device name (written by the program itself),
//! the persisted device id, the port, the two multicast groups and the
//! no-config-file flag; a well-formed line with any other key is ignored. Any line that does not
//! have this shape makes the whole text invalid, and the defaults stand:
//! configuration is all-or-nothing, like packet decoding.

use vstd::prelude::*;

use crate::codec::MAX_NAME_LEN;
use crate::codec::PeerAddr;
use crate::codec::copy_bytes;
use crate::codec::copy_range;
use crate::registry::bytes_eq;

verus! {

/// Mathematical model of a resolved option set.
#[verifier::ext_equal]
pub ghost struct OptionsModel {
    pub config_file: Option<Seq<u8>>,
    pub device_id: Seq<u8>,
    pub set_device_name: Seq<u8>,
    pub port: u16,
    pub multicast_ipv4: Seq<u8>,
    pub multicast_ipv6: Seq<u8>,
    pub no_config_file: bool,
}

/// The resolved options the engine is configured from. Precedence between
/// the command line and the configuration file is settled by
/// `from_args_with_conf`, before any of this reaches the engine.
pub struct Options {
    /// An explicit configuration file path, as bytes, if one was given.
    pub config_file: Option<Vec<u8>>,
    /// The 128-bit device id, as sixteen bytes.
    pub device_id: Vec<u8>,
    /// The display name to announce, as UTF-8 bytes.
    pub set_device_name: Vec<u8>,
    /// The application port to announce.
    pub port: u16,
    /// The IPv4 multicast group to join, as four octets.
    pub multicast_ipv4: PeerAddr,
    /// The IPv6 multicast group to join, as sixteen octets.
    pub multicast_ipv6: PeerAddr,
    /// When set, the configuration file is not consulted at all.
    pub no_config_file: bool,
}

impl View for Options {
    type V = OptionsModel;

    open spec fn view(&self) -> OptionsModel {
        OptionsModel {
            config_file: match self.config_file {
                Some(p) => Some(p@),
                None => None,
            },
            device_id: self.device_id@,
            set_device_name: self.set_device_name@,
            port: self.port,
            multicast_ipv4: self.multicast_ipv4@,
            multicast_ipv6: self.multicast_ipv6@,
            no_config_file: self.no_config_file,
        }
    }
}

impl Options {
    /// An independent copy with an equal model.
    pub fn duplicate(&self) -> (r: Options)
        ensures
            r@ == self@,
    {
        let config_file = match &self.config_file {
            Some(p) => Some(copy_bytes(p)),
            None => None,
        };
        let r = Options {
            config_file,
            device_id: copy_bytes(&self.device_id),
            set_device_name: copy_bytes(&self.set_device_name),
            port: self.port,
            multicast_ipv4: self.multicast_ipv4.duplicate(),
            multicast_ipv6: self.multicast_ipv6.duplicate(),
            no_config_file: self.no_config_file,
        };
        assert(r@ =~= self@);
        r
    }
}

/// Which options were given on the command line, so that the merge knows
/// which command-line values are the user's and which are mere defaults.
#[derive(Clone, Copy, PartialEq, Eq, Structural, Debug)]
pub struct OptionsPresent {
    pub config_file: bool,
    pub device_id: bool,
    pub set_device_name: bool,
    pub port: bool,
    pub multicast_ipv4: bool,
    pub multicast_ipv6: bool,
    pub no_config_file: bool,
}

/// First position of byte `b` in `s` at or after `pos`; `s.len()` if none.
pub open spec fn find_byte(s: Seq<u8>, pos: int, b: u8) -> int
    decreases s.len() - pos,
{
    if pos < 0 || pos >= s.len() {
        s.len() as int
    } else if s[pos] == b {
        pos
    } else {
        find_byte(s, pos + 1, b)
    }
}

/// `find_byte` finds the first occurrence, or rules every position out.
pub proof fn lemma_find_byte(s: Seq<u8>, pos: int, b: u8)
    requires
        0 <= pos <= s.len(),
    ensures
        pos <= find_byte(s, pos, b) <= s.len(),
        find_byte(s, pos, b) < s.len() ==> s[find_byte(s, pos, b)] == b,
        forall|j: int| pos <= j < find_byte(s, pos, b) ==> s[j] != b,
    decreases s.len() - pos,
{
    if pos < s.len() && s[pos] != b {
        lemma_find_byte(s, pos + 1, b);
    }
}

/// Executable `find_byte`.
fn find_byte_exec(s: &Vec<u8>, pos: usize, b: u8) -> (r: usize)
    requires
        pos <= s@.len(),
    ensures
        r == find_byte(s@, pos as int, b),
{
    proof {
        lemma_find_byte(s@, pos as int, b);
    }
    let mut i: usize = pos;
    while i < s.len()
        invariant
            pos <= i <= s@.len(),
            forall|j: int| pos <= j < i ==> s@[j] != b,
            find_byte(s@, pos as int, b) >= i || find_byte(s@, pos as int, b) == s@.len(),
        decreases s.len() - i,
    {
        if s[i] == b {
            proof {
                lemma_find_byte(s@, pos as int, b);
                if find_byte(s@, pos as int, b) > i {
                    assert(s@[i as int] != b);
                }
            }
            return i;
        }
        proof {
            lemma_find_byte(s@, pos as int, b);
            if find_byte(s@, pos as int, b) == i {
                assert(s@[i as int] == b);
            }
        }
        i += 1;
    }
    proof {
        lemma_find_byte(s@, pos as int, b);
        if find_byte(s@, pos as int, b) < s@.len() {
            assert(s@[find_byte(s@, pos as int, b)] == b);
        }
    }
    s.len()
}

/// A configuration string value: quoted, with no quote, backslash or
/// control byte inside. The value is the bytes between the quotes.
pub open spec fn spec_parse_quoted(v: Seq<u8>) -> Option<Seq<u8>> {
    if v.len() >= 2 && v[0] == 0x22 && v[v.len() - 1] == 0x22 && (forall|i: int|
        1 <= i < v.len() - 1 ==> v[i] != 0x22 && v[i] != 0x5c && v[i] >= 0x20) {
        Some(v.subrange(1, v.len() - 1))
    } else {
        None
    }
}

/// Executable quoted-string parser.
fn parse_quoted(v: &Vec<u8>) -> (r: Option<Vec<u8>>)
    ensures
        match r {
            Some(inner) => spec_parse_quoted(v@) == Some(inner@),
            None => spec_parse_quoted(v@) == Option::<Seq<u8>>::None,
        },
{
    if v.len() < 2 || v[0] != 0x22 || v[v.len() - 1] != 0x22 {
        return None;
    }
    let mut i: usize = 1;
    while i < v.len() - 1
        invariant
            1 <= i <= v@.len() - 1,
            v@.len() >= 2,
            forall|j: int| 1 <= j < i ==> v@[j] != 0x22 && v@[j] != 0x5c && v@[j] >= 0x20,
        decreases v.len() - i,
    {
        if v[i] == 0x22 || v[i] == 0x5c || v[i] < 0x20 {
            return None;
        }
        i += 1;
    }
    Some(copy_range(v, 1, v.len() - 2))
}

/// Whether a byte is an ASCII decimal digit.
pub open spec fn is_digit(b: u8) -> bool {
    0x30 <= b <= 0x39
}

/// Numeric value of a digit sequence, most significant digit first.
pub open spec fn digits_value(s: Seq<u8>) -> int
    decreases s.len(),
{
    if s.len() == 0 {
        0
    } else {
        digits_value(s.drop_last()) * 10 + (s.last() - 0x30)
    }
}

/// A configuration number: one to five digits, no leading zero (except the
/// number zero itself), value at most 65535.
pub open spec fn spec_parse_u16(v: Seq<u8>) -> Option<u16> {
    if 1 <= v.len() <= 5 && (forall|i: int| 0 <= i < v.len() ==> is_digit(v[i])) && (v[0] != 0x30
        || v.len() == 1) && digits_value(v) <= 65535 {
        Some(digits_value(v) as u16)
    } else {
        None
    }
}

/// Executable decimal parser.
fn parse_u16(v: &Vec<u8>) -> (r: Option<u16>)
    ensures
        match r {
            Some(p) => spec_parse_u16(v@) == Some(p),
            None => spec_parse_u16(v@) == Option::<u16>::None,
        },
{
    if v.len() < 1 || v.len() > 5 {
        return None;
    }
    if v[0] == 0x30 && v.len() != 1 {
        return None;
    }
    let mut value: u32 = 0;
    let mut i: usize = 0;
    while i < v.len()
        invariant
            0 <= i <= v@.len(),
            v@.len() <= 5,
            forall|j: int| 0 <= j < i ==> is_digit(v@[j]),
            value == digits_value(v@.take(i as int)),
            i == 0 ==> value == 0,
            i <= 1 ==> value <= 9,
            i <= 2 ==> value <= 99,
            i <= 3 ==> value <= 999,
            i <= 4 ==> value <= 9999,
            value <= 99999,
        decreases v.len() - i,
    {
        let b = v[i];
        if b < 0x30 || b > 0x39 {
            return None;
        }
        proof {
            assert(v@.take(i as int + 1).drop_last() =~= v@.take(i as int));
            assert(v@.take(i as int + 1).last() == v@[i as int]);
        }
        value = value * 10 + ((b - 0x30) as u32);
        i += 1;
    }
    proof {
        assert(v@.take(v@.len() as int) =~= v@);
    }
    if value > 65535 {
        return None;
    }
    Some(value as u16)
}

/// Whether a byte is an ASCII hexadecimal digit, either case.
pub open spec fn is_hex(b: u8) -> bool {
    is_digit(b) || 0x61 <= b <= 0x66 || 0x41 <= b <= 0x46
}

/// Numeric value of one hexadecimal digit.
pub open spec fn hex_value(b: u8) -> u8 {
    if 0x30 <= b <= 0x39 {
        (b - 0x30) as u8
    } else if 0x61 <= b <= 0x66 {
        (b - 0x61 + 10) as u8
    } else if 0x41 <= b <= 0x46 {
        (b - 0x41 + 10) as u8
    } else {
        0
    }
}

/// The 32 hexadecimal digits of a uuid's text, hyphens removed.
pub open spec fn uuid_hex_digits(v: Seq<u8>) -> Seq<u8> {
    v.subrange(0, 8) + v.subrange(9, 13) + v.subrange(14, 18) + v.subrange(19, 23) + v.subrange(
        24,
        36,
    )
}

/// A uuid in its canonical text form — five hyphen-separated hexadecimal
/// groups of 8, 4, 4, 4 and 12 digits — as sixteen bytes.
pub open spec fn spec_parse_uuid(v: Seq<u8>) -> Option<Seq<u8>> {
    if v.len() == 36 && v[8] == 0x2d && v[13] == 0x2d && v[18] == 0x2d && v[23] == 0x2d && (
    forall|i: int| 0 <= i < 32 ==> is_hex(#[trigger] uuid_hex_digits(v)[i])) {
        Some(
            Seq::new(
                16,
                |i: int| (hex_value(uuid_hex_digits(v)[2 * i]) * 16 + hex_value(
                    uuid_hex_digits(v)[2 * i + 1],
                )) as u8,
            ),
        )
    } else {
        None
    }
}

/// Executable hexadecimal digit value; tells apart digits and non-digits.
fn hex_value_exec(b: u8) -> (r: Option<u8>)
    ensures
        match r {
            Some(h) => is_hex(b) && h == hex_value(b),
            None => !is_hex(b),
        },
{
    if 0x30 <= b && b <= 0x39 {
        Some(b - 0x30)
    } else if 0x61 <= b && b <= 0x66 {
        Some(b - 0x61 + 10)
    } else if 0x41 <= b && b <= 0x46 {
        Some(b - 0x41 + 10)
    } else {
        None
    }
}

/// Executable uuid parser.
fn parse_uuid(v: &Vec<u8>) -> (r: Option<Vec<u8>>)
    ensures
        match r {
            Some(id) => spec_parse_uuid(v@) == Some(id@) && id@.len() == 16,
            None => spec_parse_uuid(v@) == Option::<Seq<u8>>::None,
        },
{
    if v.len() != 36 || v[8] != 0x2d || v[13] != 0x2d || v[18] != 0x2d || v[23] != 0x2d {
        return None;
    }
    let mut h = copy_range(v, 0, 8);
    let mut part = copy_range(v, 9, 4);
    h.append(&mut part);
    let mut part = copy_range(v, 14, 4);
    h.append(&mut part);
    let mut part = copy_range(v, 19, 4);
    h.append(&mut part);
    let mut part = copy_range(v, 24, 12);
    h.append(&mut part);
    assert(h@ =~= uuid_hex_digits(v@));
    let mut id: Vec<u8> = Vec::new();
    let mut i: usize = 0;
    while i < 16
        invariant
            0 <= i <= 16,
            h@ == uuid_hex_digits(v@),
            h@.len() == 32,
            id@.len() == i,
            forall|j: int| 0 <= j < 2 * i ==> is_hex(#[trigger] h@[j]),
            forall|j: int|
                0 <= j < i ==> id@[j] == (hex_value(h@[2 * j]) * 16 + hex_value(
                    h@[2 * j + 1],
                )) as u8,
        decreases 16 - i,
    {
        let hi = match hex_value_exec(h[2 * i]) {
            Some(x) => x,
            None => {
                return None;
            },
        };
        let lo = match hex_value_exec(h[2 * i + 1]) {
            Some(x) => x,
            None => {
                return None;
            },
        };
        id.push(hi * 16 + lo);
        i += 1;
    }
    proof {
        assert(forall|j: int| 0 <= j < 32 ==> is_hex(#[trigger] h@[j]));
        let expected = Seq::new(
            16,
            |i: int| (hex_value(uuid_hex_digits(v@)[2 * i]) * 16 + hex_value(
                uuid_hex_digits(v@)[2 * i + 1],
            )) as u8,
        );
        assert(id@ =~= expected);
    }
    Some(id)
}

/// A decimal IPv4 octet: one to three digits, no leading zero, up to 255.
pub open spec fn spec_parse_dec_octet(s: Seq<u8>) -> Option<u8> {
    if 1 <= s.len() <= 3 && (forall|i: int| 0 <= i < s.len() ==> is_digit(s[i])) && (s[0] != 0x30
        || s.len() == 1) && digits_value(s) <= 255 {
        Some(digits_value(s) as u8)
    } else {
        None
    }
}

/// An IPv4 address in dotted-quad text form, as its four octets.
pub open spec fn spec_parse_ipv4(v: Seq<u8>) -> Option<Seq<u8>> {
    let p1 = find_byte(v, 0, 0x2e);
    let p2 = find_byte(v, p1 + 1, 0x2e);
    let p3 = find_byte(v, p2 + 1, 0x2e);
    if p3 >= v.len() || find_byte(v, p3 + 1, 0x2e) < v.len() {
        None
    } else {
        match spec_parse_dec_octet(v.subrange(0, p1)) {
            None => None,
            Some(a) => match spec_parse_dec_octet(v.subrange(p1 + 1, p2)) {
                None => None,
                Some(b) => match spec_parse_dec_octet(v.subrange(p2 + 1, p3)) {
                    None => None,
                    Some(c) => match spec_parse_dec_octet(v.subrange(p3 + 1, v.len() as int)) {
                        None => None,
                        Some(d) => Some(seq![a, b, c, d]),
                    },
                },
            },
        }
    }
}

/// Executable decimal-octet parser.
fn parse_dec_octet(v: &Vec<u8>) -> (r: Option<u8>)
    ensures
        match r {
            Some(o) => spec_parse_dec_octet(v@) == Some(o),
            None => spec_parse_dec_octet(v@) == Option::<u8>::None,
        },
{
    if v.len() < 1 || v.len() > 3 {
        return None;
    }
    if v[0] == 0x30 && v.len() != 1 {
        return None;
    }
    let mut value: u16 = 0;
    let mut i: usize = 0;
    while i < v.len()
        invariant
            0 <= i <= v@.len(),
            v@.len() <= 3,
            forall|j: int| 0 <= j < i ==> is_digit(v@[j]),
            value == digits_value(v@.take(i as int)),
            i == 0 ==> value == 0,
            i <= 1 ==> value <= 9,
            i <= 2 ==> value <= 99,
            value <= 999,
        decreases v.len() - i,
    {
        let b = v[i];
        if b < 0x30 || b > 0x39 {
            return None;
        }
        proof {
            assert(v@.take(i as int + 1).drop_last() =~= v@.take(i as int));
            assert(v@.take(i as int + 1).last() == v@[i as int]);
        }
        value = value * 10 + ((b - 0x30) as u16);
        i += 1;
    }
    proof {
        assert(v@.take(v@.len() as int) =~= v@);
    }
    if value > 255 {
        return None;
    }
    Some(value as u8)
}

/// Executable dotted-quad parser.
fn parse_ipv4(v: &Vec<u8>) -> (r: Option<Vec<u8>>)
    ensures
        match r {
            Some(octets) => spec_parse_ipv4(v@) == Some(octets@) && octets@.len() == 4,
            None => spec_parse_ipv4(v@) == Option::<Seq<u8>>::None,
        },
{
    proof {
        lemma_find_byte(v@, 0, 0x2e);
    }
    let p1 = find_byte_exec(v, 0, 0x2e);
    if p1 >= v.len() {
        return None;
    }
    proof {
        lemma_find_byte(v@, p1 as int + 1, 0x2e);
    }
    let p2 = find_byte_exec(v, p1 + 1, 0x2e);
    if p2 >= v.len() {
        return None;
    }
    proof {
        lemma_find_byte(v@, p2 as int + 1, 0x2e);
    }
    let p3 = find_byte_exec(v, p2 + 1, 0x2e);
    if p3 >= v.len() {
        return None;
    }
    proof {
        lemma_find_byte(v@, p3 as int + 1, 0x2e);
    }
    if find_byte_exec(v, p3 + 1, 0x2e) < v.len() {
        return None;
    }
    let sa = parse_dec_octet(&copy_range(v, 0, p1));
    let sb = parse_dec_octet(&copy_range(v, p1 + 1, p2 - (p1 + 1)));
    let sc = parse_dec_octet(&copy_range(v, p2 + 1, p3 - (p2 + 1)));
    let sd = parse_dec_octet(&copy_range(v, p3 + 1, v.len() - (p3 + 1)));
    match (sa, sb, sc, sd) {
        (Some(a), Some(b), Some(c), Some(d)) => {
            let octets = vec![a, b, c, d];
            assert(octets@ =~= seq![a, b, c, d]);
            Some(octets)
        },
        _ => None,
    }
}

/// Numeric value of a hexadecimal digit sequence, most significant first.
pub open spec fn hex_digits_value(s: Seq<u8>) -> int
    decreases s.len(),
{
    if s.len() == 0 {
        0
    } else {
        hex_digits_value(s.drop_last()) * 16 + hex_value(s.last())
    }
}

/// One IPv6 group: one to four hexadecimal digits, as a 16-bit value.
pub open spec fn spec_parse_hex_group(s: Seq<u8>) -> Option<u16> {
    if 1 <= s.len() <= 4 && (forall|i: int| 0 <= i < s.len() ==> is_hex(s[i])) {
        Some(hex_digits_value(s) as u16)
    } else {
        None
    }
}

/// Executable hex-group parser.
fn parse_hex_group(v: &Vec<u8>) -> (r: Option<u16>)
    ensures
        match r {
            Some(g) => spec_parse_hex_group(v@) == Some(g),
            None => spec_parse_hex_group(v@) == Option::<u16>::None,
        },
{
    if v.len() < 1 || v.len() > 4 {
        return None;
    }
    let mut value: u32 = 0;
    let mut i: usize = 0;
    while i < v.len()
        invariant
            0 <= i <= v@.len(),
            v@.len() <= 4,
            forall|j: int| 0 <= j < i ==> is_hex(v@[j]),
            value == hex_digits_value(v@.take(i as int)),
            i == 0 ==> value == 0,
            i <= 1 ==> value <= 0xf,
            i <= 2 ==> value <= 0xff,
            i <= 3 ==> value <= 0xfff,
            value <= 0xffff,
        decreases v.len() - i,
    {
        let h = match hex_value_exec(v[i]) {
            Some(x) => x,
            None => {
                return None;
            },
        };
        proof {
            assert(v@.take(i as int + 1).drop_last() =~= v@.take(i as int));
            assert(v@.take(i as int + 1).last() == v@[i as int]);
        }
        value = value * 16 + (h as u32);
        i += 1;
    }
    proof {
        assert(v@.take(v@.len() as int) =~= v@);
    }
    Some(value as u16)
}

/// First position where "::" starts in `v` at or after `pos`; `v.len()` if
/// nowhere.
pub open spec fn find_colon_colon(v: Seq<u8>, pos: int) -> int
    decreases v.len() - pos,
{
    if pos < 0 || pos + 1 >= v.len() {
        v.len() as int
    } else if v[pos] == 0x3a && v[pos + 1] == 0x3a {
        pos
    } else {
        find_colon_colon(v, pos + 1)
    }
}

/// `find_colon_colon` finds the first double colon, or rules every position
/// out.
proof fn lemma_find_colon_colon(v: Seq<u8>, pos: int)
    requires
        0 <= pos <= v.len(),
    ensures
        pos <= find_colon_colon(v, pos) <= v.len(),
        find_colon_colon(v, pos) + 1 < v.len() ==> v[find_colon_colon(v, pos)] == 0x3a
            && v[find_colon_colon(v, pos) + 1] == 0x3a,
        forall|j: int|
            pos <= j < find_colon_colon(v, pos) && j + 1 < v.len() ==> !((#[trigger] v[j]) == 0x3a
                && v[j + 1] == 0x3a),
        find_colon_colon(v, pos) < v.len() ==> find_colon_colon(v, pos) + 1 < v.len(),
    decreases v.len() - pos,
{
    if !(pos + 1 >= v.len()) && !(v[pos] == 0x3a && v[pos + 1] == 0x3a) {
        lemma_find_colon_colon(v, pos + 1);
    }
}

/// Executable `find_colon_colon`.
fn find_colon_colon_exec(v: &Vec<u8>) -> (r: usize)
    ensures
        r == find_colon_colon(v@, 0),
{
    proof {
        lemma_find_colon_colon(v@, 0);
    }
    if v.len() < 2 {
        return v.len();
    }
    let mut i: usize = 0;
    while i < v.len() - 1
        invariant
            v@.len() >= 2,
            0 <= i <= v@.len() - 1,
            forall|j: int|
                0 <= j < i && j + 1 < v@.len() ==> !((#[trigger] v@[j]) == 0x3a && v@[j + 1]
                    == 0x3a),
            find_colon_colon(v@, 0) >= i || find_colon_colon(v@, 0) == v@.len(),
        decreases v.len() - i,
    {
        if v[i] == 0x3a && v[i + 1] == 0x3a {
            proof {
                lemma_find_colon_colon(v@, 0);
                if find_colon_colon(v@, 0) > i {
                    assert(!(v@[i as int] == 0x3a && v@[i as int + 1] == 0x3a));
                }
            }
            return i;
        }
        proof {
            lemma_find_colon_colon(v@, 0);
            if find_colon_colon(v@, 0) == i {
                assert(v@[i as int] == 0x3a && v@[i as int + 1] == 0x3a);
            }
        }
        i += 1;
    }
    proof {
        lemma_find_colon_colon(v@, 0);
        if find_colon_colon(v@, 0) < v@.len() {
            assert(v@[find_colon_colon(v@, 0)] == 0x3a && v@[find_colon_colon(v@, 0) + 1] == 0x3a);
        }
    }
    v.len()
}

/// Single-colon-separated hex groups occupying `v` from `pos` up to `end`.
pub open spec fn spec_parse_groups_range(v: Seq<u8>, pos: int, end: int) -> Option<Seq<u16>>
    decreases end - pos + 1,
    via spec_parse_groups_range_decreases
{
    if pos < 0 || pos >= end || end > v.len() {
        None
    } else {
        let c = find_byte(v, pos, 0x3a);
        let ce: int = if c > end {
            end
        } else {
            c
        };
        match spec_parse_hex_group(v.subrange(pos, ce)) {
            None => None,
            Some(g) => if ce >= end {
                Some(seq![g])
            } else {
                match spec_parse_groups_range(v, ce + 1, end) {
                    Some(rest) => Some(seq![g] + rest),
                    None => None,
                }
            },
        }
    }
}

#[via_fn]
proof fn spec_parse_groups_range_decreases(v: Seq<u8>, pos: int, end: int) {
    if 0 <= pos < end && end <= v.len() {
        lemma_find_byte(v, pos, 0x3a);
    }
}

/// Executable group-list parser over `v[pos..end]`.
fn parse_groups_range(v: &Vec<u8>, pos: usize, end: usize) -> (r: Option<Vec<u16>>)
    requires
        end <= v@.len(),
    ensures
        match r {
            Some(gs) => spec_parse_groups_range(v@, pos as int, end as int) == Some(gs@),
            None => spec_parse_groups_range(v@, pos as int, end as int) == Option::<
                Seq<u16>,
            >::None,
        },
{
    let ghost start0: int = pos as int;
    let mut groups: Vec<u16> = Vec::new();
    let mut cur: usize = pos;
    proof {
        let r0 = spec_parse_groups_range(v@, start0, end as int);
        if r0 is Some {
            assert(groups@ + r0->Some_0 =~= r0->Some_0);
        }
    }
    loop
        invariant
            start0 == pos as int,
            cur >= pos,
            end <= v@.len(),
            spec_parse_groups_range(v@, start0, end as int) == (match spec_parse_groups_range(
                v@,
                cur as int,
                end as int,
            ) {
                Some(rest) => Some(groups@ + rest),
                None => Option::<Seq<u16>>::None,
            }),
        decreases end + 1 - cur,
    {
        if cur >= end {
            return None;
        }
        proof {
            lemma_find_byte(v@, cur as int, 0x3a);
        }
        let c = find_byte_exec(v, cur, 0x3a);
        let ce: usize = if c > end {
            end
        } else {
            c
        };
        let piece = copy_range(v, cur, ce - cur);
        let ghost before = groups@;
        match parse_hex_group(&piece) {
            None => {
                return None;
            },
            Some(g) => {
                groups.push(g);
                if ce >= end {
                    proof {
                        assert(spec_parse_groups_range(v@, cur as int, end as int) == Some(seq![
                            g,
                        ]));
                        assert(before + seq![g] =~= groups@);
                    }
                    return Some(groups);
                }
                let next = ce + 1;
                proof {
                    assert(spec_parse_groups_range(v@, cur as int, end as int) == (
                    match spec_parse_groups_range(v@, next as int, end as int) {
                        Some(rest) => Some(seq![g] + rest),
                        None => Option::<Seq<u16>>::None,
                    }));
                    let rn = spec_parse_groups_range(v@, next as int, end as int);
                    if rn is Some {
                        assert(before + (seq![g] + rn->Some_0) =~= groups@ + rn->Some_0);
                    }
                }
                cur = next;
            },
        }
    }
}

/// The sixteen bytes of eight IPv6 groups, each big-endian.
pub open spec fn groups_bytes(gs: Seq<u16>) -> Seq<u8> {
    Seq::new(
        16,
        |i: int| if i % 2 == 0 {
            crate::codec::u16_hi(gs[i / 2])
        } else {
            crate::codec::u16_lo(gs[i / 2])
        },
    )
}

/// An IPv6 address in text form — eight colon-separated hexadecimal groups,
/// or fewer with one `::` standing for the elided zero groups — as its
/// sixteen bytes.
pub open spec fn spec_parse_ipv6(v: Seq<u8>) -> Option<Seq<u8>> {
    let dc = find_colon_colon(v, 0);
    if dc >= v.len() {
        match spec_parse_groups_range(v, 0, v.len() as int) {
            Some(gs) => if gs.len() == 8 {
                Some(groups_bytes(gs))
            } else {
                None
            },
            None => None,
        }
    } else {
        let lg: Option<Seq<u16>> = if dc == 0 {
            Some(Seq::empty())
        } else {
            spec_parse_groups_range(v, 0, dc)
        };
        let rg: Option<Seq<u16>> = if dc + 2 >= v.len() {
            Some(Seq::empty())
        } else {
            spec_parse_groups_range(v, dc + 2, v.len() as int)
        };
        match lg {
            None => None,
            Some(l) => match rg {
                None => None,
                Some(r) => if l.len() + r.len() <= 7 {
                    Some(groups_bytes(l + Seq::new((8 - l.len() - r.len()) as nat, |i: int| 0u16) + r))
                } else {
                    None
                },
            },
        }
    }
}

/// Executable IPv6 text parser.
fn parse_ipv6(v: &Vec<u8>) -> (r: Option<Vec<u8>>)
    ensures
        match r {
            Some(octets) => spec_parse_ipv6(v@) == Some(octets@) && octets@.len() == 16,
            None => spec_parse_ipv6(v@) == Option::<Seq<u8>>::None,
        },
{
    let dc = find_colon_colon_exec(v);
    let full: Vec<u16>;
    if dc >= v.len() {
        match parse_groups_range(v, 0, v.len()) {
            Some(gs) => {
                if gs.len() != 8 {
                    return None;
                }
                full = gs;
            },
            None => {
                return None;
            },
        }
    } else {
        proof {
            lemma_find_colon_colon(v@, 0);
        }
        let left: Vec<u16> = if dc == 0 {
            Vec::new()
        } else {
            match parse_groups_range(v, 0, dc) {
                Some(gs) => gs,
                None => {
                    return None;
                },
            }
        };
        let right: Vec<u16> = if dc + 2 >= v.len() {
            Vec::new()
        } else {
            match parse_groups_range(v, dc + 2, v.len()) {
                Some(gs) => gs,
                None => {
                    return None;
                },
            }
        };
        if left.len() > 7 || right.len() > 7 || left.len() + right.len() > 7 {
            return None;
        }
        let zeros: usize = 8 - left.len() - right.len();
        let mut gs: Vec<u16> = Vec::new();
        let mut i: usize = 0;
        while i < left.len()
            invariant
                i <= left@.len(),
                gs@ == left@.take(i as int),
            decreases left.len() - i,
        {
            gs.push(left[i]);
            assert(left@.take(i as int).push(left@[i as int]) =~= left@.take(i as int + 1));
            i += 1;
        }
        assert(left@.take(left@.len() as int) =~= left@);
        let mut z: usize = 0;
        while z < zeros
            invariant
                z <= zeros,
                gs@ == left@ + Seq::new(z as nat, |i: int| 0u16),
            decreases zeros - z,
        {
            gs.push(0);
            assert(left@ + Seq::new(z as nat, |i: int| 0u16) + seq![0u16] =~= left@ + Seq::new(
                z as nat + 1,
                |i: int| 0u16,
            ));
            z += 1;
        }
        let mut j: usize = 0;
        while j < right.len()
            invariant
                j <= right@.len(),
                gs@ == left@ + Seq::new(zeros as nat, |i: int| 0u16) + right@.take(j as int),
            decreases right.len() - j,
        {
            gs.push(right[j]);
            assert(left@ + Seq::new(zeros as nat, |i: int| 0u16) + right@.take(j as int) + seq![
                right@[j as int],
            ] =~= left@ + Seq::new(zeros as nat, |i: int| 0u16) + right@.take(j as int + 1));
            j += 1;
        }
        assert(right@.take(right@.len() as int) =~= right@);
        full = gs;
    }
    assert(full@.len() == 8);
    let mut octets: Vec<u8> = Vec::new();
    let mut k: usize = 0;
    while k < 8
        invariant
            k <= 8,
            full@.len() == 8,
            octets@.len() == 2 * k,
            forall|i: int|
                0 <= i < 2 * k ==> octets@[i] == (if i % 2 == 0 {
                    crate::codec::u16_hi(full@[i / 2])
                } else {
                    crate::codec::u16_lo(full@[i / 2])
                }),
        decreases 8 - k,
    {
        let g = full[k];
        octets.push((g / 256) as u8);
        octets.push((g % 256) as u8);
        k += 1;
    }
    proof {
        assert(octets@ =~= groups_bytes(full@));
    }
    Some(octets)
}

/// The key under which the device name is written and read.
pub open spec fn key_set_device_name() -> Seq<u8> {
    seq![115, 101, 116, 45, 100, 101, 118, 105, 99, 101, 45, 110, 97, 109, 101]
}

/// The accepted alias for the device-name key.
pub open spec fn key_device_name_alias() -> Seq<u8> {
    seq![100, 101, 118, 105, 99, 101, 95, 110, 97, 109, 101]
}

/// The key of the persisted device id.
pub open spec fn key_device_id() -> Seq<u8> {
    seq![100, 101, 118, 105, 99, 101, 45, 105, 100]
}

/// The key of the announced port.
pub open spec fn key_port() -> Seq<u8> {
    seq![112, 111, 114, 116]
}

/// The key of the IPv4 multicast group.
pub open spec fn key_multicast_ipv4() -> Seq<u8> {
    seq![109u8, 117, 108, 116, 105, 99, 97, 115, 116, 45, 105, 112, 118, 52]
}

/// The key of the IPv6 multicast group.
pub open spec fn key_multicast_ipv6() -> Seq<u8> {
    seq![109u8, 117, 108, 116, 105, 99, 97, 115, 116, 45, 105, 112, 118, 54]
}

/// The key of the no-config-file flag.
pub open spec fn key_no_config_file() -> Seq<u8> {
    seq![110, 111, 45, 99, 111, 110, 102, 105, 103, 45, 102, 105, 108, 101]
}

/// The boolean token `true`.
pub open spec fn token_true() -> Seq<u8> {
    seq![116, 114, 117, 101]
}

/// The boolean token `false`.
pub open spec fn token_false() -> Seq<u8> {
    seq![102, 97, 108, 115, 101]
}

/// What one configuration line does to an option set: nothing when blank,
/// a field update when its key is recognized and its value parses, nothing
/// when the key is unknown — and failure when the line has no `key = value`
/// shape or a recognized key carries an unparsable value.
pub open spec fn spec_apply_line(o: OptionsModel, line: Seq<u8>) -> Option<OptionsModel> {
    if line.len() == 0 {
        Some(o)
    } else {
        let sp = find_byte(line, 0, 0x20);
        if sp == 0 || sp + 3 > line.len() {
            None
        } else if line[sp + 1] != 0x3d || line[sp + 2] != 0x20 {
            None
        } else {
            let key = line.subrange(0, sp);
            let value = line.subrange(sp + 3, line.len() as int);
            if key == key_set_device_name() || key == key_device_name_alias() {
                match spec_parse_quoted(value) {
                    Some(name) => if name.len() <= MAX_NAME_LEN {
                        Some(OptionsModel { set_device_name: name, ..o })
                    } else {
                        None
                    },
                    None => None,
                }
            } else if key == key_device_id() {
                match spec_parse_quoted(value) {
                    Some(q) => match spec_parse_uuid(q) {
                        Some(id) => Some(OptionsModel { device_id: id, ..o }),
                        None => None,
                    },
                    None => None,
                }
            } else if key == key_port() {
                match spec_parse_u16(value) {
                    Some(p) => Some(OptionsModel { port: p, ..o }),
                    None => None,
                }
            } else if key == key_multicast_ipv4() {
                match spec_parse_quoted(value) {
                    Some(q) => match spec_parse_ipv4(q) {
                        Some(a) => Some(OptionsModel { multicast_ipv4: a, ..o }),
                        None => None,
                    },
                    None => None,
                }
            } else if key == key_multicast_ipv6() {
                match spec_parse_quoted(value) {
                    Some(q) => match spec_parse_ipv6(q) {
                        Some(a) => Some(OptionsModel { multicast_ipv6: a, ..o }),
                        None => None,
                    },
                    None => None,
                }
            } else if key == key_no_config_file() {
                if value == token_true() {
                    Some(OptionsModel { no_config_file: true, ..o })
                } else if value == token_false() {
                    Some(OptionsModel { no_config_file: false, ..o })
                } else {
                    None
                }
            } else {
                Some(o)
            }
        }
    }
}

/// Applies every line from `pos` on, newline-separated, short-circuiting
/// on the first invalid line.
pub open spec fn spec_apply_lines(o: OptionsModel, content: Seq<u8>, pos: int) -> Option<
    OptionsModel,
>
    decreases content.len() - pos + 1,
    via spec_apply_lines_decreases
{
    if pos < 0 || pos >= content.len() {
        Some(o)
    } else {
        let e = find_byte(content, pos, 0x0a);
        match spec_apply_line(o, content.subrange(pos, e)) {
            Some(o2) => spec_apply_lines(o2, content, e + 1),
            None => None,
        }
    }
}

#[via_fn]
proof fn spec_apply_lines_decreases(o: OptionsModel, content: Seq<u8>, pos: int) {
    if 0 <= pos < content.len() {
        lemma_find_byte(content, pos, 0x0a);
    }
}

/// What a whole configuration text means, against the given defaults: the
/// lines applied in order, or — when any line is invalid — the defaults,
/// untouched.
pub open spec fn spec_deserialize(content: Seq<u8>, defaults: OptionsModel) -> OptionsModel {
    match spec_apply_lines(defaults, content, 0) {
        Some(o) => o,
        None => defaults,
    }
}

/// Applies one line to the running option set. `false` means the line is
/// invalid and the whole text must be rejected.
fn apply_line(o: &mut Options, line: &Vec<u8>) -> (ok: bool)
    ensures
        match spec_apply_line(old(o)@, line@) {
            Some(o2) => ok && final(o)@ == o2,
            None => !ok,
        },
{
    if line.len() == 0 {
        return true;
    }
    proof {
        lemma_find_byte(line@, 0, 0x20);
    }
    let sp = find_byte_exec(line, 0, 0x20);
    if sp == 0 || sp >= line.len() || line.len() - sp < 3 {
        return false;
    }
    if line[sp + 1] != 0x3d || line[sp + 2] != 0x20 {
        return false;
    }
    let key = copy_range(line, 0, sp);
    let value = copy_range(line, sp + 3, line.len() - (sp + 3));
    assert(key@ == line@.subrange(0, sp as int));
    assert(value@ == line@.subrange(sp as int + 3, line@.len() as int));
    let key_name: Vec<u8> = make_key_set_device_name();
    let key_alias: Vec<u8> = make_key_device_name_alias();
    let key_id: Vec<u8> = make_key_device_id();
    let key_p: Vec<u8> = make_key_port();
    let key_m4: Vec<u8> = make_key_multicast_ipv4();
    let key_m6: Vec<u8> = make_key_multicast_ipv6();
    let key_ncf: Vec<u8> = make_key_no_config_file();
    if bytes_eq(&key, &key_name) || bytes_eq(&key, &key_alias) {
        match parse_quoted(&value) {
            Some(name) => {
                if name.len() <= MAX_NAME_LEN {
                    o.set_device_name = name;
                    assert(o@ =~= OptionsModel { set_device_name: o@.set_device_name, ..old(o)@ });
                    true
                } else {
                    false
                }
            },
            None => false,
        }
    } else if bytes_eq(&key, &key_id) {
        match parse_quoted(&value) {
            Some(q) => match parse_uuid(&q) {
                Some(id) => {
                    o.device_id = id;
                    assert(o@ =~= OptionsModel { device_id: o@.device_id, ..old(o)@ });
                    true
                },
                None => false,
            },
            None => false,
        }
    } else if bytes_eq(&key, &key_p) {
        match parse_u16(&value) {
            Some(p) => {
                o.port = p;
                assert(o@ =~= OptionsModel { port: p, ..old(o)@ });
                true
            },
            None => false,
        }
    } else if bytes_eq(&key, &key_m4) {
        match parse_quoted(&value) {
            Some(q) => match parse_ipv4(&q) {
                Some(octets) => {
                    o.multicast_ipv4 = PeerAddr { octets };
                    assert(o@ =~= OptionsModel { multicast_ipv4: o@.multicast_ipv4, ..old(o)@ });
                    true
                },
                None => false,
            },
            None => false,
        }
    } else if bytes_eq(&key, &key_m6) {
        match parse_quoted(&value) {
            Some(q) => match parse_ipv6(&q) {
                Some(octets) => {
                    o.multicast_ipv6 = PeerAddr { octets };
                    assert(o@ =~= OptionsModel { multicast_ipv6: o@.multicast_ipv6, ..old(o)@ });
                    true
                },
                None => false,
            },
            None => false,
        }
    } else if bytes_eq(&key, &key_ncf) {
        let tok_true: Vec<u8> = make_token_true();
        let tok_false: Vec<u8> = make_token_false();
        if bytes_eq(&value, &tok_true) {
            o.no_config_file = true;
            assert(o@ =~= OptionsModel { no_config_file: true, ..old(o)@ });
            true
        } else if bytes_eq(&value, &tok_false) {
            o.no_config_file = false;
            assert(o@ =~= OptionsModel { no_config_file: false, ..old(o)@ });
            true
        } else {
            false
        }
    } else {
        true
    }
}

/// Builds the device-name key.
fn make_key_set_device_name() -> (r: Vec<u8>)
    ensures
        r@ == key_set_device_name(),
{
    let r: Vec<u8> = vec![
        115,
        101,
        116,
        45,
        100,
        101,
        118,
        105,
        99,
        101,
        45,
        110,
        97,
        109,
        101,
    ];
    assert(r@ =~= key_set_device_name());
    r
}

/// Builds the device-name alias key.
fn make_key_device_name_alias() -> (r: Vec<u8>)
    ensures
        r@ == key_device_name_alias(),
{
    let r: Vec<u8> = vec![100, 101, 118, 105, 99, 101, 95, 110, 97, 109, 101];
    assert(r@ =~= key_device_name_alias());
    r
}

/// Builds the device-id key.
fn make_key_device_id() -> (r: Vec<u8>)
    ensures
        r@ == key_device_id(),
{
    let r: Vec<u8> = vec![100, 101, 118, 105, 99, 101, 45, 105, 100];
    assert(r@ =~= key_device_id());
    r
}

/// Builds the port key.
fn make_key_port() -> (r: Vec<u8>)
    ensures
        r@ == key_port(),
{
    let r: Vec<u8> = vec![112, 111, 114, 116];
    assert(r@ =~= key_port());
    r
}

/// Builds the IPv4-group key.
fn make_key_multicast_ipv4() -> (r: Vec<u8>)
    ensures
        r@ == key_multicast_ipv4(),
{
    let r: Vec<u8> = vec![109, 117, 108, 116, 105, 99, 97, 115, 116, 45, 105, 112, 118, 52];
    assert(r@ =~= key_multicast_ipv4());
    r
}

/// Builds the IPv6-group key.
fn make_key_multicast_ipv6() -> (r: Vec<u8>)
    ensures
        r@ == key_multicast_ipv6(),
{
    let r: Vec<u8> = vec![109, 117, 108, 116, 105, 99, 97, 115, 116, 45, 105, 112, 118, 54];
    assert(r@ =~= key_multicast_ipv6());
    r
}

/// Builds the no-config-file key.
fn make_key_no_config_file() -> (r: Vec<u8>)
    ensures
        r@ == key_no_config_file(),
{
    let r: Vec<u8> = vec![
        110,
        111,
        45,
        99,
        111,
        110,
        102,
        105,
        103,
        45,
        102,
        105,
        108,
        101,
    ];
    assert(r@ =~= key_no_config_file());
    r
}

/// Builds the `true` token.
fn make_token_true() -> (r: Vec<u8>)
    ensures
        r@ == token_true(),
{
    let r: Vec<u8> = vec![116, 114, 117, 101];
    assert(r@ =~= token_true());
    r
}

/// Builds the `false` token.
fn make_token_false() -> (r: Vec<u8>)
    ensures
        r@ == token_false(),
{
    let r: Vec<u8> = vec![102, 97, 108, 115, 101];
    assert(r@ =~= token_false());
    r
}

/// The serialized form the program writes: the one persisted option, as a
/// single `set-device-name` line.
pub open spec fn spec_serialize(name: Seq<u8>) -> Seq<u8> {
    key_set_device_name() + seq![32, 61, 32, 34] + name + seq![34, 10]
}

/// A name the serializer can quote verbatim: nothing below space, no
/// quote, no backslash.
pub open spec fn plain_text(s: Seq<u8>) -> bool {
    forall|i: int| 0 <= i < s.len() ==> s[i] >= 0x20 && s[i] != 0x22 && s[i] != 0x5c
}

/// Round trip of the configuration text: what the serializer writes, the
/// deserializer reads back — against any defaults, the text sets exactly
/// the device name and leaves every other option as it was.
pub proof fn lemma_config_round_trip(name: Seq<u8>, defaults: OptionsModel)
    requires
        plain_text(name),
        name.len() <= MAX_NAME_LEN,
    ensures
        spec_deserialize(spec_serialize(name), defaults) == (OptionsModel {
            set_device_name: name,
            ..defaults
        }),
{
    let text = spec_serialize(name);
    let n: int = name.len() as int;
    assert(text.len() == 21 + n);
    assert(text[text.len() - 1] == 10);
    assert(forall|j: int| 0 <= j < text.len() - 1 ==> text[j] != 10) by {
        assert(forall|j: int| 0 <= j < 15 ==> text[j] == key_set_device_name()[j]);
        assert(forall|j: int| 19 <= j < 19 + n ==> text[j] == name[j - 19]);
    }
    lemma_find_byte(text, 0, 10);
    let e = find_byte(text, 0, 10);
    assert(e == text.len() - 1) by {
        if e < text.len() - 1 {
            assert(text[e] == 10);
        }
        if e >= text.len() {
            assert(text[text.len() - 1] != 10);
        }
    }
    let line = text.subrange(0, e);
    assert(line.len() == 20 + n);
    assert(forall|j: int| 0 <= j < line.len() ==> line[j] == text[j]);
    assert(forall|j: int| 0 <= j < 15 ==> line[j] == key_set_device_name()[j]);
    assert(line[15] == 32 && line[16] == 61 && line[17] == 32 && line[18] == 34);
    assert(line[line.len() - 1] == 34);
    lemma_find_byte(line, 0, 32);
    let sp = find_byte(line, 0, 32);
    assert(sp == 15) by {
        assert(forall|j: int|
            0 <= j < 15 ==> key_set_device_name()[j] != 32 && line[j] == key_set_device_name()[j]);
        if sp < 15 {
            assert(line[sp] == 32);
        }
        if sp > 15 {
            assert(line[15] != 32);
        }
    }
    assert(line.subrange(0, 15) =~= key_set_device_name());
    let value = line.subrange(18, line.len() as int);
    assert(value.len() == 2 + n);
    assert(value[0] == 34 && value[value.len() - 1] == 34);
    assert(forall|i: int| 1 <= i < value.len() - 1 ==> value[i] == name[i - 1]);
    assert(spec_parse_quoted(value) == Some(value.subrange(1, value.len() - 1)));
    assert(value.subrange(1, value.len() - 1) =~= name);
    let updated = OptionsModel { set_device_name: name, ..defaults };
    assert(spec_apply_line(defaults, line) == Some(updated));
    assert(spec_apply_lines(updated, text, e + 1) == Some(updated));
    assert(spec_apply_lines(defaults, text, 0) == Some(updated));
}

impl Options {
    /// Renders the options as configuration text. Only the device name is
    /// persisted; the other options are transient. A name that cannot be
    /// quoted verbatim is not serialized at all.
    pub fn serialize_options(&self) -> (r: Option<Vec<u8>>)
        ensures
            match r {
                Some(text) => plain_text(self@.set_device_name) && text@ == spec_serialize(
                    self@.set_device_name,
                ),
                None => !plain_text(self@.set_device_name),
            },
    {
        let mut i: usize = 0;
        while i < self.set_device_name.len()
            invariant
                i <= self.set_device_name@.len(),
                forall|j: int|
                    0 <= j < i ==> self.set_device_name@[j] >= 0x20 && self.set_device_name@[j]
                        != 0x22 && self.set_device_name@[j] != 0x5c,
            decreases self.set_device_name.len() - i,
        {
            let b = self.set_device_name[i];
            if b < 0x20 || b == 0x22 || b == 0x5c {
                return None;
            }
            i += 1;
        }
        let mut out = make_key_set_device_name();
        out.push(32);
        out.push(61);
        out.push(32);
        out.push(34);
        let mut name = copy_bytes(&self.set_device_name);
        out.append(&mut name);
        out.push(34);
        out.push(10);
        assert(out@ =~= spec_serialize(self@.set_device_name));
        Some(out)
    }

    /// Interprets configuration file text against the given defaults: empty
    /// text, like unreadable text in the caller, falls back to the defaults
    /// wholesale, and anything else is deserialized.
    pub fn from_conf(content: &Vec<u8>, defaults: Options) -> (r: Options)
        ensures
            content@.len() == 0 ==> r@ == defaults@,
            content@.len() > 0 ==> r@ == spec_deserialize(content@, defaults@),
    {
        if content.len() == 0 {
            defaults
        } else {
            Options::deserialize_options(content, defaults)
        }
    }

    /// Deserializes configuration text: applies its lines, in order, to a
    /// copy of the defaults; one invalid line discards the file entirely.
    pub fn deserialize_options(content: &Vec<u8>, defaults: Options) -> (r: Options)
        ensures
            r@ == spec_deserialize(content@, defaults@),
    {
        let ghost d0 = defaults@;
        let mut cur = defaults.duplicate();
        let mut pos: usize = 0;
        while pos < content.len()
            invariant
                pos <= content@.len() + 1,
                d0 == defaults@,
                spec_apply_lines(d0, content@, 0) == spec_apply_lines(cur@, content@, pos as int),
            decreases content@.len() + 1 - pos,
        {
            proof {
                lemma_find_byte(content@, pos as int, 0x0a);
            }
            let e = find_byte_exec(content, pos, 0x0a);
            let line = copy_range(content, pos, e - pos);
            let ghost before = cur@;
            let ok = apply_line(&mut cur, &line);
            if !ok {
                assert(spec_apply_lines(before, content@, pos as int) == Option::<
                    OptionsModel,
                >::None);
                return defaults;
            }
            assert(spec_apply_lines(before, content@, pos as int) == spec_apply_lines(
                cur@,
                content@,
                e as int + 1,
            ));
            if e == content.len() {
                assert(spec_apply_lines(cur@, content@, e as int + 1) == Some(cur@));
                assert(spec_apply_lines(cur@, content@, content@.len() as int) == Some(cur@));
                pos = e;
            } else {
                pos = e + 1;
            }
        }
        assert(spec_apply_lines(cur@, content@, pos as int) == Some(cur@));
        cur
    }

    /// Resolves command-line options against configuration-file options:
    /// with the no-config-file flag the command line stands alone; else a
    /// field given on the command line wins and every other field is taken
    /// from the file.
    pub fn from_args_with_conf(from_args: Options, from_conf: Options, present: &OptionsPresent) -> (r:
        Options)
        ensures
            from_args@.no_config_file ==> r@ == from_args@,
            !from_args@.no_config_file ==> {
                &&& r@.config_file == (if present.config_file {
                    from_args@.config_file
                } else {
                    from_conf@.config_file
                })
                &&& r@.device_id == (if present.device_id {
                    from_args@.device_id
                } else {
                    from_conf@.device_id
                })
                &&& r@.set_device_name == (if present.set_device_name {
                    from_args@.set_device_name
                } else {
                    from_conf@.set_device_name
                })
                &&& r@.port == (if present.port {
                    from_args@.port
                } else {
                    from_conf@.port
                })
                &&& r@.multicast_ipv4 == (if present.multicast_ipv4 {
                    from_args@.multicast_ipv4
                } else {
                    from_conf@.multicast_ipv4
                })
                &&& r@.multicast_ipv6 == (if present.multicast_ipv6 {
                    from_args@.multicast_ipv6
                } else {
                    from_conf@.multicast_ipv6
                })
                &&& r@.no_config_file == (if present.no_config_file {
                    from_args@.no_config_file
                } else {
                    from_conf@.no_config_file
                })
            },
    {
        if from_args.no_config_file {
            return from_args;
        }
        Options {
            config_file: if present.config_file {
                from_args.config_file
            } else {
                from_conf.config_file
            },
            device_id: if present.device_id {
                from_args.device_id
            } else {
                from_conf.device_id
            },
            set_device_name: if present.set_device_name {
                from_args.set_device_name
            } else {
                from_conf.set_device_name
            },
            port: if present.port {
                from_args.port
            } else {
                from_conf.port
            },
            multicast_ipv4: if present.multicast_ipv4 {
                from_args.multicast_ipv4
            } else {
                from_conf.multicast_ipv4
            },
            multicast_ipv6: if present.multicast_ipv6 {
                from_args.multicast_ipv6
            } else {
                from_conf.multicast_ipv6
            },
            no_config_file: if present.no_config_file {
                from_args.no_config_file
            } else {
                from_conf.no_config_file
            },
        }
    }
}

} // verus!
