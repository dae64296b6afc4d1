//! Peer identities.
//!
//! A peer identity is 20 opaque bytes, written in text as `0x` followed
//! by 40 hexadecimal digits (either case accepted on input, lower case
//! produced on output).  Inbound envelopes and discovered proposals carry
//! the textual form; everything here parses and prints it with exact
//! contracts.

use vstd::prelude::*;
use vstd::string::StringSliceAdditionalSpecFns;

use crate::protocol::ChatError;

verus! {

/// Digits used when printing an identity.
pub const HEX_DIGITS: [char; 16] = ['0', '1', '2', '3', '4', '5', '6', '7', '8', '9', 'a', 'b',
    'c', 'd', 'e', 'f'];

/// A remote participant's unique, stable identifier: 20 bytes,
/// independent of any display name.
pub struct NodeId {
    bytes: Vec<u8>,
}

impl View for NodeId {
    type V = Seq<u8>;

    closed spec fn view(&self) -> Seq<u8> {
        self.bytes@
    }
}

impl DeepView for NodeId {
    type V = Seq<u8>;

    open spec fn deep_view(&self) -> Seq<u8> {
        self.view()
    }
}

impl Clone for NodeId {
    fn clone(&self) -> (r: Self)
        ensures
            r@ == self@,
    {
        let bytes = self.bytes.clone();
        proof {
            assert(bytes@ =~= self.bytes@);
        }
        NodeId { bytes }
    }
}

impl vstd::std_specs::cmp::PartialEqSpecImpl for NodeId {
    open spec fn obeys_eq_spec() -> bool {
        true
    }

    open spec fn eq_spec(&self, other: &NodeId) -> bool {
        self@ == other@
    }
}

impl PartialEq for NodeId {
    fn eq(&self, other: &NodeId) -> (r: bool)
        ensures
            r == (self@ == other@),
    {
        if self.bytes.len() != other.bytes.len() {
            return false;
        }
        let n = self.bytes.len();
        let mut i: usize = 0;
        while i < n
            invariant
                n == self.bytes.len() == other.bytes.len(),
                i <= n,
                forall|j: int| 0 <= j < i ==> self.bytes@[j] == other.bytes@[j],
            decreases n - i,
        {
            if self.bytes[i] != other.bytes[i] {
                return false;
            }
            i = i + 1;
        }
        proof {
            assert(self.bytes@ =~= other.bytes@);
        }
        true
    }
}

impl Eq for NodeId {}

/// Is `c` one of the 22 characters a hexadecimal digit may be?
pub open spec fn is_hex_digit(c: char) -> bool {
    ('0' <= c && c <= '9') || ('a' <= c && c <= 'f') || ('A' <= c && c <= 'F')
}

/// The numeric value of a hexadecimal digit.
pub open spec fn hex_digit_value(c: char) -> u8 {
    if '0' <= c && c <= '9' {
        (c as u8 - 48) as u8
    } else if 'a' <= c && c <= 'f' {
        (c as u8 - 87) as u8
    } else {
        (c as u8 - 55) as u8
    }
}

/// A well-formed textual identity: `0x` and then exactly 40 hexadecimal
/// digits.
pub open spec fn valid_node_id_text(s: Seq<char>) -> bool {
    &&& s.len() == 42
    &&& s[0] == '0'
    &&& s[1] == 'x'
    &&& forall|i: int| 2 <= i < 42 ==> is_hex_digit(#[trigger] s[i])
}

/// The bytes a well-formed textual identity denotes.
pub open spec fn node_id_decoded(s: Seq<char>) -> Seq<u8> {
    Seq::new(20, |k: int| (hex_digit_value(s[2 + 2 * k]) * 16 + hex_digit_value(
        s[3 + 2 * k],
    )) as u8)
}

/// The lower-case hexadecimal rendering of a byte sequence.
pub open spec fn hex_of_bytes(bs: Seq<u8>) -> Seq<char>
    decreases bs.len(),
{
    if bs.len() == 0 {
        Seq::empty()
    } else {
        seq![HEX_DIGITS@[(bs[0] >> 4) as int], HEX_DIGITS@[(bs[0] & 0xf) as int]] + hex_of_bytes(
            bs.drop_first(),
        )
    }
}

/// The textual form of an identity: `0x` and the bytes in lower-case hex.
pub open spec fn node_id_text(bs: Seq<u8>) -> Seq<char> {
    seq!['0', 'x'] + hex_of_bytes(bs)
}

/// The numeric value of a hexadecimal digit given as its ASCII byte, or
/// `None` if the byte is no such digit.
fn hex_byte_value(b: u8) -> (r: Option<u8>)
    ensures
        match r {
            Some(v) => (48 <= b <= 57 || 97 <= b <= 102 || 65 <= b <= 70) && v < 16 && v as int
                == hex_byte_value_spec(b),
            None => !(48 <= b <= 57 || 97 <= b <= 102 || 65 <= b <= 70),
        },
{
    if 48 <= b && b <= 57 {
        Some(b - 48)
    } else if 97 <= b && b <= 102 {
        Some(b - 87)
    } else if 65 <= b && b <= 70 {
        Some(b - 55)
    } else {
        None
    }
}

/// The numeric value of a hexadecimal digit given as its ASCII byte.
pub open spec fn hex_byte_value_spec(b: u8) -> int {
    if 48 <= b <= 57 {
        b - 48
    } else if 97 <= b <= 102 {
        b - 87
    } else {
        b - 55
    }
}

impl NodeId {
    /// Every identity holds exactly 20 bytes.
    pub open spec fn wf(&self) -> bool {
        self@.len() == 20
    }

    /// Parses the textual form of an identity.  Exactly the well-formed
    /// texts are accepted; everything else is `InvalidNodeId`.
    pub fn parse(s: &str) -> (r: Result<NodeId, ChatError>)
        ensures
            valid_node_id_text(s@) ==> matches!(r, Ok(_)),
            !valid_node_id_text(s@) ==> r == Err::<NodeId, ChatError>(ChatError::InvalidNodeId),
            r matches Ok(n) ==> n.wf() && n@ == node_id_decoded(s@),
    {
        broadcast use vstd::string::is_ascii_spec_bytes;

        if !s.is_ascii() {
            proof {
                let i = choose|i: int|
                    0 <= i < s@.len() && !('\0' <= #[trigger] s@[i] <= '\u{7f}');
                assert(valid_node_id_text(s@) ==> false) by {
                    if valid_node_id_text(s@) {
                        if i >= 2 {
                            assert(is_hex_digit(s@[i]));
                        }
                    }
                }
            }
            return Err(ChatError::InvalidNodeId);
        }
        let bytes = s.as_bytes();
        assert(bytes@ =~= Seq::new(s@.len(), |i: int| s@[i] as u8));
        if bytes.len() != 42 {
            return Err(ChatError::InvalidNodeId);
        }
        if bytes[0] != 48 || bytes[1] != 120 {
            proof {
                assert(s@[0] as u8 == bytes@[0] && s@[1] as u8 == bytes@[1]);
            }
            return Err(ChatError::InvalidNodeId);
        }
        let mut out: Vec<u8> = Vec::new();
        let mut k: usize = 0;
        while k < 20
            invariant
                k <= 20,
                s.is_ascii(),
                bytes@ == Seq::new(s@.len(), |i: int| s@[i] as u8),
                bytes@.len() == 42,
                s@.len() == 42,
                out@.len() == k,
                forall|i: int| 2 <= i < 2 + 2 * k ==> is_hex_digit(#[trigger] s@[i]),
                forall|j: int|
                    0 <= j < k ==> out@[j] == (hex_digit_value(s@[2 + 2 * j]) * 16
                        + hex_digit_value(s@[3 + 2 * j])) as u8,
            decreases 20 - k,
        {
            let hi = match hex_byte_value(bytes[2 + 2 * k]) {
                Some(v) => v,
                None => {
                    proof {
                        lemma_hex_byte_char(s@[2 + 2 * k as int]);
                    }
                    return Err(ChatError::InvalidNodeId);
                },
            };
            let lo = match hex_byte_value(bytes[3 + 2 * k]) {
                Some(v) => v,
                None => {
                    proof {
                        lemma_hex_byte_char(s@[3 + 2 * k as int]);
                    }
                    return Err(ChatError::InvalidNodeId);
                },
            };
            proof {
                lemma_hex_byte_char(s@[2 + 2 * k as int]);
                lemma_hex_byte_char(s@[3 + 2 * k as int]);
            }
            out.push(hi * 16 + lo);
            k = k + 1;
        }
        proof {
            assert(forall|i: int| 2 <= i < 42 ==> is_hex_digit(#[trigger] s@[i]));
            assert(out@ =~= node_id_decoded(s@));
        }
        Ok(NodeId { bytes: out })
    }

    /// Prints the identity: `0x` and 40 lower-case hexadecimal digits.
    pub fn to_hex_string(&self) -> (r: String)
        ensures
            r@ == node_id_text(self@),
    {
        let mut r = String::new();
        push_char(&mut r, '0');
        push_char(&mut r, 'x');
        let n = self.bytes.len();
        assert(self.bytes@.skip(0) == self.bytes@);
        let mut i: usize = 0;
        while i < n
            invariant
                n == self.bytes@.len(),
                i <= n,
                r@ =~= seq!['0', 'x'] + hex_of_bytes(self.bytes@.take(i as int)),
            decreases n - i,
        {
            let b = self.bytes[i];
            assert((b >> 4) < 16 && (b & 0xf) < 16) by (bit_vector);
            push_char(&mut r, HEX_DIGITS[(b >> 4) as usize]);
            push_char(&mut r, HEX_DIGITS[(b & 0xf) as usize]);
            proof {
                lemma_hex_of_bytes_snoc(self.bytes@, i as int);
            }
            i = i + 1;
        }
        proof {
            assert(self.bytes@.take(n as int) == self.bytes@);
        }
        r
    }
}

/// For an ASCII character, the byte-level and the character-level
/// reading of "hexadecimal digit" agree.
proof fn lemma_hex_byte_char(c: char)
    requires
        '\0' <= c <= '\u{7f}',
    ensures
        is_hex_digit(c) <==> (48 <= c as u8 <= 57 || 97 <= c as u8 <= 102 || 65 <= c as u8 <= 70),
        is_hex_digit(c) ==> hex_digit_value(c) as int == hex_byte_value_spec(c as u8),
{
}

/// Rendering one more byte extends the hexadecimal text by its two
/// digits.
proof fn lemma_hex_of_bytes_snoc(bs: Seq<u8>, i: int)
    requires
        0 <= i < bs.len(),
    ensures
        hex_of_bytes(bs.take(i + 1)) == hex_of_bytes(bs.take(i)) + seq![
            HEX_DIGITS@[(bs[i] >> 4) as int],
            HEX_DIGITS@[(bs[i] & 0xf) as int],
        ],
    decreases i,
{
    let pre = bs.take(i + 1);
    let b = bs[i];
    assert((b >> 4) < 16 && (b & 0xf) < 16) by (bit_vector);
    if i == 0 {
        assert(pre[0] == bs[0]);
        assert(pre.drop_first() =~= Seq::<u8>::empty());
        assert(hex_of_bytes(Seq::<u8>::empty()) == Seq::<char>::empty());
        assert(hex_of_bytes(bs.take(0)) =~= Seq::empty());
        assert(hex_of_bytes(pre) =~= seq![
            HEX_DIGITS@[(bs[0] >> 4) as int],
            HEX_DIGITS@[(bs[0] & 0xf) as int],
        ]);
    } else {
        lemma_hex_of_bytes_snoc(bs.drop_first(), i - 1);
        assert(bs.take(i + 1).drop_first() =~= bs.drop_first().take(i));
        assert(bs.take(i).drop_first() =~= bs.drop_first().take(i - 1));
        assert(bs.drop_first()[i - 1] == bs[i]);
        assert(hex_of_bytes(bs.take(i + 1)) =~= hex_of_bytes(bs.take(i)) + seq![
            HEX_DIGITS@[(bs[i] >> 4) as int],
            HEX_DIGITS@[(bs[i] & 0xf) as int],
        ]);
    }
}

/// Relies on `String::push`: appends exactly one character.
#[verifier::external_body]
pub fn push_char(s: &mut String, c: char)
    ensures
        final(s)@ == old(s)@.push(c),
{
    s.push(c);
}

/// The digit printed for a value below sixteen is a hexadecimal digit
/// and reads back as that value.
proof fn lemma_digit_round_trip(d: u8)
    requires
        d < 16,
    ensures
        is_hex_digit(HEX_DIGITS@[d as int]),
        hex_digit_value(HEX_DIGITS@[d as int]) == d,
{
    if d == 0 {
    } else if d == 1 {
    } else if d == 2 {
    } else if d == 3 {
    } else if d == 4 {
    } else if d == 5 {
    } else if d == 6 {
    } else if d == 7 {
    } else if d == 8 {
    } else if d == 9 {
    } else if d == 10 {
    } else if d == 11 {
    } else if d == 12 {
    } else if d == 13 {
    } else if d == 14 {
    } else {
        assert(d == 15);
    }
}

/// Where each byte's two digits sit in the rendered text.
proof fn lemma_hex_of_bytes_chars(bs: Seq<u8>)
    ensures
        hex_of_bytes(bs).len() == 2 * bs.len(),
        forall|k: int|
            0 <= k < bs.len() ==> hex_of_bytes(bs)[2 * k] == HEX_DIGITS@[(#[trigger] bs[k]
                >> 4) as int] && hex_of_bytes(bs)[2 * k + 1] == HEX_DIGITS@[(bs[k] & 0xf) as int],
    decreases bs.len(),
{
    if bs.len() > 0 {
        lemma_hex_of_bytes_chars(bs.drop_first());
        assert forall|k: int|
            0 <= k < bs.len() implies hex_of_bytes(bs)[2 * k] == HEX_DIGITS@[(#[trigger] bs[k]
            >> 4) as int] && hex_of_bytes(bs)[2 * k + 1] == HEX_DIGITS@[(bs[k] & 0xf) as int] by {
            if k > 0 {
                assert(bs.drop_first()[k - 1] == bs[k]);
                assert(hex_of_bytes(bs)[2 * k] == hex_of_bytes(bs.drop_first())[2 * (k - 1)]);
                assert(hex_of_bytes(bs)[2 * k + 1] == hex_of_bytes(bs.drop_first())[2 * (k - 1)
                    + 1]);
            }
        }
    }
}

/// Printing and parsing are inverses: the text printed for any twenty
/// bytes is well-formed and decodes back to exactly those bytes.
pub proof fn lemma_node_id_text_round_trip(bs: Seq<u8>)
    requires
        bs.len() == 20,
    ensures
        valid_node_id_text(node_id_text(bs)),
        node_id_decoded(node_id_text(bs)) == bs,
{
    lemma_hex_of_bytes_chars(bs);
    let t = node_id_text(bs);
    assert(t.len() == 42);
    assert forall|i: int| 2 <= i < 42 implies is_hex_digit(#[trigger] t[i]) by {
        let k = (i - 2) / 2;
        let b = bs[k];
        assert((b >> 4) < 16 && (b & 0xf) < 16) by (bit_vector);
        lemma_digit_round_trip(b >> 4);
        lemma_digit_round_trip(b & 0xf);
        if i % 2 == 0 {
            assert(i == 2 + 2 * k);
            assert(t[i] == hex_of_bytes(bs)[2 * k]);
        } else {
            assert(i == 3 + 2 * k);
            assert(t[i] == hex_of_bytes(bs)[2 * k + 1]);
        }
    }
    assert forall|k: int| 0 <= k < 20 implies node_id_decoded(t)[k] == bs[k] by {
        let b = bs[k];
        assert((b >> 4) < 16 && (b & 0xf) < 16 && ((b >> 4) * 16 + (b & 0xf)) == b) by (
        bit_vector);
        lemma_digit_round_trip(b >> 4);
        lemma_digit_round_trip(b & 0xf);
        assert(t[2 + 2 * k] == hex_of_bytes(bs)[2 * k]);
        assert(t[3 + 2 * k] == hex_of_bytes(bs)[2 * k + 1]);
    }
    assert(node_id_decoded(t) =~= bs);
}

} // verus!
