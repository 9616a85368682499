//! Content-addressed object ids: 20-byte hashes identifying commits and
//! blobs, serialized as lowercase hex and ordered by byte sequence.

use vstd::prelude::*;

use crate::text::string_from_chars;

verus! {

/// A 20-byte content hash identifying a commit or a blob.
#[derive(Clone, Copy, Debug, Hash)]
pub struct Id(pub [u8; 20]);

impl View for Id {
    type V = Seq<u8>;

    open spec fn view(&self) -> Seq<u8> {
        self.0@
    }
}

impl PartialEq for Id {
    fn eq(&self, other: &Id) -> (r: bool) {
        let mut i: usize = 0;
        let mut same = true;
        while i < 20
            invariant
                i <= 20,
                same <==> (forall|k: int| 0 <= k < i ==> self.0@[k] == other.0@[k]),
            decreases 20 - i,
        {
            same = same && self.0[i] == other.0[i];
            i = i + 1;
        }
        proof {
            if same {
                assert(self.0@ =~= other.0@);
            }
        }
        same
    }
}

impl Eq for Id {

}

impl vstd::std_specs::cmp::PartialEqSpecImpl for Id {
    open spec fn obeys_eq_spec() -> bool {
        true
    }

    open spec fn eq_spec(&self, other: &Id) -> bool {
        self@ == other@
    }
}

/// The hex digit (lowercase) for a value below 16.
pub open spec fn spec_hex_digit(v: u8) -> char {
    if v == 0 {
        '0'
    } else if v == 1 {
        '1'
    } else if v == 2 {
        '2'
    } else if v == 3 {
        '3'
    } else if v == 4 {
        '4'
    } else if v == 5 {
        '5'
    } else if v == 6 {
        '6'
    } else if v == 7 {
        '7'
    } else if v == 8 {
        '8'
    } else if v == 9 {
        '9'
    } else if v == 10 {
        'a'
    } else if v == 11 {
        'b'
    } else if v == 12 {
        'c'
    } else if v == 13 {
        'd'
    } else if v == 14 {
        'e'
    } else {
        'f'
    }
}

/// The value of a hex digit character, if it is one (either case).
pub open spec fn spec_hex_value(c: char) -> Option<u8> {
    if '0' <= c && c <= '9' {
        Some((c as u8 - '0' as u8) as u8)
    } else if 'a' <= c && c <= 'f' {
        Some((c as u8 - 'a' as u8 + 10) as u8)
    } else if 'A' <= c && c <= 'F' {
        Some((c as u8 - 'A' as u8 + 10) as u8)
    } else {
        None
    }
}

/// Lowercase hex encoding of a byte sequence: two digits per byte.
pub open spec fn spec_hex_of_bytes(bs: Seq<u8>) -> Seq<char>
    decreases bs.len(),
{
    if bs.len() == 0 {
        Seq::empty()
    } else {
        seq![
            spec_hex_digit((bs.first() / 16) as u8),
            spec_hex_digit((bs.first() % 16) as u8),
        ] + spec_hex_of_bytes(bs.drop_first())
    }
}

fn hex_digit(v: u8) -> (c: char)
    requires
        v < 16,
    ensures
        c == spec_hex_digit(v),
{
    match v {
        0 => '0',
        1 => '1',
        2 => '2',
        3 => '3',
        4 => '4',
        5 => '5',
        6 => '6',
        7 => '7',
        8 => '8',
        9 => '9',
        10 => 'a',
        11 => 'b',
        12 => 'c',
        13 => 'd',
        14 => 'e',
        _ => 'f',
    }
}

fn hex_value(c: char) -> (r: Option<u8>)
    ensures
        r == spec_hex_value(c),
{
    if '0' <= c && c <= '9' {
        Some(c as u8 - '0' as u8)
    } else if 'a' <= c && c <= 'f' {
        Some(c as u8 - 'a' as u8 + 10)
    } else if 'A' <= c && c <= 'F' {
        Some(c as u8 - 'A' as u8 + 10)
    } else {
        None
    }
}

/// Whether a character sequence is a valid 40-digit hex id (either case).
pub open spec fn spec_is_hex_id(s: Seq<char>) -> bool {
    s.len() == 40 && forall|i: int| 0 <= i < 40 ==> spec_hex_value(s[i]) is Some
}

/// The byte sequence denoted by a valid 40-digit hex id.
pub open spec fn spec_bytes_of_hex(s: Seq<char>) -> Seq<u8> {
    Seq::new(20, |i: int| (spec_hex_value(s[2 * i]).unwrap() * 16 + spec_hex_value(
        s[2 * i + 1],
    ).unwrap()) as u8)
}

impl Id {
    /// The all-zero id, standing in where no hash is known.
    pub fn zero() -> (r: Id)
        ensures
            r@ == Seq::new(20, |i: int| 0u8),
    {
        let r = Id([0u8; 20]);
        proof {
            assert(r.0@ =~= Seq::new(20, |i: int| 0u8));
        }
        r
    }

    /// Serializes the id as 40 lowercase hex digits.
    pub fn to_hex(&self) -> (r: String)
        ensures
            r@ == spec_hex_of_bytes(self@),
    {
        let mut chars: Vec<char> = Vec::new();
        let mut i: usize = 0;
        proof {
            assert(self.0@.skip(0) == self.0@);
        }
        while i < 20
            invariant
                i <= 20,
                spec_hex_of_bytes(self.0@) =~= chars@ + spec_hex_of_bytes(self.0@.skip(i as int)),
            decreases 20 - i,
        {
            let b = self.0[i];
            chars.push(hex_digit(b / 16));
            chars.push(hex_digit(b % 16));
            proof {
                assert(self.0@.skip(i as int).drop_first() == self.0@.skip(i + 1));
            }
            i = i + 1;
        }
        string_from_chars(&chars)
    }

    /// Parses a 40-digit hex string (either case) into an id; returns `None`
    /// exactly when the input is not 40 hex digits.
    pub fn from_hex(s: &str) -> (r: Option<Id>)
        ensures
            r is Some <==> spec_is_hex_id(s@),
            r matches Some(id) ==> id@ == spec_bytes_of_hex(s@),
    {
        if s.unicode_len() != 40 {
            return None;
        }
        let mut bytes: Vec<u8> = Vec::new();
        let mut i: usize = 0;
        while i < 20
            invariant
                i <= 20,
                s@.len() == 40,
                bytes@.len() == i,
                forall|k: int| 0 <= k < 2 * i ==> spec_hex_value(s@[k]) is Some,
                forall|k: int| 0 <= k < i ==> bytes@[k] == spec_bytes_of_hex(s@)[k],
            decreases 20 - i,
        {
            let hi = match hex_value(s.get_char(2 * i)) {
                Some(v) => v,
                None => {
                    return None;
                },
            };
            let lo = match hex_value(s.get_char(2 * i + 1)) {
                Some(v) => v,
                None => {
                    return None;
                },
            };
            bytes.push(hi * 16 + lo);
            proof {
                assert(spec_hex_value(s@[2 * (i as int)]) == Some(hi));
                assert(spec_hex_value(s@[2 * (i as int) + 1]) == Some(lo));
                assert(bytes@[i as int] == spec_bytes_of_hex(s@)[i as int]);
                assert forall|k: int| 0 <= k < 2 * (i + 1) implies spec_hex_value(s@[k]) is Some by {
                    if k < 2 * i {
                    } else if k == 2 * i {
                        assert(spec_hex_value(s@[k]) == Some(hi));
                    } else {
                        assert(k == 2 * i + 1);
                        assert(spec_hex_value(s@[k]) == Some(lo));
                    }
                }
            }
            i = i + 1;
        }
        proof {
            assert(bytes@ =~= spec_bytes_of_hex(s@));
        }
        Some(Self::from_byte_vec(&bytes))
    }

    /// Packs exactly twenty bytes into an id.
    fn from_byte_vec(bytes: &Vec<u8>) -> (r: Id)
        requires
            bytes@.len() == 20,
        ensures
            r@ == bytes@,
    {
        let id = Id(
            [
                bytes[0],
                bytes[1],
                bytes[2],
                bytes[3],
                bytes[4],
                bytes[5],
                bytes[6],
                bytes[7],
                bytes[8],
                bytes[9],
                bytes[10],
                bytes[11],
                bytes[12],
                bytes[13],
                bytes[14],
                bytes[15],
                bytes[16],
                bytes[17],
                bytes[18],
                bytes[19],
            ],
        );
        proof {
            assert(id.0@ =~= bytes@);
        }
        id
    }
}

} // verus!
