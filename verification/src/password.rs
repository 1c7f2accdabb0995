//! The password of an archive: the bytes of its text in UTF-16, low byte first.

use vstd::prelude::*;
use vstd::std_specs::iter::IteratorSpec;

verus! {

/// The UTF-16 code units of one character.
pub open spec fn utf16_units(c: char) -> Seq<u16> {
    let v = c as u32;
    if v < 0x1_0000 {
        seq![v as u16]
    } else {
        seq![(0xD800 + (v - 0x1_0000) / 0x400) as u16, (0xDC00 + (v - 0x1_0000) % 0x400) as u16]
    }
}

/// The bytes of the UTF-16 code units of `text`, each unit low byte first.
pub open spec fn utf16le_bytes(text: Seq<char>) -> Seq<u8>
    decreases text.len(),
{
    if text.len() == 0 {
        Seq::empty()
    } else {
        utf16le_bytes(text.drop_last()) + units_le(utf16_units(text.last()))
    }
}

/// The bytes of `units`, each unit low byte first.
pub open spec fn units_le(units: Seq<u16>) -> Seq<u8>
    decreases units.len(),
{
    if units.len() == 0 {
        Seq::empty()
    } else {
        units_le(units.drop_last()) + seq![(units.last() % 256) as u8, (units.last() / 256) as u8]
    }
}

/// The secret from which an AES coder derives its key: an opaque run of bytes.
#[derive(Clone, Debug)]
pub struct Password {
    bytes: Vec<u8>,
}

impl View for Password {
    type V = Seq<u8>;

    closed spec fn view(&self) -> Seq<u8> {
        self.bytes@
    }
}

impl Password {
    /// The password of no bytes, which stands for "no password".
    pub fn empty() -> (p: Password)
        ensures
            p@ == Seq::<u8>::empty(),
    {
        Password { bytes: Vec::new() }
    }

    /// The password made of exactly `bytes`.
    pub fn from_bytes(bytes: Vec<u8>) -> (p: Password)
        ensures
            p@ == bytes@,
    {
        Password { bytes }
    }

    /// The password a person types as `text`: its UTF-16 code units, low byte first.
    pub fn new(text: &str) -> (p: Password)
        ensures
            p@ == utf16le_bytes(text@),
    {
        let mut bytes: Vec<u8> = Vec::new();
        proof {
            broadcast use vstd::string::axiom_spec_iter;
        }
        for c in it: text.chars()
            invariant
                it.seq() == text@,
                bytes@ == utf16le_bytes(it.seq().take(it.index() as int)),
        {
            let v: u32 = c as u32;
            proof {
                let done = it.seq().take(it.index() as int);
                let grown = it.seq().take(it.index() + 1);
                assert(grown.drop_last() =~= done);
                assert(grown.last() == c);
                reveal_with_fuel(units_le, 3);
                if v < 0x1_0000 {
                    assert(utf16_units(c).drop_last() =~= Seq::<u16>::empty());
                } else {
                    let u = utf16_units(c);
                    assert(u.drop_last() =~= seq![u[0]]);
                    assert(u.drop_last().drop_last() =~= Seq::<u16>::empty());
                }
            }
            if v < 0x1_0000 {
                let unit: u16 = v as u16;
                bytes.push((unit % 256) as u8);
                bytes.push((unit / 256) as u8);
            } else {
                let high: u16 = (0xD800 + (v - 0x1_0000) / 0x400) as u16;
                let low: u16 = (0xDC00 + (v - 0x1_0000) % 0x400) as u16;
                bytes.push((high % 256) as u8);
                bytes.push((high / 256) as u8);
                bytes.push((low % 256) as u8);
                bytes.push((low / 256) as u8);
            }
            proof {
                assert(bytes@ =~= utf16le_bytes(it.seq().take(it.index() + 1)));
            }
        }
        proof {
            assert(text@.take(text@.len() as int) =~= text@);
        }
        Password { bytes }
    }

    /// The bytes of the password.
    pub fn as_slice(&self) -> (bytes: &[u8])
        ensures
            bytes@ == self@,
    {
        self.bytes.as_slice()
    }

    /// Whether the password has no bytes.
    pub fn is_empty(&self) -> (empty: bool)
        ensures
            empty == (self@.len() == 0),
    {
        self.bytes.len() == 0
    }
}

} // verus!
