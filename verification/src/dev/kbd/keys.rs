//! Key codes and the characters that they stand for.

use vstd::prelude::*;

verus! {

pub const NULL_KEY: u8 = 0;

pub const Q_PRESSED: u8 = 0x10;

pub const P_PRESSED: u8 = 0x19;

pub const A_PRESSED: u8 = 0x1E;

pub const L_PRESSED: u8 = 0x26;

pub const Y_PRESSED: u8 = 0x2C;

pub const M_PRESSED: u8 = 0x32;

pub const ZERO_PRESSED: u8 = 0x29;

pub const ONE_PRESSED: u8 = 0x2;

pub const NINE_PRESSED: u8 = 0xA;

pub const POINT_RELEASED: u8 = 0xB4;

pub const SLASH_RELEASED: u8 = 0xB5;

pub const BACKSPACE_PRESSED: u8 = 0xE;

pub const SPACE_PRESSED: u8 = 0x38;

pub const ENTER_PRESSED: u8 = 0x1C;

/// The letters of the first row of keys, in the order of their scan codes.
pub open spec fn first_row() -> Seq<u8> {
    seq![113u8, 119, 101, 114, 116, 121, 117, 105, 111, 112]
}

/// The letters of the second row of keys, in the order of their scan codes.
pub open spec fn second_row() -> Seq<u8> {
    seq![97u8, 115, 100, 102, 103, 104, 106, 107, 108]
}

/// The letters of the third row of keys, in the order of their scan codes.
pub open spec fn third_row() -> Seq<u8> {
    seq![122u8, 120, 99, 118, 98, 110, 109]
}

/// The character that a scan code stands for, and the null key for the
/// scan codes that stand for none.
pub open spec fn ascii_of(code: u8) -> u8 {
    if code == ENTER_PRESSED {
        10
    } else if code == SPACE_PRESSED {
        32
    } else if code == BACKSPACE_PRESSED {
        13
    } else if code == POINT_RELEASED {
        46
    } else if code == SLASH_RELEASED {
        47
    } else if code == ZERO_PRESSED {
        48
    } else if ONE_PRESSED <= code <= NINE_PRESSED {
        (49 + (code - ONE_PRESSED)) as u8
    } else if Q_PRESSED <= code <= P_PRESSED {
        first_row()[code - Q_PRESSED]
    } else if A_PRESSED <= code <= L_PRESSED {
        second_row()[code - A_PRESSED]
    } else if Y_PRESSED <= code <= M_PRESSED {
        third_row()[code - Y_PRESSED]
    } else {
        NULL_KEY
    }
}

/// A key event, named by its scan code.
#[derive(Debug, Copy, Clone, Eq, PartialEq, Hash, Structural)]
pub struct KeyCode(pub u8);

impl KeyCode {
    /// The character that the key stands for, or the null key.
    pub fn to_ascii(self) -> (r: u8)
        ensures
            r == ascii_of(self.0),
    {
        let key = self.0;
        if key == 0x1c {
            10
        } else if key == 0x38 {
            32
        } else if key == 0xe {
            13
        } else if key == POINT_RELEASED {
            46
        } else if key == SLASH_RELEASED {
            47
        } else if key == ZERO_PRESSED {
            48
        } else if ONE_PRESSED <= key && key <= NINE_PRESSED {
            let digits: [u8; 9] = [49, 50, 51, 52, 53, 54, 55, 56, 57];
            digits[(key - ONE_PRESSED) as usize]
        } else if 0x10 <= key && key <= 0x19 {
            let row: [u8; 10] = [113, 119, 101, 114, 116, 121, 117, 105, 111, 112];
            row[(key - 0x10) as usize]
        } else if 0x1e <= key && key <= 0x26 {
            let row: [u8; 9] = [97, 115, 100, 102, 103, 104, 106, 107, 108];
            row[(key - 0x1e) as usize]
        } else if 0x2c <= key && key <= 0x32 {
            let row: [u8; 7] = [122, 120, 99, 118, 98, 110, 109];
            row[(key - 0x2c) as usize]
        } else {
            NULL_KEY
        }
    }
}

impl From<KeyCode> for u8 {
    fn from(key_code: KeyCode) -> (r: u8) {
        key_code.to_ascii()
    }
}

impl vstd::std_specs::convert::FromSpecImpl<KeyCode> for u8 {
    open spec fn obeys_from_spec() -> bool {
        true
    }

    open spec fn from_spec(key_code: KeyCode) -> u8 {
        ascii_of(key_code.0)
    }
}

} // verus!
