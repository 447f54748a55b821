//! The interactive shell: what it makes of the keys that are pressed and of
//! the lines that are entered.

use vstd::prelude::*;
use vstd::string::StringSliceAdditionalSpecFns;

pub mod calc;

use crate::dev::kbd::keys::{ascii_of, KeyCode};
use crate::dev::mgr::{bytes_eq, decimal, write_decimal};
use crate::dev::text_video::{TextColor, TextStyle};

use self::calc::arithmetic::{spec_eval, CalcError, Expected, ParseError};

verus! {

/// The style of the prompt and of what is typed.
pub fn prompt_style() -> (r: TextStyle)
    ensures
        r == (TextStyle { foreground: TextColor::White, background: TextColor::Black }),
{
    TextStyle { foreground: TextColor::White, background: TextColor::Black }
}

/// The style of error messages.
pub fn error_style() -> (r: TextStyle)
    ensures
        r == (TextStyle { foreground: TextColor::LightRed, background: TextColor::Black }),
{
    TextStyle { foreground: TextColor::LightRed, background: TextColor::Black }
}

/// The style of a line of the header that the shell shows when it starts:
/// the foreground runs through green, green, yellow, red, red, light blue,
/// light blue and white, line by line and over again; the background is
/// black.
pub fn header_style(line: usize) -> (r: TextStyle)
    ensures
        r.background == TextColor::Black,
        r.foreground == (if line % 8 < 2 {
            TextColor::Green
        } else if line % 8 == 2 {
            TextColor::Yellow
        } else if line % 8 < 5 {
            TextColor::Red
        } else if line % 8 < 7 {
            TextColor::LightBlue
        } else {
            TextColor::White
        }),
{
    let colors: [TextColor; 8] = [
        TextColor::Green,
        TextColor::Green,
        TextColor::Yellow,
        TextColor::Red,
        TextColor::Red,
        TextColor::LightBlue,
        TextColor::LightBlue,
        TextColor::White,
    ];
    TextStyle { foreground: colors[line % 8], background: TextColor::Black }
}

/// What the prompt does with a key.
#[derive(Clone, Copy, Debug, PartialEq, Eq, Structural)]
pub enum PromptStep {
    /// The key stands for no character: nothing happens.
    Skip,
    /// The key is the enter key: the line is complete.
    Complete,
    /// The character of the key has joined the line and is to be shown.
    Echo(u8),
}

/// Takes a key at the prompt: the enter key ends the line, a key that
/// stands for no character is passed over, and any other key adds its
/// character to the line.
pub fn prompt_key(line: &mut Vec<u8>, key: KeyCode) -> (r: PromptStep)
    ensures
        ascii_of(key.0) == 0 ==> r == PromptStep::Skip && final(line)@ == old(line)@,
        ascii_of(key.0) == 10 ==> r == PromptStep::Complete && final(line)@ == old(line)@,
        ascii_of(key.0) != 0 && ascii_of(key.0) != 10 ==> r == PromptStep::Echo(ascii_of(key.0))
            && final(line)@ == old(line)@.push(ascii_of(key.0)),
{
    let key: u8 = key.to_ascii();
    if key == 0 {
        return PromptStep::Skip;
    }
    if key == 10 {
        return PromptStep::Complete;
    }
    line.push(key);
    PromptStep::Echo(key)
}

/// What the shell answers to a line.
#[derive(Clone, Copy, Debug, PartialEq, Eq, Structural)]
pub enum Answer {
    /// The names of the devices, in ascending order.
    Devices,
    /// The value of the expression.
    Value(i64),
    /// Why the line has no value; shown in the style of errors.
    Error(CalcError),
}

/// The answer to a line: the line `lsdev` asks for the devices, and every
/// other line is evaluated as an expression.
pub open spec fn spec_exec(cmd: Seq<u8>) -> Answer {
    if cmd == "lsdev".spec_bytes() {
        Answer::Devices
    } else {
        match spec_eval(cmd) {
            Ok(value) => Answer::Value(value),
            Err(error) => Answer::Error(error),
        }
    }
}

/// Finds the answer to a line.
pub fn exec(cmd: &[u8]) -> (r: Answer)
    requires
        cmd@.len() < usize::MAX,
    ensures
        r == spec_exec(cmd@),
{
    if bytes_eq(cmd, "lsdev".as_bytes()) {
        Answer::Devices
    } else {
        match calc::eval(cmd) {
            Ok(result) => Answer::Value(result),
            Err(error) => Answer::Error(error),
        }
    }
}

/// What is expected, as it is written in a message: `EOF` for nothing, the
/// token in backquotes for one token, and for more `one of` and the tokens
/// in backquotes, with commas between them.
pub open spec fn expected_text(expected: Expected) -> Seq<u8> {
    let names = (if expected.digit {
        seq!["`[0-9]`".spec_bytes()]
    } else {
        Seq::<Seq<u8>>::empty()
    }) + (if expected.plus {
        seq!["`+`".spec_bytes()]
    } else {
        Seq::<Seq<u8>>::empty()
    }) + (if expected.star {
        seq!["`*`".spec_bytes()]
    } else {
        Seq::<Seq<u8>>::empty()
    }) + (if expected.open {
        seq!["`(`".spec_bytes()]
    } else {
        Seq::<Seq<u8>>::empty()
    }) + (if expected.close {
        seq!["`)`".spec_bytes()]
    } else {
        Seq::<Seq<u8>>::empty()
    });
    if names.len() == 0 {
        "EOF".spec_bytes()
    } else if names.len() == 1 {
        names[0]
    } else {
        "one of ".spec_bytes() + joined(names, names.len())
    }
}

/// The first `count` names with a comma and a space between them.
pub open spec fn joined(names: Seq<Seq<u8>>, count: nat) -> Seq<u8>
    decreases count,
{
    if count == 0 {
        Seq::<u8>::empty()
    } else if count == 1 {
        names[0]
    } else {
        joined(names, (count - 1) as nat) + ", ".spec_bytes() + names[count - 1]
    }
}

/// The message of a parse error: the line and the column, and what was
/// expected there.
pub open spec fn message_of(error: ParseError) -> Seq<u8> {
    "error at ".spec_bytes() + decimal(error.line as nat) + ":".spec_bytes() + decimal(
        error.column as nat,
    ) + ": expected ".spec_bytes() + expected_text(error.expected)
}

fn push_str(text: &mut Vec<u8>, s: &str)
    ensures
        final(text)@ == old(text)@ + s.spec_bytes(),
{
    let bytes = s.as_bytes();
    let mut i: usize = 0;
    while i < bytes.len()
        invariant
            i <= bytes@.len(),
            text@ == old(text)@ + bytes@.subrange(0, i as int),
        decreases bytes@.len() - i,
    {
        text.push(bytes[i]);
        proof {
            assert(text@ =~= old(text)@ + bytes@.subrange(0, i as int + 1));
        }
        i = i + 1;
    }
    proof {
        assert(bytes@.subrange(0, bytes@.len() as int) =~= bytes@);
    }
}

/// Writes the message of a parse error.
pub fn message(error: &ParseError) -> (r: Vec<u8>)
    ensures
        r@ == message_of(*error),
{
    let mut text: Vec<u8> = Vec::new();
    push_str(&mut text, "error at ");
    let mut line = write_decimal(error.line);
    text.append(&mut line);
    push_str(&mut text, ":");
    let mut column = write_decimal(error.column);
    text.append(&mut column);
    push_str(&mut text, ": expected ");
    let ghost head = text@;
    let mut names: Vec<&'static str> = Vec::new();
    if error.expected.digit {
        names.push("`[0-9]`");
    }
    if error.expected.plus {
        names.push("`+`");
    }
    if error.expected.star {
        names.push("`*`");
    }
    if error.expected.open {
        names.push("`(`");
    }
    if error.expected.close {
        names.push("`)`");
    }
    let ghost texts = Seq::new(names@.len(), |i: int| names@[i].spec_bytes());
    proof {
        let expected = error.expected;
        let built = (if expected.digit {
            seq!["`[0-9]`".spec_bytes()]
        } else {
            Seq::<Seq<u8>>::empty()
        }) + (if expected.plus {
            seq!["`+`".spec_bytes()]
        } else {
            Seq::<Seq<u8>>::empty()
        }) + (if expected.star {
            seq!["`*`".spec_bytes()]
        } else {
            Seq::<Seq<u8>>::empty()
        }) + (if expected.open {
            seq!["`(`".spec_bytes()]
        } else {
            Seq::<Seq<u8>>::empty()
        }) + (if expected.close {
            seq!["`)`".spec_bytes()]
        } else {
            Seq::<Seq<u8>>::empty()
        });
        assert(texts =~= built);
    }
    if names.len() == 0 {
        push_str(&mut text, "EOF");
    } else if names.len() == 1 {
        push_str(&mut text, names[0]);
    } else {
        push_str(&mut text, "one of ");
        let ghost start = text@;
        let mut i: usize = 0;
        while i < names.len()
            invariant
                i <= names@.len(),
                texts == Seq::new(names@.len(), |k: int| names@[k].spec_bytes()),
                text@ == start + joined(texts, i as nat),
            decreases names@.len() - i,
        {
            if i > 0 {
                push_str(&mut text, ", ");
            }
            push_str(&mut text, names[i]);
            proof {
                assert(texts[i as int] == names@[i as int].spec_bytes());
                assert(text@ =~= start + joined(texts, (i + 1) as nat));
            }
            i = i + 1;
        }
        proof {
            assert(text@ =~= head + ("one of ".spec_bytes() + joined(texts, texts.len())));
        }
    }
    proof {
        assert(text@ =~= message_of(*error));
    }
    text
}

} // verus!
