use vstd::prelude::*;
use vstd::utf8::*;

verus! {

/// A control byte, classified.
#[derive(Debug, Clone, Copy, PartialEq, Eq, Structural)]
pub enum ControlCharacter {
    CtrlC,
    CtrlD,
    CtrlH,
    Tab,
    CarriageReturn,
    Backspace,
    /// Any other control byte; the line editor ignores it.
    Other(u8),
}

/// One decoded unit of input.
#[derive(Debug, Clone, Copy, PartialEq, Eq, Structural)]
pub enum Action {
    Print(char),
    ControlCharacter(ControlCharacter),
    /// The byte was taken in without completing a character.
    Incomplete,
}

/// The bytes 0x00 to 0x1F and 0x7F.
pub open spec fn is_control(b: u8) -> bool {
    b < 0x20 || b == 0x7F
}

pub open spec fn control_of(b: u8) -> ControlCharacter {
    if b == 0x03 {
        ControlCharacter::CtrlC
    } else if b == 0x04 {
        ControlCharacter::CtrlD
    } else if b == 0x08 {
        ControlCharacter::CtrlH
    } else if b == 0x09 {
        ControlCharacter::Tab
    } else if b == 0x0D {
        ControlCharacter::CarriageReturn
    } else if b == 0x7F {
        ControlCharacter::Backspace
    } else {
        ControlCharacter::Other(b)
    }
}

/// Length of the UTF-8 sequence that `b` starts, or 0 when `b` starts none.
pub open spec fn lead_width(b: u8) -> nat {
    if is_leading_byte_width_1(b) {
        1
    } else if is_leading_byte_width_2(b) {
        2
    } else if is_leading_byte_width_3(b) {
        3
    } else if is_leading_byte_width_4(b) {
        4
    } else {
        0
    }
}

/// The sequence that a non-control byte `b` extends or starts, given the
/// bytes pending before it: a continuation byte extends a pending sequence,
/// any other byte drops it and starts anew.
pub open spec fn extended(pending: Seq<u8>, b: u8) -> Seq<u8> {
    if pending.len() > 0 && is_continuation_byte(b) {
        pending.push(b)
    } else {
        seq![b]
    }
}

/// Relies on char::from_u32: the char with that value, if it is a Unicode scalar.
#[verifier::external_body]
fn char_from_u32(u: u32) -> (r: Option<char>)
    ensures
        r is Some <==> is_scalar(u),
        r is Some ==> r->0 as u32 == u,
{
    char::from_u32(u)
}

fn width_of(b: u8) -> (r: usize)
    ensures
        r == lead_width(b),
{
    if b <= 0x7F {
        1
    } else if 0xC0 <= b && b <= 0xDF {
        2
    } else if 0xE0 <= b && b <= 0xEF {
        3
    } else if 0xF0 <= b && b <= 0xF7 {
        4
    } else {
        0
    }
}

/// Turns a byte stream into `Action`s, reassembling UTF-8 sequences.
pub struct Parser {
    pending: Vec<u8>,
}

impl View for Parser {
    type V = Seq<u8>;

    /// The bytes of the incomplete sequence seen so far.
    closed spec fn view(&self) -> Seq<u8> {
        self.pending@
    }
}

impl Parser {
    /// The pending bytes start a sequence they do not complete.
    pub open spec fn wf(&self) -> bool {
        let p = self@;
        p.len() > 0 ==> {
            &&& p.len() < lead_width(p[0])
            &&& forall|i: int| 1 <= i < p.len() ==> is_continuation_byte(#[trigger] p[i])
        }
    }

    pub fn new() -> (r: Parser)
        ensures
            r.wf(),
            r@ == Seq::<u8>::empty(),
    {
        Parser { pending: Vec::new() }
    }

    /// Takes in one byte. A control byte is classified at once and drops any
    /// pending sequence. Any other byte extends or starts a sequence; a
    /// complete sequence yields its character when it is valid UTF-8 and is
    /// dropped otherwise.
    pub fn advance(&mut self, byte: u8) -> (r: Action)
        requires
            old(self).wf(),
        ensures
            final(self).wf(),
            is_control(byte) ==> r == Action::ControlCharacter(control_of(byte)) && final(self)@
                == Seq::<u8>::empty(),
            !is_control(byte) ==> ({
                let s = extended(old(self)@, byte);
                if lead_width(s[0]) == 0 {
                    r == Action::Incomplete && final(self)@ == Seq::<u8>::empty()
                } else if s.len() < lead_width(s[0]) {
                    r == Action::Incomplete && final(self)@ == s
                } else {
                    &&& final(self)@ == Seq::<u8>::empty()
                    &&& r is Print || r == Action::Incomplete
                    &&& r is Print <==> valid_utf8(s)
                    &&& r is Print ==> decode_utf8(s) == seq![r->Print_0]
                }
            }),
    {
        if byte < 0x20 || byte == 0x7F {
            self.pending.clear();
            let c = if byte == 0x03 {
                ControlCharacter::CtrlC
            } else if byte == 0x04 {
                ControlCharacter::CtrlD
            } else if byte == 0x08 {
                ControlCharacter::CtrlH
            } else if byte == 0x09 {
                ControlCharacter::Tab
            } else if byte == 0x0D {
                ControlCharacter::CarriageReturn
            } else if byte == 0x7F {
                ControlCharacter::Backspace
            } else {
                ControlCharacter::Other(byte)
            };
            return Action::ControlCharacter(c);
        }
        let ghost before = self@;
        if self.pending.len() > 0 && 0x80 <= byte && byte <= 0xBF {
            self.pending.push(byte);
        } else {
            self.pending.clear();
            self.pending.push(byte);
        }
        let ghost s = self.pending@;
        assert(s =~= extended(before, byte));
        let w = width_of(self.pending[0]);
        if w == 0 {
            self.pending.clear();
            return Action::Incomplete;
        }
        if self.pending.len() < w {
            return Action::Incomplete;
        }
        let b0 = self.pending[0];
        let (u, ok) = if w == 1 {
            (((b0 & 0x7F) as u32), true)
        } else if w == 2 {
            let b1 = self.pending[1];
            let u = (((b0 & 0x1F) as u32) << 6) | ((b1 & 0x3F) as u32);
            assert((((b0 & 0x1F) as u32) << 6) | ((b1 & 0x3F) as u32) <= 0x7FF) by (bit_vector);
            (u, 0x80 <= u && !(0xD800 <= u && u <= 0xDFFF))
        } else if w == 3 {
            let b1 = self.pending[1];
            let b2 = self.pending[2];
            let u = (((b0 & 0x0F) as u32) << 12) | (((b1 & 0x3F) as u32) << 6) | ((b2
                & 0x3F) as u32);
            assert((((b0 & 0x0F) as u32) << 12) | (((b1 & 0x3F) as u32) << 6) | ((b2 & 0x3F) as u32)
                <= 0xFFFF) by (bit_vector);
            (u, 0x800 <= u && !(0xD800 <= u && u <= 0xDFFF))
        } else {
            let b1 = self.pending[1];
            let b2 = self.pending[2];
            let b3 = self.pending[3];
            let u = (((b0 & 0x07) as u32) << 18) | (((b1 & 0x3F) as u32) << 12) | (((b2
                & 0x3F) as u32) << 6) | ((b3 & 0x3F) as u32);
            (u, 0x10000 <= u && u <= 0x10FFFF && !(0xD800 <= u && u <= 0xDFFF))
        };
        self.pending.clear();
        proof {
            assert(s.len() == w);
            assert(valid_leading_and_continuation_bytes_first_codepoint(s));
            assert(u == decode_first_codepoint(s));
            assert(ok == valid_first_scalar(s));
            assert(pop_first_scalar(s) =~= Seq::<u8>::empty());
            reveal_with_fuel(valid_utf8, 2);
            reveal_with_fuel(decode_utf8, 2);
        }
        if !ok {
            return Action::Incomplete;
        }
        match char_from_u32(u) {
            Some(c) => {
                proof {
                    char_u32_cast(c, u);
                    assert(decode_utf8(s) =~= seq![c]);
                }
                Action::Print(c)
            },
            None => {
                assert(is_scalar(u));
                Action::Incomplete
            },
        }
    }
}

} // verus!
