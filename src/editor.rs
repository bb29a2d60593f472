use vstd::prelude::*;
use vstd::utf8::*;
use vstd::string::StringSliceAdditionalSpecFns;
use crate::decoder::{Action, ControlCharacter, Parser, is_control, control_of, extended, lead_width};
use crate::engine::{Context, ContextType, Handle, Level, push_all};
use crate::text::{split_last_word, lemma_encode_concat};

verus! {

#[verifier::external_type_specification]
#[verifier::external_body]
pub struct ExHeaplessString<const N: usize>(heapless::String<N>);

/// The characters a line buffer holds.
pub uninterp spec fn line_chars(s: heapless::String<64>) -> Seq<char>;

/// Capacity of the line buffer, in bytes of UTF-8.
pub const LINE_CAPACITY: usize = 64;

/// Text of `s` fits the line buffer.
pub open spec fn fits(s: Seq<char>) -> bool {
    encode_utf8(s).len() <= LINE_CAPACITY
}

/// Relies on heapless::String::new: an empty string.
#[verifier::external_body]
fn line_new() -> (r: heapless::String<64>)
    ensures
        line_chars(r) == Seq::<char>::empty(),
{
    heapless::String::new()
}

/// Relies on heapless::String::push_str: appends `t` when the bytes fit, else
/// leaves the string as it was.
#[verifier::external_body]
fn line_push_str(s: &mut heapless::String<64>, t: &str) -> (r: bool)
    ensures
        r == fits(line_chars(*old(s)) + t@),
        r ==> line_chars(*final(s)) == line_chars(*old(s)) + t@,
        !r ==> line_chars(*final(s)) == line_chars(*old(s)),
{
    s.push_str(t).is_ok()
}

/// Relies on heapless::String::push: appends `c` when its bytes fit, else
/// leaves the string as it was.
#[verifier::external_body]
fn line_push(s: &mut heapless::String<64>, c: char) -> (r: bool)
    ensures
        r == fits(line_chars(*old(s)).push(c)),
        r ==> line_chars(*final(s)) == line_chars(*old(s)).push(c),
        !r ==> line_chars(*final(s)) == line_chars(*old(s)),
{
    s.push(c).is_ok()
}

/// Relies on heapless::String::pop: removes and returns the last character.
#[verifier::external_body]
fn line_pop(s: &mut heapless::String<64>) -> (r: Option<char>)
    ensures
        line_chars(*old(s)).len() == 0 ==> r is None && line_chars(*final(s)) == line_chars(
            *old(s),
        ),
        line_chars(*old(s)).len() > 0 ==> r == Some(line_chars(*old(s)).last()) && line_chars(
            *final(s),
        ) == line_chars(*old(s)).drop_last(),
{
    s.pop()
}

/// Relies on heapless::String::clear: empties the string.
#[verifier::external_body]
fn line_clear(s: &mut heapless::String<64>)
    ensures
        line_chars(*final(s)) == Seq::<char>::empty(),
{
    s.clear()
}

/// Relies on heapless::String::as_str: the text held.
#[verifier::external_body]
fn line_as_str(s: &heapless::String<64>) -> (r: &str)
    ensures
        r@ == line_chars(*s),
{
    s.as_str()
}

/// The UTF-8 bytes of `c`.
pub fn char_bytes(c: char) -> (r: Vec<u8>)
    ensures
        r@ == encode_utf8(seq![c]),
{
    proof {
        char_is_scalar(c);
        assert(seq![c][0] == c);
        assert(seq![c].drop_first() =~= Seq::<char>::empty());
        assert(encode_utf8(Seq::<char>::empty()) =~= Seq::<u8>::empty());
        assert(encode_utf8(seq![c]) =~= encode_scalar(c as u32));
    }
    let u = c as u32;
    let mut r: Vec<u8> = Vec::new();
    if u <= 0x7F {
        r.push((u & 0x7F) as u8);
    } else if u <= 0x7FF {
        r.push(0xC0 | ((u >> 6) & 0x1F) as u8);
        r.push(0x80 | (u & 0x3F) as u8);
    } else if u <= 0xFFFF {
        r.push(0xE0 | ((u >> 12) & 0x0F) as u8);
        r.push(0x80 | ((u >> 6) & 0x3F) as u8);
        r.push(0x80 | (u & 0x3F) as u8);
    } else {
        r.push(0xF0 | ((u >> 18) & 0x7) as u8);
        r.push(0x80 | ((u >> 12) & 0x3F) as u8);
        r.push(0x80 | ((u >> 6) & 0x3F) as u8);
        r.push(0x80 | (u & 0x3F) as u8);
    }
    assert(r@ =~= encode_scalar(u));
    r
}

/// Carriage return, erase to the end of the line, prompt.
pub open spec fn reprompt_clear() -> Seq<u8> {
    seq![13u8, 27u8, 91u8, 48u8, 75u8, 62u8, 32u8]
}

/// Backspace, erase to the end of the line.
pub open spec fn erase_back() -> Seq<u8> {
    seq![8u8, 27u8, 91u8, 48u8, 75u8]
}

/// Carriage return, line feed, prompt.
pub open spec fn new_prompt() -> Seq<u8> {
    seq![13u8, 10u8, 62u8, 32u8]
}

/// Line and output after a Tab, given what the two passes found: the best
/// match and its exactness, and, where the list pass ran, whether it printed
/// and what it wrote.
pub open spec fn completion_spec(
    line: Seq<char>,
    out: Seq<u8>,
    best: Option<Seq<char>>,
    exact: bool,
    printed: bool,
    listed: Seq<u8>,
) -> (Seq<char>, Seq<u8>) {
    match best {
        None => (line, out),
        Some(c) => {
            if c.len() == 0 {
                if printed {
                    (line, out + listed + new_prompt() + encode_utf8(line))
                } else {
                    (line, out + listed)
                }
            } else if fits(line + c) {
                if exact && fits((line + c).push(' ')) {
                    ((line + c).push(' '), out + encode_utf8(c) + seq![32u8])
                } else {
                    (line + c, out + encode_utf8(c))
                }
            } else {
                (line, out)
            }
        },
    }
}

/// How one action takes the line and the output from `(line, out)` to
/// `(line2, out2)`, and whether the session ends.
pub open spec fn applied(
    line: Seq<char>,
    out: Seq<u8>,
    a: Action,
    line2: Seq<char>,
    out2: Seq<u8>,
    exit: bool,
) -> bool {
    let unchanged = line2 == line && out2 == out;
    if (a == Action::ControlCharacter(ControlCharacter::CtrlC) || a == Action::ControlCharacter(
        ControlCharacter::CtrlD,
    )) && line.len() == 0 {
        exit && unchanged
    } else if a == Action::ControlCharacter(ControlCharacter::CtrlC) {
        !exit && line2 == Seq::<char>::empty() && out2 == out + reprompt_clear()
    } else if a == Action::ControlCharacter(ControlCharacter::Backspace) || a
        == Action::ControlCharacter(ControlCharacter::CtrlH) {
        !exit && if line.len() > 0 {
            line2 == line.drop_last() && out2 == out + erase_back()
        } else {
            unchanged
        }
    } else if a == Action::ControlCharacter(ControlCharacter::CarriageReturn) {
        &&& !exit
        &&& line2 == Seq::<char>::empty()
        &&& exists|t: Seq<u8>| out2 == out + t + new_prompt()
    } else if a == Action::ControlCharacter(ControlCharacter::Tab) {
        &&& !exit
        &&& exists|b: Option<Seq<char>>, e: bool, p: bool, l: Seq<u8>|
            #[trigger] completion_spec(line, out, b, e, p, l) == (line2, out2)
    } else {
        match a {
            Action::Print(c) => !exit && if fits(line.push(c)) {
                line2 == line.push(c) && out2 == out + encode_utf8(seq![c])
            } else {
                unchanged
            },
            _ => !exit && unchanged,
        }
    }
}

proof fn lemma_fits_empty()
    ensures
        fits(Seq::<char>::empty()),
{
    assert(encode_utf8(Seq::<char>::empty()) =~= Seq::<u8>::empty());
}

proof fn lemma_fits_drop_last(s: Seq<char>)
    requires
        fits(s),
        s.len() > 0,
    ensures
        fits(s.drop_last()),
{
    assert(s =~= s.drop_last() + seq![s.last()]);
    lemma_encode_concat(s.drop_last(), seq![s.last()]);
}

/// The line being typed and the decoder that feeds it.
pub struct Editor {
    line: heapless::String<64>,
    parser: Parser,
}

impl Editor {
    /// The characters of the line.
    pub closed spec fn line_view(&self) -> Seq<char> {
        line_chars(self.line)
    }

    /// The bytes of an incomplete character the decoder holds.
    pub closed spec fn pending_view(&self) -> Seq<u8> {
        self.parser@
    }

    pub closed spec fn wf(&self) -> bool {
        self.parser.wf() && fits(line_chars(self.line))
    }

    pub fn new() -> (r: Editor)
        ensures
            r.wf(),
            fits(r.line_view()),
            r.line_view() == Seq::<char>::empty(),
            r.pending_view() == Seq::<u8>::empty(),
    {
        Editor { line: line_new(), parser: Parser::new() }
    }

    /// The current line.
    pub fn line(&self) -> (r: &str)
        ensures
            r@ == self.line_view(),
    {
        line_as_str(&self.line)
    }

    /// Applies what the passes of a Tab found: appends the best match (and a
    /// space, when it was exact) if it fits, or, when the candidates diverge
    /// at once, shows the listing and redraws the prompt and line.
    pub fn apply_completion(
        &mut self,
        best: Option<&str>,
        exact: bool,
        printed: bool,
        listed: &[u8],
        out: &mut Vec<u8>,
    )
        requires
            old(self).wf(),
        ensures
            final(self).wf(),
            fits(final(self).line_view()),
            final(self).pending_view() == old(self).pending_view(),
            (final(self).line_view(), final(out)@) == completion_spec(
                old(self).line_view(),
                old(out)@,
                match best {
                    Some(c) => Some(c@),
                    None => None,
                },
                exact,
                printed,
                listed@,
            ),
    {
        match best {
            None => {},
            Some(complete) => {
                if complete.is_empty() {
                    push_all(out, listed);
                    if printed {
                        let prompt: [u8; 4] = [13, 10, 62, 32];
                        assert(prompt@ =~= new_prompt());
                        push_all(out, prompt.as_slice());
                        let text = line_as_str(&self.line);
                        push_all(out, text.as_bytes());
                    }
                } else if line_push_str(&mut self.line, complete) {
                    push_all(out, complete.as_bytes());
                    if exact {
                        if line_push(&mut self.line, ' ') {
                            let space: [u8; 1] = [32];
                            assert(space@ =~= seq![32u8]);
                            push_all(out, space.as_slice());
                        }
                    }
                }
            },
        }
    }

    /// Runs the two passes of a Tab: the best-match pass, and the list pass
    /// when candidates diverge at the first character. Returns the best
    /// match, its exactness, whether the list pass printed, and its output.
    /// Both passes get the text before the last whitespace as the level and
    /// the word after it as the partial token.
    fn run_passes<H: Handle>(&self, handler: &H) -> (r: (Option<&'static str>, bool, bool, Vec<u8>))
        ensures
            !(r.0 is Some && r.0->0@.len() == 0) ==> !r.2 && r.3@.len() == 0,
    {
        let text = line_as_str(&self.line);
        let (path, to_complete) = split_last_word(text);
        let level = Level::new(path);
        let mut ctx = Context::new(
            ContextType::AutocompleteBestMatch { to_complete, best_match: None, exact_match: false },
        );
        handler.handle(&mut ctx, level);
        let best = ctx.best_match();
        let exact = ctx.exact_match();
        let mut listed: Vec<u8> = Vec::new();
        let mut printed = false;
        if let Some(b) = best {
            if b.is_empty() {
                let mut list_ctx = Context::new(ContextType::AutocompleteList(to_complete));
                handler.handle(&mut list_ctx, level);
                printed = list_ctx.printed_stuff();
                push_all(&mut listed, list_ctx.output());
            }
        }
        (best, exact, printed, listed)
    }

    /// Completes the last word of the line through `handler`.
    pub fn complete<H: Handle>(&mut self, handler: &H, out: &mut Vec<u8>)
        requires
            old(self).wf(),
        ensures
            final(self).wf(),
            final(self).pending_view() == old(self).pending_view(),
            fits(final(self).line_view()),
            exists|b: Option<Seq<char>>, e: bool, p: bool, l: Seq<u8>|
                (!(b is Some && b->0.len() == 0) ==> !p && l.len() == 0) && #[trigger] completion_spec(
                    old(self).line_view(),
                    old(out)@,
                    b,
                    e,
                    p,
                    l,
                ) == (final(self).line_view(), final(out)@),
    {
        let (best, exact, printed, listed) = self.run_passes(handler);
        self.apply_completion(best, exact, printed, listed.as_slice(), out);
    }

    /// What `handler` prints when it executes the line.
    fn run_execute<H: Handle>(&self, handler: &H) -> (r: Vec<u8>) {
        let level = Level::new(line_as_str(&self.line));
        let mut ctx = Context::new(ContextType::Execute);
        handler.handle(&mut ctx, level);
        let mut printed: Vec<u8> = Vec::new();
        push_all(&mut printed, ctx.output());
        printed
    }

    /// Executes the line through `handler`, then clears it and prompts anew.
    pub fn submit<H: Handle>(&mut self, handler: &H, out: &mut Vec<u8>)
        requires
            old(self).wf(),
        ensures
            final(self).wf(),
            fits(final(self).line_view()),
            final(self).pending_view() == old(self).pending_view(),
            final(self).line_view() == Seq::<char>::empty(),
            exists|t: Seq<u8>| final(out)@ == old(out)@ + t + new_prompt(),
    {
        let printed = self.run_execute(handler);
        push_all(out, printed.as_slice());
        line_clear(&mut self.line);
        let prompt: [u8; 4] = [13, 10, 62, 32];
        assert(prompt@ =~= new_prompt());
        push_all(out, prompt.as_slice());
        assert(final(out)@ == old(out)@ + printed@ + new_prompt());
    }

    /// Applies one decoded action to the line, appending what the terminal
    /// should show to `out`. Returns true when the session ends.
    pub fn apply<H: Handle>(&mut self, handler: &H, action: Action, out: &mut Vec<u8>) -> (exit: bool)
        requires
            old(self).wf(),
        ensures
            final(self).wf(),
            fits(final(self).line_view()),
            final(self).pending_view() == old(self).pending_view(),
            applied(
                old(self).line_view(),
                old(out)@,
                action,
                final(self).line_view(),
                final(out)@,
                exit,
            ),
    {
        let empty = line_as_str(&self.line).is_empty();
        match action {
            Action::ControlCharacter(ControlCharacter::CtrlC) => {
                if empty {
                    return true;
                }
                let bytes: [u8; 7] = [13, 27, 91, 48, 75, 62, 32];
                assert(bytes@ =~= reprompt_clear());
                push_all(out, bytes.as_slice());
                line_clear(&mut self.line);
                proof {
                    lemma_fits_empty();
                }
                false
            },
            Action::ControlCharacter(ControlCharacter::CtrlD) => empty,
            Action::Print(c) => {
                if line_push(&mut self.line, c) {
                    let bytes = char_bytes(c);
                    push_all(out, bytes.as_slice());
                }
                false
            },
            Action::ControlCharacter(ControlCharacter::Backspace)
            | Action::ControlCharacter(ControlCharacter::CtrlH) => {
                let ghost before = self.line_view();
                if line_pop(&mut self.line).is_some() {
                    proof {
                        lemma_fits_drop_last(before);
                    }
                    let bytes: [u8; 5] = [8, 27, 91, 48, 75];
                    assert(bytes@ =~= erase_back());
                    push_all(out, bytes.as_slice());
                }
                false
            },
            Action::ControlCharacter(ControlCharacter::CarriageReturn) => {
                self.submit(handler, out);
                false
            },
            Action::ControlCharacter(ControlCharacter::Tab) => {
                self.complete(handler, out);
                false
            },
            _ => false,
        }
    }

    /// Decodes one input byte and applies the action it completes.
    pub fn feed<H: Handle>(&mut self, handler: &H, byte: u8, out: &mut Vec<u8>) -> (exit: bool)
        requires
            old(self).wf(),
        ensures
            final(self).wf(),
            fits(final(self).line_view()),
            is_control(byte) ==> applied(
                old(self).line_view(),
                old(out)@,
                Action::ControlCharacter(control_of(byte)),
                final(self).line_view(),
                final(out)@,
                exit,
            ),
            is_control(byte) ==> final(self).pending_view() == Seq::<u8>::empty(),
            !is_control(byte) ==> ({
                let s = extended(old(self).pending_view(), byte);
                let w = lead_width(s[0]);
                &&& final(self).pending_view() == (if w != 0 && s.len() < w {
                    s
                } else {
                    Seq::<u8>::empty()
                })
                &&& if w != 0 && s.len() >= w && valid_utf8(s) {
                    applied(
                        old(self).line_view(),
                        old(out)@,
                        Action::Print(decode_utf8(s)[0]),
                        final(self).line_view(),
                        final(out)@,
                        exit,
                    )
                } else {
                    &&& !exit
                    &&& final(self).line_view() == old(self).line_view()
                    &&& final(out)@ == old(out)@
                }
            }),
    {
        let action = self.parser.advance(byte);
        let exit = self.apply(handler, action, out);
        proof {
            if let Action::Print(c) = action {
                assert(seq![c][0] == c);
                assert(applied(
                    old(self).line_view(),
                    old(out)@,
                    Action::Print(c),
                    self.line_view(),
                    out@,
                    exit,
                ));
            }
        }
        exit
    }
}

} // verus!
