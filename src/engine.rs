use vstd::prelude::*;
use vstd::utf8::*;
use vstd::string::StringSliceAdditionalSpecFns;
use crate::text::{
    is_ws, skip_ws, drop_trailing_ws, lcp, stripped, is_whitespace, strip_prefix, trim_start,
    trim_end, first_char, common_prefix,
};

verus! {

/// Carriage return, line feed.
pub open spec fn crlf() -> Seq<u8> {
    seq![13u8, 10u8]
}

/// Carriage return, then erase to the end of the line.
pub open spec fn cr_erase() -> Seq<u8> {
    seq![13u8, 27u8, 91u8, 48u8, 75u8]
}

/// The traversal a `Context` drives the handler through.
pub enum ContextType<'a> {
    /// Run the command that the line names.
    Execute,
    /// Collect the longest completion shared by every sibling that starts with `to_complete`.
    AutocompleteBestMatch {
        to_complete: &'a str,
        best_match: Option<&'static str>,
        exact_match: bool,
    },
    /// Print every sibling that starts with the given partial token.
    AutocompleteList(&'a str),
}

/// The mathematical value of a `ContextType`.
pub enum ModeView {
    Execute,
    BestMatch { to_complete: Seq<char>, best_match: Option<Seq<char>>, exact_match: bool },
    List(Seq<char>),
}

impl<'a> ContextType<'a> {
    pub open spec fn view(&self) -> ModeView {
        match *self {
            ContextType::Execute => ModeView::Execute,
            ContextType::AutocompleteBestMatch { to_complete, best_match, exact_match } => {
                ModeView::BestMatch {
                    to_complete: to_complete@,
                    best_match: match best_match {
                        Some(b) => Some(b@),
                        None => None,
                    },
                    exact_match,
                }
            },
            ContextType::AutocompleteList(t) => ModeView::List(t@),
        }
    }
}

/// The unmatched rest of the line during one traversal.
#[derive(Debug, Clone, Copy)]
pub struct Level<'a> {
    line: &'a str,
}

impl<'a> View for Level<'a> {
    type V = Seq<char>;

    closed spec fn view(&self) -> Seq<char> {
        self.line@
    }
}

impl<'a> Level<'a> {
    pub fn new(line: &'a str) -> (r: Level<'a>)
        ensures
            r@ == line@,
    {
        Level { line }
    }

    /// The text this level still has to match.
    pub fn as_str(&self) -> (r: &'a str)
        ensures
            r@ == self@,
    {
        self.line
    }
}

/// The mathematical value of a `Context`.
pub struct ContextView {
    pub mode: ModeView,
    pub printed_stuff: bool,
    pub done: bool,
    pub output: Seq<u8>,
}

/// Per-traversal state: the mode, whether anything was printed, whether a
/// command has already run, and the bytes written so far.
pub struct Context<'a> {
    ctx_type: ContextType<'a>,
    printed_stuff: bool,
    done: bool,
    out: Vec<u8>,
}

impl<'a> View for Context<'a> {
    type V = ContextView;

    closed spec fn view(&self) -> ContextView {
        ContextView {
            mode: self.ctx_type@,
            printed_stuff: self.printed_stuff,
            done: self.done,
            output: self.out@,
        }
    }
}

/// `name` followed by whitespace or the end opens `s`.
pub open spec fn command_matches(s: Seq<char>, name: Seq<char>) -> bool {
    &&& name.is_prefix_of(s)
    &&& (s.len() == name.len() || is_ws(s[name.len() as int]))
}

/// What `print(data)` makes of a context.
pub open spec fn print_spec(c: ContextView, data: Seq<u8>) -> ContextView {
    let lead = if c.printed_stuff {
        Seq::<u8>::empty()
    } else if c.mode is Execute {
        crlf()
    } else {
        cr_erase()
    };
    ContextView { printed_stuff: true, output: c.output + lead + data, ..c }
}

/// What `hint_autocomplete(name)` makes of a context.
pub open spec fn hint_spec(c: ContextView, name: Seq<char>) -> ContextView {
    match c.mode {
        ModeView::Execute => c,
        ModeView::BestMatch { to_complete, best_match, exact_match } => {
            match stripped(name, to_complete) {
                Some(rest) => ContextView {
                    mode: ModeView::BestMatch {
                        to_complete,
                        best_match: Some(
                            match best_match {
                                Some(prev) => lcp(prev, rest),
                                None => rest,
                            },
                        ),
                        exact_match: best_match is None,
                    },
                    ..c
                },
                None => c,
            }
        },
        ModeView::List(to_complete) => {
            if to_complete.is_prefix_of(name) {
                let spaced = if c.printed_stuff {
                    print_spec(c, seq![32u8])
                } else {
                    c
                };
                print_spec(spaced, encode_utf8(name))
            } else {
                c
            }
        },
    }
}

/// Appends `data` to `out`.
pub(crate) fn push_all(out: &mut Vec<u8>, data: &[u8])
    ensures
        final(out)@ == old(out)@ + data@,
{
    out.extend_from_slice(data);
    assert(final(out)@ =~= old(out)@ + data@);
}

/// The command tree: one function walked once per traversal mode.
pub trait Handle {
    fn handle<'a>(&self, ctx: &mut Context<'a>, level: Level<'a>);
}

impl<'a> Context<'a> {
    pub fn new(ctx_type: ContextType<'a>) -> (r: Context<'a>)
        ensures
            r@ == (ContextView {
                mode: ctx_type@,
                printed_stuff: false,
                done: false,
                output: Seq::<u8>::empty(),
            }),
    {
        Context { ctx_type, printed_stuff: false, done: false, out: Vec::new() }
    }

    /// True when a command body with no argument should run here; it then
    /// marks the traversal done.
    pub fn exec(&mut self, level: Level<'_>) -> (r: bool)
        ensures
            r == (!old(self)@.done && old(self)@.mode is Execute && level@.len() == 0),
            final(self)@ == (ContextView { done: old(self)@.done || r, ..old(self)@ }),
    {
        if self.done {
            return false;
        }
        let r = match self.ctx_type {
            ContextType::Execute => level.line.is_empty(),
            _ => false,
        };
        if r {
            self.done = true;
        }
        r
    }

    /// The argument of a command body that takes one: the rest of the line
    /// without trailing whitespace, when it is not empty; it then marks the
    /// traversal done.
    pub fn exec_arg<'l>(&mut self, level: Level<'l>) -> (r: Option<&'l str>)
        ensures
            r is Some <==> (!old(self)@.done && old(self)@.mode is Execute && drop_trailing_ws(
                level@,
            ).len() > 0),
            r is Some ==> r->0@ == drop_trailing_ws(level@),
            final(self)@ == (ContextView { done: old(self)@.done || r is Some, ..old(self)@ }),
    {
        if self.done {
            return None;
        }
        match self.ctx_type {
            ContextType::Execute => {
                let line = trim_end(level.line);
                if line.is_empty() {
                    None
                } else {
                    self.done = true;
                    Some(line)
                }
            },
            _ => None,
        }
    }

    /// Descends into `name` when it opens the level; on an empty level it
    /// offers `name` to the autocomplete passes instead.
    pub fn command<'l>(&mut self, level: Level<'l>, name: &'static str) -> (r: Option<Level<'l>>)
        ensures
            r is Some <==> (!old(self)@.done && level@.len() > 0 && command_matches(level@, name@)),
            r is Some ==> r->0@ == skip_ws(level@.skip(name@.len() as int)),
            final(self)@ == (if !old(self)@.done && level@.len() == 0 {
                hint_spec(old(self)@, name@)
            } else {
                old(self)@
            }),
    {
        if self.done {
            return None;
        }
        if !level.line.is_empty() {
            if let Some(rest) = strip_prefix(level.line, name) {
                let at_boundary = match first_char(rest) {
                    None => true,
                    Some(c) => is_whitespace(c),
                };
                if at_boundary {
                    return Some(Level { line: trim_start(rest) });
                }
            }
        } else {
            self.hint_autocomplete(name);
        }
        None
    }

    /// Writes `data`; the first write of a traversal first clears the way.
    pub fn print(&mut self, data: &[u8])
        ensures
            final(self)@ == print_spec(old(self)@, data@),
    {
        if !self.printed_stuff {
            self.printed_stuff = true;
            match self.ctx_type {
                ContextType::Execute => {
                    let lead: [u8; 2] = [13, 10];
                    assert(lead@ =~= crlf());
                    push_all(&mut self.out, lead.as_slice());
                },
                _ => {
                    let lead: [u8; 5] = [13, 27, 91, 48, 75];
                    assert(lead@ =~= cr_erase());
                    push_all(&mut self.out, lead.as_slice());
                },
            }
        }
        push_all(&mut self.out, data);
        assert(self@.output =~= print_spec(old(self)@, data@).output);
    }

    /// Offers `name` as a completion at the current point of the traversal.
    pub fn hint_autocomplete(&mut self, name: &'static str)
        ensures
            final(self)@ == hint_spec(old(self)@, name@),
    {
        match &mut self.ctx_type {
            ContextType::AutocompleteBestMatch { to_complete, best_match, exact_match } => {
                if let Some(rest) = strip_prefix(name, to_complete) {
                    match best_match {
                        Some(prev) => {
                            *exact_match = false;
                            *best_match = Some(common_prefix(prev, rest));
                        },
                        None => {
                            *exact_match = true;
                            *best_match = Some(rest);
                        },
                    }
                }
            },
            ContextType::AutocompleteList(to_complete) => {
                if strip_prefix(name, to_complete).is_some() {
                    if self.printed_stuff {
                        let space: [u8; 1] = [32];
                        assert(space@ =~= seq![32u8]);
                        self.print(space.as_slice());
                    }
                    self.print(name.as_bytes());
                }
            },
            ContextType::Execute => {},
        }
    }

    /// The best completion found by an `AutocompleteBestMatch` pass.
    pub fn best_match(&self) -> (r: Option<&'static str>)
        ensures
            match self@.mode {
                ModeView::BestMatch { best_match, .. } => (r is Some <==> best_match is Some) && (
                r is Some ==> r->0@ == best_match->0),
                _ => r is None,
            },
    {
        match self.ctx_type {
            ContextType::AutocompleteBestMatch { best_match, .. } => best_match,
            _ => None,
        }
    }

    /// Whether exactly one candidate made up the best match.
    pub fn exact_match(&self) -> (r: bool)
        ensures
            r == (match self@.mode {
                ModeView::BestMatch { exact_match, .. } => exact_match,
                _ => false,
            }),
    {
        match self.ctx_type {
            ContextType::AutocompleteBestMatch { exact_match, .. } => exact_match,
            _ => false,
        }
    }

    pub fn printed_stuff(&self) -> (r: bool)
        ensures
            r == self@.printed_stuff,
    {
        self.printed_stuff
    }

    /// The bytes written during this traversal.
    pub fn output(&self) -> (r: &[u8])
        ensures
            r@ == self@.output,
    {
        self.out.as_slice()
    }
}

/// The context after `names` are offered in turn, through `hint_autocomplete`
/// or through `command` on an empty level.
pub open spec fn hints(c: ContextView, names: Seq<Seq<char>>) -> ContextView
    decreases names.len(),
{
    if names.len() == 0 {
        c
    } else {
        hint_spec(hints(c, names.drop_last()), names.last())
    }
}

/// Some name in `names` starts with `to_complete`.
pub open spec fn any_match(to_complete: Seq<char>, names: Seq<Seq<char>>) -> bool {
    exists|i: int| 0 <= i < names.len() && to_complete.is_prefix_of(#[trigger] names[i])
}

/// The listing of a list pass: the names that start with `to_complete`,
/// space-separated, after one carriage return and erase.
pub open spec fn listing(to_complete: Seq<char>, names: Seq<Seq<char>>) -> Seq<u8>
    decreases names.len(),
{
    if names.len() == 0 {
        Seq::<u8>::empty()
    } else {
        let prev = listing(to_complete, names.drop_last());
        if to_complete.is_prefix_of(names.last()) {
            if any_match(to_complete, names.drop_last()) {
                prev + seq![32u8] + encode_utf8(names.last())
            } else {
                prev + cr_erase() + encode_utf8(names.last())
            }
        } else {
            prev
        }
    }
}

/// A fresh context of a list pass for `to_complete`.
pub open spec fn fresh_list(to_complete: Seq<char>) -> ContextView {
    ContextView {
        mode: ModeView::List(to_complete),
        printed_stuff: false,
        done: false,
        output: Seq::<u8>::empty(),
    }
}

/// A list pass prints exactly the listing of the names offered to it, and
/// has printed anything exactly when some name matched.
pub proof fn lemma_list_pass_output(to_complete: Seq<char>, names: Seq<Seq<char>>)
    ensures
        hints(fresh_list(to_complete), names).output == listing(to_complete, names),
        hints(fresh_list(to_complete), names).printed_stuff == any_match(to_complete, names),
        hints(fresh_list(to_complete), names).mode == ModeView::List(to_complete),
    decreases names.len(),
{
    if names.len() > 0 {
        let init = names.drop_last();
        lemma_list_pass_output(to_complete, init);
        let prev = hints(fresh_list(to_complete), init);
        if to_complete.is_prefix_of(names.last()) {
            assert(names[names.len() - 1] == names.last());
        } else {
            assert forall|i: int| 0 <= i < names.len() && to_complete.is_prefix_of(
                #[trigger] names[i],
            ) implies 0 <= i < init.len() && to_complete.is_prefix_of(init[i]) by {
                if i == names.len() - 1 {
                    assert(names[i] == names.last());
                }
            }
        }
        assert forall|i: int| 0 <= i < init.len() && to_complete.is_prefix_of(#[trigger] init[i])
            implies 0 <= i < names.len() && to_complete.is_prefix_of(names[i]) by {
            assert(init[i] == names[i]);
        }
        if to_complete.is_prefix_of(names.last()) {
            let step = hint_spec(prev, names.last());
            assert(step.output =~= listing(to_complete, names));
        }
    }
}

/// How many of `names` start with `to_complete`.
pub open spec fn match_count(to_complete: Seq<char>, names: Seq<Seq<char>>) -> nat
    decreases names.len(),
{
    if names.len() == 0 {
        0
    } else if to_complete.is_prefix_of(names.last()) {
        match_count(to_complete, names.drop_last()) + 1
    } else {
        match_count(to_complete, names.drop_last())
    }
}

/// A fresh context of a best-match pass for `to_complete`.
pub open spec fn fresh_best(to_complete: Seq<char>) -> ContextView {
    ContextView {
        mode: ModeView::BestMatch { to_complete, best_match: None, exact_match: false },
        printed_stuff: false,
        done: false,
        output: Seq::<u8>::empty(),
    }
}

/// A best-match pass has a best match exactly when some name matched, calls
/// it exact exactly when one name matched, and prints nothing; the best
/// match is a prefix of the rest of every matching name.
pub proof fn lemma_best_match_pass(to_complete: Seq<char>, names: Seq<Seq<char>>)
    ensures
        ({
            let c = hints(fresh_best(to_complete), names);
            &&& c.mode is BestMatch
            &&& c.mode->BestMatch_to_complete == to_complete
            &&& (c.mode->BestMatch_best_match is Some <==> match_count(to_complete, names) > 0)
            &&& (c.mode->BestMatch_exact_match <==> match_count(to_complete, names) == 1)
            &&& c.output == Seq::<u8>::empty()
            &&& !c.printed_stuff
            &&& forall|i: int|
                0 <= i < names.len() && to_complete.is_prefix_of(#[trigger] names[i])
                    ==> c.mode->BestMatch_best_match->0.is_prefix_of(
                    names[i].skip(to_complete.len() as int),
                )
        }),
    decreases names.len(),
{
    if names.len() > 0 {
        let init = names.drop_last();
        lemma_best_match_pass(to_complete, init);
        let prev = hints(fresh_best(to_complete), init);
        let last = names.last();
        if to_complete.is_prefix_of(last) {
            let rest = last.skip(to_complete.len() as int);
            match prev.mode->BestMatch_best_match {
                Some(p) => {
                    lemma_lcp_prefix(p, rest);
                },
                None => {},
            }
        }
        let c = hints(fresh_best(to_complete), names);
        assert forall|i: int|
            0 <= i < names.len() && to_complete.is_prefix_of(#[trigger] names[i])
                implies c.mode->BestMatch_best_match->0.is_prefix_of(
                names[i].skip(to_complete.len() as int),
            ) by {
            if i < names.len() - 1 {
                assert(init[i] == names[i]);
                lemma_count_positive(to_complete, init, i);
                if to_complete.is_prefix_of(last) {
                    let rest = last.skip(to_complete.len() as int);
                    let p = prev.mode->BestMatch_best_match->0;
                    lemma_lcp_prefix(p, rest);
                    lemma_prefix_trans(lcp(p, rest), p, names[i].skip(to_complete.len() as int));
                }
            } else {
                assert(names[i] == last);
                let rest = last.skip(to_complete.len() as int);
                match prev.mode->BestMatch_best_match {
                    Some(p) => {
                        lemma_lcp_prefix(p, rest);
                    },
                    None => {
                        assert(rest.is_prefix_of(rest));
                    },
                }
            }
        }
    }
}

/// The best match of a best-match pass is the longest completion shared by
/// every matching name: any common prefix of their rests is a prefix of it.
pub proof fn lemma_best_match_longest(to_complete: Seq<char>, names: Seq<Seq<char>>, q: Seq<char>)
    requires
        match_count(to_complete, names) > 0,
        forall|i: int|
            0 <= i < names.len() && to_complete.is_prefix_of(#[trigger] names[i])
                ==> q.is_prefix_of(names[i].skip(to_complete.len() as int)),
    ensures
        q.is_prefix_of(hints(fresh_best(to_complete), names).mode->BestMatch_best_match->0),
    decreases names.len(),
{
    let init = names.drop_last();
    let last = names.last();
    lemma_best_match_pass(to_complete, init);
    let prev = hints(fresh_best(to_complete), init);
    assert forall|i: int|
        0 <= i < init.len() && to_complete.is_prefix_of(#[trigger] init[i])
            implies q.is_prefix_of(init[i].skip(to_complete.len() as int)) by {
        assert(init[i] == names[i]);
    }
    if to_complete.is_prefix_of(last) {
        let rest = last.skip(to_complete.len() as int);
        assert(names[names.len() - 1] == last);
        match prev.mode->BestMatch_best_match {
            Some(p) => {
                lemma_best_match_longest(to_complete, init, q);
                lemma_lcp_greatest(q, p, rest);
            },
            None => {},
        }
    } else {
        lemma_best_match_longest(to_complete, init, q);
    }
}

/// A common prefix of `a` and `b` is a prefix of their longest common prefix.
pub proof fn lemma_lcp_greatest(q: Seq<char>, a: Seq<char>, b: Seq<char>)
    requires
        q.is_prefix_of(a),
        q.is_prefix_of(b),
    ensures
        q.is_prefix_of(lcp(a, b)),
    decreases q.len(),
{
    if q.len() == 0 {
        assert(q =~= lcp(a, b).subrange(0, 0));
    } else {
        assert(a[0] == q[0] && b[0] == q[0]);
        assert(q.drop_first().is_prefix_of(a.drop_first())) by {
            assert(q.drop_first() =~= a.drop_first().subrange(0, q.len() - 1));
        }
        assert(q.drop_first().is_prefix_of(b.drop_first())) by {
            assert(q.drop_first() =~= b.drop_first().subrange(0, q.len() - 1));
        }
        lemma_lcp_greatest(q.drop_first(), a.drop_first(), b.drop_first());
        let r = lcp(a.drop_first(), b.drop_first());
        assert(lcp(a, b) =~= seq![a[0]] + r);
        assert(q.drop_first() =~= r.subrange(0, q.len() - 1));
        assert forall|j: int| 0 <= j < q.len() implies q[j] == lcp(a, b)[j] by {
            if j > 0 {
                assert(q[j] == q.drop_first()[j - 1]);
            }
        }
        assert(q =~= lcp(a, b).subrange(0, q.len() as int));
    }
}

/// Two list passes for the same partial token that are offered the same
/// names write byte-identical output: the listing of those names.
pub proof fn lemma_list_pass_repeatable(to_complete: Seq<char>, names: Seq<Seq<char>>, c1: ContextView, c2: ContextView)
    requires
        c1 == fresh_list(to_complete),
        c2 == fresh_list(to_complete),
    ensures
        hints(c1, names).output == hints(c2, names).output,
        hints(c1, names).output == listing(to_complete, names),
{
    lemma_list_pass_output(to_complete, names);
}

proof fn lemma_count_positive(to_complete: Seq<char>, names: Seq<Seq<char>>, i: int)
    requires
        0 <= i < names.len(),
        to_complete.is_prefix_of(names[i]),
    ensures
        match_count(to_complete, names) > 0,
    decreases names.len(),
{
    if i < names.len() - 1 {
        assert(names.drop_last()[i] == names[i]);
        lemma_count_positive(to_complete, names.drop_last(), i);
    }
}

/// The longest common prefix is a prefix of both sequences.
pub proof fn lemma_lcp_prefix(a: Seq<char>, b: Seq<char>)
    ensures
        lcp(a, b).is_prefix_of(a),
        lcp(a, b).is_prefix_of(b),
    decreases a.len(),
{
    if a.len() > 0 && b.len() > 0 && a[0] == b[0] {
        lemma_lcp_prefix(a.drop_first(), b.drop_first());
        let r = lcp(a.drop_first(), b.drop_first());
        assert(lcp(a, b) =~= seq![a[0]] + r);
        assert(lcp(a, b) =~= a.subrange(0, lcp(a, b).len() as int));
        assert(lcp(a, b) =~= b.subrange(0, lcp(a, b).len() as int));
    } else {
        assert(lcp(a, b) =~= a.subrange(0, 0));
        assert(lcp(a, b) =~= b.subrange(0, 0));
    }
}

proof fn lemma_prefix_trans(x: Seq<char>, y: Seq<char>, z: Seq<char>)
    requires
        x.is_prefix_of(y),
        y.is_prefix_of(z),
    ensures
        x.is_prefix_of(z),
{
    assert(x =~= z.subrange(0, x.len() as int));
}

} // verus!
