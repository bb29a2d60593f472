use vstd::prelude::*;
use vstd::utf8::*;
use vstd::string::StringSliceAdditionalSpecFns;
use vstd::std_specs::iter::IteratorSpec;

verus! {

broadcast use vstd::string::axiom_spec_iter, vstd::string::next_postcondition;

/// Unicode `White_Space`: the characters for which `char::is_whitespace` holds.
pub open spec fn is_ws(c: char) -> bool {
    let u = c as u32;
    ||| 0x09 <= u <= 0x0D
    ||| u == 0x20
    ||| u == 0x85
    ||| u == 0xA0
    ||| u == 0x1680
    ||| 0x2000 <= u <= 0x200A
    ||| u == 0x2028
    ||| u == 0x2029
    ||| u == 0x202F
    ||| u == 0x205F
    ||| u == 0x3000
}

/// `s` with its leading whitespace removed.
pub open spec fn skip_ws(s: Seq<char>) -> Seq<char>
    decreases s.len(),
{
    if s.len() > 0 && is_ws(s[0]) {
        skip_ws(s.drop_first())
    } else {
        s
    }
}

/// `s` with its trailing whitespace removed.
pub open spec fn drop_trailing_ws(s: Seq<char>) -> Seq<char>
    decreases s.len(),
{
    if s.len() > 0 && is_ws(s.last()) {
        drop_trailing_ws(s.drop_last())
    } else {
        s
    }
}

/// The longest common prefix of `a` and `b`.
pub open spec fn lcp(a: Seq<char>, b: Seq<char>) -> Seq<char>
    decreases a.len(),
{
    if a.len() > 0 && b.len() > 0 && a[0] == b[0] {
        seq![a[0]] + lcp(a.drop_first(), b.drop_first())
    } else {
        seq![]
    }
}

/// What `s.strip_prefix(p)` returns.
pub open spec fn stripped(s: Seq<char>, p: Seq<char>) -> Option<Seq<char>> {
    if p.is_prefix_of(s) {
        Some(s.skip(p.len() as int))
    } else {
        None
    }
}

/// Whether `c` is whitespace, as `char::is_whitespace` defines it.
pub fn is_whitespace(c: char) -> (r: bool)
    ensures
        r == is_ws(c),
{
    let u = c as u32;
    (0x09 <= u && u <= 0x0D) || u == 0x20 || u == 0x85 || u == 0xA0 || u == 0x1680 || (0x2000 <= u
        && u <= 0x200A) || u == 0x2028 || u == 0x2029 || u == 0x202F || u == 0x205F || u == 0x3000
}

/// Relies on str::strip_prefix: the rest of `s` after `p`, when `s` starts with `p`.
#[verifier::external_body]
pub(crate) fn strip_prefix<'s>(s: &'s str, p: &str) -> (r: Option<&'s str>)
    ensures
        r is Some <==> stripped(s@, p@) is Some,
        r is Some ==> r->0@ == stripped(s@, p@)->0,
{
    s.strip_prefix(p)
}

/// Relies on str::trim_start: leading `White_Space` removed.
#[verifier::external_body]
pub(crate) fn trim_start<'s>(s: &'s str) -> (r: &'s str)
    ensures
        r@ == skip_ws(s@),
{
    s.trim_start()
}

/// Relies on str::trim_end: trailing `White_Space` removed.
#[verifier::external_body]
pub(crate) fn trim_end<'s>(s: &'s str) -> (r: &'s str)
    ensures
        r@ == drop_trailing_ws(s@),
{
    s.trim_end()
}

/// Relies on str::rsplit_once with `char::is_whitespace`: the text before and
/// after the last whitespace character, if there is one.
#[verifier::external_body]
pub(crate) fn rsplit_once_ws<'s>(s: &'s str) -> (r: Option<(&'s str, &'s str)>)
    ensures
        r is None <==> (forall|i: int| 0 <= i < s@.len() ==> !is_ws(#[trigger] s@[i])),
        r is Some ==> ({
            let (head, tail) = r->0;
            &&& head@.len() < s@.len()
            &&& is_ws(s@[head@.len() as int])
            &&& s@ == head@ + seq![s@[head@.len() as int]] + tail@
            &&& forall|j: int| 0 <= j < tail@.len() ==> !is_ws(#[trigger] tail@[j])
        }),
{
    s.rsplit_once(char::is_whitespace)
}

/// No character of `s` is whitespace.
pub open spec fn no_ws(s: Seq<char>) -> bool {
    forall|i: int| 0 <= i < s.len() ==> !is_ws(#[trigger] s[i])
}

/// Splits `line` at its last whitespace character into the text before it
/// and the word after it; a line without whitespace is all word.
pub fn split_last_word<'s>(line: &'s str) -> (r: (&'s str, &'s str))
    ensures
        no_ws(line@) ==> r.0@ == Seq::<char>::empty() && r.1@ == line@,
        !no_ws(line@) ==> {
            &&& r.0@.len() < line@.len()
            &&& is_ws(line@[r.0@.len() as int])
            &&& line@ == r.0@ + seq![line@[r.0@.len() as int]] + r.1@
            &&& no_ws(r.1@)
        },
{
    match rsplit_once_ws(line) {
        None => {
            let empty = "";
            proof {
                reveal_strlit("");
            }
            (empty, line)
        },
        Some(split) => split,
    }
}

/// The first character of `s`, if any.
pub(crate) fn first_char(s: &str) -> (r: Option<char>)
    ensures
        r == (if s@.len() > 0 { Some(s@[0]) } else { None::<char> }),
{
    let mut it = s.chars();
    it.next()
}

/// Number of bytes in the UTF-8 encoding of `c`.
pub fn utf8_width(c: char) -> (r: usize)
    ensures
        r == encode_scalar(c as u32).len(),
        1 <= r <= 4,
{
    proof {
        char_is_scalar(c);
    }
    let u = c as u32;
    if u < 0x80 {
        1
    } else if u < 0x800 {
        2
    } else if u < 0x10000 {
        3
    } else {
        4
    }
}

pub proof fn lemma_encode_concat(x: Seq<char>, y: Seq<char>)
    ensures
        encode_utf8(x + y) == encode_utf8(x) + encode_utf8(y),
    decreases x.len(),
{
    if x.len() == 0 {
        assert(x + y =~= y);
        assert(encode_utf8(x) + encode_utf8(y) =~= encode_utf8(y));
    } else {
        lemma_encode_concat(x.drop_first(), y);
        assert((x + y).drop_first() =~= x.drop_first() + y);
        assert(encode_utf8(x + y) =~= encode_utf8(x) + encode_utf8(y));
    }
}

pub proof fn lemma_boundary_after(x: Seq<char>, y: Seq<char>)
    ensures
        is_char_boundary(encode_utf8(x + y), encode_utf8(x).len() as int),
    decreases x.len(),
{
    broadcast use encode_utf8_valid_utf8;

    if x.len() > 0 {
        let bytes = encode_utf8(x + y);
        encode_utf8_first_scalar(x + y);
        lemma_boundary_after(x.drop_first(), y);
        assert((x + y).drop_first() =~= x.drop_first() + y);
        assert(pop_first_scalar(bytes) =~= encode_utf8(x.drop_first() + y));
        lemma_encode_concat(x, y);
    }
}

proof fn lemma_lcp_step(a: Seq<char>, b: Seq<char>, k: int)
    requires
        0 <= k < a.len(),
        k < b.len(),
        a[k] == b[k],
    ensures
        lcp(a.skip(k), b.skip(k)) == seq![a[k]] + lcp(a.skip(k + 1), b.skip(k + 1)),
{
    assert(a.skip(k).drop_first() =~= a.skip(k + 1));
    assert(b.skip(k).drop_first() =~= b.skip(k + 1));
}

/// The longest common prefix of `a` and `b`, as a slice of `a`.
pub fn common_prefix<'a>(a: &'a str, b: &str) -> (r: &'a str)
    ensures
        r@ == lcp(a@, b@),
{
    let _n = a.as_bytes().len();
    let mut ia = a.chars();
    let mut ib = b.chars();
    let mut end: usize = 0;
    let ghost mut k: int = 0;
    proof {
        lemma_encode_concat(a@.take(0), a@.skip(0));
        assert(a@.take(0) + a@.skip(0) =~= a@);
        assert(a@.skip(0) =~= a@);
        assert(b@.skip(0) =~= b@);
        assert(a@.take(0) + lcp(a@.skip(0), b@.skip(0)) =~= lcp(a@, b@));
    }
    loop
        invariant_except_break
            ia.remaining() == a@.skip(k),
            ib.remaining() == b@.skip(k),
        invariant
            _n == a.spec_bytes().len(),
            0 <= k <= a@.len(),
            k <= b@.len(),
            a@.take(k) + lcp(a@.skip(k), b@.skip(k)) == lcp(a@, b@),
            end == encode_utf8(a@.take(k)).len(),
            encode_utf8(a@) == encode_utf8(a@.take(k)) + encode_utf8(a@.skip(k)),
        ensures
            lcp(a@.skip(k), b@.skip(k)) == Seq::<char>::empty(),
        decreases a@.len() - k,
    {
        let ca = ia.next();
        let cb = ib.next();
        match (ca, cb) {
            (Some(x), Some(y)) => {
                if x != y {
                    break;
                }
                let w = utf8_width(x);
                proof {
                    lemma_lcp_step(a@, b@, k);
                    let t = a@.take(k);
                    let s = a@.skip(k);
                    assert(a@.take(k + 1) =~= t + seq![x]);
                    assert(s =~= seq![x] + a@.skip(k + 1));
                    lemma_encode_concat(t, seq![x]);
                    lemma_encode_concat(seq![x], a@.skip(k + 1));
                    lemma_encode_concat(t + seq![x], a@.skip(k + 1));
                    assert(t + s =~= (t + seq![x]) + a@.skip(k + 1));
                    assert(encode_utf8(seq![x]) =~= encode_scalar(x as u32)) by {
                        char_is_scalar(x);
                        assert(seq![x][0] == x);
                        assert(seq![x].drop_first() =~= Seq::<char>::empty());
                        assert(encode_utf8(Seq::<char>::empty()) =~= Seq::<u8>::empty());
                    }
                    assert(t + (seq![x] + lcp(a@.skip(k + 1), b@.skip(k + 1))) =~= (t + seq![x])
                        + lcp(a@.skip(k + 1), b@.skip(k + 1)));
                    k = k + 1;
                }
                end = end + w;
            },
            _ => {
                break;
            },
        }
    }
    proof {
        assert(a@.take(k) + a@.skip(k) =~= a@);
        lemma_boundary_after(a@.take(k), a@.skip(k));
    }
    let (head, _) = a.split_at(end);
    proof {
        broadcast use encode_utf8_decode_utf8, encode_utf8_valid_utf8;

        assert(encode_utf8(head@) =~= encode_utf8(a@.take(k)));
        assert(head@ == decode_utf8(encode_utf8(head@)));
        assert(a@.take(k) == decode_utf8(encode_utf8(a@.take(k))));
    }
    head
}

} // verus!
