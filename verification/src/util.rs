//! Small helpers shared by the other modules.

use vstd::prelude::*;

verus! {

/// What escaping does to one character of a mountpoint: a literal `%` is
/// doubled and a path separator becomes `%`, so the escaped mountpoint is a
/// single path segment and distinct mountpoints stay distinguishable.
pub open spec fn escape_char(c: char) -> Seq<char> {
    if c == '%' {
        seq!['%', '%']
    } else if c == '/' {
        seq!['%']
    } else {
        seq![c]
    }
}

/// What `escape_slash` returns: every character escaped in order.
pub open spec fn escape_seq(s: Seq<char>) -> Seq<char>
    decreases s.len(),
{
    if s.len() == 0 {
        Seq::empty()
    } else {
        escape_char(s[0]) + escape_seq(s.drop_first())
    }
}

proof fn lemma_escape_append(s: Seq<char>, c: char)
    ensures
        escape_seq(s.push(c)) == escape_seq(s) + escape_char(c),
    decreases s.len(),
{
    if s.len() == 0 {
        assert(s.push(c)[0] == c);
        assert(s.push(c).drop_first() =~= Seq::<char>::empty());
        assert(escape_seq(Seq::<char>::empty()) =~= Seq::<char>::empty());
        assert(escape_seq(s.push(c)) =~= escape_seq(s) + escape_char(c));
    } else {
        assert(s.push(c).drop_first() =~= s.drop_first().push(c));
        lemma_escape_append(s.drop_first(), c);
        assert(escape_seq(s.push(c)) =~= escape_seq(s) + escape_char(c));
    }
}

/// Relies on `String::push`: it appends the given character to the end of
/// the string.
#[verifier::external_body]
pub(crate) fn push_char(s: &mut String, c: char)
    ensures
        final(s)@ == old(s)@.push(c),
{
    s.push(c);
}

/// Escapes a mountpoint for use as a single path segment under the
/// snapshot root: `%` becomes `%%` and `/` becomes `%`.
pub fn escape_slash(path: &str) -> (r: String)
    ensures
        r@ == escape_seq(path@),
{
    let n = path.unicode_len();
    let mut out = String::new();
    let mut i: usize = 0;
    while i < n
        invariant
            i <= n,
            n == path@.len(),
            out@ == escape_seq(path@.subrange(0, i as int)),
        decreases n - i,
    {
        let c = path.get_char(i);
        if c == '%' {
            push_char(&mut out, '%');
            push_char(&mut out, '%');
        } else if c == '/' {
            push_char(&mut out, '%');
        } else {
            push_char(&mut out, c);
        }
        proof {
            lemma_escape_append(path@.subrange(0, i as int), path@[i as int]);
            assert(path@.subrange(0, i + 1) =~= path@.subrange(0, i as int).push(
                path@[i as int],
            ));
            assert(out@ =~= escape_seq(path@.subrange(0, i + 1)));
        }
        i += 1;
    }
    proof {
        assert(path@.subrange(0, n as int) =~= path@);
    }
    out
}

/// Picks the suffix an operation works under: the automatic tag when the
/// auto flag is set, otherwise whatever explicit suffix was given.
pub fn get_suffix<'a>(auto: bool, suffix: Option<&'a str>) -> (r: Option<&'a str>)
    ensures
        auto ==> (r matches Some(s) && s@ == "-auto"@),
        !auto ==> match (r, suffix) {
            (Some(a), Some(b)) => a@ == b@,
            (None, None) => true,
            _ => false,
        },
{
    if auto {
        Some("-auto")
    } else {
        suffix
    }
}

} // verus!
