//! Small text utilities shared by the label and rendering code.

use vstd::prelude::*;

verus! {

/// The number of bytes that the UTF-8 encoding of `s` takes; this is what
/// `str::len` returns.
pub open spec fn utf8_len(s: Seq<char>) -> nat {
    vstd::utf8::encode_utf8(s).len()
}

/// The length of `s` in bytes.
pub fn byte_len(s: &str) -> (n: usize)
    ensures
        n == utf8_len(s@),
{
    s.as_bytes().len()
}

/// `n` space characters.
pub open spec fn spaces(n: nat) -> Seq<char>
    decreases n,
{
    if n == 0 {
        Seq::empty()
    } else {
        spaces((n - 1) as nat).push(' ')
    }
}

/// `s` padded on the right with spaces to at least `width` characters, as a
/// left-aligned `{:<width$}` placeholder does.
pub open spec fn pad_right(s: Seq<char>, width: nat) -> Seq<char> {
    if s.len() < width {
        s + spaces((width - s.len()) as nat)
    } else {
        s
    }
}

/// The text of an optional string, empty where there is none.
pub open spec fn text_or_empty(o: Option<String>) -> Seq<char> {
    match o {
        Some(s) => s@,
        None => Seq::empty(),
    }
}

/// The characters of an optional string.
pub open spec fn opt_chars(o: Option<String>) -> Option<Seq<char>> {
    match o {
        Some(s) => Some(s@),
        None => None,
    }
}

/// Appends `c` to `s`.
///
/// Trusted: calls `String::push`, which its documentation describes as
/// appending the given char to the end of the string.
#[verifier::external_body]
pub(crate) fn push_char(s: &mut String, c: char)
    ensures
        final(s)@ == old(s)@.push(c),
{
    s.push(c);
}

/// Appends `s` to `out`, padded on the right with spaces to `width`
/// characters.
pub fn push_padded(out: &mut String, s: &str, width: usize)
    ensures
        final(out)@ == old(out)@ + pad_right(s@, width as nat),
{
    out.append(s);
    let n = s.unicode_len();
    if n < width {
        let mut k: usize = n;
        while k < width
            invariant
                n <= k <= width,
                n == s@.len(),
                out@ == old(out)@ + s@ + spaces((k - n) as nat),
            decreases width - k,
        {
            push_char(out, ' ');
            k = k + 1;
            assert(spaces((k - n) as nat) == spaces((k - 1 - n) as nat).push(' '));
            assert(out@ =~= old(out)@ + s@ + spaces((k - n) as nat));
        }
        assert(out@ =~= old(out)@ + pad_right(s@, width as nat));
    } else {
        assert(out@ =~= old(out)@ + pad_right(s@, width as nat));
    }
}

/// The text of an optional string, empty where there is none.
pub fn str_or_empty(o: &Option<String>) -> (r: &str)
    ensures
        r@ == text_or_empty(*o),
{
    match o {
        Some(s) => {
            let r = s.as_str();
            assert(r@ == s@);
            r
        },
        None => {
            let r = "";
            proof {
                reveal_strlit("");
            }
            r
        },
    }
}

/// `n` spaces are `n` characters, each a space.
pub proof fn lemma_spaces(n: nat)
    ensures
        spaces(n).len() == n,
        forall|k: int| 0 <= k < n ==> #[trigger] spaces(n)[k] == ' ',
    decreases n,
{
    if n > 0 {
        lemma_spaces((n - 1) as nat);
        assert forall|k: int| 0 <= k < n implies #[trigger] spaces(n)[k] == ' ' by {
            if k < n - 1 {
                assert(spaces(n)[k] == spaces((n - 1) as nat)[k]);
            }
        }
    }
}

/// Padding keeps the text as it is at the start, fills up with spaces, and
/// is exactly `width` characters long unless the text is already longer.
pub proof fn lemma_pad_right(s: Seq<char>, width: nat)
    ensures
        pad_right(s, width).len() == if s.len() < width {
            width
        } else {
            s.len()
        },
        pad_right(s, width).subrange(0, s.len() as int) == s,
        forall|k: int|
            s.len() <= k < pad_right(s, width).len() ==> #[trigger] pad_right(s, width)[k] == ' ',
{
    let p = pad_right(s, width);
    if s.len() < width {
        lemma_spaces((width - s.len()) as nat);
        assert forall|k: int| s.len() <= k < p.len() implies #[trigger] p[k] == ' ' by {
            assert(p[k] == spaces((width - s.len()) as nat)[k - s.len()]);
        }
    }
    assert(p.subrange(0, s.len() as int) =~= s);
}

} // verus!
