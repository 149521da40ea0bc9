use vstd::prelude::*;
use crate::text::push_char;

verus! {

/// The markup-safe form of one character.
pub open spec fn html_char(c: char) -> Seq<char> {
    if c == '&' {
        seq!['&', 'a', 'm', 'p', ';']
    } else if c == '<' {
        seq!['&', 'l', 't', ';']
    } else if c == '>' {
        seq!['&', 'g', 't', ';']
    } else if c == '"' {
        seq!['&', 'q', 'u', 'o', 't', ';']
    } else if c == '\'' {
        seq!['&', '#', 'x', '2', '7', ';']
    } else if c == '/' {
        seq!['&', '#', 'x', '2', 'F', ';']
    } else if c == '`' {
        seq!['&', '#', '9', '6', ';']
    } else {
        seq![c]
    }
}

/// Each character of `s` replaced by its markup-safe form.
pub open spec fn html_escaped(s: Seq<char>) -> Seq<char>
    decreases s.len(),
{
    if s.len() == 0 {
        Seq::empty()
    } else {
        html_escaped(s.drop_last()) + html_char(s.last())
    }
}

pub fn escape_html(raw_str: &str) -> (r: String)
    ensures
        r@ == html_escaped(raw_str@),
{
    let n = raw_str.unicode_len();
    let mut out = String::new();
    let mut i: usize = 0;
    while i < n
        invariant
            n == raw_str@.len(),
            i <= n,
            out@ == html_escaped(raw_str@.subrange(0, i as int)),
        decreases n - i,
    {
        let c = raw_str.get_char(i);
        let ghost prefix = raw_str@.subrange(0, i as int);
        proof {
            let next = raw_str@.subrange(0, i + 1);
            assert(next.drop_last() =~= prefix);
        }
        if c == '&' {
            proof { reveal_strlit("&amp;"); }
            out.append("&amp;");
        } else if c == '<' {
            proof { reveal_strlit("&lt;"); }
            out.append("&lt;");
        } else if c == '>' {
            proof { reveal_strlit("&gt;"); }
            out.append("&gt;");
        } else if c == '"' {
            proof { reveal_strlit("&quot;"); }
            out.append("&quot;");
        } else if c == '\'' {
            proof { reveal_strlit("&#x27;"); }
            out.append("&#x27;");
        } else if c == '/' {
            proof { reveal_strlit("&#x2F;"); }
            out.append("&#x2F;");
        } else if c == '`' {
            proof { reveal_strlit("&#96;"); }
            out.append("&#96;");
        } else {
            push_char(&mut out, c);
        }
        i = i + 1;
        assert(out@ =~= html_escaped(raw_str@.subrange(0, i as int)));
    }
    assert(raw_str@.subrange(0, n as int) =~= raw_str@);
    out
}

/// The lower-case hexadecimal digits of `n`, without leading zeros.
pub open spec fn hex_digits(n: nat) -> Seq<char>
    decreases n,
{
    let digit = seq!['0', '1', '2', '3', '4', '5', '6', '7', '8', '9', 'a', 'b', 'c', 'd', 'e', 'f'][(n % 16) as int];
    if n < 16 {
        seq![digit]
    } else {
        hex_digits(n / 16).push(digit)
    }
}

/// The debug-safe form of one character: tab, carriage return and line feed as
/// `\t`, `\r`, `\n`; a backslash or a quote behind a backslash; other printable
/// ASCII as it is; anything else as `\u{hex}`.
pub open spec fn default_char(c: char) -> Seq<char> {
    if c == '\t' {
        seq!['\\', 't']
    } else if c == '\r' {
        seq!['\\', 'r']
    } else if c == '\n' {
        seq!['\\', 'n']
    } else if c == '\\' || c == '\'' || c == '"' {
        seq!['\\', c]
    } else if 0x20 <= c as u32 && c as u32 <= 0x7e {
        seq![c]
    } else {
        seq!['\\', 'u', '{'] + hex_digits(c as u32 as nat) + seq!['}']
    }
}

/// Each character of `s` replaced by its debug-safe form.
pub open spec fn default_escaped(s: Seq<char>) -> Seq<char>
    decreases s.len(),
{
    if s.len() == 0 {
        Seq::empty()
    } else {
        default_escaped(s.drop_last()) + default_char(s.last())
    }
}

/// Relies on char::escape_default: the escape sequence of one character, as
/// its documentation lists it.
#[verifier::external_body]
fn escape_char(c: char) -> (r: String)
    ensures
        r@ == default_char(c),
{
    c.escape_default().collect()
}

pub fn escape_default(raw_str: &str) -> (r: String)
    ensures
        r@ == default_escaped(raw_str@),
{
    let n = raw_str.unicode_len();
    let mut out = String::new();
    let mut i: usize = 0;
    while i < n
        invariant
            n == raw_str@.len(),
            i <= n,
            out@ == default_escaped(raw_str@.subrange(0, i as int)),
        decreases n - i,
    {
        let c = raw_str.get_char(i);
        proof {
            assert(raw_str@.subrange(0, i + 1).drop_last() =~= raw_str@.subrange(0, i as int));
        }
        let e = escape_char(c);
        out.append(e.as_str());
        i = i + 1;
    }
    assert(raw_str@.subrange(0, n as int) =~= raw_str@);
    out
}

} // verus!
