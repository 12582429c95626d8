//! The HTML form of a localization diff line on the changelog page.

use vstd::prelude::*;
use vstd::string::{StringExecFns, StringSliceAdditionalSpecFns};
use vstd::utf8::*;
use crate::changes::lemma_utf8_injective;

verus! {

broadcast use {encode_utf8_valid_utf8, char_u32_cast};

/// What text escaping turns character `c` into.
pub open spec fn escape_char(c: char) -> Seq<char> {
    if c == '&' {
        seq!['&', 'a', 'm', 'p', ';']
    } else if c == '<' {
        seq!['&', 'l', 't', ';']
    } else if c == '>' {
        seq!['&', 'g', 't', ';']
    } else {
        seq![c]
    }
}

/// `s` with `&`, `<` and `>` escaped, to stand as HTML text.
pub open spec fn escape_text(s: Seq<char>) -> Seq<char>
    decreases s.len(),
{
    if s.len() == 0 {
        seq![]
    } else {
        escape_text(s.drop_last()) + escape_char(s.last())
    }
}

/// Relies on `html_escape::encode_text`: `&`, `<` and `>` become `&amp;`,
/// `&lt;` and `&gt;`, and every other character is kept.
#[verifier::external_body]
fn encode_text(s: &str) -> (r: String)
    ensures
        r@ == escape_text(s@),
{
    html_escape::encode_text(s).into_owned()
}

/// The sign that opens a diff line, if it has one.
pub open spec fn has_sign(l: Seq<char>) -> bool {
    l.len() > 0 && (l[0] == '+' || l[0] == '-' || l[0] == '~')
}

/// The style class of a diff line: by its sign, empty without one.
pub open spec fn line_class(l: Seq<char>) -> Seq<char> {
    if l.len() > 0 && l[0] == '+' {
        seq!['a', 'd', 'd', 'e', 'd']
    } else if l.len() > 0 && l[0] == '-' {
        seq!['d', 'e', 'l', 'e', 't', 'e', 'd']
    } else if l.len() > 0 && l[0] == '~' {
        seq!['m', 'o', 'd', 'i', 'f', 'i', 'e', 'd']
    } else {
        seq![]
    }
}

/// The text of a diff line without its sign.
pub open spec fn line_text(l: Seq<char>) -> Seq<char> {
    if has_sign(l) {
        l.drop_first()
    } else {
        l
    }
}

/// The HTML element of diff line `l`.
pub open spec fn line_html(l: Seq<char>) -> Seq<char> {
    "<div class=\"diff-line "@ + line_class(l) + "\">"@ + escape_text(line_text(l)) + "</div>"@
}

/// The first byte of the UTF-8 encoding is the first character when that is
/// ASCII, and at least 0x80 otherwise.
proof fn lemma_first_byte(s: Seq<char>)
    requires
        s.len() > 0,
    ensures
        (s[0] as u32) < 0x80 ==> encode_utf8(s)[0] == (s[0] as u32) as u8,
        (s[0] as u32) >= 0x80 ==> encode_utf8(s)[0] >= 0x80,
        (s[0] as u32) < 0x80 ==> encode_utf8(s).subrange(1, encode_utf8(s).len() as int)
            == encode_utf8(s.drop_first()),
{
    let v = s[0] as u32;
    char_is_scalar(s[0]);
    assert(encode_utf8(s) == encode_scalar(v) + encode_utf8(s.drop_first()));
    if v < 0x80 {
        assert((v & 0x7f) == v) by (bit_vector)
            requires
                v < 0x80,
        ;
        assert(encode_utf8(s).subrange(1, encode_utf8(s).len() as int) =~= encode_utf8(
            s.drop_first(),
        ));
    } else if has_width_2_encoding(v) {
        assert((0xC0u8 | ((v >> 6) & 0x1F) as u8) >= 0x80) by (bit_vector);
    } else if has_width_3_encoding(v) {
        assert((0xE0u8 | ((v >> 12) & 0x0F) as u8) >= 0x80) by (bit_vector);
    } else {
        assert((0xF0u8 | ((v >> 18) & 0x7) as u8) >= 0x80) by (bit_vector);
    }
}

/// The class and text of a diff line, as HTML.
pub fn diff_line_html(line: &str) -> (r: String)
    ensures
        r@ == line_html(line@),
{
    let b = line.as_bytes();
    let sign = if b.len() > 0 {
        b[0]
    } else {
        0
    };
    proof {
        if line@.len() > 0 {
            lemma_first_byte(line@);
        }
    }
    let class = if sign == 0x2b {
        "added"
    } else if sign == 0x2d {
        "deleted"
    } else if sign == 0x7e {
        "modified"
    } else {
        ""
    };
    proof {
        reveal_strlit("added");
        reveal_strlit("deleted");
        reveal_strlit("modified");
        reveal_strlit("");
        assert(b@ == encode_utf8(line@));
        if line@.len() > 0 {
            let c = line@[0];
            let v = c as u32;
            assert(b@.len() > 0);
            assert(sign == b@[0]);
            char_u32_cast(c, v);
            assert(('+' as u32) == 0x2b && ('-' as u32) == 0x2d && ('~' as u32) == 0x7e);
            assert((0x2bu32 as char) == '+' && (0x2du32 as char) == '-' && (0x7eu32 as char) == '~');
            if v < 0x80 {
                assert(sign == v as u8);
                assert(sign as u32 == v);
            }
            assert(sign == 0x2b <==> line@[0] == '+');
            assert(sign == 0x2d <==> line@[0] == '-');
            assert(sign == 0x7e <==> line@[0] == '~');
        } else {
            assert(encode_utf8(line@) =~= Seq::<u8>::empty());
        }
        assert(class@ == line_class(line@));
    }
    let escaped = if sign == 0x2b || sign == 0x2d || sign == 0x7e {
        proof {
            assert(is_char_boundary(line.spec_bytes(), 1)) by {
                reveal_with_fuel(is_char_boundary, 2);
            }
        }
        let (_sign, rest) = line.split_at(1);
        proof {
            lemma_utf8_injective(rest@, line@.drop_first());
        }
        encode_text(rest)
    } else {
        encode_text(line)
    };
    let mut out = String::new();
    out.append("<div class=\"diff-line ");
    out.append(class);
    out.append("\">");
    out.append(escaped.as_str());
    out.append("</div>");
    proof {
        assert(out@ =~= line_html(line@));
    }
    out
}

} // verus!
