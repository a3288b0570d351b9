//! The XML page of recognised lines, and the escaping of its attribute
//! values.
use vstd::prelude::*;

use crate::chars::{chars_to_string, extend_chars, replace_all, replace_all_chars, spec_is_ascii_digit, str_to_chars};
use crate::infer::threads::{all_digits, digits_value};

verus! {

/// `s` with `&`, `<`, `>`, `"` and `'` written as XML entities (`&` first,
/// so that no entity is escaped twice).
pub open spec fn spec_escape_xml_text(s: Seq<char>) -> Seq<char> {
    replace_all(
        replace_all(
            replace_all(
                replace_all(replace_all(s, seq!['&'], "&amp;"@), seq!['<'], "&lt;"@),
                seq!['>'],
                "&gt;"@,
            ),
            seq!['"'],
            "&quot;"@,
        ),
        seq!['\''],
        "&apos;"@,
    )
}

/// Replaces every occurrence of `c` in `s` by the literal `to`.
pub fn replace_char_with(s: &Vec<char>, c: char, to: &str) -> (res: Vec<char>)
    ensures
        res@ == replace_all(s@, seq![c], to@),
{
    let from = crate::chars::chars1(c);
    let to_chars = str_to_chars(to);
    replace_all_chars(s, &from, &to_chars)
}

/// Escapes text for an XML attribute value (see [`spec_escape_xml_text`]).
pub fn escape_xml_text(input: &str) -> (res: String)
    ensures
        res@ == spec_escape_xml_text(input@),
{
    let s = str_to_chars(input);
    let s = replace_char_with(&s, '&', "&amp;");
    let s = replace_char_with(&s, '<', "&lt;");
    let s = replace_char_with(&s, '>', "&gt;");
    let s = replace_char_with(&s, '"', "&quot;");
    let s = replace_char_with(&s, '\'', "&apos;");
    chars_to_string(&s)
}

/// The decimal digit `d` (below 10).
pub open spec fn digit_char(d: nat) -> char {
    if d == 0 {
        '0'
    } else if d == 1 {
        '1'
    } else if d == 2 {
        '2'
    } else if d == 3 {
        '3'
    } else if d == 4 {
        '4'
    } else if d == 5 {
        '5'
    } else if d == 6 {
        '6'
    } else if d == 7 {
        '7'
    } else if d == 8 {
        '8'
    } else {
        '9'
    }
}

fn digit_char_exec(d: u64) -> (c: char)
    requires
        d < 10,
    ensures
        c == digit_char(d as nat),
{
    if d == 0 {
        '0'
    } else if d == 1 {
        '1'
    } else if d == 2 {
        '2'
    } else if d == 3 {
        '3'
    } else if d == 4 {
        '4'
    } else if d == 5 {
        '5'
    } else if d == 6 {
        '6'
    } else if d == 7 {
        '7'
    } else if d == 8 {
        '8'
    } else {
        '9'
    }
}

/// `n` written in decimal, without leading zeros.
pub open spec fn decimal(n: nat) -> Seq<char>
    decreases n,
{
    if n < 10 {
        seq![digit_char(n)]
    } else {
        decimal(n / 10).push(digit_char(n % 10))
    }
}

/// `i` written in decimal, with a leading `-` when negative.
pub open spec fn signed_decimal(i: int) -> Seq<char> {
    if i < 0 {
        seq!['-'] + decimal((-i) as nat)
    } else {
        decimal(i as nat)
    }
}

/// The decimal of a number reads back as that number: it is one or more
/// ASCII digits, without a leading zero unless it is `0`, whose base-10
/// value is `n`.
pub proof fn lemma_decimal_reads_back(n: nat)
    ensures
        decimal(n).len() > 0,
        all_digits(decimal(n)),
        digits_value(decimal(n)) == n,
        decimal(n)[0] == '0' ==> n == 0,
    decreases n,
{
    let d = n % 10;
    assert((digit_char(d) as u32) - ('0' as u32) == d && spec_is_ascii_digit(digit_char(d))) by {
        if d == 0 {
        } else if d == 1 {
        } else if d == 2 {
        } else if d == 3 {
        } else if d == 4 {
        } else if d == 5 {
        } else if d == 6 {
        } else if d == 7 {
        } else if d == 8 {
        } else {
            assert(d == 9);
        }
    }
    if n >= 10 {
        lemma_decimal_reads_back(n / 10);
        let p = decimal(n / 10);
        assert(decimal(n) == p.push(digit_char(d)));
        assert(decimal(n).drop_last() =~= p);
        assert forall|i: int| 0 <= i < decimal(n).len() implies spec_is_ascii_digit(#[trigger] decimal(n)[i]) by {
            if i < p.len() {
                assert(decimal(n)[i] == p[i]);
            }
        }
        assert(decimal(n)[0] == p[0]);
        assert(n == (n / 10) * 10 + d);
        assert(decimal(n).last() == digit_char(d));
        assert(digits_value(decimal(n)) == digits_value(p) * 10 + ((digit_char(d) as u32) - ('0' as u32)) as nat);
        assert(digits_value(p) == n / 10);
        assert(digits_value(decimal(n)) == (n / 10) * 10 + d);
    } else {
        assert(decimal(n) == seq![digit_char(n)]);
        assert(d == n);
        assert(decimal(n).drop_last() =~= Seq::<char>::empty());
        assert(digits_value(decimal(n).drop_last()) == 0);
        assert(digits_value(decimal(n)) == 0 * 10 + ((digit_char(d) as u32) - ('0' as u32)) as nat);
    }
}

/// A signed decimal is `-` and the decimal of the magnitude for a negative
/// number, else the decimal of the number; either way it reads back as the
/// number.
pub proof fn lemma_signed_decimal_reads_back(i: int)
    ensures
        i < 0 ==> signed_decimal(i)[0] == '-' && signed_decimal(i).skip(1) == decimal((-i) as nat)
            && digits_value(signed_decimal(i).skip(1)) == -i,
        i >= 0 ==> all_digits(signed_decimal(i)) && digits_value(signed_decimal(i)) == i,
{
    if i < 0 {
        lemma_decimal_reads_back((-i) as nat);
        assert((seq!['-'] + decimal((-i) as nat)).skip(1) =~= decimal((-i) as nat));
    } else {
        lemma_decimal_reads_back(i as nat);
    }
}

fn push_decimal(out: &mut Vec<char>, n: u64)
    ensures
        final(out)@ == old(out)@ + decimal(n as nat),
    decreases n,
{
    if n >= 10 {
        push_decimal(out, n / 10);
    }
    out.push(digit_char_exec(n % 10));
    proof {
        if n >= 10 {
            assert(out@ =~= old(out)@ + decimal((n / 10) as nat).push(digit_char((n % 10) as nat)));
        } else {
            assert(out@ =~= old(out)@ + seq![digit_char(n as nat)]);
        }
    }
}

fn push_signed_decimal(out: &mut Vec<char>, v: i32)
    ensures
        final(out)@ == old(out)@ + signed_decimal(v as int),
{
    if v < 0 {
        out.push('-');
        let m: i64 = -(v as i64);
        push_decimal(out, m as u64);
        proof {
            assert(out@ =~= old(out)@ + (seq!['-'] + decimal((-v) as nat)));
        }
    } else {
        push_decimal(out, v as u64);
    }
}

fn push_literal(out: &mut Vec<char>, s: &str)
    ensures
        final(out)@ == old(out)@ + s@,
{
    let chars = str_to_chars(s);
    extend_chars(out, &chars);
}

/// A line as the XML page lists it: its box `[x0, y0, x1, y1]`, its text,
/// its confidence already written out (three decimals) and whether it is
/// vertical.
pub struct XmlLine {
    pub bbox_xyxy: [i32; 4],
    pub text: String,
    pub confidence: String,
    pub is_vertical: bool,
}

/// The extent from `a` to `b`, at least 1.
pub open spec fn extent(a: i32, b: i32) -> int {
    if b - a < 1 {
        1
    } else {
        b - a
    }
}

/// The extents of the line's box fit in `i32`.
pub open spec fn xml_line_fits(l: XmlLine) -> bool {
    &&& i32::MIN <= l.bbox_xyxy[2] - l.bbox_xyxy[0] <= i32::MAX
    &&& i32::MIN <= l.bbox_xyxy[3] - l.bbox_xyxy[1] <= i32::MAX
}

/// The orientation word of a line.
pub open spec fn xml_orient(vertical: bool) -> Seq<char> {
    if vertical {
        "vertical"@
    } else {
        "horizontal"@
    }
}

/// The `LINE` element of a line, with its newline: the box's corner and
/// extents (each at least 1), the confidence, the escaped text and the
/// orientation.
pub open spec fn xml_line(l: XmlLine) -> Seq<char> {
    "      <LINE TYPE=\"line_main\" X=\""@ + signed_decimal(l.bbox_xyxy[0] as int)
        + "\" Y=\""@ + signed_decimal(l.bbox_xyxy[1] as int) + "\" WIDTH=\""@
        + signed_decimal(extent(l.bbox_xyxy[0], l.bbox_xyxy[2])) + "\" HEIGHT=\""@
        + signed_decimal(extent(l.bbox_xyxy[1], l.bbox_xyxy[3])) + "\" CONF=\""@
        + l.confidence@ + "\" STRING=\""@ + spec_escape_xml_text(l.text@) + "\" ORIENT=\""@
        + xml_orient(l.is_vertical) + "\"></LINE>\n"@
}

/// The `LINE` elements of the lines, in order.
pub open spec fn xml_lines(ls: Seq<XmlLine>) -> Seq<char>
    decreases ls.len(),
{
    if ls.len() == 0 {
        seq![]
    } else {
        xml_lines(ls.drop_last()) + xml_line(ls.last())
    }
}

/// The XML page: the declaration, the dataset and page elements with the
/// image's name and size, and one text block holding the lines.
pub open spec fn ocr_xml(lines: Seq<XmlLine>, width: nat, height: nat, name: Seq<char>) -> Seq<
    char,
> {
    "<?xml version=\"1.0\" encoding=\"utf-8\" standalone=\"yes\"?>\n<OCRDATASET xmlns=\"\">\n  <PAGE IMAGENAME=\""@
        + name + "\" WIDTH=\""@ + decimal(width) + "\" HEIGHT=\""@ + decimal(height)
        + "\">\n    <TEXTBLOCK>\n"@ + xml_lines(lines)
        + "    </TEXTBLOCK>\n  </PAGE>\n</OCRDATASET>\n"@
}

#[verifier::rlimit(40)]
fn push_xml_line(out: &mut Vec<char>, l: &XmlLine)
    requires
        xml_line_fits(*l),
    ensures
        final(out)@ == old(out)@ + xml_line(*l),
{
    let x0 = l.bbox_xyxy[0];
    let y0 = l.bbox_xyxy[1];
    let x1 = l.bbox_xyxy[2];
    let y1 = l.bbox_xyxy[3];
    let dw = x1 - x0;
    let w = if dw < 1 {
        1
    } else {
        dw
    };
    let dh = y1 - y0;
    let h = if dh < 1 {
        1
    } else {
        dh
    };
    push_literal(out, "      <LINE TYPE=\"line_main\" X=\"");
    push_signed_decimal(out, x0);
    push_literal(out, "\" Y=\"");
    push_signed_decimal(out, y0);
    push_literal(out, "\" WIDTH=\"");
    push_signed_decimal(out, w);
    push_literal(out, "\" HEIGHT=\"");
    push_signed_decimal(out, h);
    push_literal(out, "\" CONF=\"");
    push_literal(out, l.confidence.as_str());
    push_literal(out, "\" STRING=\"");
    let escaped = escape_xml_text(l.text.as_str());
    push_literal(out, escaped.as_str());
    push_literal(out, "\" ORIENT=\"");
    if l.is_vertical {
        push_literal(out, "vertical");
    } else {
        push_literal(out, "horizontal");
    }
    push_literal(out, "\"></LINE>\n");
    proof {
        assert(out@ =~= old(out)@ + xml_line(*l));
    }
}

/// Builds the XML page of the recognised lines (see [`ocr_xml`]).
pub fn build_ocr_xml(lines: &[XmlLine], img_width: usize, img_height: usize, img_name: &str) -> (res:
    String)
    requires
        forall|i: int| 0 <= i < lines@.len() ==> xml_line_fits(#[trigger] lines@[i]),
    ensures
        res@ == ocr_xml(lines@, img_width as nat, img_height as nat, img_name@),
{
    let mut out: Vec<char> = Vec::new();
    push_literal(
        &mut out,
        "<?xml version=\"1.0\" encoding=\"utf-8\" standalone=\"yes\"?>\n<OCRDATASET xmlns=\"\">\n  <PAGE IMAGENAME=\"",
    );
    push_literal(&mut out, img_name);
    push_literal(&mut out, "\" WIDTH=\"");
    push_decimal(&mut out, img_width as u64);
    push_literal(&mut out, "\" HEIGHT=\"");
    push_decimal(&mut out, img_height as u64);
    push_literal(&mut out, "\">\n    <TEXTBLOCK>\n");
    let ghost head = out@;
    let mut i: usize = 0;
    proof {
        assert(lines@.take(0) =~= Seq::<XmlLine>::empty());
        assert(head + xml_lines(lines@.take(0)) =~= head);
    }
    while i < lines.len()
        invariant
            i <= lines@.len(),
            forall|j: int| 0 <= j < lines@.len() ==> xml_line_fits(#[trigger] lines@[j]),
            out@ == head + xml_lines(lines@.take(i as int)),
        decreases lines@.len() - i,
    {
        push_xml_line(&mut out, &lines[i]);
        proof {
            assert(lines@.take(i + 1).drop_last() =~= lines@.take(i as int));
            assert(lines@.take(i + 1).last() == lines@[i as int]);
            assert(out@ =~= head + xml_lines(lines@.take(i + 1)));
        }
        i = i + 1;
    }
    push_literal(&mut out, "    </TEXTBLOCK>\n  </PAGE>\n</OCRDATASET>\n");
    proof {
        assert(lines@.take(lines@.len() as int) =~= lines@);
        assert(out@ =~= ocr_xml(lines@, img_width as nat, img_height as nat, img_name@));
    }
    chars_to_string(&out)
}

} // verus!
