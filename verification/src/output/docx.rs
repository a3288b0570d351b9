//! The parts of a minimal DOCX package holding one paragraph per line.
use vstd::prelude::*;

use crate::chars::{chars_to_string, extend_chars, replace_all, str_to_chars};
use crate::output::text::{join_with, lines_view};
use crate::output::xml::replace_char_with;

verus! {

broadcast use vstd::seq_lib::group_seq_properties;

/// The `[Content_Types].xml` part.
pub const CONTENT_TYPES_XML: &'static str = "<?xml version=\"1.0\" encoding=\"UTF-8\" standalone=\"yes\"?>
<Types xmlns=\"http://schemas.openxmlformats.org/package/2006/content-types\">
  <Default Extension=\"rels\" ContentType=\"application/vnd.openxmlformats-package.relationships+xml\"/>
  <Default Extension=\"xml\" ContentType=\"application/xml\"/>
  <Override PartName=\"/word/document.xml\" ContentType=\"application/vnd.openxmlformats-officedocument.wordprocessingml.document.main+xml\"/>
</Types>";

/// The `_rels/.rels` part.
pub const ROOT_RELS_XML: &'static str = "<?xml version=\"1.0\" encoding=\"UTF-8\" standalone=\"yes\"?>
<Relationships xmlns=\"http://schemas.openxmlformats.org/package/2006/relationships\">
  <Relationship Id=\"rId1\" Type=\"http://schemas.openxmlformats.org/officeDocument/2006/relationships/officeDocument\" Target=\"word/document.xml\"/>
</Relationships>";

/// What comes before the paragraphs in `word/document.xml`.
pub const DOCUMENT_HEAD: &'static str = "<?xml version=\"1.0\" encoding=\"UTF-8\" standalone=\"yes\"?>
<w:document xmlns:w=\"http://schemas.openxmlformats.org/wordprocessingml/2006/main\">
  <w:body>";

/// What comes after the paragraphs in `word/document.xml`.
pub const DOCUMENT_TAIL: &'static str = "<w:sectPr/></w:body>
</w:document>";

/// The opening of a paragraph of one run of preserved text.
pub const PARAGRAPH_OPEN: &'static str = "<w:p><w:r><w:t xml:space=\"preserve\">";

/// The closing of such a paragraph.
pub const PARAGRAPH_CLOSE: &'static str = "</w:t></w:r></w:p>";

/// The paragraph written when there is no line.
pub const EMPTY_PARAGRAPH: &'static str = "<w:p/>";

/// The `[Content_Types].xml` part of the package.
pub fn content_types_xml() -> (res: String)
    ensures
        res@ == CONTENT_TYPES_XML@,
{
    chars_to_string(&str_to_chars(CONTENT_TYPES_XML))
}

/// The `_rels/.rels` part of the package.
pub fn root_rels_xml() -> (res: String)
    ensures
        res@ == ROOT_RELS_XML@,
{
    chars_to_string(&str_to_chars(ROOT_RELS_XML))
}

/// `s` with `&`, `<` and `>` written as XML entities.
pub open spec fn spec_escape_xml(s: Seq<char>) -> Seq<char> {
    replace_all(
        replace_all(replace_all(s, seq!['&'], "&amp;"@), seq!['<'], "&lt;"@),
        seq!['>'],
        "&gt;"@,
    )
}

/// Escapes text for XML character data.
pub fn escape_xml(input: &str) -> (res: String)
    ensures
        res@ == spec_escape_xml(input@),
{
    let s = str_to_chars(input);
    let s = replace_char_with(&s, '&', "&amp;");
    let s = replace_char_with(&s, '<', "&lt;");
    let s = replace_char_with(&s, '>', "&gt;");
    chars_to_string(&s)
}

/// A line without the carriage return that ended it.
pub open spec fn strip_cr(line: Seq<char>) -> Seq<char> {
    if line.len() > 0 && line.last() == '\r' {
        line.drop_last()
    } else {
        line
    }
}

/// The lines finished among the first `n` characters and the line begun.
pub open spec fn lines_scan(s: Seq<char>, n: int) -> (Seq<Seq<char>>, Seq<char>)
    decreases n,
{
    if n <= 0 {
        (seq![], seq![])
    } else {
        let (ls, cur) = lines_scan(s, n - 1);
        if s[n - 1] == '\n' {
            (ls.push(strip_cr(cur)), seq![])
        } else {
            (ls, cur.push(s[n - 1]))
        }
    }
}

/// The lines of `s` as `str::lines` gives them: split at `\n`, a `\r`
/// before the `\n` dropped, and no empty line after a final `\n`.
pub open spec fn str_lines(s: Seq<char>) -> Seq<Seq<char>> {
    let (ls, cur) = lines_scan(s, s.len() as int);
    if cur.len() > 0 {
        ls.push(cur)
    } else {
        ls
    }
}

/// One paragraph per line, each line escaped.
pub open spec fn paragraphs(lines: Seq<Seq<char>>) -> Seq<char>
    decreases lines.len(),
{
    if lines.len() == 0 {
        seq![]
    } else {
        paragraphs(lines.drop_last()) + PARAGRAPH_OPEN@ + spec_escape_xml(lines.last())
            + PARAGRAPH_CLOSE@
    }
}

/// `word/document.xml` for `text`: a paragraph per line, or one empty
/// paragraph when there is no line.
pub open spec fn spec_document_xml(text: Seq<char>) -> Seq<char> {
    let body = paragraphs(str_lines(text));
    DOCUMENT_HEAD@ + (if str_lines(text).len() == 0 {
        EMPTY_PARAGRAPH@
    } else {
        body
    }) + DOCUMENT_TAIL@
}

/// Splits `s` into its lines (see [`str_lines`]).
pub fn split_lines(s: &str) -> (res: Vec<Vec<char>>)
    ensures
        res.deep_view() == str_lines(s@),
{
    let chars = str_to_chars(s);
    let mut out: Vec<Vec<char>> = Vec::new();
    let mut cur: Vec<char> = Vec::new();
    let mut i: usize = 0;
    while i < chars.len()
        invariant
            i <= chars@.len(),
            chars@ == s@,
            (out.deep_view(), cur@) == lines_scan(s@, i as int),
        decreases chars.len() - i,
    {
        let c = chars[i];
        if c == '\n' {
            let n = cur.len();
            let line = if n > 0 && cur[n - 1] == '\r' {
                crate::chars::slice_chars(&cur, 0, n - 1)
            } else {
                crate::chars::slice_chars(&cur, 0, n)
            };
            proof {
                assert(cur@.subrange(0, n as int) =~= cur@);
                assert(cur@.subrange(0, n - 1) =~= cur@.drop_last());
                crate::chars::lemma_chars_deep_view(line);
            }
            let ghost before = out.deep_view();
            out.push(line);
            proof {
                assert(out.deep_view() =~= before.push(line@));
            }
            cur = Vec::new();
        } else {
            cur.push(c);
        }
        i = i + 1;
    }
    if cur.len() > 0 {
        let ghost before = out.deep_view();
        proof {
            crate::chars::lemma_chars_deep_view(cur);
        }
        out.push(cur);
        proof {
            assert(out.deep_view() =~= before.push(lines_scan(s@, s@.len() as int).1));
        }
    }
    out
}

/// `word/document.xml` for `text` (see [`spec_document_xml`]).
pub fn document_xml(text: &str) -> (res: String)
    ensures
        res@ == spec_document_xml(text@),
{
    let lines = split_lines(text);
    let ghost ls = str_lines(text@);
    let mut body: Vec<char> = Vec::new();
    let mut i: usize = 0;
    while i < lines.len()
        invariant
            i <= lines@.len(),
            lines.deep_view() == ls,
            body@ == paragraphs(ls.take(i as int)),
        decreases lines.len() - i,
    {
        proof {
            assert(ls.take(i + 1).drop_last() =~= ls.take(i as int));
            assert(ls.take(i + 1).last() == lines@[i as int]@);
            crate::chars::lemma_chars_deep_view(lines@[i as int]);
        }
        extend_chars(&mut body, &str_to_chars(PARAGRAPH_OPEN));
        let line = chars_to_string(&lines[i]);
        let escaped = escape_xml(line.as_str());
        extend_chars(&mut body, &str_to_chars(escaped.as_str()));
        extend_chars(&mut body, &str_to_chars(PARAGRAPH_CLOSE));
        i = i + 1;
    }
    proof {
        assert(ls.take(lines@.len() as int) =~= ls);
    }
    let mut out = str_to_chars(DOCUMENT_HEAD);
    if lines.len() == 0 {
        extend_chars(&mut out, &str_to_chars(EMPTY_PARAGRAPH));
    } else {
        extend_chars(&mut out, &body);
    }
    extend_chars(&mut out, &str_to_chars(DOCUMENT_TAIL));
    chars_to_string(&out)
}

/// `word/document.xml` for `lines` joined by newlines, as written to a DOCX
/// file.
pub fn document_xml_for_lines(lines: &[String]) -> (res: String)
    ensures
        res@ == spec_document_xml(join_with(lines_view(lines@), seq!['\n'])),
{
    let text = crate::output::text::build_text(lines);
    document_xml(text.as_str())
}

} // verus!
