//! Removing comments before a problem is parsed.
use crate::tptp_parser::text::{chars_of, text_of};
use vstd::prelude::*;

verus! {

/// What a regular expression makes of a text when each of its matches is
/// replaced by `replacement`, as `regex::Regex::replace_all` computes it for
/// the expression that `regex::Regex::new` makes of `pattern`.
pub uninterp spec fn regex_replace_all(
    pattern: Seq<char>,
    text: Seq<char>,
    replacement: Seq<char>,
) -> Seq<char>;

/// Whether `regex::Regex::new` accepts the pattern as a regular expression.
pub uninterp spec fn regex_compiles(pattern: Seq<char>) -> bool;

/// Replaces each match of the pattern in the text by the replacement, taken
/// literally, with `regex::Regex::new` and `regex::Regex::replace_all`.
/// Nothing is returned exactly where `regex::Regex::new` does not accept the
/// pattern as a regular expression.
#[verifier::external_body]
pub(crate) fn replace_all(pattern: &str, text: &str, replacement: &str) -> (r: Option<String>)
    ensures
        r is Some <==> regex_compiles(pattern@),
        r matches Some(out) ==> out@ == regex_replace_all(pattern@, text@, replacement@),
{
    match regex::Regex::new(pattern) {
        Ok(re) => Some(re.replace_all(text, regex::NoExpand(replacement)).into_owned()),
        Err(_) => None,
    }
}

/// The pattern of a block comment: from `/*` to the next `*/`.
pub const BLOCK_COMMENT: &'static str = "[/][*]([^*]*[*][*]*[^/*])*[^*]*[*][*]*[/]";

/// The pattern of the end of a line with the blanks before it.
pub const LINE_END: &'static str = "[ ]*[\n]";

/// Where a scan of a line stands: inside a single-quoted or a double-quoted
/// string, right after an escaping backslash, or in a comment.
pub struct LineState {
    pub single_quoted: bool,
    pub double_quoted: bool,
    pub escaping: bool,
    pub comment: bool,
}

/// The state at the beginning of a line.
pub open spec fn line_start() -> LineState {
    LineState { single_quoted: false, double_quoted: false, escaping: false, comment: false }
}

/// Whether the character is a double quote.
pub open spec fn double_quote(c: char) -> bool {
    c == '"'
}

/// The state after the character `c` of a line. Inside a string a backslash
/// escapes the next character, two backslashes in a row are a character; a
/// quote that is not escaped opens or closes a string, unless it stands in a
/// string of the other kind; a percent sign outside the strings begins a
/// comment, which goes on to the end of the line.
pub open spec fn line_step(st: LineState, c: char) -> LineState {
    if st.comment {
        st
    } else if (st.single_quoted || st.double_quoted) && c == '\\' {
        LineState { escaping: !st.escaping, ..st }
    } else if !st.double_quoted && c == '\'' {
        LineState {
            single_quoted: if st.escaping { st.single_quoted } else { !st.single_quoted },
            escaping: false,
            ..st
        }
    } else if !st.single_quoted && double_quote(c) {
        LineState {
            double_quoted: if st.escaping { st.double_quoted } else { !st.double_quoted },
            escaping: false,
            ..st
        }
    } else if c == '%' && !st.single_quoted && !st.double_quoted {
        LineState { comment: true, ..st }
    } else {
        LineState { escaping: false, ..st }
    }
}

/// Whether a line ends at place `i` of the text: with a line feed, or with
/// a carriage return before a line feed.
pub open spec fn line_end_at(text: Seq<char>, i: int) -> bool {
    text[i] == '\n' || (text[i] == '\r' && i + 1 < text.len() && text[i + 1] == '\n')
}

/// The text from place `i` on without the comments that begin with a
/// percent sign and without the line ends, where the line that holds place
/// `i` was scanned up to there with the state `st`.
pub open spec fn strip_from(text: Seq<char>, i: int, st: LineState) -> Seq<char>
    decreases text.len() - i,
{
    if i < 0 || i >= text.len() {
        Seq::empty()
    } else if text[i] == '\n' {
        strip_from(text, i + 1, line_start())
    } else if line_end_at(text, i) {
        strip_from(text, i + 1, st)
    } else {
        let next = line_step(st, text[i]);
        if next.comment {
            strip_from(text, i + 1, next)
        } else {
            seq![text[i]] + strip_from(text, i + 1, next)
        }
    }
}

/// The text without the comments that begin with a percent sign and
/// without the line ends.
pub open spec fn strip_line_comments_spec(text: Seq<char>) -> Seq<char> {
    strip_from(text, 0, line_start())
}

/// Whether the character is a double quote.
pub fn is_double_quote(c: char) -> (r: bool)
    ensures
        r == double_quote(c),
{
    c == '"'
}

/// Removes the comments that begin with a percent sign, and the line ends.
/// A percent sign inside a single-quoted or double-quoted string begins no
/// comment.
pub fn strip_line_comments(s: &str) -> (r: String)
    ensures
        r@ == strip_line_comments_spec(s@),
{
    let text = chars_of(s);
    let n = text.len();
    let mut out: Vec<char> = Vec::new();
    let mut inside_single_quoted = false;
    let mut inside_double_quoted = false;
    let mut escaping_next = false;
    let mut in_comment = false;
    let mut i: usize = 0;
    while i < n
        invariant
            0 <= i <= n,
            n == text@.len(),
            text@ == s@,
            out@ + strip_from(
                text@,
                i as int,
                LineState {
                    single_quoted: inside_single_quoted,
                    double_quoted: inside_double_quoted,
                    escaping: escaping_next,
                    comment: in_comment,
                },
            ) == strip_line_comments_spec(text@),
        decreases n - i,
    {
        let c = text[i];
        let ghost st = LineState {
            single_quoted: inside_single_quoted,
            double_quoted: inside_double_quoted,
            escaping: escaping_next,
            comment: in_comment,
        };
        if c == '\n' {
            inside_single_quoted = false;
            inside_double_quoted = false;
            escaping_next = false;
            in_comment = false;
        } else if c == '\r' && i + 1 < n && text[i + 1] == '\n' {
        } else if in_comment {
        } else {
            if (inside_single_quoted || inside_double_quoted) && c == '\\' {
                // Two slashes in a row is just a character, otherwise raise escape flag.
                escaping_next = !escaping_next;
            } else if !inside_double_quoted && c == '\'' {
                if !escaping_next {
                    inside_single_quoted = !inside_single_quoted;
                }
                escaping_next = false;
            } else if !inside_single_quoted && is_double_quote(c) {
                if !escaping_next {
                    inside_double_quoted = !inside_double_quoted;
                }
                escaping_next = false;
            } else if c == '%' && !inside_single_quoted && !inside_double_quoted {
                // This percentage sign wasn't inside a string, so it is a real comment.
                in_comment = true;
            } else {
                escaping_next = false;
            }
            if !in_comment {
                let ghost before = out@;
                out.push(c);
                proof {
                    let next = line_step(st, c);
                    assert(out@ + strip_from(text@, i as int + 1, next) =~= before + (seq![c]
                        + strip_from(text@, i as int + 1, next)));
                }
            }
        }
        i += 1;
    }
    proof {
        assert(out@ + Seq::<char>::empty() =~= out@);
    }
    let r = text_of(&out, 0, out.len());
    proof {
        assert(out@.subrange(0, out@.len() as int) =~= out@);
    }
    r
}

/// Removes the comments of a problem: first the block comments, from `/*`
/// to the next `*/`, then the comments from a percent sign to the end of the
/// line, and with them the line ends. Nothing is returned exactly where the
/// pattern of a block comment is refused.
pub fn remove_comments(s: &str) -> (r: Option<String>)
    ensures
        r is Some <==> regex_compiles(BLOCK_COMMENT@),
        r matches Some(out) ==> out@ == strip_line_comments_spec(
            regex_replace_all(BLOCK_COMMENT@, s@, ""@),
        ),
{
    // First remove all comment blocks.
    match replace_all(BLOCK_COMMENT, s, "") {
        // Then remove all comment lines.
        Some(s2) => Some(strip_line_comments(s2.as_str())),
        None => None,
    }
}

/// Removes the ends of the lines with the blanks before them. Nothing is
/// returned exactly where the pattern of a line end is refused.
pub fn remove_empty_lines(s: &str) -> (r: Option<String>)
    ensures
        r is Some <==> regex_compiles(LINE_END@),
        r matches Some(out) ==> out@ == regex_replace_all(LINE_END@, s@, ""@),
{
    replace_all(LINE_END, s, "")
}

/// A problem without its comments and line ends.
pub open spec fn cleaned(text: Seq<char>) -> Seq<char> {
    regex_replace_all(
        LINE_END@,
        strip_line_comments_spec(regex_replace_all(BLOCK_COMMENT@, text, ""@)),
        ""@,
    )
}

/// Whether both patterns by which a problem is cleaned are accepted.
pub open spec fn patterns_compile() -> bool {
    regex_compiles(BLOCK_COMMENT@) && regex_compiles(LINE_END@)
}

/// Removes the comments and the line ends of a problem. Nothing is returned
/// exactly where a pattern is refused.
pub fn preprocess(s: &str) -> (r: Option<String>)
    ensures
        r is Some <==> patterns_compile(),
        r matches Some(out) ==> out@ == cleaned(s@),
{
    match remove_comments(s) {
        Some(s3) => remove_empty_lines(s3.as_str()),
        None => None,
    }
}

} // verus!
