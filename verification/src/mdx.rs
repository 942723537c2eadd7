//! Block and inline scanners for MDX constructs: ESM blocks, JSX tags and
//! `{…}` expressions. Expressions are scanned with a small JavaScript lexer
//! that knows strings, template literals, comments, regular expressions and
//! embedded JSX tags, so that braces inside them do not count.
//!
//! Positions in the specifications are absolute indices into the scanned
//! bytes; each public scanner starts at index 0.
use vstd::prelude::*;
use crate::ascii::{ascii_alpha, ascii_alnum, is_ascii_alphabetic, is_ascii_alphanumeric};

verus! {

pub const SPACE: u8 = 32;
pub const TAB: u8 = 9;
pub const LF: u8 = 10;
pub const CR: u8 = 13;
pub const DQUOTE: u8 = 34;
pub const DOLLAR: u8 = 36;
pub const SQUOTE: u8 = 39;
pub const LPAREN: u8 = 40;
pub const RPAREN: u8 = 41;
pub const STAR: u8 = 42;
pub const PLUS: u8 = 43;
pub const MINUS: u8 = 45;
pub const DOT: u8 = 46;
pub const SLASH: u8 = 47;
pub const COLON: u8 = 58;
pub const LT: u8 = 60;
pub const EQ: u8 = 61;
pub const GT: u8 = 62;
pub const LBRACKET: u8 = 91;
pub const BACKSLASH: u8 = 92;
pub const RBRACKET: u8 = 93;
pub const UNDERSCORE: u8 = 95;
pub const BACKTICK: u8 = 96;
pub const LBRACE: u8 = 123;
pub const RBRACE: u8 = 125;

/// What is left of `s` from `i` on: the measure the scanners shrink.
pub open spec fn rem(s: Seq<u8>, i: int) -> nat {
    if i < s.len() {
        (s.len() - i) as nat
    } else {
        0
    }
}

/// A byte of a JavaScript identifier (ASCII letters, digits, `_`, `$`).
pub open spec fn ident_byte(b: u8) -> bool {
    ascii_alnum(b) || b == UNDERSCORE || b == DOLLAR
}

/// Space, tab, line feed or carriage return.
pub open spec fn js_space(b: u8) -> bool {
    b == SPACE || b == TAB || b == LF || b == CR
}

/// A byte that may start a JSX tag name: an ASCII letter, `_`, `$`, or any
/// non-ASCII byte.
pub open spec fn name_start_byte(b: u8) -> bool {
    ascii_alpha(b) || b == UNDERSCORE || b == DOLLAR || b >= 0x80
}

/// A byte that may follow a JSX tag name.
pub open spec fn after_name_byte(b: u8) -> bool {
    b == GT || b == SLASH || b == SPACE || b == TAB || b == LF || b == CR || b == LBRACE
}

/// The index of the last byte in `[lo, i)` that is not a space, tab or
/// line break; `lo - 1` when there is none.
pub open spec fn prev_significant(s: Seq<u8>, lo: int, i: int) -> int
    decreases i - lo,
{
    if i <= lo {
        lo - 1
    } else if js_space(s[i - 1]) {
        prev_significant(s, lo, i - 1)
    } else {
        i - 1
    }
}

/// Where the run of identifier bytes that ends at `i` begins, looking no
/// further back than `lo`.
pub open spec fn ident_start(s: Seq<u8>, lo: int, i: int) -> int
    decreases i - lo,
{
    if i <= lo || !ident_byte(s[i - 1]) {
        i
    } else {
        ident_start(s, lo, i - 1)
    }
}

/// The keywords after which `/` starts a regular expression, not a division.
pub open spec fn regex_keyword(w: Seq<u8>) -> bool {
    ||| w == seq![97u8, 119, 97, 105, 116]  // await
    ||| w == seq![99u8, 97, 115, 101]  // case
    ||| w == seq![100u8, 101, 108, 101, 116, 101]  // delete
    ||| w == seq![105u8, 110]  // in
    ||| w == seq![105u8, 110, 115, 116, 97, 110, 99, 101, 111, 102]  // instanceof
    ||| w == seq![110u8, 101, 119]  // new
    ||| w == seq![111u8, 102]  // of
    ||| w == seq![114u8, 101, 116, 117, 114, 110]  // return
    ||| w == seq![116u8, 104, 114, 111, 119]  // throw
    ||| w == seq![116u8, 121, 112, 101, 111, 102]  // typeof
    ||| w == seq![118u8, 111, 105, 100]  // void
    ||| w == seq![121u8, 105, 101, 108, 100]  // yield
}

/// Whether a `/` at `pos` starts a regular expression literal, judged by the
/// last significant byte before it (looking no further back than `lo`):
/// nothing, or an operator, starts one; a closing bracket, a quote, `++`,
/// `--` or an identifier other than a keyword such as `return` does not.
pub open spec fn slash_starts_regex(s: Seq<u8>, lo: int, pos: int) -> bool {
    let i = prev_significant(s, lo, pos);
    if i < lo {
        true
    } else {
        let c = s[i];
        if c == RPAREN || c == RBRACKET || c == DQUOTE || c == SQUOTE || c == BACKTICK {
            false
        } else if (c == PLUS || c == MINUS) && i > lo && s[i - 1] == c {
            false
        } else if ident_byte(c) {
            regex_keyword(s.subrange(ident_start(s, lo, i + 1), i + 1))
        } else {
            true
        }
    }
}

/// The end of the flags (ASCII letters and digits) that start at `ix`.
pub open spec fn flags_end(s: Seq<u8>, ix: int) -> int
    decreases rem(s, ix),
{
    if 0 <= ix < s.len() && ascii_alnum(s[ix]) {
        flags_end(s, ix + 1)
    } else {
        ix
    }
}

/// Inside a character class `[...]` of a regular expression: the index of
/// the closing `]` (or past the end), escapes skipped.
pub open spec fn class_end(s: Seq<u8>, ix: int) -> int
    decreases rem(s, ix),
{
    if 0 <= ix < s.len() && s[ix] != RBRACKET {
        if s[ix] == BACKSLASH {
            class_end(s, ix + 2)
        } else {
            class_end(s, ix + 1)
        }
    } else {
        ix
    }
}

pub proof fn lemma_class_end(s: Seq<u8>, ix: int)
    requires
        0 <= ix,
    ensures
        class_end(s, ix) >= ix,
    decreases rem(s, ix),
{
    if 0 <= ix < s.len() && s[ix] != RBRACKET {
        if s[ix] == BACKSLASH {
            lemma_class_end(s, ix + 2);
        } else {
            lemma_class_end(s, ix + 1);
        }
    }
}

/// Inside a regular expression literal: the index past its flags, or of the
/// line break or end of input that cuts it short.
pub open spec fn regex_end(s: Seq<u8>, ix: int) -> int
    decreases rem(s, ix),
{
    if ix < 0 || ix >= s.len() {
        ix
    } else {
        let c = s[ix];
        if c == SLASH {
            flags_end(s, ix + 1)
        } else if c == BACKSLASH {
            regex_end(s, ix + 2)
        } else if c == LBRACKET {
            let k = class_end(s, ix + 1);
            proof {
                lemma_class_end(s, ix + 1);
            }
            if k < s.len() {
                regex_end(s, k + 1)
            } else {
                regex_end(s, k)
            }
        } else if c == LF || c == CR {
            ix
        } else {
            regex_end(s, ix + 1)
        }
    }
}

/// Inside a JavaScript string quoted by `q`: the index of the closing quote,
/// of the line break that ends the string, or past the end; escapes skipped.
pub open spec fn quote_end(s: Seq<u8>, ix: int, q: u8) -> int
    decreases rem(s, ix),
{
    if 0 <= ix < s.len() && s[ix] != q && s[ix] != LF && s[ix] != CR {
        if s[ix] == BACKSLASH {
            quote_end(s, ix + 2, q)
        } else {
            quote_end(s, ix + 1, q)
        }
    } else {
        ix
    }
}

pub proof fn lemma_quote_end(s: Seq<u8>, ix: int, q: u8)
    requires
        0 <= ix,
    ensures
        quote_end(s, ix, q) >= ix,
    decreases rem(s, ix),
{
    if 0 <= ix < s.len() && s[ix] != q && s[ix] != LF && s[ix] != CR {
        if s[ix] == BACKSLASH {
            lemma_quote_end(s, ix + 2, q);
        } else {
            lemma_quote_end(s, ix + 1, q);
        }
    }
}

/// Where scanning resumes after a string whose body starts at `ix`: past the
/// closing quote if there is one.
pub open spec fn string_skip(s: Seq<u8>, ix: int, q: u8) -> int {
    let e = quote_end(s, ix, q);
    if 0 <= e < s.len() && s[e] == q {
        e + 1
    } else {
        e
    }
}

/// Inside a template literal with `td` open `${` substitutions: the index
/// past the closing backtick, or past the end.
pub open spec fn template_end(s: Seq<u8>, ix: int, td: nat) -> int
    decreases rem(s, ix),
{
    if ix < 0 || ix >= s.len() {
        ix
    } else {
        let c = s[ix];
        if c == BACKTICK && td == 0 {
            ix + 1
        } else if c == BACKSLASH {
            template_end(s, ix + 2, td)
        } else if c == DOLLAR && ix + 1 < s.len() && s[ix + 1] == LBRACE {
            template_end(s, ix + 2, td + 1)
        } else if c == LBRACE && td > 0 {
            template_end(s, ix + 1, td + 1)
        } else if c == RBRACE && td > 0 {
            template_end(s, ix + 1, (td - 1) as nat)
        } else {
            template_end(s, ix + 1, td)
        }
    }
}

pub proof fn lemma_template_end(s: Seq<u8>, ix: int, td: nat)
    requires
        0 <= ix,
    ensures
        template_end(s, ix, td) >= ix,
    decreases rem(s, ix),
{
    if 0 <= ix < s.len() {
        let c = s[ix];
        if c == BACKTICK && td == 0 {
        } else if c == BACKSLASH {
            lemma_template_end(s, ix + 2, td);
        } else if c == DOLLAR && ix + 1 < s.len() && s[ix + 1] == LBRACE {
            lemma_template_end(s, ix + 2, td + 1);
        } else if c == LBRACE && td > 0 {
            lemma_template_end(s, ix + 1, td + 1);
        } else if c == RBRACE && td > 0 {
            lemma_template_end(s, ix + 1, (td - 1) as nat);
        } else {
            lemma_template_end(s, ix + 1, td);
        }
    }
}

/// The index of the first line feed at or after `ix`, or the end.
pub open spec fn next_lf(s: Seq<u8>, ix: int) -> int
    decreases rem(s, ix),
{
    if 0 <= ix < s.len() && s[ix] != LF {
        next_lf(s, ix + 1)
    } else {
        ix
    }
}

pub proof fn lemma_next_lf(s: Seq<u8>, ix: int)
    requires
        0 <= ix,
    ensures
        next_lf(s, ix) >= ix,
        ix <= s.len() ==> next_lf(s, ix) <= s.len(),
        0 <= next_lf(s, ix) < s.len() ==> s[next_lf(s, ix)] == LF,
        forall|j: int| ix <= j < next_lf(s, ix) ==> s[j] != LF,
    decreases rem(s, ix),
{
    if 0 <= ix < s.len() && s[ix] != LF {
        lemma_next_lf(s, ix + 1);
    }
}

/// Inside a block comment: the index past the closing `*/`, or where the
/// search for it stops, one byte before the end.
pub open spec fn block_comment_end(s: Seq<u8>, ix: int) -> int
    decreases rem(s, ix),
{
    if 0 <= ix && ix + 1 < s.len() {
        if s[ix] == STAR && s[ix + 1] == SLASH {
            ix + 2
        } else {
            block_comment_end(s, ix + 1)
        }
    } else {
        ix
    }
}

pub proof fn lemma_block_comment_end(s: Seq<u8>, ix: int)
    requires
        0 <= ix,
    ensures
        block_comment_end(s, ix) >= ix,
    decreases rem(s, ix),
{
    if 0 <= ix && ix + 1 < s.len() && !(s[ix] == STAR && s[ix + 1] == SLASH) {
        lemma_block_comment_end(s, ix + 1);
    }
}

/// Scanning a JSX tag name from `ix`: where the name ends, or `None` when a
/// `:` is not followed by a byte that may start a name.
pub open spec fn name_end(s: Seq<u8>, ix: int) -> Option<int>
    decreases rem(s, ix),
{
    if ix < 0 || ix >= s.len() {
        Some(ix)
    } else {
        let c = s[ix];
        if ident_byte(c) || c == MINUS || c == DOT || c >= 0x80 {
            name_end(s, ix + 1)
        } else if c == COLON {
            if ix + 1 >= s.len() || !name_start_byte(s[ix + 1]) {
                None
            } else {
                name_end(s, ix + 2)
            }
        } else {
            Some(ix)
        }
    }
}

pub proof fn lemma_name_end(s: Seq<u8>, ix: int)
    requires
        0 <= ix,
    ensures
        name_end(s, ix) matches Some(e) ==> ix <= e && (e <= s.len() || e == ix),
    decreases rem(s, ix),
{
    if 0 <= ix < s.len() {
        let c = s[ix];
        if ident_byte(c) || c == MINUS || c == DOT || c >= 0x80 {
            lemma_name_end(s, ix + 1);
        } else if c == COLON {
            if !(ix + 1 >= s.len() || !name_start_byte(s[ix + 1])) {
                lemma_name_end(s, ix + 2);
            }
        }
    }
}

/// Past a line break at `ix`: one byte, or two for `\r\n`.
pub open spec fn newline_skip(s: Seq<u8>, ix: int) -> int {
    if ix + 1 < s.len() && s[ix] == CR && s[ix + 1] == LF {
        ix + 2
    } else {
        ix + 1
    }
}

/// Inside an attribute value quoted by `q`: the index of the closing quote
/// or past the end; escapes skipped, line breaks allowed.
pub open spec fn attr_quote_end(s: Seq<u8>, ix: int, q: u8) -> int
    decreases rem(s, ix),
{
    if 0 <= ix < s.len() && s[ix] != q {
        if s[ix] == BACKSLASH {
            attr_quote_end(s, ix + 2, q)
        } else {
            attr_quote_end(s, ix + 1, q)
        }
    } else {
        ix
    }
}

pub proof fn lemma_attr_quote_end(s: Seq<u8>, ix: int, q: u8)
    requires
        0 <= ix,
    ensures
        attr_quote_end(s, ix, q) >= ix,
    decreases rem(s, ix),
{
    if 0 <= ix < s.len() && s[ix] != q {
        if s[ix] == BACKSLASH {
            lemma_attr_quote_end(s, ix + 2, q);
        } else {
            lemma_attr_quote_end(s, ix + 1, q);
        }
    }
}

/// Where scanning resumes after a quoted attribute value whose body starts
/// at `ix`.
pub open spec fn attr_string_skip(s: Seq<u8>, ix: int, q: u8) -> int {
    let e = attr_quote_end(s, ix, q);
    if e < s.len() {
        e + 1
    } else {
        e
    }
}

/// A `<` at `ix` that the expression lexer treats as the start of a JSX tag:
/// followed by a letter, `_`, `$`, `/` or `>`.
pub open spec fn jsx_tag_start(s: Seq<u8>, ix: int) -> bool {
    &&& s[ix] == LT
    &&& ix + 1 < s.len()
    &&& {
        let n = s[ix + 1];
        ascii_alpha(n) || n == UNDERSCORE || n == DOLLAR || n == SLASH || n == GT
    }
}

/// The end of the `{…}` expression that starts at `st`, past its matching
/// `}`; `None` when `s[st]` is not `{` or the expression is never closed.
pub open spec fn expr_end(s: Seq<u8>, st: int) -> Option<int>
    decreases rem(s, st), 0int,
{
    if 0 <= st < s.len() && s[st] == LBRACE {
        expr_scan(s, st, st + 1, 1)
    } else {
        None
    }
}

/// One step of the expression lexer at `ix`, with `depth` braces open; the
/// expression began at `lo`, which bounds the look-back for regular
/// expressions.
pub open spec fn expr_scan(s: Seq<u8>, lo: int, ix: int, depth: nat) -> Option<int>
    decreases rem(s, ix), 1int,
{
    if ix < 0 || ix >= s.len() {
        None
    } else {
        let c = s[ix];
        if c == LBRACE {
            expr_scan(s, lo, ix + 1, depth + 1)
        } else if c == RBRACE {
            if depth <= 1 {
                Some(ix + 1)
            } else {
                expr_scan(s, lo, ix + 1, (depth - 1) as nat)
            }
        } else if c == DQUOTE || c == SQUOTE {
            proof {
                lemma_quote_end(s, ix + 1, c);
            }
            expr_scan(s, lo, string_skip(s, ix + 1, c), depth)
        } else if c == BACKTICK {
            proof {
                lemma_template_end(s, ix + 1, 0);
            }
            expr_scan(s, lo, template_end(s, ix + 1, 0), depth)
        } else if c == SLASH && ix + 1 < s.len() && s[ix + 1] == SLASH {
            proof {
                lemma_next_lf(s, ix + 2);
            }
            expr_scan(s, lo, next_lf(s, ix + 2), depth)
        } else if c == SLASH && ix + 1 < s.len() && s[ix + 1] == STAR {
            proof {
                lemma_block_comment_end(s, ix + 2);
            }
            expr_scan(s, lo, block_comment_end(s, ix + 2), depth)
        } else if c == SLASH && slash_starts_regex(s, lo, ix) {
            proof {
                lemma_regex_end(s, ix + 1);
            }
            expr_scan(s, lo, regex_end(s, ix + 1), depth)
        } else if jsx_tag_start(s, ix) {
            match tag_end(s, ix) {
                Some(e) => if e > ix {
                    expr_scan(s, lo, e, depth)
                } else {
                    None
                },
                None => expr_scan(s, lo, ix + 1, depth),
            }
        } else {
            expr_scan(s, lo, ix + 1, depth)
        }
    }
}

/// The end of the JSX tag whose `<` is at `st`, past its `>` or `/>`;
/// `None` when the name is malformed or the tag is never closed.
pub open spec fn tag_end(s: Seq<u8>, st: int) -> Option<int>
    decreases rem(s, st), 0int,
{
    if st < 0 || st >= s.len() {
        None
    } else {
        let ix = if st + 1 < s.len() && s[st + 1] == SLASH {
            st + 2
        } else {
            st + 1
        };
        if ix < s.len() && s[ix] == GT {
            Some(ix + 1)
        } else if ix >= s.len() || !name_start_byte(s[ix]) {
            None
        } else {
            proof {
                lemma_name_end(s, ix + 1);
            }
            match name_end(s, ix + 1) {
                None => None,
                Some(p) => if p < s.len() && !after_name_byte(s[p]) {
                    None
                } else {
                    tag_scan(s, p)
                },
            }
        }
    }
}

/// One step of scanning a JSX tag's attributes at `ix`.
pub open spec fn tag_scan(s: Seq<u8>, ix: int) -> Option<int>
    decreases rem(s, ix), 1int,
{
    if ix < 0 || ix >= s.len() {
        None
    } else {
        let c = s[ix];
        if c == GT {
            Some(ix + 1)
        } else if c == SLASH && ix + 1 < s.len() && s[ix + 1] == GT {
            Some(ix + 2)
        } else if c == LBRACE {
            match expr_end(s, ix) {
                None => None,
                Some(e) => if e > ix {
                    tag_scan(s, e)
                } else {
                    None
                },
            }
        } else if c == DQUOTE || c == SQUOTE {
            proof {
                lemma_attr_quote_end(s, ix + 1, c);
            }
            tag_scan(s, attr_string_skip(s, ix + 1, c))
        } else if c == LF || c == CR {
            tag_scan(s, newline_skip(s, ix))
        } else {
            tag_scan(s, ix + 1)
        }
    }
}

pub proof fn lemma_regex_end(s: Seq<u8>, ix: int)
    requires
        0 <= ix,
    ensures
        regex_end(s, ix) >= ix,
    decreases rem(s, ix),
{
    if 0 <= ix < s.len() {
        let c = s[ix];
        if c == SLASH {
            lemma_flags_end(s, ix + 1);
        } else if c == BACKSLASH {
            lemma_regex_end(s, ix + 2);
        } else if c == LBRACKET {
            let k = class_end(s, ix + 1);
            lemma_class_end(s, ix + 1);
            if k < s.len() {
                lemma_regex_end(s, k + 1);
            } else {
                lemma_regex_end(s, k);
            }
        } else if c == LF || c == CR {
        } else {
            lemma_regex_end(s, ix + 1);
        }
    }
}

pub proof fn lemma_flags_end(s: Seq<u8>, ix: int)
    requires
        0 <= ix,
    ensures
        flags_end(s, ix) >= ix,
    decreases rem(s, ix),
{
    if 0 <= ix < s.len() && ascii_alnum(s[ix]) {
        lemma_flags_end(s, ix + 1);
    }
}

/// Whether `bytes[start..end]` spells the word `kw`.
fn word_eq(bytes: &[u8], start: usize, end: usize, kw: &[u8]) -> (r: bool)
    requires
        start <= end <= bytes@.len(),
    ensures
        r == (bytes@.subrange(start as int, end as int) == kw@),
{
    if end - start != kw.len() {
        return false;
    }
    let mut k: usize = 0;
    while k < kw.len()
        invariant
            start <= end <= bytes@.len(),
            end - start == kw@.len(),
            k <= kw@.len(),
            forall|j: int| 0 <= j < k ==> bytes@[start + j] == kw@[j],
        decreases kw@.len() - k,
    {
        if bytes[start + k] != kw[k] {
            assert(bytes@.subrange(start as int, end as int)[k as int] != kw@[k as int]);
            return false;
        }
        k += 1;
    }
    assert(bytes@.subrange(start as int, end as int) =~= kw@);
    true
}


/// Whether `bytes[start..end]` is one of the keywords after which `/`
/// starts a regular expression.
fn is_regex_keyword(bytes: &[u8], start: usize, end: usize) -> (r: bool)
    requires
        start <= end <= bytes@.len(),
    ensures
        r == regex_keyword(bytes@.subrange(start as int, end as int)),
{
    let w0: [u8; 5] = [97, 119, 97, 105, 116];
    let w1: [u8; 4] = [99, 97, 115, 101];
    let w2: [u8; 6] = [100, 101, 108, 101, 116, 101];
    let w3: [u8; 2] = [105, 110];
    let w4: [u8; 10] = [105, 110, 115, 116, 97, 110, 99, 101, 111, 102];
    let w5: [u8; 3] = [110, 101, 119];
    let w6: [u8; 2] = [111, 102];
    let w7: [u8; 6] = [114, 101, 116, 117, 114, 110];
    let w8: [u8; 5] = [116, 104, 114, 111, 119];
    let w9: [u8; 6] = [116, 121, 112, 101, 111, 102];
    let w10: [u8; 4] = [118, 111, 105, 100];
    let w11: [u8; 5] = [121, 105, 101, 108, 100];
    word_eq(bytes, start, end, w0.as_slice()) || word_eq(bytes, start, end, w1.as_slice())
        || word_eq(bytes, start, end, w2.as_slice()) || word_eq(bytes, start, end, w3.as_slice())
        || word_eq(bytes, start, end, w4.as_slice()) || word_eq(bytes, start, end, w5.as_slice())
        || word_eq(bytes, start, end, w6.as_slice()) || word_eq(bytes, start, end, w7.as_slice())
        || word_eq(bytes, start, end, w8.as_slice()) || word_eq(bytes, start, end, w9.as_slice())
        || word_eq(bytes, start, end, w10.as_slice()) || word_eq(bytes, start, end, w11.as_slice())
}

fn is_ident_byte(b: u8) -> (r: bool)
    ensures
        r == ident_byte(b),
{
    is_ascii_alphanumeric(b) || b == UNDERSCORE || b == DOLLAR
}

/// Whether the `/` at `pos` starts a regular expression literal, looking
/// back no further than `lo`.
fn slash_is_regex(bytes: &[u8], lo: usize, pos: usize) -> (r: bool)
    requires
        lo <= pos <= bytes@.len(),
    ensures
        r == slash_starts_regex(bytes@, lo as int, pos as int),
{
    let ghost s = bytes@;
    let mut i = pos;
    while i > lo
        invariant
            lo <= i <= pos <= s.len(),
            s == bytes@,
            prev_significant(s, lo as int, i as int) == prev_significant(s, lo as int, pos as int),
        decreases i,
    {
        i -= 1;
        let c = bytes[i];
        if c == SPACE || c == TAB || c == LF || c == CR {
            continue;
        }
        assert(prev_significant(s, lo as int, pos as int) == i);
        if c == RPAREN || c == RBRACKET || c == DQUOTE || c == SQUOTE || c == BACKTICK {
            return false;
        }
        if (c == PLUS || c == MINUS) && i > lo && bytes[i - 1] == c {
            return false;
        }
        if is_ident_byte(c) {
            let end = i + 1;
            while i > lo && is_ident_byte(bytes[i - 1])
                invariant
                    lo <= i < end <= s.len(),
                    s == bytes@,
                    ident_start(s, lo as int, i as int) == ident_start(s, lo as int, end as int),
                decreases i,
            {
                i -= 1;
            }
            return is_regex_keyword(bytes, i, end);
        }
        return true;
    }
    true
}

/// Scans a regular expression literal whose `/` is at `start`; returns the
/// index past its flags (or of the line break or end that cuts it short).
fn scan_regex(bytes: &[u8], start: usize) -> (r: usize)
    requires
        start < bytes@.len() < usize::MAX,
    ensures
        r as int == regex_end(bytes@, start + 1),
        start < r <= bytes@.len() + 1,
{
    let ghost s = bytes@;
    let len = bytes.len();
    let mut ix = start + 1;
    while ix < len
        invariant
            start < ix <= len + 1,
            len == s.len() < usize::MAX,
            s == bytes@,
            regex_end(s, ix as int) == regex_end(s, start + 1),
        decreases len + 1 - ix,
    {
        let c = bytes[ix];
        if c == SLASH {
            ix += 1;
            while ix < len && is_ascii_alphanumeric(bytes[ix])
                invariant
                    start < ix <= len,
                    len == s.len(),
                    s == bytes@,
                    flags_end(s, ix as int) == regex_end(s, start + 1),
                decreases len - ix,
            {
                ix += 1;
            }
            return ix;
        } else if c == BACKSLASH {
            ix += 2;
        } else if c == LBRACKET {
            ix += 1;
            let ghost k0 = ix as int;
            while ix < len && bytes[ix] != RBRACKET
                invariant
                    start < ix <= len + 1,
                    len == s.len() < usize::MAX,
                    s == bytes@,
                    k0 <= ix,
                    class_end(s, ix as int) == class_end(s, k0),
                decreases len + 1 - ix,
            {
                if bytes[ix] == BACKSLASH {
                    ix += 1;
                }
                ix += 1;
            }
            if ix < len {
                ix += 1;
            }
        } else if c == LF || c == CR {
            return ix;
        } else {
            ix += 1;
        }
    }
    ix
}

/// An optional index, as a mathematical integer.
pub open spec fn as_int(o: Option<usize>) -> Option<int> {
    match o {
        Some(v) => Some(v as int),
        None => None,
    }
}

/// Skips a JavaScript string whose body starts at `ix`, quoted by `q`.
fn skip_string(bytes: &[u8], ix: usize, q: u8) -> (r: usize)
    requires
        0 < ix <= bytes@.len() < usize::MAX,
    ensures
        r as int == string_skip(bytes@, ix as int, q),
        ix <= r <= bytes@.len() + 1,
{
    let ghost s = bytes@;
    let len = bytes.len();
    let mut i = ix;
    while i < len && bytes[i] != q && bytes[i] != LF && bytes[i] != CR
        invariant
            ix <= i <= len + 1,
            len == s.len() < usize::MAX,
            s == bytes@,
            quote_end(s, i as int, q) == quote_end(s, ix as int, q),
        decreases len + 1 - i,
    {
        if bytes[i] == BACKSLASH {
            i += 1;
        }
        i += 1;
    }
    if i < len && bytes[i] == q {
        i += 1;
    }
    i
}

/// Skips a template literal whose body starts at `ix`.
fn skip_template(bytes: &[u8], ix: usize) -> (r: usize)
    requires
        0 < ix <= bytes@.len() < usize::MAX,
    ensures
        r as int == template_end(bytes@, ix as int, 0),
        ix <= r <= bytes@.len() + 1,
{
    let ghost s = bytes@;
    let len = bytes.len();
    let mut i = ix;
    let mut td: usize = 0;
    while i < len
        invariant
            ix <= i <= len + 1,
            len == s.len() < usize::MAX,
            s == bytes@,
            td <= i,
            template_end(s, i as int, td as nat) == template_end(s, ix as int, 0),
        decreases len + 1 - i,
    {
        let d = bytes[i];
        if d == BACKTICK && td == 0 {
            return i + 1;
        }
        if d == BACKSLASH {
            i += 2;
        } else if d == DOLLAR && i + 1 < len && bytes[i + 1] == LBRACE {
            td += 1;
            i += 2;
        } else {
            if d == LBRACE && td > 0 {
                td += 1;
            } else if d == RBRACE && td > 0 {
                td -= 1;
            }
            i += 1;
        }
    }
    i
}

/// Skips a line comment whose body starts at `ix`, up to the line feed.
fn skip_line_comment(bytes: &[u8], ix: usize) -> (r: usize)
    requires
        ix <= bytes@.len(),
    ensures
        r as int == next_lf(bytes@, ix as int),
        ix <= r <= bytes@.len(),
{
    let ghost s = bytes@;
    let mut i = ix;
    while i < bytes.len() && bytes[i] != LF
        invariant
            ix <= i <= s.len(),
            s == bytes@,
            next_lf(s, i as int) == next_lf(s, ix as int),
        decreases s.len() - i,
    {
        i += 1;
    }
    i
}

/// Skips a block comment whose body starts at `ix`, past the closing `*/`.
fn skip_block_comment(bytes: &[u8], ix: usize) -> (r: usize)
    requires
        ix <= bytes@.len() < usize::MAX,
    ensures
        r as int == block_comment_end(bytes@, ix as int),
        ix <= r <= bytes@.len(),
{
    let ghost s = bytes@;
    let mut i = ix;
    while i + 1 < bytes.len()
        invariant
            ix <= i <= s.len() < usize::MAX,
            s == bytes@,
            block_comment_end(s, i as int) == block_comment_end(s, ix as int),
        decreases s.len() - i,
    {
        if bytes[i] == STAR && bytes[i + 1] == SLASH {
            return i + 2;
        }
        i += 1;
    }
    i
}

/// Skips a quoted attribute value whose body starts at `ix`, quoted by `q`.
fn skip_attr_string(bytes: &[u8], ix: usize, q: u8) -> (r: usize)
    requires
        0 < ix <= bytes@.len() < usize::MAX,
    ensures
        r as int == attr_string_skip(bytes@, ix as int, q),
        ix <= r <= bytes@.len() + 1,
{
    let ghost s = bytes@;
    let len = bytes.len();
    let mut i = ix;
    while i < len && bytes[i] != q
        invariant
            ix <= i <= len + 1,
            len == s.len() < usize::MAX,
            s == bytes@,
            attr_quote_end(s, i as int, q) == attr_quote_end(s, ix as int, q),
        decreases len + 1 - i,
    {
        if bytes[i] == BACKSLASH {
            i += 1;
        }
        i += 1;
    }
    if i < len {
        i += 1;
    }
    i
}

/// Scans a JSX tag name from `ix`.
fn scan_name_end(bytes: &[u8], ix: usize) -> (r: Option<usize>)
    requires
        ix <= bytes@.len() < usize::MAX,
    ensures
        as_int(r) == name_end(bytes@, ix as int),
        r matches Some(e) ==> ix <= e <= bytes@.len(),
{
    let ghost s = bytes@;
    let len = bytes.len();
    let mut i = ix;
    while i < len
        invariant
            ix <= i <= len,
            len == s.len() < usize::MAX,
            s == bytes@,
            name_end(s, i as int) == name_end(s, ix as int),
        decreases len - i,
    {
        let c = bytes[i];
        if is_ident_byte(c) || c == MINUS || c == DOT || c >= 0x80 {
            i += 1;
        } else if c == COLON {
            i += 1;
            if i >= len {
                return None;
            }
            let ch = bytes[i];
            if !is_ascii_alphabetic(ch) && ch != UNDERSCORE && ch != DOLLAR && ch < 0x80 {
                return None;
            }
            i += 1;
        } else {
            return Some(i);
        }
    }
    Some(i)
}

/// The end of the `{…}` expression that starts at `st`, past the matching
/// `}`; `None` when no `{` stands at `st` or it is never closed.
fn scan_mdx_expression_end(bytes: &[u8], st: usize) -> (r: Option<usize>)
    requires
        bytes@.len() < usize::MAX,
    ensures
        as_int(r) == expr_end(bytes@, st as int),
        r matches Some(e) ==> st < e <= bytes@.len(),
    decreases bytes@.len() - st,
{
    let ghost s = bytes@;
    let len = bytes.len();
    if st >= len || bytes[st] != LBRACE {
        return None;
    }
    let mut ix = st + 1;
    let mut depth: usize = 1;
    while ix < len
        invariant
            st < ix <= len + 1,
            len == s.len() < usize::MAX,
            s == bytes@,
            1 <= depth <= ix - st,
            expr_scan(s, st as int, ix as int, depth as nat) == expr_end(s, st as int),
        decreases len + 1 - ix,
    {
        let c = bytes[ix];
        if c == LBRACE {
            depth += 1;
            ix += 1;
        } else if c == RBRACE {
            if depth == 1 {
                return Some(ix + 1);
            }
            depth -= 1;
            ix += 1;
        } else if c == DQUOTE || c == SQUOTE {
            ix = skip_string(bytes, ix + 1, c);
        } else if c == BACKTICK {
            ix = skip_template(bytes, ix + 1);
        } else if c == SLASH && ix + 1 < len && bytes[ix + 1] == SLASH {
            ix = skip_line_comment(bytes, ix + 2);
        } else if c == SLASH && ix + 1 < len && bytes[ix + 1] == STAR {
            ix = skip_block_comment(bytes, ix + 2);
        } else if c == SLASH && slash_is_regex(bytes, st, ix) {
            ix = scan_regex(bytes, ix);
        } else if c == LT && ix + 1 < len && (is_ascii_alphabetic(bytes[ix + 1]) || bytes[ix + 1]
            == UNDERSCORE || bytes[ix + 1] == DOLLAR || bytes[ix + 1] == SLASH || bytes[ix + 1]
            == GT) {
            match scan_mdx_jsx_tag_end(bytes, ix) {
                Some(e) => {
                    ix = e;
                },
                None => {
                    ix += 1;
                },
            }
        } else {
            ix += 1;
        }
    }
    None
}

/// The end of the JSX tag whose `<` is at `st`, past its `>` or `/>`.
fn scan_mdx_jsx_tag_end(bytes: &[u8], st: usize) -> (r: Option<usize>)
    requires
        st < bytes@.len() < usize::MAX,
    ensures
        as_int(r) == tag_end(bytes@, st as int),
        r matches Some(e) ==> st < e <= bytes@.len(),
    decreases bytes@.len() - st,
{
    let ghost s = bytes@;
    let len = bytes.len();
    let mut ix = st + 1;
    if ix < len && bytes[ix] == SLASH {
        ix += 1;
    }
    if ix < len && bytes[ix] == GT {
        return Some(ix + 1);
    }
    if ix >= len {
        return None;
    }
    let first = bytes[ix];
    if !is_ascii_alphabetic(first) && first != UNDERSCORE && first != DOLLAR && first < 0x80 {
        return None;
    }
    match scan_name_end(bytes, ix + 1) {
        None => {
            return None;
        },
        Some(p) => {
            ix = p;
        },
    }
    if ix < len {
        let c = bytes[ix];
        if !(c == GT || c == SLASH || c == SPACE || c == TAB || c == LF || c == CR || c == LBRACE) {
            return None;
        }
    }
    while ix < len
        invariant
            st < ix <= len + 1,
            len == s.len() < usize::MAX,
            s == bytes@,
            tag_scan(s, ix as int) == tag_end(s, st as int),
        decreases len + 1 - ix,
    {
        let c = bytes[ix];
        if c == GT {
            return Some(ix + 1);
        }
        if c == SLASH && ix + 1 < len && bytes[ix + 1] == GT {
            return Some(ix + 2);
        }
        if c == LBRACE {
            match scan_mdx_expression_end(bytes, ix) {
                None => {
                    return None;
                },
                Some(e) => {
                    ix = e;
                },
            }
        } else if c == DQUOTE || c == SQUOTE {
            ix = skip_attr_string(bytes, ix + 1, c);
        } else if c == LF || c == CR {
            ix += 1;
            if ix < len && bytes[ix - 1] == CR && bytes[ix] == LF {
                ix += 1;
            }
        } else {
            ix += 1;
        }
    }
    None
}

/// Past the end of the line that contains `ix`: after its line feed, or the
/// end of the input.
pub open spec fn line_end_after(s: Seq<u8>, ix: int) -> int {
    let k = next_lf(s, ix);
    if k < s.len() {
        k + 1
    } else {
        s.len() as int
    }
}

pub proof fn lemma_next_lf_at(s: Seq<u8>, st: int, k: int)
    requires
        0 <= st <= k <= s.len(),
        k < s.len() ==> s[k] == LF,
        forall|j: int| st <= j < k ==> s[j] != LF,
    ensures
        next_lf(s, st) == k,
    decreases k - st,
{
    if st < k {
        lemma_next_lf_at(s, st + 1, k);
    }
}

/// From `ix`, only spaces and tabs up to a line break or the end of input.
pub open spec fn ws_to_eol(s: Seq<u8>, ix: int) -> bool
    decreases rem(s, ix),
{
    if ix < 0 || ix >= s.len() {
        true
    } else if s[ix] == SPACE || s[ix] == TAB {
        ws_to_eol(s, ix + 1)
    } else {
        s[ix] == LF || s[ix] == CR
    }
}

/// Past the spaces and tabs that start at `ix`.
pub open spec fn skip_blanks(s: Seq<u8>, ix: int) -> int
    decreases rem(s, ix),
{
    if 0 <= ix < s.len() && (s[ix] == SPACE || s[ix] == TAB) {
        skip_blanks(s, ix + 1)
    } else {
        ix
    }
}

pub proof fn lemma_skip_blanks(s: Seq<u8>, ix: int)
    requires
        0 <= ix,
    ensures
        skip_blanks(s, ix) >= ix,
        ix <= s.len() ==> skip_blanks(s, ix) <= s.len(),
    decreases rem(s, ix),
{
    if 0 <= ix < s.len() && (s[ix] == SPACE || s[ix] == TAB) {
        lemma_skip_blanks(s, ix + 1);
    }
}

/// Whether the line from `start` on holds nothing but spaces and tabs.
fn is_only_whitespace_to_eol(bytes: &[u8], start: usize) -> (r: bool)
    requires
        start <= bytes@.len(),
    ensures
        r == ws_to_eol(bytes@, start as int),
{
    let ghost s = bytes@;
    let mut i = start;
    while i < bytes.len()
        invariant
            start <= i <= s.len(),
            s == bytes@,
            ws_to_eol(s, i as int) == ws_to_eol(s, start as int),
        decreases s.len() - i,
    {
        let b = bytes[i];
        if b == SPACE || b == TAB {
            i += 1;
        } else {
            return b == LF || b == CR;
        }
    }
    true
}

/// The index past the end of the line that contains `start`: after its line
/// feed, or the end of input.
fn scan_to_line_end(bytes: &[u8], start: usize) -> (r: usize)
    requires
        start <= bytes@.len(),
    ensures
        r as int == line_end_after(bytes@, start as int),
        start <= r <= bytes@.len(),
        start < bytes@.len() ==> start < r,
{
    let ghost s = bytes@;
    let rest = vstd::slice::slice_subrange(bytes, start, bytes.len());
    match crate::line_index::memchr_find(LF, rest) {
        Some(i) => {
            proof {
                assert(rest@[i as int] == s[start + i]);
                assert forall|j: int| start <= j < start + i implies s[j] != LF by {
                    assert(rest@[j - start] == s[j]);
                }
                lemma_next_lf_at(s, start as int, start + i);
            }
            start + i + 1
        },
        None => {
            proof {
                assert forall|j: int| start <= j < s.len() implies s[j] != LF by {
                    assert(rest@[j - start] == s[j]);
                }
                lemma_next_lf_at(s, start as int, s.len() as int);
            }
            bytes.len()
        },
    }
}

/// The word `import`.
pub open spec fn import_word() -> Seq<u8> {
    seq![105u8, 109, 112, 111, 114, 116]
}

/// The word `export`.
pub open spec fn export_word() -> Seq<u8> {
    seq![101u8, 120, 112, 111, 114, 116]
}

/// The input opens an ESM block: `import` followed by a space, tab or `{`,
/// or `export` followed by a space, tab, `{`, `*` or a line break.
pub open spec fn esm_start(s: Seq<u8>) -> bool {
    &&& s.len() > 6
    &&& {
        let c = s[6];
        ||| s.subrange(0, 6) == import_word() && (c == SPACE || c == TAB || c == LBRACE)
        ||| s.subrange(0, 6) == export_word() && (c == SPACE || c == TAB || c == LBRACE || c
            == STAR || c == LF || c == CR)
    }
}

pub proof fn lemma_line_end_after(s: Seq<u8>, ix: int)
    requires
        0 <= ix <= s.len(),
    ensures
        ix <= line_end_after(s, ix) <= s.len(),
        ix < s.len() ==> ix < line_end_after(s, ix),
{
    lemma_next_lf(s, ix);
}

/// An ESM block, one line at a time from the line that starts at `ix`:
/// it ends after the first line that is followed by a blank line or the end
/// of input.
pub open spec fn esm_lines(s: Seq<u8>, ix: int) -> int
    decreases rem(s, ix),
{
    if ix < 0 || ix >= s.len() {
        ix
    } else {
        let e = line_end_after(s, ix);
        proof {
            lemma_line_end_after(s, ix);
        }
        if e >= s.len() || s[e] == LF || s[e] == CR {
            e
        } else {
            esm_lines(s, e)
        }
    }
}

/// The end of the ESM block (`import …` or `export …`) at the start of
/// `s`, including its last line feed: all lines up to a blank line.
pub open spec fn esm_block_end(s: Seq<u8>) -> Option<int> {
    if esm_start(s) {
        Some(esm_lines(s, 0))
    } else {
        None
    }
}

/// Whether `bytes` starts with `word` followed by one of `next`.
fn starts_with_word(bytes: &[u8], word: &[u8], next: &[u8]) -> (r: bool)
    requires
        word@.len() == 6,
    ensures
        r == (bytes@.len() > 6 && bytes@.subrange(0, 6) == word@ && next@.contains(bytes@[6])),
{
    if bytes.len() <= 6 || !word_eq(bytes, 0, 6, word) {
        return false;
    }
    let c = bytes[6];
    let mut k: usize = 0;
    while k < next.len()
        invariant
            k <= next@.len(),
            bytes@.len() > 6,
            bytes@.subrange(0, 6) == word@,
            c == bytes@[6],
            forall|j: int| 0 <= j < k ==> next@[j] != c,
        decreases next@.len() - k,
    {
        if next[k] == c {
            assert(next@[k as int] == c);
            return true;
        }
        k += 1;
    }
    false
}

/// Scans an MDX ESM block (`import …` or `export …`) at the start of
/// `bytes`, taking every following non-blank line; returns the index past
/// the block's last line feed.
pub fn scan_mdx_esm(bytes: &[u8]) -> (r: Option<usize>)
    ensures
        as_int(r) == esm_block_end(bytes@),
{
    let ghost s = bytes@;
    let import: [u8; 6] = [105, 109, 112, 111, 114, 116];
    let export: [u8; 6] = [101, 120, 112, 111, 114, 116];
    let import_next: [u8; 3] = [SPACE, TAB, LBRACE];
    let export_next: [u8; 6] = [SPACE, TAB, LBRACE, STAR, LF, CR];
    let is_import = starts_with_word(bytes, import.as_slice(), import_next.as_slice());
    let is_export = starts_with_word(bytes, export.as_slice(), export_next.as_slice());
    proof {
        if s.len() > 6 {
            let c = s[6];
            assert(import_next@.contains(c) <==> (c == SPACE || c == TAB || c == LBRACE)) by {
                if c == SPACE { assert(import_next@[0] == c); }
                if c == TAB { assert(import_next@[1] == c); }
                if c == LBRACE { assert(import_next@[2] == c); }
            }
            assert(export_next@.contains(c) <==> (c == SPACE || c == TAB || c == LBRACE || c == STAR
                || c == LF || c == CR)) by {
                if c == SPACE { assert(export_next@[0] == c); }
                if c == TAB { assert(export_next@[1] == c); }
                if c == LBRACE { assert(export_next@[2] == c); }
                if c == STAR { assert(export_next@[3] == c); }
                if c == LF { assert(export_next@[4] == c); }
                if c == CR { assert(export_next@[5] == c); }
            }
        }
    }
    if !is_import && !is_export {
        return None;
    }
    assert(esm_start(s));
    let mut ix: usize = 0;
    loop
        invariant
            0 <= ix < s.len(),
            esm_start(s),
            s == bytes@,
            esm_lines(s, ix as int) == esm_lines(s, 0),
        decreases s.len() - ix,
    {
        let eol = scan_to_line_end(bytes, ix);
        ix = eol;
        if ix >= bytes.len() || bytes[ix] == LF || bytes[ix] == CR {
            return Some(ix);
        }
    }
}

/// After the first tag of a JSX block line, at `pos`: further tags, and
/// expressions unless the first tag opened an element, may follow up to the
/// end of the line; anything else makes the line inline content.
pub open spec fn block_rest(s: Seq<u8>, pos: int, opening: bool) -> Option<int>
    decreases rem(s, pos),
{
    let p = skip_blanks(s, pos);
    if pos < 0 {
        None
    } else if p >= s.len() || s[p] == LF || s[p] == CR {
        Some(line_end_after(s, p))
    } else {
        proof {
            lemma_skip_blanks(s, pos);
        }
        if s[p] == LT && tag_end(s, p) is Some && tag_end(s, p)->0 > p {
            block_rest(s, tag_end(s, p)->0, opening)
        } else if s[p] == LBRACE && !opening && expr_end(s, p) is Some && expr_end(s, p)->0 > p {
            block_rest(s, expr_end(s, p)->0, opening)
        } else {
            None
        }
    }
}

/// The end of a block-level JSX element at the start of `s`, including the
/// line feed that ends its line: a tag (or fragment) followed on its line
/// only by further tags, expressions (not inside an opening tag's body) and
/// blanks.
pub open spec fn jsx_block_end(s: Seq<u8>) -> Option<int> {
    if s.len() < 2 || s[0] != LT {
        None
    } else {
        let closing = s[1] == SLASH;
        let ns: int = if closing {
            2
        } else {
            1
        };
        if ns >= s.len() {
            None
        } else if s[ns] == GT {
            if ws_to_eol(s, ns + 1) {
                Some(line_end_after(s, ns + 1))
            } else {
                None
            }
        } else if !name_start_byte(s[ns]) {
            None
        } else {
            match tag_end(s, 0) {
                None => None,
                Some(p) => {
                    let self_closing = p >= 2 && s[p - 2] == SLASH && s[p - 1] == GT;
                    block_rest(s, p, !closing && !self_closing)
                },
            }
        }
    }
}

/// Scans a block-level MDX JSX element at the start of `bytes`: the tag
/// must be the only content of its line, apart from more tags, expressions
/// and blanks. Returns the index past the line's line feed.
pub fn scan_mdx_jsx_block(bytes: &[u8]) -> (r: Option<usize>)
    requires
        bytes@.len() < usize::MAX,
    ensures
        as_int(r) == jsx_block_end(bytes@),
{
    let ghost s = bytes@;
    let len = bytes.len();
    if len < 2 || bytes[0] != LT {
        return None;
    }
    let is_closing = bytes[1] == SLASH;
    let name_start: usize = if is_closing {
        2
    } else {
        1
    };
    if name_start >= len {
        return None;
    }
    if bytes[name_start] == GT {
        let after = name_start + 1;
        if is_only_whitespace_to_eol(bytes, after) {
            return Some(scan_to_line_end(bytes, after));
        } else {
            return None;
        }
    }
    let first = bytes[name_start];
    if !is_ascii_alphabetic(first) && first != UNDERSCORE && first != DOLLAR && first < 0x80 {
        return None;
    }
    let mut pos = match scan_mdx_jsx_tag_end(bytes, 0) {
        None => {
            return None;
        },
        Some(p) => p,
    };
    let first_is_self_closing = pos >= 2 && bytes[pos - 2] == SLASH && bytes[pos - 1] == GT;
    let first_is_opening = !is_closing && !first_is_self_closing;
    assert(jsx_block_end(s) == block_rest(s, pos as int, first_is_opening));
    loop
        invariant
            0 < pos <= len,
            len == s.len() < usize::MAX,
            s == bytes@,
            block_rest(s, pos as int, first_is_opening) == jsx_block_end(s),
        decreases len - pos,
    {
        let ghost p0 = pos as int;
        proof {
            lemma_skip_blanks(s, p0);
        }
        while pos < len && (bytes[pos] == SPACE || bytes[pos] == TAB)
            invariant
                p0 <= pos <= len,
                len == s.len(),
                s == bytes@,
                skip_blanks(s, pos as int) == skip_blanks(s, p0),
            decreases len - pos,
        {
            pos += 1;
        }
        if pos >= len || bytes[pos] == LF || bytes[pos] == CR {
            return Some(scan_to_line_end(bytes, pos));
        }
        if bytes[pos] == LT {
            if let Some(end) = scan_mdx_jsx_tag_end(bytes, pos) {
                pos = end;
                continue;
            }
        }
        if bytes[pos] == LBRACE {
            if first_is_opening {
                return None;
            }
            if let Some(end) = scan_mdx_expression_end(bytes, pos) {
                pos = end;
                continue;
            }
        }
        return None;
    }
}

/// The end of a block-level `{…}` expression at the start of `s`: past the
/// blanks and line break after its closing `}`, which must end the line.
pub open spec fn expression_block_end(s: Seq<u8>) -> Option<int> {
    match expr_end(s, 0) {
        None => None,
        Some(ix) => if !ws_to_eol(s, ix) {
            None
        } else {
            let a = skip_blanks(s, ix);
            let b = if a < s.len() && s[a] == CR {
                a + 1
            } else {
                a
            };
            Some(
                if b < s.len() && s[b] == LF {
                    b + 1
                } else {
                    b
                },
            )
        },
    }
}

/// Scans a block-level MDX expression `{…}` at the start of `bytes`; only
/// blanks may follow it on its line. Returns the index past the line break.
pub fn scan_mdx_expression_block(bytes: &[u8]) -> (r: Option<usize>)
    requires
        bytes@.len() < usize::MAX,
    ensures
        as_int(r) == expression_block_end(bytes@),
{
    let ghost s = bytes@;
    let len = bytes.len();
    if len == 0 || bytes[0] != LBRACE {
        return None;
    }
    let mut ix = match scan_mdx_expression_end(bytes, 0) {
        None => {
            return None;
        },
        Some(e) => e,
    };
    if !is_only_whitespace_to_eol(bytes, ix) {
        return None;
    }
    let ghost i0 = ix as int;
    while ix < len && (bytes[ix] == SPACE || bytes[ix] == TAB)
        invariant
            i0 <= ix <= len,
            len == s.len(),
            s == bytes@,
            skip_blanks(s, ix as int) == skip_blanks(s, i0),
        decreases len - ix,
    {
        ix += 1;
    }
    if ix < len && bytes[ix] == CR {
        ix += 1;
    }
    if ix < len && bytes[ix] == LF {
        ix += 1;
    }
    Some(ix)
}

/// The length of the closed `{…}` expression at the start of `s`.
#[verifier::opaque]
pub open spec fn expression_len(s: Seq<u8>) -> Option<int> {
    expr_end(s, 0)
}

/// Scans an inline MDX expression `{…}` at the start of `bytes`; returns the
/// start and end of its content (without the braces) and its total length.
pub fn scan_mdx_inline_expression(bytes: &[u8]) -> (r: Option<(usize, usize, usize)>)
    requires
        bytes@.len() < usize::MAX,
    ensures
        match expression_len(bytes@) {
            None => r is None,
            Some(t) => r == Some((1usize, (t - 1) as usize, t as usize)),
        },
        r matches Some((_, _, total)) ==> 0 < total <= bytes@.len(),
        expression_len(bytes@) matches Some(t) ==> 0 < t <= bytes@.len(),
{
    proof {
        reveal(expression_len);
    }
    if bytes.len() == 0 || bytes[0] != LBRACE {
        return None;
    }
    match scan_mdx_expression_end(bytes, 0) {
        None => None,
        Some(total) => Some((1, total - 1, total)),
    }
}

/// One step of scanning an inline JSX tag's attributes at `ix`, with `bd`
/// braces open: the tag closes at a `>` or `/>` outside braces.
pub open spec fn inline_tag_scan(s: Seq<u8>, ix: int, bd: nat) -> Option<int>
    decreases rem(s, ix),
{
    if ix < 0 || ix >= s.len() {
        None
    } else {
        let c = s[ix];
        if c == GT && bd == 0 {
            Some(ix + 1)
        } else if c == SLASH && ix + 1 < s.len() && s[ix + 1] == GT && bd == 0 {
            Some(ix + 2)
        } else if c == LBRACE {
            inline_tag_scan(s, ix + 1, bd + 1)
        } else if c == RBRACE {
            inline_tag_scan(
                s,
                ix + 1,
                if bd > 0 {
                    (bd - 1) as nat
                } else {
                    0
                },
            )
        } else if c == DQUOTE || c == SQUOTE {
            proof {
                lemma_attr_quote_end(s, ix + 1, c);
            }
            inline_tag_scan(s, attr_string_skip(s, ix + 1, c), bd)
        } else if c == LF || c == CR {
            inline_tag_scan(s, newline_skip(s, ix), bd)
        } else {
            inline_tag_scan(s, ix + 1, bd)
        }
    }
}

/// The length of the inline JSX tag (or fragment) at the start of `s`.
pub open spec fn inline_jsx_end(s: Seq<u8>) -> Option<int> {
    if s.len() < 2 || s[0] != LT {
        None
    } else {
        let ns: int = if s[1] == SLASH {
            2
        } else {
            1
        };
        if ns >= s.len() {
            None
        } else if s[ns] == GT {
            Some(ns + 1)
        } else if !name_start_byte(s[ns]) {
            None
        } else {
            match name_end(s, ns + 1) {
                None => None,
                Some(ix) => if ix < s.len() && !after_name_byte(s[ix]) {
                    None
                } else {
                    inline_tag_scan(s, ix, 0)
                },
            }
        }
    }
}

/// Scans an inline JSX tag from `<` to `>` or `/>` at the start of `bytes`
/// (in MDX every tag is JSX); returns its length.
pub fn scan_mdx_inline_jsx(bytes: &[u8]) -> (r: Option<usize>)
    requires
        bytes@.len() < usize::MAX,
    ensures
        as_int(r) == inline_jsx_end(bytes@),
{
    let ghost s = bytes@;
    let len = bytes.len();
    if len < 2 || bytes[0] != LT {
        return None;
    }
    let name_start: usize = if bytes[1] == SLASH {
        2
    } else {
        1
    };
    if name_start >= len {
        return None;
    }
    if bytes[name_start] == GT {
        return Some(name_start + 1);
    }
    let first = bytes[name_start];
    if !is_ascii_alphabetic(first) && first != UNDERSCORE && first != DOLLAR && first < 0x80 {
        return None;
    }
    let mut ix = match scan_name_end(bytes, name_start + 1) {
        None => {
            return None;
        },
        Some(e) => e,
    };
    if ix < len {
        let c = bytes[ix];
        if !(c == GT || c == SLASH || c == SPACE || c == TAB || c == LF || c == CR || c == LBRACE) {
            return None;
        }
    }
    let mut brace_depth: usize = 0;
    while ix < len
        invariant
            ix <= len + 1,
            len == s.len() < usize::MAX,
            s == bytes@,
            brace_depth <= ix,
            inline_tag_scan(s, ix as int, brace_depth as nat) == inline_jsx_end(s),
        decreases len + 1 - ix,
    {
        let c = bytes[ix];
        if c == GT && brace_depth == 0 {
            return Some(ix + 1);
        }
        if c == SLASH && ix + 1 < len && bytes[ix + 1] == GT && brace_depth == 0 {
            return Some(ix + 2);
        }
        if c == LBRACE {
            brace_depth += 1;
            ix += 1;
        } else if c == RBRACE {
            brace_depth = brace_depth.saturating_sub(1);
            ix += 1;
        } else if c == DQUOTE || c == SQUOTE {
            ix = skip_attr_string(bytes, ix + 1, c);
        } else if c == LF || c == CR {
            ix += 1;
            if ix < len && bytes[ix - 1] == CR && bytes[ix] == LF {
                ix += 1;
            }
        } else {
            ix += 1;
        }
    }
    None
}

pub proof fn lemma_inline_tag_scan(s: Seq<u8>, ix: int, bd: nat)
    requires
        0 <= ix,
    ensures
        inline_tag_scan(s, ix, bd) matches Some(e) ==> ix < e <= s.len() && s[e - 1] == GT,
    decreases rem(s, ix),
{
    if 0 <= ix < s.len() {
        let c = s[ix];
        if c == GT && bd == 0 {
        } else if c == SLASH && ix + 1 < s.len() && s[ix + 1] == GT && bd == 0 {
        } else if c == LBRACE {
            lemma_inline_tag_scan(s, ix + 1, bd + 1);
        } else if c == RBRACE {
            lemma_inline_tag_scan(
                s,
                ix + 1,
                if bd > 0 {
                    (bd - 1) as nat
                } else {
                    0
                },
            );
        } else if c == DQUOTE || c == SQUOTE {
            lemma_attr_quote_end(s, ix + 1, c);
            lemma_inline_tag_scan(s, attr_string_skip(s, ix + 1, c), bd);
        } else if c == LF || c == CR {
            lemma_inline_tag_scan(s, newline_skip(s, ix), bd);
        } else {
            lemma_inline_tag_scan(s, ix + 1, bd);
        }
    }
}

/// An inline JSX tag starts with `<` and ends with `>`.
pub proof fn lemma_inline_jsx_end(s: Seq<u8>)
    ensures
        inline_jsx_end(s) matches Some(e) ==> 0 < e <= s.len() && s[0] == LT && s[e - 1] == GT,
{
    if s.len() >= 2 && s[0] == LT {
        let ns: int = if s[1] == SLASH {
            2
        } else {
            1
        };
        if ns < s.len() && s[ns] != GT && name_start_byte(s[ns]) {
            lemma_name_end(s, ns + 1);
            match name_end(s, ns + 1) {
                Some(ix) => {
                    lemma_inline_tag_scan(s, ix, 0);
                },
                None => {},
            }
        }
    }
}

proof fn lemma_expr_scan_closes(s: Seq<u8>, lo: int, ix: int, depth: nat)
    requires
        0 <= ix,
    ensures
        expr_scan(s, lo, ix, depth) matches Some(e) ==> ix < e <= s.len() && s[e - 1] == RBRACE,
    decreases rem(s, ix),
{
    if 0 <= ix < s.len() {
        let c = s[ix];
        if c == LBRACE {
            lemma_expr_scan_closes(s, lo, ix + 1, depth + 1);
        } else if c == RBRACE {
            if depth > 1 {
                lemma_expr_scan_closes(s, lo, ix + 1, (depth - 1) as nat);
            }
        } else if c == DQUOTE || c == SQUOTE {
            lemma_quote_end(s, ix + 1, c);
            lemma_expr_scan_closes(s, lo, string_skip(s, ix + 1, c), depth);
        } else if c == BACKTICK {
            lemma_template_end(s, ix + 1, 0);
            lemma_expr_scan_closes(s, lo, template_end(s, ix + 1, 0), depth);
        } else if c == SLASH && ix + 1 < s.len() && s[ix + 1] == SLASH {
            lemma_next_lf(s, ix + 2);
            lemma_expr_scan_closes(s, lo, next_lf(s, ix + 2), depth);
        } else if c == SLASH && ix + 1 < s.len() && s[ix + 1] == STAR {
            lemma_block_comment_end(s, ix + 2);
            lemma_expr_scan_closes(s, lo, block_comment_end(s, ix + 2), depth);
        } else if c == SLASH && slash_starts_regex(s, lo, ix) {
            lemma_regex_end(s, ix + 1);
            lemma_expr_scan_closes(s, lo, regex_end(s, ix + 1), depth);
        } else if jsx_tag_start(s, ix) {
            match tag_end(s, ix) {
                Some(e) => if e > ix {
                    lemma_expr_scan_closes(s, lo, e, depth);
                },
                None => {
                    lemma_expr_scan_closes(s, lo, ix + 1, depth);
                },
            }
        } else {
            lemma_expr_scan_closes(s, lo, ix + 1, depth);
        }
    }
}

/// A closed MDX expression runs from its `{` to the `}` that closes it.
pub proof fn law_expression_is_braced(s: Seq<u8>)
    ensures
        expression_len(s) matches Some(t) ==> 2 <= t <= s.len() && s[0] == LBRACE && s[t - 1]
            == RBRACE,
{
    reveal(expression_len);
    if s.len() > 0 && s[0] == LBRACE {
        lemma_expr_scan_closes(s, 0, 1, 1);
    }
}

/// An inline JSX tag (or fragment) runs from its `<` to its `>`.
pub proof fn law_inline_jsx_is_tag(s: Seq<u8>)
    ensures
        inline_jsx_end(s) matches Some(e) ==> 2 <= e <= s.len() && s[0] == LT && s[e - 1] == GT,
{
    lemma_inline_jsx_end(s);
}

proof fn lemma_esm_lines(s: Seq<u8>, ix: int)
    requires
        0 <= ix < s.len(),
    ensures
        ix < esm_lines(s, ix) <= s.len(),
        esm_lines(s, ix) == s.len() || s[esm_lines(s, ix) - 1] == LF,
    decreases rem(s, ix),
{
    let e = line_end_after(s, ix);
    lemma_line_end_after(s, ix);
    lemma_next_lf(s, ix);
    if !(e >= s.len() || s[e] == LF || s[e] == CR) {
        lemma_esm_lines(s, e);
    }
}

/// An ESM block ends after a line feed, or at the end of the input.
pub proof fn law_esm_block_ends_a_line(s: Seq<u8>)
    ensures
        esm_block_end(s) matches Some(e) ==> 0 < e <= s.len() && (e == s.len() || s[e - 1] == LF),
{
    if esm_start(s) {
        lemma_esm_lines(s, 0);
    }
}

} // verus!
