//! Text normalisation used when compiling MDX: line endings inside inline
//! code become spaces, and tabs in the indentation of a line expand to the
//! next multiple of four columns.
use vstd::prelude::*;
use crate::text::push_char;

verus! {

/// `s` with every line ending (`\r\n`, `\r` or `\n`) replaced by one space.
pub open spec fn eols_to_spaces(s: Seq<char>) -> Seq<char>
    decreases s.len(),
{
    if s.len() == 0 {
        Seq::empty()
    } else if s[0] == '\r' && s.len() > 1 && s[1] == '\n' {
        seq![' '] + eols_to_spaces(s.subrange(2, s.len() as int))
    } else if s[0] == '\r' || s[0] == '\n' {
        seq![' '] + eols_to_spaces(s.drop_first())
    } else {
        seq![s[0]] + eols_to_spaces(s.drop_first())
    }
}

/// The characters of a string slice.
fn chars_of(s: &str) -> (r: Vec<char>)
    ensures
        r@ == s@,
{
    let mut out: Vec<char> = Vec::new();
    for c in it: s.chars()
        invariant
            out@ == it.seq().subrange(0, it.index() as int),
            it.seq() == s@,
    {
        let ghost i0 = it.index();
        assert(it.seq()[i0 as int] == c);
        out.push(c);
        assert(out@ =~= it.seq().subrange(0, i0 + 1));
    }
    assert(out@ =~= s@);
    out
}

/// Replaces each line ending (`\r\n`, `\r` or `\n`) with a space.
pub fn replace_eols_with_spaces(value: &str) -> (r: String)
    ensures
        r@ == eols_to_spaces(value@),
{
    let cs = chars_of(value);
    let ghost s = cs@;
    let n = cs.len();
    let mut out = String::new();
    let mut i: usize = 0;
    assert(s.subrange(0, n as int) =~= s);
    assert(out@ + eols_to_spaces(s) =~= eols_to_spaces(s));
    while i < n
        invariant
            i <= n,
            n == s.len(),
            s == cs@,
            out@ + eols_to_spaces(s.subrange(i as int, n as int)) == eols_to_spaces(s),
        decreases n - i,
    {
        let ghost rest = s.subrange(i as int, n as int);
        let ghost before = out@;
        let ghost i0 = i as int;
        let c = cs[i];
        if c == '\r' || c == '\n' {
            push_char(&mut out, ' ');
            if i + 1 < n && c == '\r' && cs[i + 1] == '\n' {
                i += 1;
            }
        } else {
            push_char(&mut out, c);
        }
        i += 1;
        proof {
            assert(rest[0] == c);
            if c == '\r' && rest.len() > 1 && rest[1] == '\n' {
                assert(rest.subrange(2, rest.len() as int) =~= s.subrange(i as int, n as int));
                assert(eols_to_spaces(rest) == seq![' '] + eols_to_spaces(s.subrange(i as int, n as int)));
            } else {
                assert(rest.drop_first() =~= s.subrange(i as int, n as int));
            }
            assert(out@ + eols_to_spaces(s.subrange(i as int, n as int)) =~= before + eols_to_spaces(rest));
        }
    }
    assert(s.subrange(n as int, n as int) =~= Seq::<char>::empty());
    assert(out@ + Seq::<char>::empty() =~= out@);
    out
}

/// `n` spaces.
pub open spec fn spaces(n: nat) -> Seq<char> {
    Seq::new(n, |i: int| ' ')
}

/// Expanding tabs from `i` on, at column `col` of the current line, while
/// still `in_indent`: a tab in the indentation moves to the next multiple
/// of four columns; a line feed starts a new line at column zero.
pub open spec fn tabs_from(s: Seq<char>, i: int, col: nat, in_indent: bool) -> Seq<char>
    decreases s.len() - i,
{
    if i < 0 || i >= s.len() {
        Seq::empty()
    } else {
        let c = s[i];
        if c == '\n' {
            seq!['\n'] + tabs_from(s, i + 1, 0, true)
        } else if in_indent && c == '\t' {
            let w = (4 - col % 4) as nat;
            spaces(w) + tabs_from(s, i + 1, col + w, true)
        } else {
            seq![c] + tabs_from(s, i + 1, col + 1, in_indent && c == ' ')
        }
    }
}

/// `s` with the tabs of each line's indentation expanded; every other
/// character, line feeds included, is kept.
pub open spec fn expanded_tabs(s: Seq<char>) -> Seq<char> {
    tabs_from(s, 0, 0, true)
}

/// Expands the tabs in the indentation of each line to spaces, to the next
/// multiple of four columns; tabs after the first other character of a
/// line stay.
pub fn expand_tabs(value: &str) -> (r: String)
    requires
        value@.len() < usize::MAX / 4,
    ensures
        r@ == expanded_tabs(value@),
{
    let cs = chars_of(value);
    let ghost s = cs@;
    let n = cs.len();
    let mut out = String::new();
    let mut col: usize = 0;
    let mut in_indent = true;
    let mut i: usize = 0;
    assert(out@ + tabs_from(s, 0, 0, true) =~= tabs_from(s, 0, 0, true));
    while i < n
        invariant
            i <= n,
            n == s.len() < usize::MAX / 4,
            s == cs@,
            col <= 4 * i,
            out@ + tabs_from(s, i as int, col as nat, in_indent) == tabs_from(s, 0, 0, true),
        decreases n - i,
    {
        let ghost before = out@;
        let ghost i0 = i as int;
        let ghost col0 = col as nat;
        let ghost ind0 = in_indent;
        let ch = cs[i];
        if ch == '\n' {
            push_char(&mut out, '\n');
            col = 0;
            in_indent = true;
        } else if in_indent && ch == '\t' {
            let w = 4 - (col % 4);
            let mut k: usize = 0;
            while k < w
                invariant
                    k <= w <= 4,
                    out@ == before + spaces(k as nat),
                decreases w - k,
            {
                push_char(&mut out, ' ');
                assert(out@ =~= before + spaces((k + 1) as nat));
                k += 1;
            }
            col += w;
        } else {
            if ch != ' ' {
                in_indent = false;
            }
            push_char(&mut out, ch);
            col += 1;
        }
        i += 1;
        proof {
            assert(out@ + tabs_from(s, i as int, col as nat, in_indent) =~= before + tabs_from(
                s,
                i0,
                col0,
                ind0,
            ));
        }
    }
    assert(s.subrange(n as int, n as int) =~= Seq::<char>::empty());
    out
}

/// Replacing line endings leaves none: no carriage return or line feed is
/// left in the result.
pub proof fn law_no_line_endings_remain(s: Seq<char>)
    ensures
        forall|i: int|
            0 <= i < eols_to_spaces(s).len() ==> #[trigger] eols_to_spaces(s)[i] != '\r'
                && eols_to_spaces(s)[i] != '\n',
    decreases s.len(),
{
    if s.len() > 0 {
        let rest = if s[0] == '\r' && s.len() > 1 && s[1] == '\n' {
            s.subrange(2, s.len() as int)
        } else {
            s.drop_first()
        };
        law_no_line_endings_remain(rest);
        let head = if s[0] == '\r' || s[0] == '\n' {
            ' '
        } else {
            s[0]
        };
        assert(eols_to_spaces(s) == seq![head] + eols_to_spaces(rest));
        assert forall|i: int| 0 <= i < eols_to_spaces(s).len() implies #[trigger] eols_to_spaces(
            s,
        )[i] != '\r' && eols_to_spaces(s)[i] != '\n' by {
            if i > 0 {
                assert(eols_to_spaces(s)[i] == eols_to_spaces(rest)[i - 1]);
            }
        }
    }
}

proof fn lemma_tabs_from_plain(s: Seq<char>, i: int, col: nat, in_indent: bool)
    requires
        0 <= i <= s.len(),
        forall|k: int| 0 <= k < s.len() ==> s[k] != '\t',
    ensures
        tabs_from(s, i, col, in_indent) == s.subrange(i, s.len() as int),
    decreases s.len() - i,
{
    if i < s.len() {
        let c = s[i];
        if c == '\n' {
            lemma_tabs_from_plain(s, i + 1, 0, true);
        } else {
            lemma_tabs_from_plain(s, i + 1, col + 1, in_indent && c == ' ');
        }
        assert(s.subrange(i, s.len() as int) =~= seq![c] + s.subrange(i + 1, s.len() as int));
    } else {
        assert(s.subrange(i, s.len() as int) =~= Seq::<char>::empty());
    }
}



pub proof fn law_expand_tabs_without_tabs(s: Seq<char>)
    requires
        forall|k: int| 0 <= k < s.len() ==> s[k] != '\t',
    ensures
        expanded_tabs(s) == s,
{
    lemma_tabs_from_plain(s, 0, 0, true);
    assert(s.subrange(0, s.len() as int) =~= s);
}

} // verus!
