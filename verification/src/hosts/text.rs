//! Character-level text model: whitespace, trimming, tokenizing and line
//! splitting, with the executable counterparts used by the hosts codec.
use vstd::prelude::*;
use vstd::string::*;

verus! {

/// Horizontal whitespace: what separates tokens and is trimmed from line ends.
pub open spec fn is_ws(c: char) -> bool {
    c == ' ' || c == '\t' || c == '\r'
}

/// A piece of text that can stand as one line: it contains no newline.
pub open spec fn nl_free(l: Seq<char>) -> bool {
    forall|i: int| 0 <= i < l.len() ==> l[i] != '\n'
}

/// Drop leading whitespace.
pub open spec fn trim_start_spec(l: Seq<char>) -> Seq<char>
    decreases l.len(),
{
    if l.len() == 0 {
        l
    } else if is_ws(l[0]) {
        trim_start_spec(l.drop_first())
    } else {
        l
    }
}

/// Drop trailing whitespace.
pub open spec fn trim_end_spec(l: Seq<char>) -> Seq<char>
    decreases l.len(),
{
    if l.len() == 0 {
        l
    } else if is_ws(l.last()) {
        trim_end_spec(l.drop_last())
    } else {
        l
    }
}

/// Drop whitespace from both ends.
pub open spec fn trim_spec(l: Seq<char>) -> Seq<char> {
    trim_end_spec(trim_start_spec(l))
}

/// Length of the leading run of non-whitespace characters.
pub open spec fn token_len(l: Seq<char>) -> nat
    decreases l.len(),
{
    if l.len() == 0 || is_ws(l[0]) {
        0
    } else {
        1 + token_len(l.drop_first())
    }
}

/// The leading token is never longer than the line.
pub proof fn lemma_token_len_le(l: Seq<char>)
    ensures
        token_len(l) <= l.len(),
    decreases l.len(),
{
    if l.len() > 0 && !is_ws(l[0]) {
        lemma_token_len_le(l.drop_first());
    }
}

/// The leading token is all non-whitespace.
pub proof fn lemma_token_len_props(l: Seq<char>)
    ensures
        token_len(l) <= l.len(),
        forall|j: int| 0 <= j < token_len(l) ==> !is_ws(l[j]),
    decreases l.len(),
{
    if l.len() > 0 && !is_ws(l[0]) {
        lemma_token_len_props(l.drop_first());
        assert forall|j: int| 0 <= j < token_len(l) implies !is_ws(l[j]) by {
            if j > 0 {
                assert(!is_ws(l.drop_first()[j - 1]));
            }
        }
    }
}

/// The whitespace-separated tokens of a line, in order.
pub open spec fn tokens_of(l: Seq<char>) -> Seq<Seq<char>>
    decreases l.len(),
    via tokens_of_decreases
{
    if l.len() == 0 {
        Seq::empty()
    } else if is_ws(l[0]) {
        tokens_of(l.drop_first())
    } else {
        seq![l.take(token_len(l) as int)] + tokens_of(l.skip(token_len(l) as int))
    }
}

#[via_fn]
proof fn tokens_of_decreases(l: Seq<char>) {
    if l.len() > 0 && !is_ws(l[0]) {
        lemma_token_len_le(l);
        assert(token_len(l) >= 1);
    }
}

/// Length of the first line: the prefix before the first newline.
pub open spec fn line_len(s: Seq<char>) -> nat
    decreases s.len(),
{
    if s.len() == 0 || s[0] == '\n' {
        0
    } else {
        1 + line_len(s.drop_first())
    }
}

/// Split text into lines at newlines; a trailing newline ends the last line
/// rather than opening an empty one.
pub open spec fn lines_of(s: Seq<char>) -> Seq<Seq<char>>
    decreases s.len(),
{
    if s.len() == 0 {
        Seq::empty()
    } else {
        let n = line_len(s) as int;
        if n < s.len() {
            seq![s.take(n)] + lines_of(s.skip(n + 1))
        } else {
            seq![s]
        }
    }
}

/// Join lines, terminating each with a newline.
pub open spec fn unlines(ls: Seq<Seq<char>>) -> Seq<char>
    decreases ls.len(),
{
    if ls.len() == 0 {
        Seq::empty()
    } else {
        ls[0] + seq!['\n'] + unlines(ls.drop_first())
    }
}

pub proof fn lemma_trim_start_ws_prefix(l: Seq<char>, i: int)
    requires
        0 <= i <= l.len(),
        forall|j: int| 0 <= j < i ==> is_ws(l[j]),
    ensures
        trim_start_spec(l) == trim_start_spec(l.skip(i)),
    decreases i,
{
    if i > 0 {
        assert(is_ws(l[0]));
        assert(l.drop_first() == l.skip(1));
        lemma_trim_start_ws_prefix(l.skip(1), i - 1);
        assert(l.skip(1).skip(i - 1) =~= l.skip(i));
    } else {
        assert(l.skip(0) =~= l);
    }
}

pub proof fn lemma_trim_end_ws_suffix(l: Seq<char>, k: int)
    requires
        0 <= k <= l.len(),
        forall|j: int| k <= j < l.len() ==> is_ws(l[j]),
    ensures
        trim_end_spec(l) == trim_end_spec(l.take(k)),
    decreases l.len() - k,
{
    if k < l.len() {
        assert(is_ws(l.last()));
        assert(l.drop_last() == l.take(l.len() - 1));
        lemma_trim_end_ws_suffix(l.take(l.len() - 1), k);
        assert(l.take(l.len() - 1).take(k) =~= l.take(k));
    } else {
        assert(l.take(l.len() as int) =~= l);
    }
}

/// A line that starts and ends with non-whitespace is its own trim.
pub proof fn lemma_trim_of_clean(l: Seq<char>)
    requires
        l.len() > 0,
        !is_ws(l[0]),
        !is_ws(l[l.len() - 1]),
    ensures
        trim_spec(l) == l,
{
    assert(trim_start_spec(l) == l);
    assert(trim_end_spec(l) == l);
}

/// The trimmed text is a contiguous slice of the original.
pub proof fn lemma_trim_start_is_suffix(l: Seq<char>)
    ensures
        trim_start_spec(l).len() <= l.len(),
        trim_start_spec(l) == l.skip(l.len() - trim_start_spec(l).len()),
        trim_start_spec(l).len() > 0 ==> !is_ws(trim_start_spec(l)[0]),
    decreases l.len(),
{
    if l.len() == 0 {
        assert(l.skip(0) =~= l);
    } else if is_ws(l[0]) {
        assert(l.drop_first() == l.skip(1));
        lemma_trim_start_is_suffix(l.skip(1));
        let t = trim_start_spec(l);
        assert(l.skip(1).skip(l.skip(1).len() - t.len()) =~= l.skip(l.len() - t.len()));
    } else {
        assert(l.skip(0) =~= l);
    }
}

pub proof fn lemma_trim_end_is_prefix(l: Seq<char>)
    ensures
        trim_end_spec(l).len() <= l.len(),
        trim_end_spec(l) == l.take(trim_end_spec(l).len() as int),
        trim_end_spec(l).len() > 0 ==> !is_ws(trim_end_spec(l)[trim_end_spec(l).len() - 1]),
        trim_end_spec(l).len() > 0 ==> trim_end_spec(l)[0] == l[0],
    decreases l.len(),
{
    if l.len() == 0 {
    } else if is_ws(l.last()) {
        assert(l.drop_last() == l.take(l.len() - 1));
        lemma_trim_end_is_prefix(l.take(l.len() - 1));
        let t = trim_end_spec(l);
        assert(l.take(l.len() - 1).take(t.len() as int) =~= l.take(t.len() as int));
    } else {
        assert(l.take(l.len() as int) =~= l);
    }
}

/// Facts about a trim as a whole: it is a slice of the line, and when
/// non-empty it starts and ends with non-whitespace.
pub proof fn lemma_trim_props(l: Seq<char>)
    ensures
        trim_spec(l).len() <= l.len(),
        trim_spec(l).len() > 0 ==> !is_ws(trim_spec(l)[0]),
        trim_spec(l).len() > 0 ==> !is_ws(trim_spec(l)[trim_spec(l).len() - 1]),
        forall|j: int|
            0 <= j < trim_spec(l).len() ==> exists|i: int|
                0 <= i < l.len() && l[i] == #[trigger] trim_spec(l)[j],
{
    let ts = trim_start_spec(l);
    let t = trim_spec(l);
    lemma_trim_start_is_suffix(l);
    lemma_trim_end_is_prefix(ts);
    assert(t == ts.take(t.len() as int));
    assert forall|j: int| 0 <= j < t.len() implies exists|i: int|
        0 <= i < l.len() && l[i] == #[trigger] t[j] by {
        let off = l.len() - ts.len();
        assert(t[j] == ts[j]);
        assert(ts[j] == l[off + j]);
    }
    if t.len() > 0 {
        assert(t[0] == ts[0]);
    }
}

pub proof fn lemma_token_len_run(x: Seq<char>, y: Seq<char>)
    requires
        forall|i: int| 0 <= i < x.len() ==> !is_ws(x[i]),
        y.len() == 0 || is_ws(y[0]),
    ensures
        token_len(x + y) == x.len(),
    decreases x.len(),
{
    if x.len() == 0 {
        assert(x + y =~= y);
    } else {
        let l = x + y;
        assert(!is_ws(l[0]));
        assert(l.drop_first() =~= x.drop_first() + y);
        lemma_token_len_run(x.drop_first(), y);
    }
}

/// A whole line of non-whitespace is one token.
pub proof fn lemma_tokens_single(x: Seq<char>)
    requires
        x.len() > 0,
        forall|i: int| 0 <= i < x.len() ==> !is_ws(x[i]),
    ensures
        tokens_of(x) == seq![x],
{
    lemma_token_len_run(x, Seq::empty());
    assert(x + Seq::empty() =~= x);
    assert(token_len(x) == x.len());
    assert(x.take(x.len() as int) =~= x);
    let e = x.skip(x.len() as int);
    assert(e =~= Seq::<char>::empty());
    assert(tokens_of(e) == Seq::<Seq<char>>::empty());
    assert(x.skip(token_len(x) as int) == e);
    assert(tokens_of(x) == seq![x.take(token_len(x) as int)] + tokens_of(
        x.skip(token_len(x) as int),
    ));
    assert(tokens_of(x) =~= seq![x]);
}

/// Two non-whitespace words joined by a tab make exactly two tokens.
pub proof fn lemma_tokens_pair(a: Seq<char>, b: Seq<char>)
    requires
        a.len() > 0,
        b.len() > 0,
        forall|i: int| 0 <= i < a.len() ==> !is_ws(a[i]),
        forall|i: int| 0 <= i < b.len() ==> !is_ws(b[i]),
    ensures
        tokens_of(a + seq!['\t'] + b) == seq![a, b],
{
    let l = a + seq!['\t'] + b;
    let rest = seq!['\t'] + b;
    assert(l =~= a + rest);
    assert(is_ws(rest[0]));
    lemma_token_len_run(a, rest);
    assert(token_len(l) == a.len());
    assert(!is_ws(l[0]));
    assert(l.take(a.len() as int) =~= a);
    assert(l.skip(a.len() as int) =~= rest);
    assert(rest.drop_first() =~= b);
    lemma_tokens_single(b);
    assert(tokens_of(rest) == tokens_of(b));
    assert(tokens_of(l) == seq![l.take(token_len(l) as int)] + tokens_of(
        l.skip(token_len(l) as int),
    ));
    assert(tokens_of(l) =~= seq![a, b]);
}

/// Every token is non-empty, free of whitespace, and of newlines when the
/// line itself is.
pub proof fn lemma_tokens_props(t: Seq<char>)
    ensures
        forall|k: int|
            0 <= k < tokens_of(t).len() ==> (#[trigger] tokens_of(t)[k]).len() > 0 && (forall|
                j: int,
            |
                0 <= j < tokens_of(t)[k].len() ==> !is_ws(#[trigger] tokens_of(t)[k][j]) && (
                nl_free(t) ==> tokens_of(t)[k][j] != '\n')),
    decreases t.len(),
{
    if t.len() == 0 {
    } else if is_ws(t[0]) {
        lemma_tokens_props(t.drop_first());
        assert(tokens_of(t) == tokens_of(t.drop_first()));
        if nl_free(t) {
            assert forall|i: int| 0 <= i < t.drop_first().len() implies #[trigger] t.drop_first()[i]
                != '\n' by {
                assert(t.drop_first()[i] == t[i + 1]);
            }
            assert(nl_free(t.drop_first()));
        }
        assert forall|k: int| 0 <= k < tokens_of(t).len() implies (#[trigger] tokens_of(t)[k]).len()
            > 0 && (forall|j: int|
            0 <= j < tokens_of(t)[k].len() ==> !is_ws(#[trigger] tokens_of(t)[k][j]) && (nl_free(t)
                ==> tokens_of(t)[k][j] != '\n')) by {
            assert(tokens_of(t)[k] == tokens_of(t.drop_first())[k]);
        }
    } else {
        let tl = token_len(t) as int;
        lemma_token_len_props(t);
        lemma_token_len_le(t);
        assert(tl >= 1);
        let tok = t.take(tl);
        let rest = t.skip(tl);
        lemma_tokens_props(rest);
        if nl_free(t) {
            assert forall|i: int| 0 <= i < rest.len() implies #[trigger] rest[i] != '\n' by {
                assert(rest[i] == t[tl + i]);
            }
            assert(nl_free(rest));
        }
        assert forall|k: int| 0 <= k < tokens_of(t).len() implies (#[trigger] tokens_of(t)[k]).len()
            > 0 && (forall|j: int|
            0 <= j < tokens_of(t)[k].len() ==> !is_ws(#[trigger] tokens_of(t)[k][j]) && (nl_free(t)
                ==> tokens_of(t)[k][j] != '\n')) by {
            if k == 0 {
                assert(tokens_of(t)[0] == tok);
                assert forall|j: int| 0 <= j < tok.len() implies !is_ws(#[trigger] tok[j]) && (
                nl_free(t) ==> tok[j] != '\n') by {
                    assert(tok[j] == t[j]);
                }
            } else {
                assert(tokens_of(t)[k] == tokens_of(rest)[k - 1]);
            }
        }
    }
}

pub proof fn lemma_line_len_nl_free(x: Seq<char>)
    requires
        nl_free(x),
    ensures
        line_len(x) == x.len(),
    decreases x.len(),
{
    if x.len() > 0 {
        lemma_line_len_nl_free(x.drop_first());
    }
}

pub proof fn lemma_line_len_concat(x: Seq<char>, y: Seq<char>)
    requires
        nl_free(x),
        y.len() > 0,
        y[0] == '\n',
    ensures
        line_len(x + y) == x.len(),
    decreases x.len(),
{
    if x.len() == 0 {
        assert(x + y =~= y);
    } else {
        let l = x + y;
        assert(l[0] == x[0]);
        assert(l.drop_first() =~= x.drop_first() + y);
        lemma_line_len_concat(x.drop_first(), y);
    }
}

pub proof fn lemma_unlines_concat(a: Seq<Seq<char>>, b: Seq<Seq<char>>)
    ensures
        unlines(a + b) == unlines(a) + unlines(b),
    decreases a.len(),
{
    if a.len() == 0 {
        assert(a + b =~= b);
        assert(unlines(a) + unlines(b) =~= unlines(b));
    } else {
        assert((a + b).drop_first() =~= a.drop_first() + b);
        lemma_unlines_concat(a.drop_first(), b);
        assert(unlines(a + b) =~= unlines(a) + unlines(b));
    }
}

/// Splitting joined lines recovers them, with any remaining text still to
/// be split; every joined line must be newline-free.
pub proof fn lemma_lines_of_unlines_prefix(ls: Seq<Seq<char>>, rest: Seq<char>)
    requires
        forall|i: int| 0 <= i < ls.len() ==> nl_free(#[trigger] ls[i]),
    ensures
        lines_of(unlines(ls) + rest) == ls + lines_of(rest),
    decreases ls.len(),
{
    if ls.len() == 0 {
        assert(unlines(ls) + rest =~= rest);
        assert(ls + lines_of(rest) =~= lines_of(rest));
    } else {
        let s = unlines(ls) + rest;
        let tail = unlines(ls.drop_first()) + rest;
        let nl = seq!['\n'];
        assert(s =~= ls[0] + (nl + tail));
        lemma_line_len_concat(ls[0], nl + tail);
        assert(line_len(s) == ls[0].len());
        let n = ls[0].len() as int;
        assert(n < s.len());
        assert(s.take(n) =~= ls[0]);
        assert(s.skip(n + 1) =~= tail);
        lemma_lines_of_unlines_prefix(ls.drop_first(), rest);
        assert(lines_of(s) =~= ls + lines_of(rest));
    }
}

/// Joined lines split back to exactly those lines.
pub proof fn lemma_lines_of_unlines(ls: Seq<Seq<char>>)
    requires
        forall|i: int| 0 <= i < ls.len() ==> nl_free(#[trigger] ls[i]),
    ensures
        lines_of(unlines(ls)) == ls,
{
    lemma_lines_of_unlines_prefix(ls, Seq::empty());
    assert(unlines(ls) + Seq::<char>::empty() =~= unlines(ls));
    assert(ls + lines_of(Seq::<char>::empty()) =~= ls);
}

/// Every line produced by splitting is newline-free.
pub proof fn lemma_lines_nl_free(s: Seq<char>)
    ensures
        forall|i: int| 0 <= i < lines_of(s).len() ==> nl_free(#[trigger] lines_of(s)[i]),
    decreases s.len(),
{
    if s.len() > 0 {
        let n = line_len(s) as int;
        lemma_line_len_is_nl_free(s);
        if n < s.len() {
            lemma_lines_nl_free(s.skip(n + 1));
            assert forall|i: int| 0 <= i < lines_of(s).len() implies nl_free(
                #[trigger] lines_of(s)[i],
            ) by {
                if i == 0 {
                    assert(lines_of(s)[0] == s.take(n));
                    assert(forall|j: int| 0 <= j < n ==> s.take(n)[j] == s[j]);
                } else {
                    assert(lines_of(s)[i] == lines_of(s.skip(n + 1))[i - 1]);
                }
            }
        } else {
            assert(lines_of(s) == seq![s]);
            assert(nl_free(s));
            assert(lines_of(s)[0] == s);
        }
    }
}

/// The first line really contains no newline.
pub proof fn lemma_line_len_is_nl_free(s: Seq<char>)
    ensures
        line_len(s) <= s.len(),
        forall|i: int| 0 <= i < line_len(s) ==> s[i] != '\n',
        line_len(s) < s.len() ==> s[line_len(s) as int] == '\n',
    decreases s.len(),
{
    if s.len() == 0 || s[0] == '\n' {
    } else {
        lemma_line_len_is_nl_free(s.drop_first());
        assert forall|i: int| 0 <= i < line_len(s) implies s[i] != '\n' by {
            if i > 0 {
                assert(s.drop_first()[i - 1] != '\n');
            }
        }
    }
}

pub fn char_is_ws(c: char) -> (r: bool)
    ensures
        r == is_ws(c),
{
    c == ' ' || c == '\t' || c == '\r'
}

/// Character-for-character string equality.
pub fn str_eq_str(a: &str, b: &str) -> (r: bool)
    ensures
        r == (a@ == b@),
{
    let na = a.unicode_len();
    let nb = b.unicode_len();
    if na != nb {
        return false;
    }
    let mut i: usize = 0;
    while i < na
        invariant
            na == a@.len(),
            nb == b@.len(),
            na == nb,
            0 <= i <= na,
            forall|j: int| 0 <= j < i ==> a@[j] == b@[j],
        decreases na - i,
    {
        if a.get_char(i) != b.get_char(i) {
            return false;
        }
        i = i + 1;
    }
    proof {
        assert(a@ =~= b@);
    }
    true
}

/// The line with surrounding whitespace removed.
pub fn trim_str(s: &str) -> (r: &str)
    ensures
        r@ == trim_spec(s@),
{
    let n = s.unicode_len();
    let mut lo: usize = 0;
    while lo < n && char_is_ws(s.get_char(lo))
        invariant
            n == s@.len(),
            0 <= lo <= n,
            forall|j: int| 0 <= j < lo ==> is_ws(s@[j]),
        decreases n - lo,
    {
        lo = lo + 1;
    }
    proof {
        lemma_trim_start_ws_prefix(s@, lo as int);
    }
    if lo == n {
        proof {
            assert(s@.skip(n as int) =~= Seq::<char>::empty());
            assert(trim_start_spec(Seq::<char>::empty()) == Seq::<char>::empty());
        }
        let r = s.substring_char(n, n);
        proof {
            assert(r@ =~= Seq::<char>::empty());
        }
        r
    } else {
        proof {
            assert(!is_ws(s@[lo as int]));
            assert(s@.skip(lo as int)[0] == s@[lo as int]);
        }
        let mut hi: usize = n;
        while hi > lo && char_is_ws(s.get_char(hi - 1))
            invariant
                n == s@.len(),
                lo <= hi <= n,
                lo < n,
                forall|j: int| hi <= j < n ==> is_ws(s@[j]),
            decreases hi,
        {
            hi = hi - 1;
        }
        proof {
            if hi == lo {
                assert(is_ws(s@[lo as int]));
                assert(false);
            }
            let x = s@.skip(lo as int);
            lemma_trim_end_ws_suffix(x, hi - lo as int);
            assert(x.take(hi - lo as int).len() > 0);
            assert(x.take(hi - lo as int)[hi - lo as int - 1] == s@[hi - 1]);
            assert(!is_ws(s@[hi - 1]));
            assert(trim_end_spec(x.take(hi - lo as int)) == x.take(hi - lo as int));
            assert(trim_spec(s@) == x.take(hi - lo as int));
            assert(x.take(hi - lo as int) =~= s@.subrange(lo as int, hi as int));
        }
        s.substring_char(lo, hi)
    }
}

/// The lines of the text, split at newlines.
pub fn split_lines(s: &str) -> (r: Vec<String>)
    ensures
        r.deep_view() == lines_of(s@),
{
    let n = s.unicode_len();
    let mut r: Vec<String> = Vec::new();
    let mut i: usize = 0;
    proof {
        assert(s@.skip(0) =~= s@);
        assert(r.deep_view() =~= Seq::<Seq<char>>::empty());
        assert(r.deep_view() + lines_of(s@) =~= lines_of(s@));
    }
    while i < n
        invariant
            n == s@.len(),
            0 <= i <= n,
            lines_of(s@) == r.deep_view() + lines_of(s@.skip(i as int)),
        decreases n - i,
    {
        let mut j: usize = i;
        while j < n && s.get_char(j) != '\n'
            invariant
                n == s@.len(),
                i <= j <= n,
                forall|k: int| i <= k < j ==> s@[k] != '\n',
            decreases n - j,
        {
            j = j + 1;
        }
        let line = s.substring_char(i, j).to_owned();
        let ghost dv0 = r.deep_view();
        let ghost rest = s@.skip(i as int);
        proof {
            assert(line@ =~= rest.take(j - i as int));
            assert(forall|k: int| 0 <= k < j - i ==> rest[k] == s@[i + k] && rest[k] != '\n');
            if j < n {
                assert(rest =~= rest.take(j - i as int) + rest.skip(j - i as int));
                assert(rest.skip(j - i as int)[0] == s@[j as int]);
                lemma_line_len_concat(rest.take(j - i as int), rest.skip(j - i as int));
                assert(line_len(rest) == j - i);
                assert(lines_of(rest) == seq![rest.take(j - i as int)] + lines_of(
                    rest.skip(j - i as int + 1),
                ));
                assert(rest.skip(j - i as int + 1) =~= s@.skip(j + 1));
            } else {
                assert(rest =~= rest.take(j - i as int));
                lemma_line_len_nl_free(rest);
                assert(lines_of(rest) == seq![rest]);
            }
        }
        r.push(line);
        proof {
            assert(r.deep_view() =~= dv0.push(line@));
            if j < n {
                assert(r.deep_view() + lines_of(s@.skip(j + 1)) =~= dv0 + lines_of(rest));
            } else {
                assert(s@.skip(n as int) =~= Seq::<char>::empty());
                assert(lines_of(s@.skip(n as int)) == Seq::<Seq<char>>::empty());
                assert(r.deep_view() + lines_of(s@.skip(n as int)) =~= dv0 + lines_of(rest));
            }
        }
        if j < n {
            i = j + 1;
        } else {
            i = n;
        }
    }
    proof {
        assert(s@.skip(n as int) =~= Seq::<char>::empty());
        assert(lines_of(s@.skip(n as int)) == Seq::<Seq<char>>::empty());
        assert(r.deep_view() =~= r.deep_view() + lines_of(s@.skip(n as int)));
    }
    r
}

/// The whitespace-separated tokens of a line.
pub fn split_tokens(s: &str) -> (r: Vec<String>)
    ensures
        r.deep_view() == tokens_of(s@),
{
    let n = s.unicode_len();
    let mut r: Vec<String> = Vec::new();
    let mut i: usize = 0;
    proof {
        assert(s@.skip(0) =~= s@);
        assert(r.deep_view() =~= Seq::<Seq<char>>::empty());
        assert(r.deep_view() + tokens_of(s@) =~= tokens_of(s@));
    }
    while i < n
        invariant
            n == s@.len(),
            0 <= i <= n,
            tokens_of(s@) == r.deep_view() + tokens_of(s@.skip(i as int)),
        decreases n - i,
    {
        if char_is_ws(s.get_char(i)) {
            proof {
                let rest = s@.skip(i as int);
                assert(rest[0] == s@[i as int]);
                assert(rest.drop_first() =~= s@.skip(i + 1));
                assert(tokens_of(rest) == tokens_of(s@.skip(i + 1)));
            }
            i = i + 1;
        } else {
            let mut j: usize = i + 1;
            while j < n && !char_is_ws(s.get_char(j))
                invariant
                    n == s@.len(),
                    i < j <= n,
                    forall|k: int| i <= k < j ==> !is_ws(s@[k]),
                decreases n - j,
            {
                j = j + 1;
            }
            let tok = s.substring_char(i, j).to_owned();
            let ghost dv0 = r.deep_view();
            let ghost rest = s@.skip(i as int);
            proof {
                let x = rest.take(j - i as int);
                let y = rest.skip(j - i as int);
                assert(tok@ =~= x);
                assert(forall|k: int| 0 <= k < x.len() ==> x[k] == s@[i + k]);
                assert(rest =~= x + y);
                if j < n {
                    assert(y[0] == s@[j as int]);
                    assert(is_ws(y[0]));
                } else {
                    assert(y.len() == 0);
                }
                lemma_token_len_run(x, y);
                assert(token_len(rest) == j - i);
                assert(!is_ws(rest[0]));
                assert(tokens_of(rest) == seq![x] + tokens_of(y));
                assert(y =~= s@.skip(j as int));
            }
            r.push(tok);
            proof {
                assert(r.deep_view() =~= dv0.push(tok@));
                assert(r.deep_view() + tokens_of(s@.skip(j as int)) =~= dv0 + tokens_of(rest));
            }
            i = j;
        }
    }
    proof {
        assert(s@.skip(n as int) =~= Seq::<char>::empty());
        assert(tokens_of(s@.skip(n as int)) == Seq::<Seq<char>>::empty());
        assert(r.deep_view() =~= r.deep_view() + tokens_of(s@.skip(n as int)));
    }
    r
}

} // verus!
