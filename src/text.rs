//! Character-level helpers: whitespace trimming, escaping, repetition,
//! decimal rendering and substring search, each stated over `Seq<char>`.
use vstd::prelude::*;

verus! {

/// The characters that carry Unicode's White_Space property, as
/// `char::is_whitespace` documents them.
pub open spec fn is_ws(c: char) -> bool {
    ||| c == ' '
    ||| c == '\t'
    ||| c == '\n'
    ||| c == '\u{0B}'
    ||| c == '\u{0C}'
    ||| c == '\r'
    ||| c == '\u{85}'
    ||| c == '\u{A0}'
    ||| c == '\u{1680}'
    ||| ('\u{2000}' <= c && c <= '\u{200A}')
    ||| c == '\u{2028}'
    ||| c == '\u{2029}'
    ||| c == '\u{202F}'
    ||| c == '\u{205F}'
    ||| c == '\u{3000}'
}

pub fn is_whitespace(c: char) -> (r: bool)
    ensures
        r == is_ws(c),
{
    c == ' ' || c == '\t' || c == '\n' || c == '\u{0B}' || c == '\u{0C}' || c == '\r' || c
        == '\u{85}' || c == '\u{A0}' || c == '\u{1680}' || ('\u{2000}' <= c && c <= '\u{200A}')
        || c == '\u{2028}' || c == '\u{2029}' || c == '\u{202F}' || c == '\u{205F}' || c
        == '\u{3000}'
}

/// `s` without its leading whitespace.
pub open spec fn trim_start(s: Seq<char>) -> Seq<char>
    decreases s.len(),
{
    if s.len() > 0 && is_ws(s[0]) {
        trim_start(s.drop_first())
    } else {
        s
    }
}

/// `s` without its trailing whitespace.
pub open spec fn trim_end(s: Seq<char>) -> Seq<char>
    decreases s.len(),
{
    if s.len() > 0 && is_ws(s.last()) {
        trim_end(s.drop_last())
    } else {
        s
    }
}

/// `s` without whitespace at either end.
pub open spec fn trim(s: Seq<char>) -> Seq<char> {
    trim_end(trim_start(s))
}

/// Trims whitespace from both ends of `s`.
pub fn trim_str(s: &str) -> (r: &str)
    ensures
        r@ == trim(s@),
{
    let n = s.unicode_len();
    let mut a: usize = 0;
    assert(s@.subrange(0, n as int) =~= s@);
    while a < n && is_whitespace(s.get_char(a))
        invariant
            n == s@.len(),
            a <= n,
            trim_start(s@) == trim_start(s@.subrange(a as int, n as int)),
        decreases n - a,
    {
        assert(s@.subrange(a as int, n as int).drop_first() =~= s@.subrange(a + 1, n as int));
        a = a + 1;
    }
    assert(trim_start(s@) == s@.subrange(a as int, n as int)) by {
        if a == n {
            assert(s@.subrange(a as int, n as int).len() == 0);
        }
    }
    let mut b: usize = n;
    while b > a && is_whitespace(s.get_char(b - 1))
        invariant
            n == s@.len(),
            a <= b <= n,
            trim(s@) == trim_end(s@.subrange(a as int, b as int)),
        decreases b,
    {
        assert(s@.subrange(a as int, b as int).drop_last() =~= s@.subrange(a as int, b - 1));
        b = b - 1;
    }
    s.substring_char(a, b)
}

/// `p` written `n` times in a row.
pub open spec fn rep(p: Seq<char>, n: nat) -> Seq<char>
    decreases n,
{
    if n == 0 {
        Seq::empty()
    } else {
        rep(p, (n - 1) as nat) + p
    }
}

/// Appends `p` to `out` `n` times.
pub fn push_rep(out: &mut String, p: &str, n: usize)
    ensures
        final(out)@ == old(out)@ + rep(p@, n as nat),
{
    let mut i: usize = 0;
    while i < n
        invariant
            i <= n,
            out@ == old(out)@ + rep(p@, i as nat),
        decreases n - i,
    {
        out.append(p);
        i = i + 1;
        assert(out@ =~= old(out)@ + rep(p@, i as nat));
    }
}

/// How a single character is written in the markup: backslashes and
/// underscores are escaped and a newline becomes a forced line break.
pub open spec fn esc_char(c: char) -> Seq<char> {
    if c == '\\' {
        "\\backslash"@
    } else if c == '_' {
        "\\_"@
    } else if c == '\n' {
        " \\\\\n"@
    } else {
        seq![c]
    }
}

/// `s` with every character escaped by `esc_char`.
pub open spec fn escape(s: Seq<char>) -> Seq<char>
    decreases s.len(),
{
    if s.len() == 0 {
        Seq::empty()
    } else {
        escape(s.drop_last()) + esc_char(s.last())
    }
}

/// Appends the escaped form of `s` to `out`.
pub fn push_escaped(out: &mut String, s: &str)
    ensures
        final(out)@ == old(out)@ + escape(s@),
{
    let n = s.unicode_len();
    let mut i: usize = 0;
    while i < n
        invariant
            n == s@.len(),
            i <= n,
            out@ == old(out)@ + escape(s@.subrange(0, i as int)),
        decreases n - i,
    {
        let c = s.get_char(i);
        if c == '\\' {
            out.append("\\backslash");
        } else if c == '_' {
            out.append("\\_");
        } else if c == '\n' {
            out.append(" \\\\\n");
        } else {
            out.append(s.substring_char(i, i + 1));
            assert(s@.subrange(i as int, i + 1) =~= seq![c]);
        }
        assert(s@.subrange(0, i + 1).drop_last() =~= s@.subrange(0, i as int));
        i = i + 1;
        assert(out@ =~= old(out)@ + escape(s@.subrange(0, i as int)));
    }
    assert(s@.subrange(0, n as int) =~= s@);
}

/// The decimal digit for `d`, which must be below ten.
pub open spec fn digit(d: nat) -> char {
    if d == 0 {
        '0'
    } else if d == 1 {
        '1'
    } else if d == 2 {
        '2'
    } else if d == 3 {
        '3'
    } else if d == 4 {
        '4'
    } else if d == 5 {
        '5'
    } else if d == 6 {
        '6'
    } else if d == 7 {
        '7'
    } else if d == 8 {
        '8'
    } else {
        '9'
    }
}

/// The decimal representation of `n`, without leading zeros.
pub open spec fn dec(n: nat) -> Seq<char>
    decreases n,
{
    if n < 10 {
        seq![digit(n)]
    } else {
        dec(n / 10) + seq![digit(n % 10)]
    }
}

fn digit_str(d: u128) -> (r: &'static str)
    requires
        d < 10,
    ensures
        r@ == seq![digit(d as nat)],
{
    proof {
        reveal_strlit("0");
        reveal_strlit("1");
        reveal_strlit("2");
        reveal_strlit("3");
        reveal_strlit("4");
        reveal_strlit("5");
        reveal_strlit("6");
        reveal_strlit("7");
        reveal_strlit("8");
        reveal_strlit("9");
    }
    let r = if d == 0 {
        "0"
    } else if d == 1 {
        "1"
    } else if d == 2 {
        "2"
    } else if d == 3 {
        "3"
    } else if d == 4 {
        "4"
    } else if d == 5 {
        "5"
    } else if d == 6 {
        "6"
    } else if d == 7 {
        "7"
    } else if d == 8 {
        "8"
    } else {
        "9"
    };
    assert(r@ =~= seq![digit(d as nat)]);
    r
}

/// Appends the decimal representation of `n` to `out`.
pub fn push_dec(out: &mut String, n: u128)
    ensures
        final(out)@ == old(out)@ + dec(n as nat),
    decreases n,
{
    if n >= 10 {
        push_dec(out, n / 10);
    }
    out.append(digit_str(n % 10));
    assert(out@ =~= old(out)@ + dec(n as nat));
}

} // verus!

verus! {

/// Whether `a` and `b` hold the same characters.
pub fn str_eq(a: &str, b: &str) -> (r: bool)
    ensures
        r == (a@ == b@),
{
    let n = a.unicode_len();
    if n != b.unicode_len() {
        return false;
    }
    let mut i: usize = 0;
    while i < n
        invariant
            n == a@.len(),
            n == b@.len(),
            i <= n,
            forall|j: int| 0 <= j < i ==> a@[j] == b@[j],
        decreases n - i,
    {
        if a.get_char(i) != b.get_char(i) {
            return false;
        }
        i = i + 1;
    }
    assert(a@ =~= b@);
    true
}

} // verus!

verus! {

/// The characters of `s`, in order.
pub fn chars_of(s: &str) -> (r: Vec<char>)
    ensures
        r@ == s@,
{
    let mut r: Vec<char> = Vec::new();
    for c in it: s.chars()
        invariant
            r@ == it.seq().take(it.index() as int),
    {
        r.push(c);
    }
    proof {
        vstd::string::axiom_spec_iter(s);
    }
    assert(r@ =~= s@);
    r
}

} // verus!

verus! {

/// The line-break token, ending in a newline.
pub open spec fn line_break() -> Seq<char> {
    " \\\\\n"@
}

/// In `t`, every underscore, newline and backslash lies inside a whole
/// escape token: `\backslash`, `\_`, or the line-break token.
pub open spec fn fully_escaped(t: Seq<char>) -> bool {
    &&& forall|i: int|
        0 <= i < t.len() && #[trigger] t[i] == '_' ==> 1 <= i && t.subrange(i - 1, i + 1)
            == "\\_"@
    &&& forall|i: int|
        0 <= i < t.len() && #[trigger] t[i] == '\n' ==> 3 <= i && t.subrange(i - 3, i + 1)
            == line_break()
    &&& forall|i: int|
        0 <= i < t.len() && #[trigger] t[i] == '\\' ==> {
            ||| i + 10 <= t.len() && t.subrange(i, i + 10) == "\\backslash"@
            ||| i + 2 <= t.len() && t.subrange(i, i + 2) == "\\_"@
            ||| 1 <= i && i + 3 <= t.len() && t.subrange(i - 1, i + 3) == line_break()
            ||| 2 <= i && i + 2 <= t.len() && t.subrange(i - 2, i + 2) == line_break()
        }
}

proof fn lemma_esc_char(c: char)
    ensures
        fully_escaped(esc_char(c)),
{
    reveal_strlit("\\backslash");
    reveal_strlit("\\_");
    reveal_strlit(" \\\\\n");
    let b = esc_char(c);
    if c == '\\' {
        assert(b.subrange(0, 10) =~= b);
    } else if c == '_' {
        assert(b.subrange(0, 2) =~= b);
    } else if c == '\n' {
        assert(b.subrange(0, 4) =~= b);
    }
}

proof fn lemma_sub_concat(a: Seq<char>, b: Seq<char>, x: int, y: int)
    requires
        0 <= x <= y,
    ensures
        y <= a.len() ==> (a + b).subrange(x, y) == a.subrange(x, y),
        a.len() <= x && y <= a.len() + b.len() ==> (a + b).subrange(x, y) == b.subrange(
            x - a.len(),
            y - a.len(),
        ),
{
    if y <= a.len() {
        assert((a + b).subrange(x, y) =~= a.subrange(x, y));
    }
    if a.len() <= x && y <= a.len() + b.len() {
        assert((a + b).subrange(x, y) =~= b.subrange(x - a.len(), y - a.len()));
    }
}

/// Escaping leaves no bare underscore, newline or backslash behind: each
/// one that remains lies inside a whole escape token.
pub proof fn lemma_escape_complete(s: Seq<char>)
    ensures
        fully_escaped(escape(s)),
    decreases s.len(),
{
    if s.len() > 0 {
        lemma_escape_complete(s.drop_last());
        lemma_esc_char(s.last());
        let a = escape(s.drop_last());
        let b = esc_char(s.last());
        let t = a + b;
        let n = a.len();
        assert(escape(s) == t);
        assert forall|i: int| 0 <= i < t.len() && #[trigger] t[i] == '_' implies 1 <= i
            && t.subrange(i - 1, i + 1) == "\\_"@ by {
            if i >= n {
                assert(b[i - n] == '_');
                if i >= 1 {
                    lemma_sub_concat(a, b, i - 1, i + 1);
                }
            } else {
                assert(a[i] == '_');
                if i >= 1 {
                    lemma_sub_concat(a, b, i - 1, i + 1);
                }
            }
        }
        assert forall|i: int| 0 <= i < t.len() && #[trigger] t[i] == '\n' implies 3 <= i
            && t.subrange(i - 3, i + 1) == line_break() by {
            if i >= n {
                assert(b[i - n] == '\n');
                if i >= 3 {
                    lemma_sub_concat(a, b, i - 3, i + 1);
                }
            } else {
                assert(a[i] == '\n');
                if i >= 3 {
                    lemma_sub_concat(a, b, i - 3, i + 1);
                }
            }
        }
        assert forall|i: int| 0 <= i < t.len() && #[trigger] t[i] == '\\' implies {
            ||| i + 10 <= t.len() && t.subrange(i, i + 10) == "\\backslash"@
            ||| i + 2 <= t.len() && t.subrange(i, i + 2) == "\\_"@
            ||| 1 <= i && i + 3 <= t.len() && t.subrange(i - 1, i + 3) == line_break()
            ||| 2 <= i && i + 2 <= t.len() && t.subrange(i - 2, i + 2) == line_break()
        } by {
            if i >= n {
                assert(b[i - n] == '\\');
                lemma_sub_concat(a, b, i, i + 10);
                lemma_sub_concat(a, b, i, i + 2);
                if i >= 1 {
                    lemma_sub_concat(a, b, i - 1, i + 3);
                }
                if i >= 2 {
                    lemma_sub_concat(a, b, i - 2, i + 2);
                }
            } else {
                assert(a[i] == '\\');
                lemma_sub_concat(a, b, i, i + 10);
                lemma_sub_concat(a, b, i, i + 2);
                if i >= 1 {
                    lemma_sub_concat(a, b, i - 1, i + 3);
                }
                if i >= 2 {
                    lemma_sub_concat(a, b, i - 2, i + 2);
                }
            }
        }
    }
}

} // verus!

verus! {

proof fn lemma_escape_len(s: Seq<char>)
    ensures
        escape(s).len() >= s.len(),
    decreases s.len(),
{
    if s.len() > 0 {
        lemma_escape_len(s.drop_last());
        lemma_esc_char_len(s.last());
    }
}

proof fn lemma_esc_char_len(c: char)
    ensures
        esc_char(c).len() >= 1,
{
    reveal_strlit("\\backslash");
    reveal_strlit("\\_");
    reveal_strlit(" \\\\\n");
}

/// An escaped text never ends like a backslash's escape where the other
/// reading would end with a plain `h`.
proof fn lemma_h_is_no_backslash(a1: Seq<char>, a2: Seq<char>)
    ensures
        !(a1 + esc_char('\\') == a2 + seq!['h'] && fully_escaped(a2)),
{
    if a1 + esc_char('\\') == a2 + seq!['h'] && fully_escaped(a2) {
        reveal_strlit("\\backslash");
        reveal_strlit("\\_");
        reveal_strlit(" \\\\\n");
        let b = esc_char('\\');
        let t = a1 + b;
        let n: int = a1.len() as int;
        assert(t[n] == b[0]);
        assert(t[n + 1] == b[1]);
        assert(t.len() == a2.len() + 1);
        let i = n;
        assert(a2[i] == t[i]);
        assert(a2[i + 1] == t[i + 1]);
        assert(a2[i] == '\\');
        if i + 2 <= a2.len() && a2.subrange(i, i + 2) == "\\_"@ {
            assert(a2.subrange(i, i + 2)[1] == '_');
        }
        if 1 <= i && i + 3 <= a2.len() && a2.subrange(i - 1, i + 3) == line_break() {
            assert(a2.subrange(i - 1, i + 3)[2] == '\\');
        }
        if 2 <= i && i + 2 <= a2.len() && a2.subrange(i - 2, i + 2) == line_break() {
            assert(a2.subrange(i - 2, i + 2)[3] == '\n');
        }
    }
}

proof fn lemma_last_token(a1: Seq<char>, c1: char, a2: Seq<char>, c2: char)
    requires
        a1 + esc_char(c1) == a2 + esc_char(c2),
        fully_escaped(a1),
        fully_escaped(a2),
    ensures
        c1 == c2,
{
    reveal_strlit("\\backslash");
    reveal_strlit("\\_");
    reveal_strlit(" \\\\\n");
    let t = a1 + esc_char(c1);
    let b1 = esc_char(c1);
    let b2 = esc_char(c2);
    assert(t.last() == b1.last());
    assert(t.last() == (a2 + b2).last());
    assert((a2 + b2).last() == b2.last());
    if c1 == '\\' && c2 == 'h' {
        lemma_h_is_no_backslash(a1, a2);
    } else if c2 == '\\' && c1 == 'h' {
        lemma_h_is_no_backslash(a2, a1);
    }
}

/// Escaping loses nothing: two texts with the same escaped form are equal.
pub proof fn lemma_escape_injective(s1: Seq<char>, s2: Seq<char>)
    requires
        escape(s1) == escape(s2),
    ensures
        s1 == s2,
    decreases s1.len(),
{
    lemma_escape_len(s1);
    lemma_escape_len(s2);
    if s1.len() == 0 {
        if s2.len() > 0 {
            lemma_escape_len(s2.drop_last());
            lemma_esc_char_len(s2.last());
        }
        assert(s1 =~= s2);
    } else if s2.len() == 0 {
        lemma_escape_len(s1.drop_last());
        lemma_esc_char_len(s1.last());
    } else {
        let a1 = escape(s1.drop_last());
        let a2 = escape(s2.drop_last());
        lemma_escape_complete(s1.drop_last());
        lemma_escape_complete(s2.drop_last());
        lemma_last_token(a1, s1.last(), a2, s2.last());
        let b = esc_char(s1.last());
        assert(a1 =~= (a1 + b).subrange(0, a1.len() as int));
        assert(a2 =~= (a2 + b).subrange(0, a2.len() as int));
        assert(a1 == a2);
        lemma_escape_injective(s1.drop_last(), s2.drop_last());
        assert(s1 =~= s1.drop_last().push(s1.last()));
        assert(s2 =~= s2.drop_last().push(s2.last()));
    }
}

} // verus!

verus! {

/// How a character is written inside a comment: a newline starts a new
/// comment line.
pub open spec fn comment_char(c: char) -> Seq<char> {
    if c == '\n' {
        "\n% "@
    } else {
        seq![c]
    }
}

/// `s` with every line after the first marked as a comment too.
pub open spec fn commented(s: Seq<char>) -> Seq<char>
    decreases s.len(),
{
    if s.len() == 0 {
        Seq::empty()
    } else {
        commented(s.drop_last()) + comment_char(s.last())
    }
}

/// Appends `s` to `out` with every line after the first marked as a comment.
pub fn push_commented(out: &mut String, s: &str)
    ensures
        final(out)@ == old(out)@ + commented(s@),
{
    let n = s.unicode_len();
    let mut i: usize = 0;
    while i < n
        invariant
            n == s@.len(),
            i <= n,
            out@ == old(out)@ + commented(s@.subrange(0, i as int)),
        decreases n - i,
    {
        let c = s.get_char(i);
        if c == '\n' {
            out.append("\n% ");
        } else {
            out.append(s.substring_char(i, i + 1));
            assert(s@.subrange(i as int, i + 1) =~= seq![c]);
        }
        assert(s@.subrange(0, i + 1).drop_last() =~= s@.subrange(0, i as int));
        i = i + 1;
        assert(out@ =~= old(out)@ + commented(s@.subrange(0, i as int)));
    }
    assert(s@.subrange(0, n as int) =~= s@);
}

} // verus!

verus! {

/// Escaped text read back token by token from the front: each escape token
/// gives back the character it stands for, any other character itself.
pub open spec fn unescape(t: Seq<char>) -> Seq<char>
    decreases t.len(),
{
    if t.len() == 0 {
        Seq::empty()
    } else if t.len() >= 10 && t.take(10) == "\\backslash"@ {
        seq!['\\'] + unescape(t.skip(10))
    } else if t.len() >= 2 && t.take(2) == "\\_"@ {
        seq!['_'] + unescape(t.skip(2))
    } else if t.len() >= 4 && t.take(4) == line_break() {
        seq!['\n'] + unescape(t.skip(4))
    } else {
        seq![t[0]] + unescape(t.skip(1))
    }
}

proof fn lemma_escape_front(s: Seq<char>)
    requires
        s.len() > 0,
    ensures
        escape(s) == esc_char(s[0]) + escape(s.drop_first()),
    decreases s.len(),
{
    if s.len() == 1 {
        assert(s.drop_first().len() == 0);
        assert(s.drop_last().len() == 0);
        assert(escape(s) == escape(s.drop_last()) + esc_char(s.last()));
        assert(escape(s.drop_last()) == Seq::<char>::empty());
        assert(escape(s.drop_first()) == Seq::<char>::empty());
        assert(s.last() == s[0]);
        assert(escape(s) =~= esc_char(s[0]) + escape(s.drop_first()));
    } else {
        let p = s.drop_last();
        let q = s.drop_first();
        lemma_escape_front(p);
        assert(p[0] == s[0]);
        assert(p.drop_first() =~= q.drop_last());
        assert(q.last() == s.last());
        assert(escape(s) == escape(p) + esc_char(s.last()));
        assert(escape(q) == escape(q.drop_last()) + esc_char(q.last()));
        assert(escape(s) =~= esc_char(s[0]) + escape(q));
    }
}

proof fn lemma_unescape_token(c: char, r: Seq<char>)
    requires
        fully_escaped(r),
    ensures
        unescape(esc_char(c) + r) == seq![c] + unescape(r),
{
    reveal_strlit("\\backslash");
    reveal_strlit("\\_");
    reveal_strlit(" \\\\\n");
    let b = esc_char(c);
    let t = b + r;
    assert(t.skip(b.len() as int) =~= r);
    assert(t[0] == b[0]);
    if t.len() >= 2 {
        assert(t[1] == if b.len() >= 2 {
            b[1]
        } else {
            r[0]
        });
    }
    if c == '\\' {
        assert(t.take(10) =~= b);
    } else if c == '_' {
        if t.len() >= 10 {
            assert(t.take(10)[1] == t[1]);
        }
        assert(t.take(2) =~= b);
    } else if c == '\n' {
        if t.len() >= 10 {
            assert(t.take(10)[0] == t[0]);
        }
        assert(t.take(2)[0] == t[0]);
        assert(t.take(4) =~= b);
    } else {
        assert(t.len() >= 10 ==> t.take(10)[0] == t[0]);
        assert(t.len() >= 2 ==> t.take(2)[0] == t[0]);
        if t.len() >= 4 && t.take(4) == line_break() {
            assert(t.take(4)[1] == r[0]);
            assert(t.take(4)[2] == r[1]);
            assert(r[0] == '\\');
            if 10 <= r.len() && r.subrange(0, 10) == "\\backslash"@ {
                assert(r.subrange(0, 10)[1] == r[1]);
            }
            if 2 <= r.len() && r.subrange(0, 2) == "\\_"@ {
                assert(r.subrange(0, 2)[1] == r[1]);
            }
        }
    }
}

/// Reading escaped text back gives the original text.
pub proof fn lemma_unescape_escape(s: Seq<char>)
    ensures
        unescape(escape(s)) == s,
    decreases s.len(),
{
    if s.len() == 0 {
        assert(unescape(escape(s)) =~= s);
    } else {
        lemma_escape_front(s);
        lemma_escape_complete(s.drop_first());
        lemma_unescape_token(s[0], escape(s.drop_first()));
        lemma_unescape_escape(s.drop_first());
        assert(seq![s[0]] + s.drop_first() =~= s);
    }
}

} // verus!
