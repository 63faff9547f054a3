//! The input language: how a line is read and what each directive does to
//! a diagram.
use vstd::prelude::*;
use crate::diagram::{add_arrow, close_group, continue_text, open_group, DocV};
use crate::item::ItemV;
use crate::text::trim;
use vstd::string::StrSliceExecFns;

verus! {

/// The first position at or after `i` where `p` (not empty) occurs in `s`.
pub open spec fn find_from(s: Seq<char>, p: Seq<char>, i: int) -> Option<int>
    decreases s.len() - i,
{
    if i < 0 || i >= s.len() || i + p.len() > s.len() {
        None
    } else if s.subrange(i, i + p.len()) == p {
        Some(i)
    } else {
        find_from(s, p, i + 1)
    }
}

/// The first position where `p` occurs in `s`.
pub open spec fn find(s: Seq<char>, p: Seq<char>) -> Option<int> {
    find_from(s, p, 0)
}

/// Finds the first occurrence of the non-empty `p` in `s`.
pub fn find_in(s: &Vec<char>, p: &str) -> (r: Option<usize>)
    requires
        p@.len() > 0,
    ensures
        r matches Some(i) ==> find(s@, p@) == Some(i as int) && i + p@.len() <= s@.len(),
        r is None ==> find(s@, p@) is None,
{
    let n = s.len();
    let m = p.unicode_len();
    let mut i: usize = 0;
    while i < n && m <= n - i
        invariant
            n == s@.len(),
            m == p@.len(),
            m > 0,
            i <= n,
            find(s@, p@) == find_from(s@, p@, i as int),
        decreases n - i,
    {
        let mut j: usize = 0;
        let mut same = true;
        while j < m
            invariant
                n == s@.len(),
                m == p@.len(),
                i + m <= n,
                j <= m,
                same == forall|k: int| 0 <= k < j ==> s@[i + k] == p@[k],
            decreases m - j,
        {
            if s[i + j] != p.get_char(j) {
                same = false;
            }
            j = j + 1;
        }
        if same {
            assert(s@.subrange(i as int, i + m) =~= p@);
            return Some(i);
        }
        assert(s@.subrange(i as int, i + m) != p@) by {
            let k = choose|k: int| 0 <= k < m && s@[i + k] != p@[k];
            assert(s@.subrange(i as int, i + m)[k] != p@[k]);
        }
        i = i + 1;
    }
    None
}

/// Where the first `c` in `t` stands, for a scan that found none before `m`
/// and `c` at `m`, or reached the end there.
pub proof fn lemma_find_char(t: Seq<char>, c: char, m: int, i: int)
    requires
        0 <= i <= m <= t.len(),
        forall|k: int| i <= k < m ==> t[k] != c,
        m < t.len() ==> t[m] == c,
    ensures
        find_from(t, seq![c], i) == if m < t.len() {
            Some(m)
        } else {
            None::<int>
        },
    decreases m - i,
{
    if i < t.len() {
        assert(t.subrange(i, i + 1) =~= seq![t[i]]);
        if i < m {
            assert(t.subrange(i, i + 1) != seq![c]) by {
                assert(t.subrange(i, i + 1)[0] != seq![c][0]);
            }
            lemma_find_char(t, c, m, i + 1);
        }
    }
}

/// The input split into lines at each newline; a newline at the very end
/// starts no further line.
pub open spec fn lines_of(s: Seq<char>) -> Seq<Seq<char>>
    decreases s.len(),
{
    match find(s, "\n"@) {
        Some(i) => if 0 <= i < s.len() {
            seq![s.take(i)] + lines_of(s.skip(i + 1))
        } else {
            seq![s]
        },
        None => if s.len() == 0 {
            Seq::empty()
        } else {
            seq![s]
        },
    }
}

/// A note on the columns named by `from` and `to`.
pub open spec fn add_note(
    d: DocV,
    from: Option<Seq<char>>,
    to: Option<Seq<char>>,
    text: Seq<char>,
    line: nat,
) -> DocV {
    DocV { items: d.items.push(ItemV::Note { from, to, text, line }), ..d }
}

/// What the directive `label: text` on line `line` does: the diagram after
/// it, and the comment it leaves in the output when it is not understood.
pub open spec fn directive(d: DocV, label: Seq<char>, text: Seq<char>, line: nat) -> (
    DocV,
    Seq<char>,
) {
    if label == "xypic"@ {
        (DocV { options: text, ..d }, Seq::empty())
    } else if label == "title"@ {
        (DocV { title: text, ..d }, Seq::empty())
    } else if label == "note"@ {
        (add_note(d, None, None, text, line), Seq::empty())
    } else if label.len() >= 5 && label.take(5) == "note "@ {
        let x = label.skip(5);
        match find(x, ","@) {
            Some(j) => (
                add_note(d, Some(trim(x.take(j))), Some(trim(x.skip(j + 1))), text, line),
                Seq::empty(),
            ),
            None => (add_note(d, Some(trim(x)), Some(trim(x)), text, line), Seq::empty()),
        }
    } else if find(label, "->"@) is Some {
        let j = find(label, "->"@)->0;
        (add_arrow(d, label.take(j), label.skip(j + 2), text), Seq::empty())
    } else if find(label, "<-"@) is Some {
        let j = find(label, "<-"@)->0;
        (add_arrow(d, label.skip(j + 2), label.take(j), text), Seq::empty())
    } else if label == "group"@ {
        (open_group(d, text), Seq::empty())
    } else {
        (d, "% skipped "@ + label + ": "@ + text + "\n"@)
    }
}

/// What one input line does, read as line number `line`: the diagram after
/// it, the comment it leaves in the output, and whether it counts as a line.
pub open spec fn line_step(d: DocV, raw: Seq<char>, line: nat) -> (DocV, Seq<char>, bool) {
    let s = trim(raw);
    if s.len() > 0 && s[0] == '#' {
        (d, Seq::empty(), false)
    } else if s.len() == 0 {
        (DocV { items: continue_text(d.items, s), ..d }, Seq::empty(), false)
    } else {
        match find(s, ":"@) {
            Some(i) => {
                let r = directive(d, trim(s.take(i)), trim(s.skip(i + 1)), line);
                (r.0, r.1, true)
            },
            None => if s == "end"@ {
                (close_group(d), Seq::empty(), true)
            } else {
                (DocV { items: continue_text(d.items, s), ..d }, Seq::empty(), true)
            },
        }
    }
}

/// The number of the line after `line`, when `counted`; it stays put at the
/// largest number a `usize` holds.
pub open spec fn next_line(line: nat, counted: bool) -> nat {
    if counted && line < usize::MAX {
        line + 1
    } else {
        line
    }
}

/// The diagram after `lines` are read from line number `line` on, and the
/// comments they leave.
pub open spec fn parse_lines(d: DocV, lines: Seq<Seq<char>>, line: nat) -> (DocV, Seq<char>)
    decreases lines.len(),
{
    if lines.len() == 0 {
        (d, Seq::empty())
    } else {
        let r = line_step(d, lines[0], line);
        let rest = parse_lines(r.0, lines.drop_first(), next_line(line, r.2));
        (rest.0, r.1 + rest.1)
    }
}

} // verus!
