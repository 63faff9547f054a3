//! Diagram items and the markup row that each one renders to.
use vstd::prelude::*;
use crate::nodes::{first_at, lemma_first_at_bound, Nodes};
use crate::text::{
    commented, dec, escape, lemma_unescape_escape, push_commented, push_dec, push_escaped, push_rep,
    rep, trim, trim_str, unescape,
};
use vstd::string::StrSliceExecFns;

verus! {

/// One entry of a diagram.
#[allow(inconsistent_fields)]
pub enum Item {
    /// A message from one participant to another.
    Arrow { from: String, to: String, text: String },
    /// An annotation over the columns `from..=to`; a missing end stands for
    /// the leftmost or the rightmost column. `line` is where it was declared.
    Note { from: Option<String>, to: Option<String>, text: String, line: usize },
    /// A labelled frame around the `lines` items that follow it.
    Group { text: String, lines: usize },
}

/// What an item holds, as text.
#[allow(inconsistent_fields)]
pub enum ItemV {
    Arrow { from: Seq<char>, to: Seq<char>, text: Seq<char> },
    Note { from: Option<Seq<char>>, to: Option<Seq<char>>, text: Seq<char>, line: nat },
    Group { text: Seq<char>, lines: nat },
}

/// The text of an optional string.
pub open spec fn opt_view(x: Option<String>) -> Option<Seq<char>> {
    match x {
        Some(s) => Some(s@),
        None => None,
    }
}

impl View for Item {
    type V = ItemV;

    open spec fn view(&self) -> ItemV {
        match self {
            Item::Arrow { from, to, text } => ItemV::Arrow { from: from@, to: to@, text: text@ },
            Item::Note { from, to, text, line } => ItemV::Note {
                from: opt_view(*from),
                to: opt_view(*to),
                text: text@,
                line: *line as nat,
            },
            Item::Group { text, lines } => ItemV::Group { text: text@, lines: *lines as nat },
        }
    }
}

/// Why a diagram cannot be rendered.
#[derive(PartialEq, Eq, Structural, Debug, Clone, Copy)]
pub enum RenderError {
    /// The diagram has no participant at all.
    NoParticipants,
    /// The note declared on `line` names a participant that no arrow introduced.
    UnknownParticipant { line: usize },
    /// The note declared on `line` ends left of where it starts.
    BackwardNote { line: usize },
}

/// Text as it appears in the markup: trimmed, then escaped.
pub open spec fn txt(t: Seq<char>) -> Seq<char> {
    escape(trim(t))
}

/// The number of newlines in `s`.
pub open spec fn count_nl(s: Seq<char>) -> nat
    decreases s.len(),
{
    if s.len() == 0 {
        0
    } else {
        count_nl(s.drop_last()) + if s.last() == '\n' {
            1nat
        } else {
            0nat
        }
    }
}

/// One and a half times `k`, in the shortest decimal form.
pub open spec fn height(k: nat) -> Seq<char> {
    if k % 2 == 0 {
        dec(k * 3 / 2)
    } else {
        dec(k * 3 / 2) + ".5"@
    }
}

/// The height, in em, given to a note of text `t`: one and a half per line.
pub open spec fn note_height(t: Seq<char>) -> Seq<char> {
    height(count_nl(trim(t)) + 1)
}

/// The row of an arrow from column `s` to column `e` among `n` columns.
pub open spec fn arrow_row(n: nat, s: nat, e: nat, t: Seq<char>) -> Seq<char> {
    "    "@ + rep("&"@, s) + " \\ar["@ + (if s > e {
        rep("l"@, (s - e) as nat)
    } else {
        rep("r"@, (e - s) as nat)
    }) + "]"@ + (if s > e {
        "_"@
    } else {
        "^"@
    }) + "{\\txt{"@ + txt(t) + "}} "@ + rep("&"@, (n - s - 1) as nat) + " \\\\\n"@
}

/// The row of a note on the single column `s`, joined upward by `up` rows.
pub open spec fn note_cell_row(n: nat, s: nat, t: Seq<char>, up: nat) -> Seq<char> {
    "    "@ + rep("&"@, s) + " *+[F.:<3pt>]{\\txt{"@ + txt(t) + "}} \\ar@{-}["@ + rep("u"@, up)
        + "] "@ + rep("&"@, (n - s) as nat) + " \\\\\n"@
}

/// A spacer as tall as the note, `h` em.
pub open spec fn spacer(h: Seq<char>) -> Seq<char> {
    "  *+<"@ + h + "em>{}"@
}

/// The connector that closes column `i` upward by `up` rows.
pub open spec fn connector(up: nat) -> Seq<char> {
    " \\ar@{-}["@ + rep("u"@, up) + "]"@
}

/// The cells of columns `s..k` left of a note's text.
pub open spec fn left_cells(s: nat, k: nat, h: Seq<char>, v: Seq<usize>) -> Seq<char>
    decreases k,
{
    if k <= s {
        Seq::empty()
    } else {
        left_cells(s, (k - 1) as nat, h, v) + (if k - 1 > s {
            spacer(h)
        } else {
            Seq::empty()
        }) + connector(v[k - 1] as nat) + " &"@
    }
}

/// The cells of columns `m..k` from a note's text to its end column `e`.
pub open spec fn right_cells(m: nat, e: nat, k: nat, h: Seq<char>, v: Seq<usize>) -> Seq<char>
    decreases k,
{
    if k <= m {
        Seq::empty()
    } else {
        right_cells(m, e, (k - 1) as nat, h, v) + (if k - 1 > m {
            spacer(h)
        } else {
            Seq::empty()
        }) + connector(v[k - 1] as nat) + (if k - 1 < e {
            " &"@
        } else {
            Seq::empty()
        })
    }
}

/// The middle column of `s..=e`, where a spanning note's text stands.
pub open spec fn middle(s: nat, e: nat) -> nat {
    (s + (e - s) / 2) as nat
}

/// The row of a note spanning columns `s..=e` with `s < e`.
pub open spec fn note_span_row(n: nat, s: nat, e: nat, t: Seq<char>, v: Seq<usize>) -> Seq<char> {
    let h = note_height(t);
    let m = middle(s, e);
    "    "@ + rep("&"@, s) + " *+<"@ + h + "em>{} \\save [].["@ + rep("r"@, (e - s) as nat)
        + "] *[F.:<3pt>]\\frm{} \\restore"@ + left_cells(s, m, h, v) + " *+\\txt{"@ + txt(t)
        + "}"@ + right_cells(m, e, e + 1, h, v) + " "@ + rep("&"@, (n - e - 1) as nat)
        + " \\\\\n"@
}

/// The rows of a group enclosing `lines` items, or a comment when it encloses none.
pub open spec fn group_rows(n: nat, t: Seq<char>, lines: nat, up: nat) -> Seq<char> {
    if lines == 0 {
        "% empty group: "@ + commented(t) + "\n"@
    } else {
        "    \\save [].["@ + rep("r"@, (n - 1) as nat) + "] {\\txt{"@ + txt(t)
            + "}} \\restore \\ar@{-}["@ + rep("u"@, up) + "]\n"@ + "      \\save [].["@ + rep(
            "d"@,
            lines,
        ) + rep("r"@, (n - 1) as nat) + "] *+[F-,]\\frm{} \\restore "@ + rep(
            "&"@,
            (n - 1) as nat,
        ) + " \\\\\n"@
    }
}

/// Every column one row taller.
pub open spec fn bump(v: Seq<usize>) -> Seq<usize> {
    Seq::new(v.len(), |i: int| (v[i] + 1) as usize)
}

/// Columns `s..=e` reset to height zero.
pub open spec fn reset(v: Seq<usize>, s: nat, e: nat) -> Seq<usize> {
    Seq::new(v.len(), |i: int| if s <= i <= e { 0usize } else { v[i] })
}

/// The column that a note end names, or the default column when it names none.
pub open spec fn note_col(names: Seq<Seq<char>>, x: Option<Seq<char>>, default: nat) -> Option<
    nat,
> {
    match x {
        None => Some(default),
        Some(x) => if names.contains(x) {
            Some(first_at(names, x) as nat)
        } else {
            None
        },
    }
}

impl ItemV {
    /// An arrow's ends are registered participants.
    pub open spec fn placed(&self, names: Seq<Seq<char>>) -> bool {
        match *self {
            ItemV::Arrow { from, to, .. } => names.contains(from) && names.contains(to),
            _ => true,
        }
    }

    /// What rendering the item does, given the participants and the column
    /// heights after the item's own row has been counted: the markup and
    /// the new heights, or the error.
    pub open spec fn step(&self, names: Seq<Seq<char>>, v: Seq<usize>) -> Result<
        (Seq<char>, Seq<usize>),
        RenderError,
    > {
        let n = names.len();
        match *self {
            ItemV::Arrow { from, to, text } => Ok(
                (
                    arrow_row(n, first_at(names, from) as nat, first_at(names, to) as nat, text),
                    v,
                ),
            ),
            ItemV::Note { from, to, text, line } => {
                let s = note_col(names, from, 0);
                let e = note_col(names, to, (n - 1) as nat);
                if s is None || e is None {
                    Err(RenderError::UnknownParticipant { line: line as usize })
                } else if s->0 > e->0 {
                    Err(RenderError::BackwardNote { line: line as usize })
                } else if s->0 == e->0 {
                    Ok(
                        (
                            note_cell_row(n, s->0, text, v[s->0 as int] as nat),
                            reset(v, s->0, e->0),
                        ),
                    )
                } else {
                    Ok((note_span_row(n, s->0, e->0, text, v), reset(v, s->0, e->0)))
                }
            },
            ItemV::Group { text, lines } => Ok(
                (
                    group_rows(n, text, lines, v[0] as nat),
                    if lines == 0 {
                        v
                    } else {
                        v.update(0, 0usize)
                    },
                ),
            ),
        }
    }
}

impl Item {
    /// `t` trimmed and escaped for the markup.
    pub fn txt(t: &str) -> (r: String)
        ensures
            r@ == txt(t@),
    {
        let mut r = String::new();
        push_escaped(&mut r, trim_str(t));
        assert(r@ =~= txt(t@));
        r
    }
}

/// Appends the height, in em, of a note whose text is `t`.
fn push_height(out: &mut String, t: &str)
    ensures
        final(out)@ == old(out)@ + note_height(t@),
{
    let tt = trim_str(t);
    let n = tt.unicode_len();
    let mut count: u128 = 0;
    let mut i: usize = 0;
    while i < n
        invariant
            n == tt@.len(),
            i <= n,
            count == count_nl(tt@.subrange(0, i as int)),
            count <= i,
        decreases n - i,
    {
        assert(tt@.subrange(0, i + 1).drop_last() =~= tt@.subrange(0, i as int));
        if tt.get_char(i) == '\n' {
            count = count + 1;
        }
        i = i + 1;
    }
    assert(tt@.subrange(0, n as int) =~= tt@);
    let k: u128 = count + 1;
    assert(k * 3 <= u128::MAX) by (nonlinear_arith)
        requires
            k <= usize::MAX + 1,
    ;
    push_dec(out, k * 3 / 2);
    if k % 2 == 1 {
        out.append(".5");
    }
    assert(out@ =~= old(out)@ + note_height(t@));
}

impl Item {
    /// Appends the row of an arrow between two registered participants.
    fn print_arrow(nodes: &Nodes, from: &str, to: &str, text: &str, out: &mut String)
        requires
            nodes.wf(),
            nodes@.contains(from@),
            nodes@.contains(to@),
        ensures
            final(out)@ == old(out)@ + arrow_row(
                nodes@.len(),
                first_at(nodes@, from@) as nat,
                first_at(nodes@, to@) as nat,
                text@,
            ),
    {
        let start = nodes.index_of(from);
        let end = nodes.index_of(to);
        out.append("    ");
        push_rep(out, "&", start);
        out.append(" \\ar[");
        if start > end {
            push_rep(out, "l", start - end);
            out.append("]");
            out.append("_");
        } else {
            push_rep(out, "r", end - start);
            out.append("]");
            out.append("^");
        }
        out.append("{\\txt{");
        push_escaped(out, trim_str(text));
        out.append("}} ");
        push_rep(out, "&", nodes.len() - start - 1);
        out.append(" \\\\\n");
        assert(out@ =~= old(out)@ + arrow_row(
            nodes@.len(),
            start as nat,
            end as nat,
            text@,
        ));
    }

    /// Appends the rows of a group over `nnodes` columns whose first column
    /// stands `verticals0` rows tall.
    fn print_group(text: &str, lines: usize, nnodes: usize, verticals0: usize, out: &mut String)
        requires
            nnodes >= 1,
        ensures
            final(out)@ == old(out)@ + group_rows(
                nnodes as nat,
                text@,
                lines as nat,
                verticals0 as nat,
            ),
    {
        if lines == 0 {
            out.append("% empty group: ");
            push_commented(out, text);
            out.append("\n");
        } else {
            let ghost o = old(out)@;
            out.append("    \\save [].[");
            push_rep(out, "r", nnodes - 1);
            out.append("] {\\txt{");
            push_escaped(out, trim_str(text));
            out.append("}} \\restore \\ar@{-}[");
            push_rep(out, "u", verticals0);
            out.append("]\n");
            let ghost acc = "    \\save [].["@ + rep("r"@, (nnodes - 1) as nat) + "] {\\txt{"@ + txt(text@)
                + "}} \\restore \\ar@{-}["@ + rep("u"@, verticals0 as nat) + "]\n"@;
            assert(out@ =~= o + acc);
            out.append("      \\save [].[");
            push_rep(out, "d", lines);
            push_rep(out, "r", nnodes - 1);
            out.append("] *+[F-,]\\frm{} \\restore ");
            let ghost acc = acc + "      \\save [].["@ + rep("d"@, lines as nat) + rep(
                "r"@,
                (nnodes - 1) as nat,
            ) + "] *+[F-,]\\frm{} \\restore "@;
            assert(out@ =~= o + acc);
            push_rep(out, "&", nnodes - 1);
            out.append(" \\\\\n");
        }
        assert(out@ =~= old(out)@ + group_rows(
            nnodes as nat,
            text@,
            lines as nat,
            verticals0 as nat,
        ));
    }
}

/// Appends the cells of columns `s..m` that lead up to a note's text.
fn push_left_cells(out: &mut String, s: usize, m: usize, h: &str, v: &Vec<usize>)
    requires
        s <= m <= v@.len(),
    ensures
        final(out)@ == old(out)@ + left_cells(s as nat, m as nat, h@, v@),
{
    let mut i: usize = s;
    while i < m
        invariant
            s <= i <= m <= v@.len(),
            out@ == old(out)@ + left_cells(s as nat, i as nat, h@, v@),
        decreases m - i,
    {
        let ghost before = out@;
        if i > s {
            out.append("  *+<");
            out.append(h);
            out.append("em>{}");
        }
        let ghost sp = out@;
        out.append(" \\ar@{-}[");
        push_rep(out, "u", v[i]);
        out.append("]");
        out.append(" &");
        assert(out@ =~= sp + connector(v@[i as int] as nat) + " &"@);
        assert(sp =~= before + (if i > s {
            spacer(h@)
        } else {
            Seq::empty()
        }));
        i = i + 1;
        assert(out@ =~= old(out)@ + left_cells(s as nat, i as nat, h@, v@));
    }
}

/// Appends the cells of columns `m..=e` from a note's text to its end.
fn push_right_cells(out: &mut String, m: usize, e: usize, h: &str, v: &Vec<usize>)
    requires
        m <= e < v@.len(),
    ensures
        final(out)@ == old(out)@ + right_cells(m as nat, e as nat, (e + 1) as nat, h@, v@),
{
    let len = v.len();
    let mut i: usize = m;
    while i <= e
        invariant
            m <= i <= e + 1,
            e < v@.len(),
            len == v@.len(),
            out@ == old(out)@ + right_cells(m as nat, e as nat, i as nat, h@, v@),
        decreases e + 1 - i,
    {
        let ghost before = out@;
        if i > m {
            out.append("  *+<");
            out.append(h);
            out.append("em>{}");
        }
        let ghost sp = out@;
        out.append(" \\ar@{-}[");
        push_rep(out, "u", v[i]);
        out.append("]");
        let ghost cn = out@;
        if i < e {
            out.append(" &");
        }
        assert(cn =~= sp + connector(v@[i as int] as nat));
        assert(sp =~= before + (if i > m {
            spacer(h@)
        } else {
            Seq::empty()
        }));
        i = i + 1;
        assert(out@ =~= old(out)@ + right_cells(m as nat, e as nat, i as nat, h@, v@));
    }
}

/// Appends the row of a note spanning columns `start..=end` of `n`.
fn print_span(
    n: usize,
    start: usize,
    end: usize,
    text: &str,
    verticals: &Vec<usize>,
    out: &mut String,
)
    requires
        start < end < n,
        verticals@.len() == n,
    ensures
        final(out)@ == old(out)@ + note_span_row(
            n as nat,
            start as nat,
            end as nat,
            text@,
            verticals@,
        ),
{
    let mut h = String::new();
    push_height(&mut h, text);
    assert(h@ =~= note_height(text@));
    let ghost o = old(out)@;
    out.append("    ");
    push_rep(out, "&", start);
    out.append(" *+<");
    out.append(h.as_str());
    out.append("em>{} \\save [].[");
    push_rep(out, "r", end - start);
    out.append("] *[F.:<3pt>]\\frm{} \\restore");
    let ghost acc = "    "@ + rep("&"@, start as nat) + " *+<"@ + h@ + "em>{} \\save [].["@ + rep(
        "r"@,
        (end - start) as nat,
    ) + "] *[F.:<3pt>]\\frm{} \\restore"@;
    assert(out@ =~= o + acc);
    let middle = start + (end - start) / 2;
    push_left_cells(out, start, middle, h.as_str(), verticals);
    let ghost acc = acc + left_cells(start as nat, middle as nat, h@, verticals@);
    assert(out@ =~= o + acc);
    out.append(" *+\\txt{");
    push_escaped(out, trim_str(text));
    out.append("}");
    let ghost acc = acc + " *+\\txt{"@ + txt(text@) + "}"@;
    assert(out@ =~= o + acc);
    push_right_cells(out, middle, end, h.as_str(), verticals);
    let ghost acc = acc + right_cells(middle as nat, end as nat, (end + 1) as nat, h@, verticals@);
    assert(out@ =~= o + acc);
    out.append(" ");
    push_rep(out, "&", n - end - 1);
    out.append(" \\\\\n");
    let ghost acc = acc + " "@ + rep("&"@, (n - end - 1) as nat) + " \\\\\n"@;
    assert(out@ =~= o + acc);
    assert(acc == note_span_row(n as nat, start as nat, end as nat, text@, verticals@));
}

impl Item {
    /// Resolves the columns of a note and appends its row.
    fn print_note(
        nodes: &Nodes,
        from: &Option<String>,
        to: &Option<String>,
        text: &str,
        line: usize,
        verticals: &Vec<usize>,
        out: &mut String,
    ) -> (r: Result<(usize, usize), RenderError>)
        requires
            nodes.wf(),
            nodes@.len() > 0,
            verticals@.len() == nodes@.len(),
        ensures
            ({
                let n = nodes@.len();
                let s = note_col(nodes@, opt_view(*from), 0);
                let e = note_col(nodes@, opt_view(*to), (n - 1) as nat);
                match r {
                    Ok((a, b)) => s == Some(a as nat) && e == Some(b as nat) && a <= b && b < n
                        && final(out)@ == old(out)@ + (if a == b {
                        note_cell_row(n, a as nat, text@, verticals@[a as int] as nat)
                    } else {
                        note_span_row(n, a as nat, b as nat, text@, verticals@)
                    }),
                    Err(err) => final(out)@ == old(out)@ && if s is None || e is None {
                        err == RenderError::UnknownParticipant { line }
                    } else {
                        s->0 > e->0 && err == RenderError::BackwardNote { line }
                    },
                }
            }),
    {
        let n = nodes.len();
        let start = match from {
            None => Some(0),
            Some(x) => nodes.find(x.as_str()),
        };
        let end = match to {
            None => Some(n - 1),
            Some(x) => nodes.find(x.as_str()),
        };
        let (start, end) = match (start, end) {
            (Some(a), Some(b)) => (a, b),
            _ => {
                return Err(RenderError::UnknownParticipant { line });
            },
        };
        if start > end {
            return Err(RenderError::BackwardNote { line });
        }
        if start == end {
            out.append("    ");
            push_rep(out, "&", start);
            out.append(" *+[F.:<3pt>]{\\txt{");
            push_escaped(out, trim_str(text));
            out.append("}} \\ar@{-}[");
            push_rep(out, "u", verticals[start]);
            out.append("] ");
            push_rep(out, "&", n - end);
            out.append(" \\\\\n");
            assert(out@ =~= old(out)@ + note_cell_row(
                n as nat,
                start as nat,
                text@,
                verticals@[start as int] as nat,
            ));
            return Ok((start, end));
        }
        print_span(n, start, end, text, verticals, out);
        Ok((start, end))
    }

    /// Renders the item into `out`, after counting its row in every
    /// column's height; then the columns it closes start again from zero.
    pub fn print(&self, nodes: &Nodes, verticals: &mut Vec<usize>, out: &mut String) -> (r: Result<
        (),
        RenderError,
    >)
        requires
            nodes.wf(),
            nodes@.len() > 0,
            old(verticals)@.len() == nodes@.len(),
            forall|i: int| 0 <= i < old(verticals)@.len() ==> old(verticals)@[i] < usize::MAX,
            self@.placed(nodes@),
        ensures
            match self@.step(nodes@, bump(old(verticals)@)) {
                Ok((row, v)) => r is Ok && final(out)@ == old(out)@ + row && final(verticals)@ == v,
                Err(e) => r == Err::<(), RenderError>(e) && final(out)@ == old(out)@,
            },
    {
        let len = verticals.len();
        let mut i: usize = 0;
        while i < len
            invariant
                len == verticals@.len(),
                len == old(verticals)@.len(),
                i <= len,
                forall|j: int| 0 <= j < len ==> old(verticals)@[j] < usize::MAX,
                forall|j: int| 0 <= j < i ==> verticals@[j] == old(verticals)@[j] + 1,
                forall|j: int| i <= j < len ==> verticals@[j] == old(verticals)@[j],
            decreases len - i,
        {
            let x = verticals[i];
            verticals.set(i, x + 1);
            i = i + 1;
        }
        assert(verticals@ =~= bump(old(verticals)@));
        match self {
            Item::Arrow { from, to, text } => {
                Self::print_arrow(nodes, from.as_str(), to.as_str(), text.as_str(), out);
                Ok(())
            },
            Item::Note { from, to, text, line } => {
                match Self::print_note(nodes, from, to, text.as_str(), *line, verticals, out) {
                    Ok((start, end)) => {
                        let ghost before = verticals@;
                        let mut k: usize = start;
                        while k <= end
                            invariant
                                start <= k <= end + 1,
                                end < len,
                                len == verticals@.len(),
                                before.len() == len,
                                forall|j: int| 0 <= j < len ==> verticals@[j] == if start <= j < k {
                                    0usize
                                } else {
                                    before[j]
                                },
                            decreases end + 1 - k,
                        {
                            verticals.set(k, 0);
                            k = k + 1;
                        }
                        assert(verticals@ =~= reset(before, start as nat, end as nat));
                        Ok(())
                    },
                    Err(e) => Err(e),
                }
            },
            Item::Group { text, lines } => {
                Self::print_group(text.as_str(), *lines, nodes.len(), verticals[0], out);
                if *lines > 0 {
                    verticals.set(0, 0);
                }
                Ok(())
            },
        }
    }
}

/// A note whose start participant stands right of its end participant
/// renders to the backward-note error naming the note's line, whatever the
/// column heights.
pub proof fn lemma_backward_note_step(
    names: Seq<Seq<char>>,
    a: Seq<char>,
    b: Seq<char>,
    text: Seq<char>,
    line: usize,
    v: Seq<usize>,
)
    requires
        names.contains(a),
        names.contains(b),
        first_at(names, a) > first_at(names, b),
    ensures
        (ItemV::Note { from: Some(a), to: Some(b), text, line: line as nat }).step(names, v) == Err::<
            (Seq<char>, Seq<usize>),
            RenderError,
        >(RenderError::BackwardNote { line }),
{
    lemma_first_at_bound(names, a);
    lemma_first_at_bound(names, b);
}

/// Text as the markup shows it reads back as the trimmed text: reading
/// each escape token back gives the original characters.
pub proof fn lemma_txt_round_trip(t: Seq<char>)
    ensures
        unescape(txt(t)) == trim(t),
{
    lemma_unescape_escape(trim(t));
}

} // verus!
