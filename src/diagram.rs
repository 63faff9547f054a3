//! A whole diagram: its participants and items, the edits that build it,
//! and the markup it renders to.
use vstd::prelude::*;
use crate::item::{bump, txt, Item, ItemV, RenderError};
use crate::nodes::{add_name, first_at, header, lemma_add_name_keeps, lemma_first_at_bound, Nodes};
use crate::syntax::{
    directive, find, find_in, lemma_find_char, line_step, lines_of, next_line, parse_lines,
};
use crate::text::{chars_of, push_escaped, push_rep, rep, str_eq, trim, trim_str};
use vstd::string::StrSliceExecFns;

verus! {

/// What a diagram holds, as text.
pub struct DocV {
    pub title: Seq<char>,
    pub options: Seq<char>,
    pub label: Option<Seq<char>>,
    pub nodes: Seq<Seq<char>>,
    pub items: Seq<ItemV>,
    /// Positions of the groups still open, the innermost last.
    pub open: Seq<nat>,
}

/// The trimmed text of an optional participant name.
pub open spec fn trim_opt(x: Option<&str>) -> Option<Seq<char>> {
    match x {
        Some(s) => Some(trim(s@)),
        None => None,
    }
}

/// The diagram after a group labelled `text` is opened.
pub open spec fn open_group(d: DocV, text: Seq<char>) -> DocV {
    DocV {
        items: d.items.push(ItemV::Group { text, lines: 0 }),
        open: d.open.push(d.items.len()),
        ..d
    }
}

/// The diagram after the innermost open group is closed around every item
/// that follows it; unchanged when no group is open.
pub open spec fn close_group(d: DocV) -> DocV {
    if d.open.len() == 0 {
        d
    } else {
        let j = d.open.last() as int;
        DocV {
            items: d.items.update(
                j,
                ItemV::Group { text: d.items[j]->Group_text, lines: (d.items.len() - j - 1) as nat },
            ),
            open: d.open.drop_last(),
            ..d
        }
    }
}

/// Every open position names a group of `items`.
pub open spec fn open_ok(items: Seq<ItemV>, open: Seq<nat>) -> bool {
    forall|k: int|
        0 <= k < open.len() ==> #[trigger] open[k] < items.len() && items[open[k] as int] is Group
}

/// Items that keep every group of `a` in place keep `open` valid.
proof fn lemma_open_kept(a: Seq<ItemV>, b: Seq<ItemV>, open: Seq<nat>)
    requires
        open_ok(a, open),
        a.len() <= b.len(),
        forall|i: int| 0 <= i < a.len() && a[i] is Group ==> #[trigger] b[i] is Group,
    ensures
        open_ok(b, open),
{
    assert forall|k: int| 0 <= k < open.len() implies #[trigger] open[k] < b.len()
        && b[open[k] as int] is Group by {
        assert(a[open[k] as int] is Group);
    }
}

/// `it` with `t` appended to its text as a new line.
pub open spec fn with_line(it: ItemV, t: Seq<char>) -> ItemV {
    match it {
        ItemV::Arrow { from, to, text } => ItemV::Arrow { from, to, text: text + "\n"@ + t },
        ItemV::Note { from, to, text, line } => ItemV::Note {
            from,
            to,
            text: text + "\n"@ + t,
            line,
        },
        ItemV::Group { text, lines } => ItemV::Group { text: text + "\n"@ + t, lines },
    }
}

/// The items after `t` continues the text of the last one.
pub open spec fn continue_text(items: Seq<ItemV>, t: Seq<char>) -> Seq<ItemV> {
    if items.len() == 0 {
        items
    } else {
        items.update(items.len() - 1, with_line(items.last(), t))
    }
}

/// The diagram after an arrow from `a` to `b` is added.
pub open spec fn add_arrow(d: DocV, a: Seq<char>, b: Seq<char>, text: Seq<char>) -> DocV {
    DocV {
        nodes: add_name(add_name(d.nodes, trim(a)), trim(b)),
        items: d.items.push(ItemV::Arrow { from: trim(a), to: trim(b), text }),
        ..d
    }
}

/// The markup rows of the first `k` items, with the column heights after
/// them; or the first error.
pub open spec fn render_upto(names: Seq<Seq<char>>, items: Seq<ItemV>, k: nat) -> Result<
    (Seq<char>, Seq<usize>),
    RenderError,
>
    decreases k,
{
    if k == 0 {
        Ok((Seq::empty(), Seq::new(names.len(), |i: int| 0usize)))
    } else {
        match render_upto(names, items, (k - 1) as nat) {
            Err(e) => Err(e),
            Ok((o, v)) => match items[k - 1].step(names, bump(v)) {
                Err(e) => Err(e),
                Ok((row, v2)) => Ok((o + row, v2)),
            },
        }
    }
}

/// The closing connector of column `i`, drawn up `h` rows, then the
/// separator that follows it.
pub open spec fn trailer_cell(h: nat, last: bool) -> Seq<char> {
    " \\ar@{-}["@ + rep("u"@, h + 1) + "]"@ + if last {
        " \\\\\n"@
    } else {
        " &"@
    }
}

/// The closing connectors of the first `k` columns.
pub open spec fn trailer_upto(v: Seq<usize>, k: nat) -> Seq<char>
    decreases k,
{
    if k == 0 {
        Seq::empty()
    } else {
        trailer_upto(v, (k - 1) as nat) + trailer_cell(v[k - 1] as nat, k == v.len())
    }
}

/// The whole figure around the item rows `body`, with final heights `v`.
pub open spec fn figure(d: DocV, body: Seq<char>, v: Seq<usize>) -> Seq<char> {
    "\\begin{figure}\n"@ + "\\small\n"@ + "\\[ \\xymatrix "@ + d.options + " {\n"@ + header(d.nodes)
        + body + trailer_upto(v, v.len()) + "} \\]\n"@ + "\\caption{"@ + txt(d.title) + "}\n"@
        + match d.label {
        Some(l) => "\\label{fig:"@ + txt(l) + "}\n"@,
        None => Seq::empty(),
    } + "\\end{figure}\n"@
}

/// The markup of a diagram, or why it has none.
pub open spec fn render(d: DocV) -> Result<Seq<char>, RenderError> {
    if d.nodes.len() == 0 {
        Err(RenderError::NoParticipants)
    } else {
        match render_upto(d.nodes, d.items, d.items.len()) {
            Err(e) => Err(e),
            Ok((body, v)) => Ok(figure(d, body, v)),
        }
    }
}

/// A diagram under construction.
pub struct Items {
    title: String,
    options: String,
    label: Option<String>,
    nodes: Nodes,
    all: Vec<Item>,
    open: Vec<usize>,
}

impl View for Items {
    type V = DocV;

    closed spec fn view(&self) -> DocV {
        DocV {
            title: self.title@,
            options: self.options@,
            label: match self.label {
                Some(l) => Some(l@),
                None => None,
            },
            nodes: self.nodes@,
            items: self.all@.map_values(|i: Item| i@),
            open: self.open@.map_values(|i: usize| i as nat),
        }
    }
}

impl Items {
    /// Participants are distinct, every arrow joins two of them, and every
    /// open position names a group.
    pub open spec fn wf(&self) -> bool {
        &&& self@.nodes.no_duplicates()
        &&& open_ok(self@.items, self@.open)
        &&& forall|i: int|
            0 <= i < self@.items.len() ==> (#[trigger] self@.items[i]).placed(self@.nodes)
    }

    proof fn lemma_nodes_wf(&self)
        requires
            self.wf(),
        ensures
            self.nodes.wf(),
    {
    }

    /// An empty diagram.
    pub fn new() -> (r: Items)
        ensures
            r.wf(),
            r@ == (DocV {
                title: Seq::empty(),
                options: Seq::empty(),
                label: None,
                nodes: Seq::empty(),
                items: Seq::empty(),
                open: Seq::empty(),
            }),
    {
        let r = Items {
            title: String::new(),
            options: String::new(),
            label: None,
            nodes: Nodes::new(),
            all: Vec::new(),
            open: Vec::new(),
        };
        assert(r@.items =~= Seq::<ItemV>::empty());
        assert(r@.open =~= Seq::<nat>::empty());
        r
    }

    /// The caption text.
    pub fn title(&self) -> (r: &str)
        ensures
            r@ == self@.title,
    {
        self.title.as_str()
    }

    /// The options handed to xymatrix.
    pub fn options(&self) -> (r: &str)
        ensures
            r@ == self@.options,
    {
        self.options.as_str()
    }

    /// The label under which the figure can be referenced, if any.
    pub fn figure_label(&self) -> (r: Option<&str>)
        ensures
            r matches Some(l) ==> self@.label == Some(l@),
            r is None ==> self@.label is None,
    {
        match &self.label {
            Some(l) => Some(l.as_str()),
            None => None,
        }
    }

    /// The participants.
    pub fn nodes(&self) -> (r: &Nodes)
        ensures
            r@ == self@.nodes,
    {
        &self.nodes
    }

    /// The number of items.
    pub fn len(&self) -> (r: usize)
        ensures
            r == self@.items.len(),
    {
        self.all.len()
    }

    /// The item at position `i`.
    pub fn item(&self, i: usize) -> (r: &Item)
        requires
            i < self@.items.len(),
        ensures
            r@ == self@.items[i as int],
    {
        &self.all[i]
    }

    /// Adds an arrow from `a` to `b`; both names, trimmed, are registered
    /// first, `a` before `b`.
    pub fn arrow(&mut self, a: &str, b: &str, text: String)
        requires
            old(self).wf(),
        ensures
            final(self).wf(),
            final(self)@ == add_arrow(old(self)@, a@, b@, text@),
    {
        let ta = trim_str(a);
        let tb = trim_str(b);
        proof {
            self.lemma_nodes_wf();
        }
        self.nodes.add(a);
        self.nodes.add(b);
        let ghost items0 = self@.items;
        self.all.push(Item::Arrow { from: ta.to_owned(), to: tb.to_owned(), text });
        assert(self@.items =~= items0.push(self@.items.last()));
        proof {
            let n0 = old(self)@.nodes;
            let n1 = add_name(n0, trim(a@));
            lemma_add_name_keeps(n0, trim(a@));
            lemma_add_name_keeps(n1, trim(b@));
            assert forall|i: int| 0 <= i < self@.items.len() implies (
            #[trigger] self@.items[i]).placed(self@.nodes) by {
                if i < items0.len() {
                    assert(old(self)@.items[i].placed(n0));
                }
            }
            lemma_open_kept(items0, self@.items, self@.open);
        }
    }

    /// Adds a note over the columns of `a` through `b` (trimmed), declared
    /// on source line `line`.
    pub fn note(&mut self, a: Option<&str>, b: Option<&str>, text: String, line: usize)
        requires
            old(self).wf(),
        ensures
            final(self).wf(),
            final(self)@ == (DocV {
                items: old(self)@.items.push(
                    ItemV::Note {
                        from: trim_opt(a),
                        to: trim_opt(b),
                        text: text@,
                        line: line as nat,
                    },
                ),
                ..old(self)@
            }),
    {
        let from = match a {
            Some(x) => Some(trim_str(x).to_owned()),
            None => None,
        };
        let to = match b {
            Some(x) => Some(trim_str(x).to_owned()),
            None => None,
        };
        let ghost items0 = self@.items;
        self.all.push(Item::Note { from, to, text, line });
        assert(self@.items =~= items0.push(self@.items.last()));
        proof {
            lemma_open_kept(items0, self@.items, self@.open);
        }
        assert forall|i: int| 0 <= i < self@.items.len() implies (
        #[trigger] self@.items[i]).placed(self@.nodes) by {
            if i < items0.len() {
                assert(old(self)@.items[i].placed(old(self)@.nodes));
            }
        }
    }

    /// Opens a group labelled `text`; it encloses nothing until closed.
    pub fn group(&mut self, text: String)
        requires
            old(self).wf(),
        ensures
            final(self).wf(),
            final(self)@ == open_group(old(self)@, text@),
    {
        let ghost items0 = self@.items;
        let ghost open0 = self@.open;
        let n = self.all.len();
        self.all.push(Item::Group { text, lines: 0 });
        self.open.push(n);
        assert(self@.items =~= items0.push(self@.items.last()));
        assert(self@.open =~= open0.push(n as nat));
        assert forall|i: int| 0 <= i < self@.items.len() implies (
        #[trigger] self@.items[i]).placed(self@.nodes) by {
            if i < items0.len() {
                assert(old(self)@.items[i].placed(old(self)@.nodes));
            }
        }
        proof {
            lemma_open_kept(items0, self@.items, open0);
            assert forall|k: int| 0 <= k < self@.open.len() implies #[trigger] self@.open[k]
                < self@.items.len() && self@.items[self@.open[k] as int] is Group by {
                if k < open0.len() {
                    assert(open0[k] < self@.items.len());
                }
            }
        }
    }

    /// Closes the innermost open group around every item after it; does
    /// nothing when no group is open.
    pub fn end_group(&mut self)
        requires
            old(self).wf(),
        ensures
            final(self).wf(),
            final(self)@ == close_group(old(self)@),
    {
        let count = self.all.len();
        let ghost items0 = self@.items;
        let ghost open0 = self@.open;
        match self.open.pop() {
            None => {
                assert(open0.len() == 0);
            },
            Some(j) => {
                assert(open0[open0.len() - 1] == j as nat);
                assert(self@.open =~= open0.drop_last());
                let text = match &self.all[j] {
                    Item::Group { text, .. } => text.clone(),
                    _ => String::new(),
                };
                self.all.set(j, Item::Group { text, lines: count - j - 1 });
                assert(self@.items =~= close_group(old(self)@).items);
                assert forall|k: int| 0 <= k < self@.items.len() implies (
                #[trigger] self@.items[k]).placed(self@.nodes) by {
                    if k != j {
                        assert(items0[k].placed(self@.nodes));
                    }
                }
                assert forall|k: int| 0 <= k < self@.open.len() implies #[trigger] self@.open[k]
                    < self@.items.len() && self@.items[self@.open[k] as int] is Group by {
                    assert(open0[k] == self@.open[k]);
                    assert(items0[open0[k] as int] is Group);
                }
            },
        }
    }

    /// Continues the text of the last item with `t` as a new line; does
    /// nothing when there is no item.
    pub fn add_text(&mut self, t: &str)
        requires
            old(self).wf(),
        ensures
            final(self).wf(),
            final(self)@ == (DocV { items: continue_text(old(self)@.items, t@), ..old(self)@ }),
    {
        let n = self.all.len();
        if n == 0 {
            assert(self@.items.len() == 0);
            return;
        }
        let ghost items0 = self@.items;
        let last = self.all.pop().unwrap();
        let next = match last {
            Item::Arrow { from, to, text } => {
                let mut text = text;
                text.append("\n");
                text.append(t);
                Item::Arrow { from, to, text }
            },
            Item::Note { from, to, text, line } => {
                let mut text = text;
                text.append("\n");
                text.append(t);
                Item::Note { from, to, text, line }
            },
            Item::Group { text, lines } => {
                let mut text = text;
                text.append("\n");
                text.append(t);
                Item::Group { text, lines }
            },
        };
        self.all.push(next);
        assert(self@.items =~= continue_text(items0, t@));
        assert forall|k: int| 0 <= k < self@.items.len() implies (
        #[trigger] self@.items[k]).placed(self@.nodes) by {
            assert(items0[k].placed(self@.nodes));
        }
        proof {
            lemma_open_kept(items0, self@.items, self@.open);
        }
    }

    /// Sets the label under which the figure can be referenced.
    pub fn label(&mut self, label: &str)
        requires
            old(self).wf(),
        ensures
            final(self).wf(),
            final(self)@ == (DocV { label: Some(label@), ..old(self)@ }),
    {
        self.label = Some(label.to_owned());
        assert(self@.items =~= old(self)@.items);
    }

    /// Applies the directive `label: text` read on line `line`; returns the
    /// comment left for a directive that is not understood.
    fn directive(&mut self, label: &str, text: &str, line: usize) -> (r: String)
        requires
            old(self).wf(),
        ensures
            final(self).wf(),
            final(self)@ == directive(old(self)@, label@, text@, line as nat).0,
            r@ == directive(old(self)@, label@, text@, line as nat).1,
    {
        proof {
            reveal_strlit(",");
            reveal_strlit("->");
            reveal_strlit("<-");
        }
        if str_eq(label, "xypic") {
            self.options = text.to_owned();
            assert(self@.items =~= old(self)@.items);
            return String::new();
        }
        if str_eq(label, "title") {
            self.title = text.to_owned();
            assert(self@.items =~= old(self)@.items);
            return String::new();
        }
        if str_eq(label, "note") {
            self.note(None, None, text.to_owned(), line);
            return String::new();
        }
        let lc = chars_of(label);
        let ln = lc.len();
        if ln >= 5 && str_eq(label.substring_char(0, 5), "note ") {
            let x = label.substring_char(5, ln);
            let xc = chars_of(x);
            match find_in(&xc, ",") {
                Some(j) => {
                    self.note(
                        Some(x.substring_char(0, j)),
                        Some(x.substring_char(j + 1, xc.len())),
                        text.to_owned(),
                        line,
                    );
                },
                None => {
                    self.note(Some(x), Some(x), text.to_owned(), line);
                },
            }
            return String::new();
        }
        match find_in(&lc, "->") {
            Some(j) => {
                let (from, to) = (label.substring_char(0, j), label.substring_char(j + 2, ln));
                self.arrow(from, to, text.to_owned());
                return String::new();
            },
            None => {},
        }
        match find_in(&lc, "<-") {
            Some(j) => {
                let (from, to) = (label.substring_char(j + 2, ln), label.substring_char(0, j));
                self.arrow(from, to, text.to_owned());
                return String::new();
            },
            None => {},
        }
        if str_eq(label, "group") {
            self.group(text.to_owned());
            return String::new();
        }
        let mut r = String::new();
        r.append("% skipped ");
        r.append(label);
        r.append(": ");
        r.append(text);
        r.append("\n");
        r
    }

    /// Reads one input line as line number `line`. Returns whether it counts
    /// as a line, and the comment it leaves in the output.
    pub fn parse_line(&mut self, raw: &str, line: usize) -> (r: (bool, String))
        requires
            old(self).wf(),
        ensures
            final(self).wf(),
            final(self)@ == line_step(old(self)@, raw@, line as nat).0,
            r.1@ == line_step(old(self)@, raw@, line as nat).1,
            r.0 == line_step(old(self)@, raw@, line as nat).2,
    {
        proof {
            reveal_strlit(":");
        }
        let s = trim_str(raw);
        let cs = chars_of(s);
        let n = cs.len();
        if n > 0 && cs[0] == '#' {
            return (false, String::new());
        }
        if n == 0 {
            self.add_text(s);
            return (false, String::new());
        }
        match find_in(&cs, ":") {
            Some(i) => {
                let label = trim_str(s.substring_char(0, i));
                let text = trim_str(s.substring_char(i + 1, n));
                let diag = self.directive(label, text, line);
                (true, diag)
            },
            None => {
                if str_eq(s, "end") {
                    self.end_group();
                } else {
                    self.add_text(s);
                }
                (true, String::new())
            },
        }
    }

    /// Reads every line of `input`, numbering from one the lines that count.
    /// Returns the comments left by directives that are not understood.
    pub fn parse(&mut self, input: &str) -> (r: String)
        requires
            old(self).wf(),
        ensures
            final(self).wf(),
            final(self)@ == parse_lines(old(self)@, lines_of(input@), 1).0,
            r@ == parse_lines(old(self)@, lines_of(input@), 1).1,
    {
        proof {
            reveal_strlit("\n");
        }
        let cs = chars_of(input);
        let n = cs.len();
        let mut pos: usize = 0;
        let mut line: usize = 1;
        let mut diag = String::new();
        assert(input@.subrange(0, n as int) =~= input@);
        while pos < n
            invariant
                self.wf(),
                cs@ == input@,
                n == input@.len(),
                pos <= n,
                line >= 1,
                ({
                    let rest = parse_lines(
                        self@,
                        lines_of(input@.subrange(pos as int, n as int)),
                        line as nat,
                    );
                    let all = parse_lines(old(self)@, lines_of(input@), 1);
                    rest.0 == all.0 && diag@ + rest.1 == all.1
                }),
            decreases n - pos,
        {
            let mut j: usize = pos;
            while j < n && cs[j] != '\n'
                invariant
                    pos <= j <= n,
                    n == cs@.len(),
                    forall|k: int| pos <= k < j ==> cs@[k] != '\n',
                decreases n - j,
            {
                j = j + 1;
            }
            let ghost t = input@.subrange(pos as int, n as int);
            proof {
                reveal_strlit("\n");
                lemma_find_char(t, '\n', j - pos, 0);
                assert("\n"@ =~= seq!['\n']);
                if j < n {
                    assert(t.take(j - pos) =~= input@.subrange(pos as int, j as int));
                    assert(t.skip(j - pos + 1) =~= input@.subrange(j + 1, n as int));
                    assert(lines_of(t) =~= seq![t.take(j - pos)] + lines_of(t.skip(j - pos + 1)));
                } else {
                    assert(t =~= input@.subrange(pos as int, j as int));
                    assert(lines_of(t) =~= seq![t]);
                    assert(input@.subrange(n as int, n as int) =~= Seq::<char>::empty());
                    assert(find(Seq::<char>::empty(), "\n"@) is None);
                }
            }
            let ghost d0 = self@;
            let ghost diag0 = diag@;
            let ghost lines = lines_of(t);
            let piece = input.substring_char(pos, j);
            let (counted, d) = self.parse_line(piece, line);
            diag.append(d.as_str());
            let ghost line0 = line as nat;
            if counted && line < usize::MAX {
                line = line + 1;
            }
            assert(line as nat == next_line(line0, counted));
            pos = if j < n {
                j + 1
            } else {
                n
            };
            proof {
                assert(lines[0] == piece@);
                assert(lines.drop_first() =~= lines_of(input@.subrange(pos as int, n as int)));
                assert(diag@ =~= diag0 + d@);
            }
        }
        assert(input@.subrange(n as int, n as int) =~= Seq::<char>::empty());
        assert(find(Seq::<char>::empty(), "\n"@) is None);
        diag
    }

    /// Renders the diagram as a LaTeX figure: the header row of
    /// participants, one row per item, the closing connectors, the caption
    /// and the optional label.
    pub fn print(&self) -> (r: Result<String, RenderError>)
        requires
            self.wf(),
        ensures
            match render(self@) {
                Ok(s) => r is Ok && r->Ok_0@ == s,
                Err(e) => r == Err::<String, RenderError>(e),
            },
    {
        let n = self.nodes.len();
        if n == 0 {
            return Err(RenderError::NoParticipants);
        }
        proof {
            self.lemma_nodes_wf();
        }
        let mut verticals: Vec<usize> = Vec::new();
        let mut i: usize = 0;
        while i < n
            invariant
                i <= n,
                verticals@ == Seq::new(i as nat, |j: int| 0usize),
            decreases n - i,
        {
            verticals.push(0);
            i = i + 1;
            assert(verticals@ =~= Seq::new(i as nat, |j: int| 0usize));
        }
        let mut body = String::new();
        let count = self.all.len();
        let mut k: usize = 0;
        while k < count
            invariant
                self.wf(),
                self.nodes.wf(),
                n == self@.nodes.len(),
                n > 0,
                count == self@.items.len(),
                k <= count,
                verticals@.len() == n,
                forall|j: int| 0 <= j < n ==> verticals@[j] <= k,
                render_upto(self@.nodes, self@.items, k as nat) == Ok::<
                    (Seq<char>, Seq<usize>),
                    RenderError,
                >((body@, verticals@)),
            decreases count - k,
        {
            let ghost v0 = verticals@;
            assert(self.all@[k as int]@ == self@.items[k as int]);
            assert(self@.items[k as int].placed(self@.nodes));
            match self.all[k].print(&self.nodes, &mut verticals, &mut body) {
                Ok(()) => {},
                Err(e) => {
                    proof {
                        lemma_render_err(self@.nodes, self@.items, (k + 1) as nat);
                    }
                    return Err(e);
                },
            }
            proof {
                lemma_step_heights(self@.items[k as int], self@.nodes, bump(v0));
            }
            k = k + 1;
        }
        assert(self@.items.len() == k);
        let ghost v = verticals@;
        let mut out = String::new();
        out.append("\\begin{figure}\n");
        out.append("\\small\n");
        out.append("\\[ \\xymatrix ");
        out.append(self.options.as_str());
        out.append(" {\n");
        self.nodes.print(&mut out);
        out.append(body.as_str());
        let ghost acc = "\\begin{figure}\n"@ + "\\small\n"@ + "\\[ \\xymatrix "@ + self@.options
            + " {\n"@ + header(self@.nodes) + body@;
        assert(out@ =~= acc);
        let mut i: usize = 0;
        while i < n
            invariant
                i <= n,
                n == v.len(),
                v == verticals@,
                out@ == acc + trailer_upto(v, i as nat),
            decreases n - i,
        {
            let ghost before = out@;
            out.append(" \\ar@{-}[");
            push_rep(&mut out, "u", verticals[i]);
            out.append("u");
            out.append("]");
            if i + 1 == n {
                out.append(" \\\\\n");
            } else {
                out.append(" &");
            }
            assert(out@ =~= before + trailer_cell(v[i as int] as nat, i + 1 == n));
            i = i + 1;
            assert(out@ =~= acc + trailer_upto(v, i as nat));
        }
        let ghost acc = acc + trailer_upto(v, v.len());
        out.append("} \\]\n");
        out.append("\\caption{");
        push_escaped(&mut out, trim_str(self.title.as_str()));
        out.append("}\n");
        let ghost acc = acc + "} \\]\n"@ + "\\caption{"@ + txt(self@.title) + "}\n"@;
        assert(out@ =~= acc);
        match &self.label {
            Some(l) => {
                out.append("\\label{fig:");
                push_escaped(&mut out, trim_str(l.as_str()));
                out.append("}\n");
            },
            None => {},
        }
        out.append("\\end{figure}\n");
        assert(out@ =~= figure(self@, body@, v));
        Ok(out)
    }
}

/// Rendering stops at the first item that fails.
proof fn lemma_render_err(names: Seq<Seq<char>>, items: Seq<ItemV>, k: nat)
    requires
        render_upto(names, items, k) is Err,
        k <= items.len(),
    ensures
        render_upto(names, items, items.len()) == render_upto(names, items, k),
    decreases items.len() - k,
{
    if k < items.len() {
        lemma_render_err(names, items, k + 1);
    }
}

/// An item's row never makes a column taller than counting the row did.
proof fn lemma_step_heights(it: ItemV, names: Seq<Seq<char>>, v: Seq<usize>)
    requires
        v.len() == names.len(),
        names.len() > 0,
    ensures
        it.step(names, v) is Ok ==> it.step(names, v)->Ok_0.1.len() == v.len() && forall|i: int|
            0 <= i < v.len() ==> it.step(names, v)->Ok_0.1[i] <= v[i],
{
}

} // verus!

verus! {

/// A note whose start participant was registered after its end participant
/// stops rendering: once the items before it render, the diagram fails
/// with the error for a backward note, naming the note's source line.
pub proof fn lemma_backward_note_fails(d: DocV, k: nat)
    requires
        k < d.items.len(),
        d.nodes.len() > 0,
        render_upto(d.nodes, d.items, k) is Ok,
        d.items[k as int] matches ItemV::Note { from: Some(a), to: Some(b), .. }
            && d.nodes.contains(a) && d.nodes.contains(b)
            && first_at(d.nodes, a) > first_at(d.nodes, b),
    ensures
        render(d) == Err::<Seq<char>, RenderError>(
            RenderError::BackwardNote {
                line: #[verifier::truncate] (d.items[k as int]->Note_line as usize),
            },
        ),
{
    let v = render_upto(d.nodes, d.items, k)->Ok_0.1;
    let it = d.items[k as int];
    lemma_first_at_bound(d.nodes, it->Note_from->0);
    lemma_first_at_bound(d.nodes, it->Note_to->0);
    assert(it.step(d.nodes, bump(v)) == Err::<(Seq<char>, Seq<usize>), RenderError>(
        RenderError::BackwardNote { line: #[verifier::truncate] (it->Note_line as usize) },
    ));
    assert(render_upto(d.nodes, d.items, (k + 1) as nat) == Err::<
        (Seq<char>, Seq<usize>),
        RenderError,
    >(RenderError::BackwardNote { line: #[verifier::truncate] (it->Note_line as usize) }));
    lemma_render_err(d.nodes, d.items, k + 1);
}

/// Closing the group opened last sets its count to the number of items
/// added after it, whatever they are, and leaves the outer groups open.
pub proof fn lemma_group_balance(d: DocV, text: Seq<char>, rest: Seq<ItemV>)
    ensures
        close_group(
            DocV {
                items: open_group(d, text).items + rest,
                ..open_group(d, text)
            },
        ) == (DocV {
            items: d.items.push(ItemV::Group { text, lines: rest.len() }) + rest,
            ..d
        }),
{
    let o = open_group(d, text);
    let e = DocV { items: o.items + rest, ..o };
    assert(e.open.last() == d.items.len());
    assert(e.open.drop_last() =~= d.open);
    assert(e.items.update(
        d.items.len() as int,
        ItemV::Group { text, lines: rest.len() },
    ) =~= d.items.push(ItemV::Group { text, lines: rest.len() }) + rest);
}

} // verus!
