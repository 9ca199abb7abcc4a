use vstd::prelude::*;

verus! {

/// Columns of blank space before each rendered state.
pub const TEXT_BOX_PADDING: usize = 4;
/// The width beyond which rendered states go on a new block of lines.
pub const TEXT_BOX_WIDTH: usize = 90;

/// `line` extended with spaces to at least `col` characters.
pub open spec fn pad_to(line: Seq<char>, col: nat) -> Seq<char> {
    if line.len() >= col { line } else { line + Seq::new((col - line.len()) as nat, |i: int| ' ') }
}

/// The longest of the lines.
pub open spec fn max_len(lines: Seq<Seq<char>>) -> nat
    decreases lines.len(),
{
    if lines.len() == 0 {
        0
    } else {
        let rest = max_len(lines.drop_last());
        if lines.last().len() > rest { lines.last().len() } else { rest }
    }
}

pub open spec fn views(lines: Seq<Vec<char>>) -> Seq<Seq<char>> {
    lines.map_values(|l: Vec<char>| l@)
}

/// Line `k`, or an empty line past the end.
pub open spec fn row_or_empty(lines: Seq<Seq<char>>, k: int) -> Seq<char> {
    if 0 <= k < lines.len() { lines[k] } else { Seq::empty() }
}

proof fn lemma_views_push(s: Seq<Vec<char>>, x: Vec<char>)
    ensures
        views(s.push(x)) == views(s).push(x@),
{
    assert(views(s.push(x)) =~= views(s).push(x@));
}

/// Renders states side by side, as many per block of lines as fit in a width.
pub struct TextBox {
    pub max_width: usize,
    pub completed_lines: Vec<Vec<char>>,
    pub cur_width: usize,
    pub cur_lines: Vec<Vec<char>>,
}

fn spaces(n: usize) -> (r: Vec<char>)
    ensures
        r@ == Seq::new(n as nat, |i: int| ' '),
{
    let mut v: Vec<char> = Vec::new();
    let mut i: usize = 0;
    while i < n
        invariant
            i <= n,
            v@ == Seq::new(i as nat, |k: int| ' '),
        decreases n - i,
    {
        v.push(' ');
        i = i + 1;
        assert(v@ =~= Seq::new(i as nat, |k: int| ' '));
    }
    v
}

fn append_chars(v: &mut Vec<char>, extra: &Vec<char>)
    ensures
        final(v)@ == old(v)@ + extra@,
{
    let ghost start = v@;
    let mut i: usize = 0;
    while i < extra.len()
        invariant
            i <= extra@.len(),
            v@ == start + extra@.take(i as int),
        decreases extra.len() - i,
    {
        v.push(extra[i]);
        i = i + 1;
        assert(v@ =~= start + extra@.take(i as int));
    }
    assert(extra@.take(extra@.len() as int) =~= extra@);
}

/// The length of the longest line.
fn longest(lines: &Vec<Vec<char>>) -> (r: usize)
    ensures
        r == max_len(views(lines@)),
{
    let mut best: usize = 0;
    let mut i: usize = 0;
    while i < lines.len()
        invariant
            i <= lines@.len(),
            best == max_len(views(lines@).take(i as int)),
        decreases lines.len() - i,
    {
        assert(views(lines@).take(i + 1).drop_last() =~= views(lines@).take(i as int));
        if lines[i].len() > best {
            best = lines[i].len();
        }
        i = i + 1;
    }
    assert(views(lines@).take(lines@.len() as int) =~= views(lines@));
    best
}

impl TextBox {
    pub fn new(max_width: usize) -> (r: TextBox)
        ensures
            r.max_width == max_width,
            r.completed_lines@.len() == 0,
            r.cur_width == 0,
            r.cur_lines@.len() == 0,
    {
        TextBox { max_width, completed_lines: Vec::new(), cur_width: 0, cur_lines: Vec::new() }
    }

    /// Writes `line` into row `row` of the current block, starting at column `col` (or at the
    /// end of what the row already holds, if that is further right).
    pub fn print_line(&mut self, row: usize, col: usize, line: &Vec<char>)
        ensures
            final(self).max_width == old(self).max_width,
            final(self).cur_width == old(self).cur_width,
            final(self).completed_lines == old(self).completed_lines,
            final(self).cur_lines@.len() == if row < old(self).cur_lines@.len() { old(self).cur_lines@.len() as int } else { row + 1 },
            forall|k: int| 0 <= k < final(self).cur_lines@.len() && k != row ==> (#[trigger] final(self).cur_lines@[k])@
                == if k < old(self).cur_lines@.len() { old(self).cur_lines@[k]@ } else { Seq::<char>::empty() },
            final(self).cur_lines@[row as int]@ == pad_to(
                if row < old(self).cur_lines@.len() { old(self).cur_lines@[row as int]@ } else { Seq::<char>::empty() },
                col as nat,
            ) + line@,
    {
        let ghost start = self.cur_lines@;
        while row >= self.cur_lines.len()
            invariant
                self.max_width == old(self).max_width,
                self.cur_width == old(self).cur_width,
                self.completed_lines == old(self).completed_lines,
                start == old(self).cur_lines@,
                start.len() <= self.cur_lines@.len(),
                self.cur_lines@.len() <= if row < start.len() { start.len() as int } else { row + 1 },
                forall|k: int| 0 <= k < self.cur_lines@.len() ==> (#[trigger] self.cur_lines@[k])@
                    == if k < start.len() { start[k]@ } else { Seq::<char>::empty() },
            decreases row + 1 - self.cur_lines@.len(),
        {
            self.cur_lines.push(Vec::new());
        }
        let mut cur = copy_line(&self.cur_lines[row]);
        let len = cur.len();
        if col > len {
            append_chars(&mut cur, &spaces(col - len));
        }
        append_chars(&mut cur, line);
        self.cur_lines.set(row, cur);
        proof {
            let old_row = if row < start.len() { start[row as int]@ } else { Seq::<char>::empty() };
            if col as nat <= old_row.len() {
                assert(pad_to(old_row, col as nat) == old_row);
            }
        }
    }

    /// Adds one rendered state: beside the current block if it fits (or if the block is
    /// empty), else below it, after the block is closed with an empty line.
    pub fn append(&mut self, state: &Vec<Vec<char>>)
        requires
            max_len(views(state@)) + TEXT_BOX_PADDING <= usize::MAX,
            old(self).cur_width + max_len(views(state@)) + 2 * TEXT_BOX_PADDING <= usize::MAX,
        ensures
            final(self).max_width == old(self).max_width,
            (old(self).cur_width == 0 || old(self).cur_width + max_len(views(state@)) + TEXT_BOX_PADDING <= old(self).max_width) ==> {
                &&& final(self).cur_width == old(self).cur_width + max_len(views(state@)) + TEXT_BOX_PADDING
                &&& final(self).completed_lines == old(self).completed_lines
                &&& final(self).cur_lines@.len() == if state@.len() > old(self).cur_lines@.len() { state@.len() } else { old(self).cur_lines@.len() }
                &&& forall|k: int| 0 <= k < final(self).cur_lines@.len() ==> (#[trigger] final(self).cur_lines@[k])@ == if k < state@.len() {
                    pad_to(row_or_empty(views(old(self).cur_lines@), k), (old(self).cur_width + TEXT_BOX_PADDING) as nat) + state@[k]@
                } else {
                    old(self).cur_lines@[k]@
                }
            },
            !(old(self).cur_width == 0 || old(self).cur_width + max_len(views(state@)) + TEXT_BOX_PADDING <= old(self).max_width) ==> {
                &&& final(self).cur_width == max_len(views(state@)) + TEXT_BOX_PADDING
                &&& views(final(self).completed_lines@) == views(old(self).completed_lines@) + views(old(self).cur_lines@).push(Seq::empty())
                &&& views(final(self).cur_lines@) == views(state@).map_values(|l: Seq<char>| Seq::new(TEXT_BOX_PADDING as nat, |i: int| ' ') + l)
            },
    {
        let state_width = longest(state) + TEXT_BOX_PADDING;
        if self.cur_width == 0 || self.cur_width + state_width <= self.max_width {
            let col = self.cur_width + TEXT_BOX_PADDING;
            let mut row: usize = 0;
            while row < state.len()
                invariant
                    row <= state@.len(),
                    col == old(self).cur_width + TEXT_BOX_PADDING,
                    self.max_width == old(self).max_width,
                    self.cur_width == old(self).cur_width,
                    self.completed_lines == old(self).completed_lines,
                    self.cur_lines@.len() == if row > old(self).cur_lines@.len() { row as int } else { old(self).cur_lines@.len() as int },
                    forall|k: int| 0 <= k < self.cur_lines@.len() ==> (#[trigger] self.cur_lines@[k])@ == if k < row {
                        pad_to(row_or_empty(views(old(self).cur_lines@), k), col as nat) + state@[k]@
                    } else {
                        old(self).cur_lines@[k]@
                    },
                decreases state.len() - row,
            {
                let ghost before = self.cur_lines@;
                self.print_line(row, col, &state[row]);
                proof {
                    assert(row_or_empty(views(old(self).cur_lines@), row as int) == (if row < before.len() { before[row as int]@ } else { Seq::<char>::empty() }));
                }
                row = row + 1;
            }
            self.cur_width = self.cur_width + state_width;
        } else {
            let ghost old_completed = views(self.completed_lines@);
            let ghost old_cur = views(self.cur_lines@);
            let mut i: usize = 0;
            while i < self.cur_lines.len()
                invariant
                    self.max_width == old(self).max_width,
                    i <= self.cur_lines@.len(),
                    old_cur == views(self.cur_lines@),
                    views(self.completed_lines@) == old_completed + old_cur.take(i as int),
                decreases self.cur_lines.len() - i,
            {
                let line = copy_line(&self.cur_lines[i]);
                proof {
                    lemma_views_push(self.completed_lines@, line);
                    assert(old_cur.take(i + 1) =~= old_cur.take(i as int).push(line@));
                }
                self.completed_lines.push(line);
                i = i + 1;
                assert(views(self.completed_lines@) =~= old_completed + old_cur.take(i as int));
            }
            assert(old_cur.take(old_cur.len() as int) =~= old_cur);
            let empty: Vec<char> = Vec::new();
            proof {
                lemma_views_push(self.completed_lines@, empty);
            }
            self.completed_lines.push(empty);
            assert(views(self.completed_lines@) =~= old_completed + old_cur.push(Seq::empty()));
            let mut lines: Vec<Vec<char>> = Vec::new();
            let mut k: usize = 0;
            while k < state.len()
                invariant
                    k <= state@.len(),
                    views(lines@) == views(state@).take(k as int).map_values(|l: Seq<char>| Seq::new(TEXT_BOX_PADDING as nat, |i: int| ' ') + l),
                decreases state.len() - k,
            {
                let mut line = spaces(TEXT_BOX_PADDING);
                append_chars(&mut line, &state[k]);
                proof {
                    lemma_views_push(lines@, line);
                    assert(views(state@).take(k + 1) =~= views(state@).take(k as int).push(state@[k as int]@));
                }
                lines.push(line);
                k = k + 1;
                assert(views(lines@) =~= views(state@).take(k as int).map_values(|l: Seq<char>| Seq::new(TEXT_BOX_PADDING as nat, |i: int| ' ') + l));
            }
            assert(views(state@).take(state@.len() as int) =~= views(state@));
            self.cur_lines = lines;
            self.cur_width = state_width;
        }
    }

    /// Every line written so far, the current block last.
    pub fn lines(&self) -> (r: Vec<Vec<char>>)
        ensures
            views(r@) == views(self.completed_lines@) + views(self.cur_lines@),
    {
        let mut out: Vec<Vec<char>> = Vec::new();
        let mut i: usize = 0;
        while i < self.completed_lines.len()
            invariant
                i <= self.completed_lines@.len(),
                views(out@) == views(self.completed_lines@).take(i as int),
            decreases self.completed_lines.len() - i,
        {
            let line = copy_line(&self.completed_lines[i]);
            proof {
                lemma_views_push(out@, line);
                assert(views(self.completed_lines@).take(i + 1) =~= views(self.completed_lines@).take(i as int).push(line@));
            }
            out.push(line);
            i = i + 1;
            assert(views(out@) =~= views(self.completed_lines@).take(i as int));
        }
        assert(views(self.completed_lines@).take(self.completed_lines@.len() as int) =~= views(self.completed_lines@));
        let mut j: usize = 0;
        while j < self.cur_lines.len()
            invariant
                j <= self.cur_lines@.len(),
                views(out@) == views(self.completed_lines@) + views(self.cur_lines@).take(j as int),
            decreases self.cur_lines.len() - j,
        {
            let line = copy_line(&self.cur_lines[j]);
            proof {
                lemma_views_push(out@, line);
                assert(views(self.cur_lines@).take(j + 1) =~= views(self.cur_lines@).take(j as int).push(line@));
            }
            out.push(line);
            j = j + 1;
            assert(views(out@) =~= views(self.completed_lines@) + views(self.cur_lines@).take(j as int));
        }
        assert(views(self.cur_lines@).take(self.cur_lines@.len() as int) =~= views(self.cur_lines@));
        out
    }
}

/// What a text box holds: its finished lines, the width of its current block, and the current
/// block's lines.
pub open spec fn box_model(b: TextBox) -> (Seq<Seq<char>>, int, Seq<Seq<char>>) {
    (views(b.completed_lines@), b.cur_width as int, views(b.cur_lines@))
}

pub open spec fn padded_lines(state: Seq<Seq<char>>) -> Seq<Seq<char>> {
    state.map_values(|l: Seq<char>| Seq::new(TEXT_BOX_PADDING as nat, |i: int| ' ') + l)
}

/// What `append` makes of a box holding `m`, for a box of width `max_width`.
pub open spec fn append_model(max_width: int, m: (Seq<Seq<char>>, int, Seq<Seq<char>>), state: Seq<Seq<char>>) -> (
    Seq<Seq<char>>,
    int,
    Seq<Seq<char>>,
) {
    let (done, w, cur) = m;
    if w == 0 || w + max_len(state) + TEXT_BOX_PADDING <= max_width {
        (
            done,
            w + max_len(state) + TEXT_BOX_PADDING,
            Seq::new(
                if state.len() > cur.len() { state.len() } else { cur.len() },
                |k: int| if k < state.len() { pad_to(row_or_empty(cur, k), (w + TEXT_BOX_PADDING) as nat) + state[k] } else { cur[k] },
            ),
        )
    } else {
        (done + cur.push(Seq::empty()), max_len(state) + TEXT_BOX_PADDING, padded_lines(state))
    }
}

/// The box after appending the first `i` states, starting empty at width `TEXT_BOX_WIDTH`.
pub open spec fn render_fold(states: Seq<Seq<Seq<char>>>, i: int) -> (Seq<Seq<char>>, int, Seq<Seq<char>>)
    decreases i,
{
    if i <= 0 {
        (Seq::empty(), 0, Seq::empty())
    } else {
        append_model(TEXT_BOX_WIDTH as int, render_fold(states, i - 1), states[i - 1])
    }
}

pub open spec fn state_views(states: Seq<Vec<Vec<char>>>) -> Seq<Seq<Seq<char>>> {
    states.map_values(|s: Vec<Vec<char>>| views(s@))
}

proof fn lemma_append_model(b: TextBox, a: TextBox, state: Seq<Vec<char>>)
    requires
        a.max_width == b.max_width,
        (b.cur_width == 0 || b.cur_width + max_len(views(state)) + TEXT_BOX_PADDING <= b.max_width) ==> {
            &&& a.cur_width == b.cur_width + max_len(views(state)) + TEXT_BOX_PADDING
            &&& a.completed_lines == b.completed_lines
            &&& a.cur_lines@.len() == if state.len() > b.cur_lines@.len() { state.len() } else { b.cur_lines@.len() }
            &&& forall|k: int| 0 <= k < a.cur_lines@.len() ==> (#[trigger] a.cur_lines@[k])@ == if k < state.len() {
                pad_to(row_or_empty(views(b.cur_lines@), k), (b.cur_width + TEXT_BOX_PADDING) as nat) + state[k]@
            } else {
                b.cur_lines@[k]@
            }
        },
        !(b.cur_width == 0 || b.cur_width + max_len(views(state)) + TEXT_BOX_PADDING <= b.max_width) ==> {
            &&& a.cur_width == max_len(views(state)) + TEXT_BOX_PADDING
            &&& views(a.completed_lines@) == views(b.completed_lines@) + views(b.cur_lines@).push(Seq::empty())
            &&& views(a.cur_lines@) == views(state).map_values(|l: Seq<char>| Seq::new(TEXT_BOX_PADDING as nat, |i: int| ' ') + l)
        },
    ensures
        box_model(a) == append_model(b.max_width as int, box_model(b), views(state)),
{
    let m = append_model(b.max_width as int, box_model(b), views(state));
    if b.cur_width == 0 || b.cur_width + max_len(views(state)) + TEXT_BOX_PADDING <= b.max_width {
        assert(views(a.cur_lines@) =~= m.2);
    } else {
        assert(views(a.cur_lines@) =~= m.2);
    }
}

/// Every state's lines laid out by a `TextBox` of width `TEXT_BOX_WIDTH`, side by side where
/// they fit: the rendering of a set of candidate boards.
pub fn render_states(states: &Vec<Vec<Vec<char>>>) -> (r: Vec<Vec<char>>)
    requires
        forall|s: int| 0 <= s < states@.len() ==> max_len(views(#[trigger] states@[s]@)) <= usize::MAX / 4,
    ensures
        states@.len() == 0 ==> r@.len() == 0,
        states@.len() == 1 ==> views(r@) == views(states@[0]@).map_values(|l: Seq<char>| Seq::new(TEXT_BOX_PADDING as nat, |i: int| ' ') + l),
        views(r@) == render_fold(state_views(states@), states@.len() as int).0 + render_fold(state_views(states@), states@.len() as int).2,
{
    let mut text_box = TextBox::new(TEXT_BOX_WIDTH);
    let mut i: usize = 0;
    while i < states.len()
        invariant
            i <= states@.len(),
            forall|s: int| 0 <= s < states@.len() ==> max_len(views(#[trigger] states@[s]@)) <= usize::MAX / 4,
            text_box.max_width == TEXT_BOX_WIDTH,
            text_box.cur_width <= usize::MAX / 4 + TEXT_BOX_WIDTH + TEXT_BOX_PADDING,
            i == 0 ==> text_box.cur_width == 0 && text_box.completed_lines@.len() == 0 && text_box.cur_lines@.len() == 0,
            i == 1 ==> text_box.completed_lines@.len() == 0 && views(text_box.cur_lines@) == views(states@[0]@).map_values(
                |l: Seq<char>| Seq::new(TEXT_BOX_PADDING as nat, |i: int| ' ') + l),
            box_model(text_box) == render_fold(state_views(states@), i as int),
        decreases states.len() - i,
    {
        let ghost before = text_box;
        text_box.append(&states[i]);
        proof {
            lemma_append_model(before, text_box, states@[i as int]@);
            assert(state_views(states@)[i as int] == views(states@[i as int]@));
            if i == 0 {
                let st = states@[0]@;
                let padded = views(st).map_values(|l: Seq<char>| Seq::new(TEXT_BOX_PADDING as nat, |i: int| ' ') + l);
                assert forall|k: int| 0 <= k < st.len() implies (#[trigger] text_box.cur_lines@[k])@ == padded[k] by {
                    assert(pad_to(row_or_empty(views(before.cur_lines@), k), TEXT_BOX_PADDING as nat) == Seq::new(TEXT_BOX_PADDING as nat, |i: int| ' '));
                }
                assert(views(text_box.cur_lines@) =~= padded);
            }
        }
        i = i + 1;
    }
    proof {
        assert(views(text_box.completed_lines@) == box_model(text_box).0);
    }
    text_box.lines()
}

fn copy_line(v: &Vec<char>) -> (r: Vec<char>)
    ensures
        r@ == v@,
{
    let mut out: Vec<char> = Vec::new();
    append_chars(&mut out, v);
    assert(out@ =~= v@);
    out
}

} // verus!
