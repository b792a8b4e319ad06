use crate::fsm::{Action, Fsm, Transition, unref};
use crate::matrix::Matrix;
use crate::pair::Pair;
use crate::prefix::{item_transitions, unref_all, Prefix};
use crate::text::{decimal, push_decimal, Render};
use vstd::prelude::*;

verus! {

/// `?` for receiving, `!` for sending.
pub open spec fn action_text(action: Action) -> Seq<char> {
    match action {
        Action::Input => "?"@,
        Action::Output => "!"@,
    }
}

impl Action {
    /// Appends `?` or `!` to `text`.
    pub fn render(&self, text: &mut String)
        ensures
            final(text)@ == old(text)@ + action_text(*self),
    {
        match self {
            Action::Input => text.append("?"),
            Action::Output => text.append("!"),
        }
    }
}

/// A transition as text: its role, its action and its label, run together.
pub open spec fn transition_text<R: Render, L: Render>(transition: Transition<R, L>) -> Seq<char> {
    transition.role.rendered() + action_text(transition.action) + transition.label.rendered()
}

/// Appends `transition`, as `transition_text` writes it, to `text`.
pub fn render_transition<R: Render, L: Render>(transition: &Transition<&R, &L>, text: &mut String)
    ensures
        final(text)@ == old(text)@ + transition_text(unref(*transition)),
{
    transition.role.render(text);
    transition.action.render(text);
    transition.label.render(text);
}

impl<R: Render, L: Render> Transition<R, L> {
    /// The transition as text: role, action and label.
    pub fn to_string(&self) -> (text: String)
        ensures
            text@ == transition_text(*self),
    {
        let mut text = String::new();
        self.role.render(&mut text);
        self.action.render(&mut text);
        self.label.render(&mut text);
        text
    }
}

/// The transition of the `i`-th edge of `fsm`.
pub open spec fn edge_transition<R, L>(fsm: Fsm<R, L>, i: int) -> Transition<R, L> {
    let e = fsm.spec_edges()[i];
    let choice = fsm.choices_at(e.0)->Some_0;
    Transition { role: choice.0, action: choice.1, label: e.1 }
}

/// The lines that declare the first `k` states in DOT.
pub open spec fn dot_states(k: nat) -> Seq<char>
    decreases k,
{
    if k == 0 {
        Seq::empty()
    } else {
        dot_states((k - 1) as nat) + "    "@ + decimal((k - 1) as nat) + ";\n"@
    }
}

/// The lines that declare the first `k` edges of `fsm` in DOT.
pub open spec fn dot_edges<R: Render, L: Render>(fsm: Fsm<R, L>, k: nat) -> Seq<char>
    decreases k,
{
    if k == 0 {
        Seq::empty()
    } else {
        let e = fsm.spec_edges()[k - 1];
        dot_edges(fsm, (k - 1) as nat) + "    "@ + decimal(e.0) + " -> "@ + decimal(e.2)
            + " [label=\""@ + transition_text(edge_transition(fsm, k - 1)) + "\"];\n"@
    }
}

/// A state machine in DOT: a digraph named after its role, its states by
/// number, then its edges labelled with their transitions.
pub open spec fn dot_text<R: Render, L: Render>(fsm: Fsm<R, L>) -> Seq<char> {
    let states = fsm.num_states();
    let edges = fsm.spec_edges().len();
    "digraph "@ + fsm.spec_role().rendered() + " {"@ + (if states > 0 {
        "\n"@
    } else {
        Seq::empty()
    }) + dot_states(states) + (if edges > 0 {
        "\n"@
    } else {
        Seq::empty()
    }) + dot_edges(fsm, edges) + "}"@
}

/// A state machine written in DOT.
pub struct Dot<'a, R, L>(pub &'a Fsm<R, L>);

impl<'a, R, L> Dot<'a, R, L> {
    pub fn new(fsm: &'a Fsm<R, L>) -> (dot: Self)
        ensures
            *dot.0 == *fsm,
    {
        Self(fsm)
    }
}

impl<'a, R: Render, L: Render> Dot<'a, R, L> {
    /// The DOT text of the state machine.
    pub fn to_string(&self) -> (text: String)
        ensures
            text@ == dot_text(*self.0),
    {
        let fsm = self.0;
        let mut text = String::from_str("digraph ");
        fsm.role().render(&mut text);
        text.append(" {");
        let (states, transitions) = fsm.size();
        if states > 0 {
            text.append("\n");
        }
        let ghost head = text@;
        let indexes = fsm.states();
        let mut i: usize = 0;
        while i < indexes.len()
            invariant
                indexes@.len() == states,
                states == fsm.num_states(),
                forall|k: int| 0 <= k < indexes@.len() ==> #[trigger] indexes@[k].spec_index() == k,
                i <= indexes@.len(),
                text@ == head + dot_states(i as nat),
            decreases indexes@.len() - i,
        {
            text.append("    ");
            push_decimal(&mut text, indexes[i].index());
            text.append(";\n");
            proof {
                assert(text@ =~= head + dot_states((i + 1) as nat));
            }
            i = i + 1;
        }
        if transitions > 0 {
            text.append("\n");
        }
        let ghost middle = text@;
        let all = fsm.transitions();
        let mut k: usize = 0;
        while k < all.len()
            invariant
                all@.len() == fsm.spec_edges().len(),
                forall|i: int| 0 <= i < all@.len() ==> {
                    let (from, t, to) = #[trigger] all@[i];
                    let e = fsm.spec_edges()[i];
                    &&& from.spec_index() == e.0
                    &&& to.spec_index() == e.2
                    &&& fsm.choices_at(e.0) matches Some((role, action))
                    &&& unref(t) == (Transition { role, action, label: e.1 })
                },
                k <= all@.len(),
                text@ == middle + dot_edges(*fsm, k as nat),
            decreases all@.len() - k,
        {
            let (from, transition, to) = &all[k];
            text.append("    ");
            push_decimal(&mut text, from.index());
            text.append(" -> ");
            push_decimal(&mut text, to.index());
            text.append(" [label=\"");
            render_transition(transition, &mut text);
            text.append("\"];\n");
            proof {
                assert(unref(*transition) == edge_transition(*fsm, k as int));
                assert(text@ =~= middle + dot_edges(*fsm, (k + 1) as nat));
            }
            k = k + 1;
        }
        text.append("}");
        proof {
            assert(text@ =~= dot_text(*fsm));
        }
        text
    }
}

/// The line of the `i`-th edge of `fsm` in the Petri net format.
pub open spec fn petrify_line<R: Render, L: Render>(fsm: Fsm<R, L>, i: int) -> Seq<char> {
    let e = fsm.spec_edges()[i];
    let t = edge_transition(fsm, i);
    "s"@ + decimal(e.0) + " "@ + t.role.rendered() + " "@ + action_text(t.action) + " "@
        + t.label.rendered() + " s"@ + decimal(e.2) + "\n"@
}

/// The lines of the first `k` edges of `fsm` in the Petri net format.
pub open spec fn petrify_edges<R: Render, L: Render>(fsm: Fsm<R, L>, k: nat) -> Seq<char>
    decreases k,
{
    if k == 0 {
        Seq::empty()
    } else {
        petrify_edges(fsm, (k - 1) as nat) + petrify_line(fsm, k - 1)
    }
}

/// A state machine in the Petri net format: its edges from state to state,
/// marked at the first state.
pub open spec fn petrify_text<R: Render, L: Render>(fsm: Fsm<R, L>) -> Seq<char> {
    ".outputs\n"@ + ".state graph\n"@ + petrify_edges(fsm, fsm.spec_edges().len())
        + ".marking s0\n"@ + ".end"@
}

/// How many line breaks a text holds.
pub open spec fn newlines(text: Seq<char>) -> nat
    decreases text.len(),
{
    if text.len() == 0 {
        0
    } else {
        (if text[0] == '\n' {
            1nat
        } else {
            0nat
        }) + newlines(text.drop_first())
    }
}

proof fn lemma_newlines_add(a: Seq<char>, b: Seq<char>)
    ensures
        newlines(a + b) == newlines(a) + newlines(b),
    decreases a.len(),
{
    if a.len() > 0 {
        assert((a + b).drop_first() =~= a.drop_first() + b);
        lemma_newlines_add(a.drop_first(), b);
    } else {
        assert(a + b =~= b);
    }
}

proof fn lemma_newlines_none(text: Seq<char>)
    requires
        !text.contains('\n'),
    ensures
        newlines(text) == 0,
    decreases text.len(),
{
    if text.len() > 0 {
        assert(text[0] != '\n');
        assert forall|k: int| 0 <= k < text.drop_first().len() implies text.drop_first()[k] != '\n' by {
            assert(text.drop_first()[k] == text[k + 1]);
        }
        lemma_newlines_none(text.drop_first());
    }
}

proof fn lemma_decimal_one_line(n: nat)
    ensures
        !decimal(n).contains('\n'),
    decreases n,
{
    if n >= 10 {
        lemma_decimal_one_line(n / 10);
        let d = decimal(n);
        assert forall|k: int| 0 <= k < d.len() implies d[k] != '\n' by {
            if k < d.len() - 1 {
                assert(d[k] == decimal(n / 10)[k]);
            }
        }
    }
}

/// The Petri net text of a machine has one line for each of its edges,
/// self-loops included, between `.state graph` and `.marking s0`: the
/// line of the `i`-th edge comes `i`-th and names its source state, its
/// role, its action, its label and its target state. So, where no role or
/// label spans lines, the text has as many line breaks as edges, and three
/// more.
pub proof fn lemma_petrify_lines<R: Render, L: Render>(fsm: Fsm<R, L>)
    requires
        fsm.wf(),
        forall|s: nat| #![auto] s < fsm.num_states() && fsm.choices_at(s) is Some
            ==> !fsm.choices_at(s)->Some_0.0.rendered().contains('\n'),
        forall|i: int| #![auto] 0 <= i < fsm.spec_edges().len() ==> !fsm.spec_edges()[i].1.rendered().contains('\n'),
    ensures
        newlines(petrify_text(fsm)) == fsm.spec_edges().len() + 3,
        forall|i: int| 0 <= i < fsm.spec_edges().len() ==> {
            let e = #[trigger] fsm.spec_edges()[i];
            let (role, action) = fsm.choices_at(e.0)->Some_0;
            &&& fsm.choices_at(e.0) is Some
            &&& petrify_edges(fsm, (i + 1) as nat) == petrify_edges(fsm, i as nat) + "s"@ + decimal(e.0) + " "@
                + role.rendered() + " "@ + action_text(action) + " "@ + e.1.rendered() + " s"@ + decimal(e.2)
                + "\n"@
        },
{
    let m = fsm.spec_edges().len();
    lemma_petrify_edges_lines(fsm, m);
    lemma_petrify_frame();
    let head = ".outputs\n"@ + ".state graph\n"@;
    let body = petrify_edges(fsm, m);
    let tail = ".marking s0\n"@ + ".end"@;
    lemma_newlines_add(head, body);
    lemma_newlines_add(head + body, tail);
    assert(petrify_text(fsm) =~= head + body + tail);
    assert forall|i: int| 0 <= i < fsm.spec_edges().len() implies {
        let e = #[trigger] fsm.spec_edges()[i];
        let (role, action) = fsm.choices_at(e.0)->Some_0;
        &&& fsm.choices_at(e.0) is Some
        &&& petrify_edges(fsm, (i + 1) as nat) == petrify_edges(fsm, i as nat) + "s"@ + decimal(e.0) + " "@
            + role.rendered() + " "@ + action_text(action) + " "@ + e.1.rendered() + " s"@ + decimal(e.2)
            + "\n"@
    } by {
        lemma_petrify_line_shape(fsm, i);
    }
}

proof fn lemma_petrify_line_shape<R: Render, L: Render>(fsm: Fsm<R, L>, i: int)
    requires
        fsm.wf(),
        0 <= i < fsm.spec_edges().len(),
    ensures
        ({
            let e = fsm.spec_edges()[i];
            let (role, action) = fsm.choices_at(e.0)->Some_0;
            &&& fsm.choices_at(e.0) is Some
            &&& petrify_edges(fsm, (i + 1) as nat) == petrify_edges(fsm, i as nat) + "s"@ + decimal(e.0) + " "@
                + role.rendered() + " "@ + action_text(action) + " "@ + e.1.rendered() + " s"@ + decimal(e.2)
                + "\n"@
        }),
{
    let e = fsm.spec_edges()[i];
    assert(fsm.choices_at(e.0) is Some);
    assert(petrify_edges(fsm, (i + 1) as nat) =~= petrify_edges(fsm, i as nat) + petrify_line(fsm, i));
}

/// The lines around the edges of the Petri net text.
proof fn lemma_petrify_frame()
    ensures
        newlines(".outputs\n"@ + ".state graph\n"@) == 2,
        newlines(".marking s0\n"@ + ".end"@) == 1,
{
    reveal_strlit(".outputs\n");
    reveal_strlit(".state graph\n");
    reveal_strlit(".marking s0\n");
    reveal_strlit(".end");
    lemma_newlines_add(".outputs\n"@, ".state graph\n"@);
    lemma_newlines_add(".marking s0\n"@, ".end"@);
    assert(newlines(".outputs\n"@) == 1) by {
        reveal_with_fuel(newlines, 10);
    }
    assert(newlines(".state graph\n"@) == 1) by {
        reveal_with_fuel(newlines, 14);
    }
    assert(newlines(".marking s0\n"@) == 1) by {
        reveal_with_fuel(newlines, 13);
    }
    assert(newlines(".end"@) == 0) by {
        reveal_with_fuel(newlines, 5);
    }
}

proof fn lemma_petrify_edges_lines<R: Render, L: Render>(fsm: Fsm<R, L>, k: nat)
    requires
        k <= fsm.spec_edges().len(),
        fsm.wf(),
        forall|s: nat| #![auto] s < fsm.num_states() && fsm.choices_at(s) is Some
            ==> !fsm.choices_at(s)->Some_0.0.rendered().contains('\n'),
        forall|i: int| #![auto] 0 <= i < fsm.spec_edges().len() ==> !fsm.spec_edges()[i].1.rendered().contains('\n'),
    ensures
        newlines(petrify_edges(fsm, k)) == k,
    decreases k,
{
    if k > 0 {
        let i = k - 1;
        lemma_petrify_edges_lines(fsm, (k - 1) as nat);
        let e = fsm.spec_edges()[i];
        assert(e.0 < fsm.num_states() && fsm.choices_at(e.0) is Some);
        let t = edge_transition(fsm, i);
        assert(!t.role.rendered().contains('\n'));
        assert(!t.label.rendered().contains('\n'));
        lemma_decimal_one_line(e.0);
        lemma_decimal_one_line(e.2);
        reveal_strlit("s");
        reveal_strlit(" ");
        reveal_strlit(" s");
        reveal_strlit("\n");
        reveal_strlit("?");
        reveal_strlit("!");
        let front = "s"@ + decimal(e.0) + " "@ + t.role.rendered() + " "@ + action_text(t.action) + " "@
            + t.label.rendered() + " s"@ + decimal(e.2);
        assert(!front.contains('\n')) by {
            assert forall|j: int| 0 <= j < front.len() implies front[j] != '\n' by {
                let a = "s"@ + decimal(e.0) + " "@ + t.role.rendered() + " "@ + action_text(t.action) + " "@
                    + t.label.rendered() + " s"@;
                if j >= a.len() {
                    assert(front[j] == decimal(e.2)[j - a.len()]);
                } else {
                    let b = "s"@ + decimal(e.0) + " "@ + t.role.rendered() + " "@ + action_text(t.action) + " "@;
                    if j >= b.len() + t.label.rendered().len() {
                    } else if j >= b.len() {
                        assert(front[j] == t.label.rendered()[j - b.len()]);
                    } else {
                        let c = "s"@ + decimal(e.0) + " "@ + t.role.rendered() + " "@;
                        if j >= c.len() {
                        } else {
                            let d = "s"@ + decimal(e.0) + " "@;
                            if j >= d.len() + t.role.rendered().len() {
                            } else if j >= d.len() {
                                assert(front[j] == t.role.rendered()[j - d.len()]);
                            } else if j >= 1 && j < 1 + decimal(e.0).len() {
                                assert(front[j] == decimal(e.0)[j - 1]);
                            }
                        }
                    }
                }
            }
        }
        lemma_newlines_none(front);
        lemma_newlines_add(front, "\n"@);
        assert(newlines("\n"@) == 1) by {
            reveal_with_fuel(newlines, 2);
        }
        assert(petrify_line(fsm, i) =~= front + "\n"@);
        lemma_newlines_add(petrify_edges(fsm, (k - 1) as nat), petrify_line(fsm, i));
    }
}

/// A state machine written in the Petri net format. It has a first state.
pub struct Petrify<'a, R, L>(pub &'a Fsm<R, L>);

impl<'a, R, L> Petrify<'a, R, L> {
    pub fn new(fsm: &'a Fsm<R, L>) -> (petrify: Self)
        requires
            fsm.num_states() > 0,
        ensures
            *petrify.0 == *fsm,
    {
        Self(fsm)
    }
}

impl<'a, R: Render, L: Render> Petrify<'a, R, L> {
    /// The Petri net text of the state machine.
    pub fn to_string(&self) -> (text: String)
        ensures
            text@ == petrify_text(*self.0),
    {
        let fsm = self.0;
        let mut text = String::from_str(".outputs\n");
        text.append(".state graph\n");
        let ghost head = text@;
        let all = fsm.transitions();
        let mut k: usize = 0;
        while k < all.len()
            invariant
                all@.len() == fsm.spec_edges().len(),
                forall|i: int| 0 <= i < all@.len() ==> {
                    let (from, t, to) = #[trigger] all@[i];
                    let e = fsm.spec_edges()[i];
                    &&& from.spec_index() == e.0
                    &&& to.spec_index() == e.2
                    &&& fsm.choices_at(e.0) matches Some((role, action))
                    &&& unref(t) == (Transition { role, action, label: e.1 })
                },
                k <= all@.len(),
                text@ == head + petrify_edges(*fsm, k as nat),
            decreases all@.len() - k,
        {
            let (from, transition, to) = &all[k];
            let mut line = String::from_str("s");
            push_decimal(&mut line, from.index());
            line.append(" ");
            transition.role.render(&mut line);
            line.append(" ");
            transition.action.render(&mut line);
            line.append(" ");
            transition.label.render(&mut line);
            line.append(" s");
            push_decimal(&mut line, to.index());
            line.append("\n");
            proof {
                assert(unref(*transition) == edge_transition(*fsm, k as int));
                assert(line@ =~= petrify_line(*fsm, k as int));
            }
            text.append(line.as_str());
            proof {
                assert(text@ =~= head + petrify_edges(*fsm, (k + 1) as nat));
            }
            k = k + 1;
        }
        text.append(".marking s0\n");
        text.append(".end");
        proof {
            assert(text@ =~= petrify_text(*fsm));
        }
        text
    }
}

/// The first `k` transitions, separated by ` . `.
pub open spec fn transitions_text<R: Render, L: Render>(ts: Seq<Transition<R, L>>, k: int) -> Seq<char>
    decreases k,
{
    if k <= 1 {
        transition_text(ts[0])
    } else {
        transitions_text(ts, k - 1) + " . "@ + transition_text(ts[k - 1])
    }
}

/// A prefix of transitions as text: its transitions separated by ` . `,
/// or `empty`.
pub open spec fn prefix_text<R: Render, L: Render>(ts: Seq<Transition<R, L>>) -> Seq<char> {
    if ts.len() == 0 {
        "empty"@
    } else {
        transitions_text(ts, ts.len() as int)
    }
}

impl<'a, R: Render, L: Render> Prefix<'a, R, L> {
    /// The transitions still there, as text.
    pub fn to_string(&self) -> (text: String)
        requires
            self@.wf(),
        ensures
            text@ == prefix_text(item_transitions(self@.items())),
    {
        let transitions = self.iter();
        let ghost ts = unref_all(transitions@);
        if transitions.len() == 0 {
            return String::from_str("empty");
        }
        let mut text = String::new();
        let mut i: usize = 0;
        while i < transitions.len()
            invariant
                ts == unref_all(transitions@),
                ts.len() == transitions@.len(),
                transitions@.len() > 0,
                i <= transitions@.len(),
                i == 0 ==> text@ == Seq::<char>::empty(),
                i > 0 ==> text@ == transitions_text(ts, i as int),
            decreases transitions@.len() - i,
        {
            if i > 0 {
                text.append(" . ");
            }
            render_transition(&transitions[i], &mut text);
            proof {
                assert(ts[i as int] == unref(transitions@[i as int]));
                assert(text@ =~= transitions_text(ts, i + 1));
            }
            i = i + 1;
        }
        text
    }
}

/// The first `k` cells of row `left`, separated by commas.
pub open spec fn row_cells<T: Copy + Render>(m: Matrix<T>, left: nat, k: int) -> Seq<char>
    decreases k,
{
    if k <= 0 {
        Seq::empty()
    } else if k == 1 {
        m.cells()[m.spec_offset(left, 0) as int].rendered()
    } else {
        row_cells(m, left, k - 1) + ", "@ + m.cells()[m.spec_offset(left, (k - 1) as nat) as int].rendered()
    }
}

/// The first `k` rows, each in brackets, separated by commas.
pub open spec fn matrix_rows<T: Copy + Render>(m: Matrix<T>, k: int) -> Seq<char>
    decreases k,
{
    let row = "["@ + row_cells(m, (k - 1) as nat, m.dims().1 as int) + "]"@;
    if k <= 0 {
        Seq::empty()
    } else if k == 1 {
        row
    } else {
        matrix_rows(m, k - 1) + ", "@ + row
    }
}

/// A matrix as text: its rows in brackets, each row's cells in brackets.
pub open spec fn matrix_text<T: Copy + Render>(m: Matrix<T>) -> Seq<char> {
    "["@ + matrix_rows(m, m.dims().0 as int) + "]"@
}

impl<T: Copy + Render> Matrix<T> {
    /// The matrix as text, row by row.
    pub fn to_string(&self) -> (text: String)
        requires
            self.wf(),
        ensures
            text@ == matrix_text(*self),
    {
        let (rows, columns) = self.dimensions();
        let mut text = String::from_str("[");
        let ghost start = text@;
        let mut left: usize = 0;
        while left < rows
            invariant
                self.wf(),
                (rows as nat, columns as nat) == self.dims(),
                left <= rows,
                text@ == start + matrix_rows(*self, left as int),
            decreases rows - left,
        {
            if left > 0 {
                text.append(", ");
            }
            text.append("[");
            let ghost row_start = text@;
            let mut right: usize = 0;
            while right < columns
                invariant
                    self.wf(),
                    (rows as nat, columns as nat) == self.dims(),
                    left < rows,
                    right <= columns,
                    text@ == row_start + row_cells(*self, left as nat, right as int),
                decreases columns - right,
            {
                if right > 0 {
                    text.append(", ");
                }
                self.get(Pair::new(left, right)).render(&mut text);
                proof {
                    assert(text@ =~= row_start + row_cells(*self, left as nat, right + 1));
                }
                right = right + 1;
            }
            text.append("]");
            proof {
                assert(text@ =~= start + matrix_rows(*self, left + 1));
            }
            left = left + 1;
        }
        text.append("]");
        proof {
            assert(text@ =~= matrix_text(*self));
        }
        text
    }
}

} // verus!
