//! The command palette: choosing a command by fuzzy search, then entering
//! its arguments one by one; with the text helpers it needs.
use vstd::prelude::*;
use std::ops::Range;
use crate::gui::keymap::{
    all_command_specs, command_models, command_specs, ArgModel, ArgSpec, ArgType, ArgTypeModel,
    CommandModel, CommandSpec,
};
use crate::markdown::ast::opt_view;
use crate::text::{chars_of, push_all, string_from_chars, string_views};
use crate::utf8len::{blen, cidx, is_boundary, lemma_blen_concat, lemma_blen_mono, lemma_boundary_split};

verus! {

/// `str::to_lowercase`: the full Unicode lowercase mapping of a text.
pub uninterp spec fn lowercase(s: Seq<char>) -> Seq<char>;

/// `str::to_lowercase`, a function of the text alone.
#[verifier::external_body]
fn to_lowercase(s: &str) -> (r: String)
    ensures
        r@ == lowercase(s@),
{
    s.to_lowercase()
}

/// `q[j..]` occurs in `t[i..]` as a subsequence, matched greedily.
pub open spec fn subseq_from(q: Seq<char>, t: Seq<char>, i: int, j: int) -> bool
    decreases t.len() - i,
{
    if j >= q.len() {
        true
    } else if i < 0 || i >= t.len() {
        false
    } else if t[i] == q[j] {
        subseq_from(q, t, i + 1, j + 1)
    } else {
        subseq_from(q, t, i + 1, j)
    }
}

/// The query matches the target: empty, or its lowercase characters occur
/// in order in the lowercase target.
pub open spec fn fuzzy(query: Seq<char>, target: Seq<char>) -> bool {
    query.len() == 0 || subseq_from(lowercase(query), lowercase(target), 0, 0)
}

/// `f` places `q[j..]` in `t[i..]`: each character on an equal one, in
/// strictly increasing positions.
pub open spec fn embeds(q: Seq<char>, t: Seq<char>, i: int, j: int, f: spec_fn(int) -> int) -> bool {
    &&& forall|k: int| j <= k < q.len() ==> i <= #[trigger] f(k) < t.len() && t[f(k)] == q[k]
    &&& forall|k1: int, k2: int| j <= k1 < k2 < q.len() ==> #[trigger] f(k1) < #[trigger] f(k2)
}

/// `q` is a subsequence of `t`: its characters occur in `t` in order.
pub open spec fn is_subsequence_of(q: Seq<char>, t: Seq<char>) -> bool {
    exists|f: spec_fn(int) -> int| #[trigger] embeds(q, t, 0, 0, f)
}

proof fn lemma_greedy_embeds(q: Seq<char>, t: Seq<char>, i: int, j: int)
    requires
        0 <= i,
        0 <= j,
    ensures
        subseq_from(q, t, i, j) <==> exists|f: spec_fn(int) -> int| #[trigger] embeds(q, t, i, j, f),
    decreases t.len() - i,
{
    if j >= q.len() {
        let f = |k: int| 0int;
        assert(embeds(q, t, i, j, f));
    } else if i >= t.len() {
        if exists|f: spec_fn(int) -> int| #[trigger] embeds(q, t, i, j, f) {
            let f = choose|f: spec_fn(int) -> int| #[trigger] embeds(q, t, i, j, f);
            assert(i <= f(j) < t.len());
        }
    } else {
        lemma_greedy_embeds(q, t, i + 1, j + 1);
        lemma_greedy_embeds(q, t, i + 1, j);
        if subseq_from(q, t, i, j) {
            if t[i] == q[j] {
                let g = choose|f: spec_fn(int) -> int| #[trigger] embeds(q, t, i + 1, j + 1, f);
                let f = |k: int| if k == j { i } else { g(k) };
                assert forall|k1: int, k2: int| j <= k1 < k2 < q.len() implies #[trigger] f(k1) < #[trigger] f(k2) by {
                    if k1 == j {
                        assert(i + 1 <= g(k2));
                    }
                }
                assert(embeds(q, t, i, j, f));
            } else {
                let g = choose|f: spec_fn(int) -> int| #[trigger] embeds(q, t, i + 1, j, f);
                assert(embeds(q, t, i, j, g));
            }
        }
        if exists|f: spec_fn(int) -> int| #[trigger] embeds(q, t, i, j, f) {
            let f = choose|f: spec_fn(int) -> int| #[trigger] embeds(q, t, i, j, f);
            if t[i] == q[j] {
                assert forall|k: int| j + 1 <= k < q.len() implies i + 1 <= #[trigger] f(k) < t.len() && t[f(k)] == q[k] by {
                    assert(f(j) < f(k));
                }
                assert(embeds(q, t, i + 1, j + 1, f));
            } else {
                assert(f(j) != i);
                assert forall|k: int| j <= k < q.len() implies i + 1 <= #[trigger] f(k) < t.len() && t[f(k)] == q[k] by {
                    if k > j {
                        assert(f(j) < f(k));
                    }
                }
                assert(embeds(q, t, i + 1, j, f));
            }
        }
    }
}

/// The greedy match of the palette is the subsequence relation: a
/// non-empty query matches a target exactly when the query's lowercase
/// form is a subsequence of the target's; an empty query matches every
/// target.
pub proof fn law_fuzzy_subsequence(query: Seq<char>, target: Seq<char>)
    ensures
        fuzzy(query, target) == (query.len() == 0 || is_subsequence_of(
            lowercase(query),
            lowercase(target),
        )),
{
    lemma_greedy_embeds(lowercase(query), lowercase(target), 0, 0);
}

/// Whether the characters of `q` occur in order in `t`.
pub fn is_subsequence(q: &[char], t: &[char]) -> (r: bool)
    ensures
        r == subseq_from(q@, t@, 0, 0),
{
    let mut j: usize = 0;
    let mut i: usize = 0;
    if q.len() == 0 {
        return true;
    }
    while i < t.len()
        invariant
            i <= t@.len(),
            j < q@.len(),
            subseq_from(q@, t@, i as int, j as int) == subseq_from(q@, t@, 0, 0),
        decreases t@.len() - i,
    {
        let ghost (i0, j0) = (i as int, j as int);
        if t[i] == q[j] {
            j += 1;
        }
        i += 1;
        proof {
            assert(subseq_from(q@, t@, i0, j0) == subseq_from(q@, t@, i as int, j as int));
        }
        if j >= q.len() {
            return true;
        }
    }
    false
}

/// Whether `query` fuzzily matches `target` (see [`fuzzy`]).
pub fn fuzzy_match(query: &str, target: &str) -> (r: bool)
    ensures
        r == fuzzy(query@, target@),
{
    if query.is_empty() {
        return true;
    }
    let q = to_lowercase(query);
    let t = to_lowercase(target);
    let qc = chars_of(q.as_str());
    let tc = chars_of(t.as_str());
    is_subsequence(qc.as_slice(), tc.as_slice())
}

/// `s` with the bytes `a..b` replaced by `t`.
pub open spec fn replace_bytes(s: Seq<char>, a: int, b: int, t: Seq<char>) -> Seq<char> {
    s.take(cidx(s, a)) + t + s.skip(cidx(s, b))
}

/// A byte position clamped to the text.
pub open spec fn clamp_to(x: int, n: int) -> int {
    if x < n {
        x
    } else {
        n
    }
}

/// Replaces the bytes `range` of `s` (clamped to it) by `new_text`, or
/// inserts `new_text` at the cursor when there is no range; the cursor ends
/// after the new text.
pub fn replace_in_string(s: &mut String, cursor: &mut usize, range: Option<Range<usize>>, new_text: &str)
    requires
        ({
            let n = blen(old(s)@) as int;
            match range {
                Some(r) => {
                    &&& clamp_to(r.start as int, n) <= clamp_to(r.end as int, n)
                    &&& is_boundary(old(s)@, clamp_to(r.start as int, n))
                    &&& is_boundary(old(s)@, clamp_to(r.end as int, n))
                    &&& clamp_to(r.start as int, n) + blen(new_text@) <= usize::MAX
                },
                None => {
                    &&& is_boundary(old(s)@, clamp_to(*old(cursor) as int, n))
                    &&& clamp_to(*old(cursor) as int, n) + blen(new_text@) <= usize::MAX
                },
            }
        }),
    ensures
        ({
            let n = blen(old(s)@) as int;
            let (a, b) = match range {
                Some(r) => (clamp_to(r.start as int, n), clamp_to(r.end as int, n)),
                None => (clamp_to(*old(cursor) as int, n), clamp_to(*old(cursor) as int, n)),
            };
            &&& final(s)@ == replace_bytes(old(s)@, a, b, new_text@)
            &&& *final(cursor) == a + blen(new_text@)
        }),
{
    let n = s.as_str().as_bytes().len();
    let add = new_text.as_bytes().len();
    let (start, end) = match range {
        Some(r) => {
            let start = if r.start < n {
                r.start
            } else {
                n
            };
            let end = if r.end < n {
                r.end
            } else {
                n
            };
            (start, end)
        },
        None => {
            let pos = if *cursor < n {
                *cursor
            } else {
                n
            };
            (pos, pos)
        },
    };
    let chars = chars_of(s.as_str());
    let ks = crate::utf8len::char_index_of_byte(chars.as_slice(), start);
    let ke = crate::utf8len::char_index_of_byte(chars.as_slice(), end);
    proof {
        lemma_boundary_split(chars@, start as int);
        lemma_boundary_split(chars@, end as int);
        if ke < ks {
            lemma_blen_mono(chars@, ke as int, ks as int);
        }
    }
    let mut out: Vec<char> = Vec::new();
    push_all(&mut out, vstd::slice::slice_subrange(chars.as_slice(), 0, ks));
    let nt = chars_of(new_text);
    push_all(&mut out, nt.as_slice());
    push_all(&mut out, vstd::slice::slice_subrange(chars.as_slice(), ke, chars.len()));
    proof {
        assert(chars@.subrange(0, ks as int) =~= chars@.take(ks as int));
        assert(chars@.subrange(ke as int, chars@.len() as int) =~= chars@.skip(ke as int));
    }
    *s = string_from_chars(out.as_slice());
    *cursor = start + add;
}


/// Where the palette is: choosing a command, or entering argument `index`
/// of the chosen command, the values of the earlier ones in hand.
#[derive(Debug)]
enum Phase {
    SelectCommand,
    InputArg { index: usize, values: Vec<Option<String>> },
}

/// Model of the palette's phase.
#[verifier::ext_equal]
pub enum PhaseModel {
    SelectCommand,
    InputArg(nat, Seq<Option<Seq<char>>>),
}

/// The values of a list of optional strings.
pub open spec fn opt_views(v: Seq<Option<String>>) -> Seq<Option<Seq<char>>> {
    Seq::new(v.len(), |k: int| opt_view(v[k]))
}

/// The command palette: the commands, the query and the indices of the
/// commands it matches, the selected one, and the argument being entered.
#[derive(Debug)]
pub struct CommandPalette {
    phase: Phase,
    commands: Vec<CommandSpec>,
    query: String,
    query_cursor: usize,
    filtered: Vec<usize>,
    selected: usize,
    arg_input: String,
    arg_cursor: usize,
    arg_selected: usize,
}

/// Model of [`CommandPalette`].
#[verifier::ext_equal]
pub struct PaletteView {
    pub phase: PhaseModel,
    pub commands: Seq<CommandModel>,
    pub query: Seq<char>,
    pub query_cursor: nat,
    pub filtered: Seq<usize>,
    pub selected: nat,
    pub arg_input: Seq<char>,
    pub arg_cursor: nat,
    pub arg_selected: nat,
}

/// Indices, in order, of the first `k` commands whose label the query
/// matches.
pub open spec fn matching(cmds: Seq<CommandModel>, q: Seq<char>, k: int) -> Seq<usize>
    decreases k,
{
    if k <= 0 {
        seq![]
    } else {
        matching(cmds, q, k - 1) + if fuzzy(q, cmds[k - 1].label) {
            seq![(k - 1) as usize]
        } else {
            seq![]
        }
    }
}

/// Indices of the commands whose label the query matches.
pub open spec fn filter_of(cmds: Seq<CommandModel>, q: Seq<char>) -> Seq<usize> {
    matching(cmds, q, cmds.len() as int)
}

/// Index of the selected command, if one is listed at the selection.
pub open spec fn current_command(v: PaletteView) -> Option<int> {
    if v.selected < v.filtered.len() {
        Some(v.filtered[v.selected as int] as int)
    } else {
        None
    }
}

/// The argument being entered.
pub open spec fn current_arg(v: PaletteView) -> Option<ArgModel> {
    match v.phase {
        PhaseModel::InputArg(i, _) => match current_command(v) {
            Some(c) => if 0 <= c < v.commands.len() && i < v.commands[c].args.len() {
                Some(v.commands[c].args[i as int])
            } else {
                None
            },
            None => None,
        },
        PhaseModel::SelectCommand => None,
    }
}

/// The argument being entered is chosen from options.
pub open spec fn arg_is_select(v: PaletteView) -> bool {
    current_arg(v) matches Some(a) && a.arg_type is Select
}

/// The options of the argument being entered that its input matches.
pub open spec fn arg_options(v: PaletteView) -> Seq<Seq<char>> {
    match current_arg(v) {
        Some(a) => match a.arg_type {
            ArgTypeModel::Select(opts) => opts.filter(|o: Seq<char>| fuzzy(v.arg_input, o)),
            ArgTypeModel::FreeText(_) => seq![],
        },
        None => seq![],
    }
}

/// The palette once its query is `q`: the matching commands listed, and
/// the selection moved to the last of them when it was past the end.
pub open spec fn refilter(v: PaletteView, q: Seq<char>) -> PaletteView {
    let f = filter_of(v.commands, q);
    PaletteView {
        query: q,
        filtered: f,
        selected: if v.selected >= f.len() && f.len() > 0 {
            (f.len() - 1) as nat
        } else {
            v.selected
        },
        ..v
    }
}

/// What the palette keeps true: the listed commands are those the query
/// matches, the selection is on one of them when there is any, and while
/// an argument is entered it is an argument of the selected command and
/// the values of the earlier ones are in hand.
pub open spec fn palette_wf(v: PaletteView) -> bool {
    &&& v.filtered == filter_of(v.commands, v.query)
    &&& v.filtered.len() > 0 ==> v.selected < v.filtered.len()
    &&& v.phase matches PhaseModel::InputArg(i, vals) ==> vals.len() == i && current_arg(v) is Some
}

/// `s` without the character that starts at byte `p`.
pub open spec fn remove_at(s: Seq<char>, p: int) -> Seq<char> {
    s.take(cidx(s, p)) + s.skip(cidx(s, p) + 1)
}

/// The cursor moved one byte left.
pub open spec fn cursor_left(v: PaletteView) -> PaletteView {
    match v.phase {
        PhaseModel::SelectCommand => if v.query_cursor > 0 {
            PaletteView { query_cursor: (v.query_cursor - 1) as nat, ..v }
        } else {
            v
        },
        PhaseModel::InputArg(_, _) => if v.arg_cursor > 0 {
            PaletteView { arg_cursor: (v.arg_cursor - 1) as nat, ..v }
        } else {
            v
        },
    }
}

/// The cursor moved one byte right, within the text.
pub open spec fn cursor_right(v: PaletteView) -> PaletteView {
    match v.phase {
        PhaseModel::SelectCommand => if v.query_cursor < blen(v.query) {
            PaletteView { query_cursor: v.query_cursor + 1, ..v }
        } else {
            v
        },
        PhaseModel::InputArg(_, _) => if v.arg_cursor < blen(v.arg_input) {
            PaletteView { arg_cursor: v.arg_cursor + 1, ..v }
        } else {
            v
        },
    }
}

/// The character before the cursor starts on a character boundary.
pub open spec fn backspace_ok(v: PaletteView) -> bool {
    match v.phase {
        PhaseModel::SelectCommand => v.query_cursor > 0 ==> v.query_cursor - 1 < blen(v.query)
            && is_boundary(v.query, v.query_cursor - 1),
        PhaseModel::InputArg(_, _) => v.arg_cursor > 0 ==> v.arg_cursor - 1 < blen(v.arg_input)
            && is_boundary(v.arg_input, v.arg_cursor - 1),
    }
}

/// The character before the cursor removed, the commands refiltered or the
/// option choice reset.
pub open spec fn backspace(v: PaletteView) -> PaletteView {
    match v.phase {
        PhaseModel::SelectCommand => if v.query_cursor > 0 {
            let p = v.query_cursor - 1;
            refilter(PaletteView { query_cursor: p as nat, ..v }, remove_at(v.query, p))
        } else {
            v
        },
        PhaseModel::InputArg(_, _) => if v.arg_cursor > 0 {
            let p = v.arg_cursor - 1;
            let w = PaletteView { arg_cursor: p as nat, arg_input: remove_at(v.arg_input, p), ..v };
            if arg_is_select(w) {
                PaletteView { arg_selected: 0, ..w }
            } else {
                w
            }
        } else {
            v
        },
    }
}

/// The selection moved up: among the commands, or among the options.
pub open spec fn selection_up(v: PaletteView) -> PaletteView {
    match v.phase {
        PhaseModel::SelectCommand => if v.selected > 0 {
            PaletteView { selected: (v.selected - 1) as nat, ..v }
        } else {
            v
        },
        PhaseModel::InputArg(_, _) => if arg_is_select(v) && v.arg_selected > 0 {
            PaletteView { arg_selected: (v.arg_selected - 1) as nat, ..v }
        } else {
            v
        },
    }
}

/// The selection moved down, within the list.
pub open spec fn selection_down(v: PaletteView) -> PaletteView {
    match v.phase {
        PhaseModel::SelectCommand => if v.selected + 1 < v.filtered.len() {
            PaletteView { selected: v.selected + 1, ..v }
        } else {
            v
        },
        PhaseModel::InputArg(_, _) => if arg_is_select(v) && v.arg_selected + 1 < arg_options(
            v,
        ).len() {
            PaletteView { arg_selected: v.arg_selected + 1, ..v }
        } else {
            v
        },
    }
}

/// The palette on argument `i` with the given earlier values, its input
/// empty.
pub open spec fn at_arg(v: PaletteView, i: nat, vals: Seq<Option<Seq<char>>>) -> PaletteView {
    PaletteView {
        phase: PhaseModel::InputArg(i, vals),
        arg_input: seq![],
        arg_cursor: 0,
        arg_selected: 0,
        ..v
    }
}

/// The value the argument being entered takes on confirm, or `None` when
/// confirm is refused (a required argument left empty): the chosen option
/// for a choice, the input for free text, nothing for an optional argument
/// left empty.
pub open spec fn arg_value(v: PaletteView, a: ArgModel) -> Option<Option<Seq<char>>> {
    match a.arg_type {
        ArgTypeModel::Select(_) => {
            let opts = arg_options(v);
            if v.arg_selected < opts.len() {
                Some(Some(opts[v.arg_selected as int]))
            } else if a.optional {
                Some(None)
            } else {
                None
            }
        },
        ArgTypeModel::FreeText(_) => if v.arg_input.len() == 0 {
            if a.optional {
                Some(None)
            } else {
                None
            }
        } else {
            Some(Some(v.arg_input))
        },
    }
}

/// Enter: the palette after it, and the command to run with its argument
/// values when one is complete.
pub open spec fn confirm(v: PaletteView) -> (PaletteView, Option<(Seq<char>, Seq<Option<Seq<char>>>)>) {
    match current_command(v) {
        None => (v, None),
        Some(c) => {
            let cmd = v.commands[c];
            match v.phase {
                PhaseModel::SelectCommand => if cmd.args.len() == 0 {
                    (v, Some((cmd.label, seq![])))
                } else {
                    (at_arg(v, 0, seq![]), None)
                },
                PhaseModel::InputArg(i, vals) => if i >= cmd.args.len() {
                    (v, None)
                } else {
                    match arg_value(v, cmd.args[i as int]) {
                        None => (v, None),
                        Some(val) => {
                            let vals2 = vals.push(val);
                            if i + 1 < cmd.args.len() {
                                (at_arg(v, i + 1, vals2), None)
                            } else {
                                (v, Some((cmd.label, vals2)))
                            }
                        },
                    }
                },
            }
        },
    }
}

/// Escape: the palette after it, and whether the palette closes. Going
/// back an argument drops the last value and puts the one before it in
/// the input.
pub open spec fn back(v: PaletteView) -> (PaletteView, bool) {
    match v.phase {
        PhaseModel::SelectCommand => (v, true),
        PhaseModel::InputArg(i, vals) => if i == 0 {
            (
                PaletteView {
                    phase: PhaseModel::SelectCommand,
                    arg_input: seq![],
                    arg_cursor: 0,
                    ..v
                },
                false,
            )
        } else {
            let prev = if vals.len() > 0 {
                vals.drop_last()
            } else {
                vals
            };
            let input = if prev.len() > 0 && prev.last() is Some {
                prev.last()->0
            } else {
                seq![]
            };
            (
                PaletteView {
                    phase: PhaseModel::InputArg((i - 1) as nat, prev),
                    arg_input: input,
                    arg_cursor: blen(input),
                    arg_selected: 0,
                    ..v
                },
                false,
            )
        },
    }
}


pub proof fn lemma_matching(cmds: Seq<CommandModel>, q: Seq<char>, k: int)
    requires
        0 <= k <= cmds.len(),
    ensures
        forall|t: int| 0 <= t < matching(cmds, q, k).len() ==> (#[trigger] matching(cmds, q, k)[t]) < k,
        matching(cmds, q, k).len() <= k,
    decreases k,
{
    if k > 0 {
        lemma_matching(cmds, q, k - 1);
    }
}

/// An empty query matches every command.
pub proof fn lemma_matching_all(cmds: Seq<CommandModel>, k: int)
    requires
        0 <= k <= cmds.len(),
        k <= usize::MAX,
    ensures
        matching(cmds, seq![], k) == Seq::new(k as nat, |t: int| t as usize),
    decreases k,
{
    if k > 0 {
        lemma_matching_all(cmds, k - 1);
        assert(matching(cmds, seq![], k) =~= Seq::new(k as nat, |t: int| t as usize));
    }
}

impl CommandPalette {
    pub closed spec fn view(&self) -> PaletteView {
        PaletteView {
            phase: match self.phase {
                Phase::SelectCommand => PhaseModel::SelectCommand,
                Phase::InputArg { index, values } => PhaseModel::InputArg(
                    index as nat,
                    opt_views(values@),
                ),
            },
            commands: command_models(self.commands@),
            query: self.query@,
            query_cursor: self.query_cursor as nat,
            filtered: self.filtered@,
            selected: self.selected as nat,
            arg_input: self.arg_input@,
            arg_cursor: self.arg_cursor as nat,
            arg_selected: self.arg_selected as nat,
        }
    }

    /// See [`palette_wf`].
    pub open spec fn wf(&self) -> bool {
        palette_wf(self@)
    }

    /// A palette over the commands of [`all_command_specs`], all of them
    /// listed, nothing typed. (The command list takes folder names only;
    /// note titles are not part of it.)
    pub fn new(folder_names: &[String], _note_titles: &[String]) -> (r: Self)
        ensures
            r.wf(),
            r@.phase == PhaseModel::SelectCommand,
            r@.commands == command_specs(string_views(folder_names@)),
            r@.query.len() == 0,
            r@.query_cursor == 0,
            r@.filtered == Seq::new(r@.commands.len(), |t: int| t as usize),
            r@.selected == 0,
            r@.arg_input.len() == 0,
            r@.arg_cursor == 0,
            r@.arg_selected == 0,
    {
        let commands = all_command_specs(folder_names);
        let n = commands.len();
        let mut filtered: Vec<usize> = Vec::new();
        let mut k: usize = 0;
        while k < n
            invariant
                k <= n,
                n == commands@.len(),
                filtered@ == Seq::new(k as nat, |t: int| t as usize),
            decreases n - k,
        {
            filtered.push(k);
            k += 1;
            proof {
                assert(filtered@ =~= Seq::new(k as nat, |t: int| t as usize));
            }
        }
        let r = CommandPalette {
            phase: Phase::SelectCommand,
            commands,
            query: String::new(),
            query_cursor: 0,
            filtered,
            selected: 0,
            arg_input: String::new(),
            arg_cursor: 0,
            arg_selected: 0,
        };
        proof {
            lemma_matching_all(r@.commands, n as int);
            assert(r@.query =~= Seq::<char>::empty());
        }
        r
    }

    /// Moves the cursor of the input one byte left.
    pub fn move_cursor_left(&mut self)
        requires
            old(self).wf(),
        ensures
            final(self).wf(),
            final(self)@ == cursor_left(old(self)@),
    {
        match self.phase {
            Phase::SelectCommand => {
                if self.query_cursor > 0 {
                    self.query_cursor -= 1;
                }
            },
            Phase::InputArg { .. } => {
                if self.arg_cursor > 0 {
                    self.arg_cursor -= 1;
                }
            },
        }
        proof {
            assert(self@ =~= cursor_left(old(self)@));
        }
    }

    /// Moves the cursor of the input one byte right, within the input.
    pub fn move_cursor_right(&mut self)
        requires
            old(self).wf(),
        ensures
            final(self).wf(),
            final(self)@ == cursor_right(old(self)@),
    {
        match self.phase {
            Phase::SelectCommand => {
                if self.query_cursor < self.query.as_str().as_bytes().len() {
                    self.query_cursor += 1;
                }
            },
            Phase::InputArg { .. } => {
                if self.arg_cursor < self.arg_input.as_str().as_bytes().len() {
                    self.arg_cursor += 1;
                }
            },
        }
        proof {
            assert(self@ =~= cursor_right(old(self)@));
        }
    }

    /// Lists the commands the query matches; the selection moves to the
    /// last of them when it was past the end.
    fn update_filter(&mut self)
        ensures
            final(self)@ == refilter(old(self)@, old(self)@.query),
    {
        self.filtered = matching_indices(self.commands.as_slice(), self.query.as_str());
        let n = self.filtered.len();
        if self.selected >= n && n > 0 {
            self.selected = n - 1;
        }
        proof {
            assert(self@ =~= refilter(old(self)@, old(self)@.query));
        }
    }

    /// The argument being entered, if any.
    fn current_arg(&self) -> (r: Option<&ArgSpec>)
        ensures
            match r {
                Some(a) => current_arg(self@) == Some(a.view()),
                None => current_arg(self@) is None,
            },
    {
        match &self.phase {
            Phase::SelectCommand => None,
            Phase::InputArg { index, .. } => {
                if self.selected < self.filtered.len() {
                    let c = self.filtered[self.selected];
                    if c < self.commands.len() && *index < self.commands[c].args.len() {
                        Some(&self.commands[c].args[*index])
                    } else {
                        None
                    }
                } else {
                    None
                }
            },
        }
    }

    /// Whether the argument being entered is chosen from options.
    fn arg_is_choice(&self) -> (b: bool)
        ensures
            b == arg_is_select(self@),
    {
        match self.current_arg() {
            Some(a) => match &a.arg_type {
                ArgType::Select { .. } => true,
                ArgType::FreeText { .. } => false,
            },
            None => false,
        }
    }

    /// The options of the argument being entered that its input matches.
    fn filtered_arg_options(&self) -> (r: Vec<String>)
        ensures
            string_views(r@) == arg_options(self@),
    {
        let mut r: Vec<String> = Vec::new();
        match self.current_arg() {
            Some(a) => match &a.arg_type {
                ArgType::Select { options } => {
                    let ghost opts = string_views(options@);
                    let ghost pred = |o: Seq<char>| fuzzy(self@.arg_input, o);
                    let mut k: usize = 0;
                    while k < options.len()
                        invariant
                            k <= options@.len(),
                            opts == string_views(options@),
                            pred == (|o: Seq<char>| fuzzy(self@.arg_input, o)),
                            string_views(r@) == opts.take(k as int).filter(pred),
                        decreases options@.len() - k,
                    {
                        let ghost before = string_views(r@);
                        proof {
                            assert(opts.take(k + 1).drop_last() =~= opts.take(k as int));
                            assert(opts.take(k + 1).last() == options@[k as int]@);
                        }
                        let m = fuzzy_match(self.arg_input.as_str(), options[k].as_str());
                        proof {
                            let x = options@[k as int]@;
                            reveal(Seq::filter);
                            assert(pred(x) == m);
                            assert(opts.take(k + 1).filter(pred) == if pred(x) {
                                opts.take(k as int).filter(pred).push(x)
                            } else {
                                opts.take(k as int).filter(pred)
                            });
                        }
                        if m {
                            r.push(options[k].clone());
                            proof {
                                assert(string_views(r@) =~= before.push(options@[k as int]@));
                            }
                        }
                        k += 1;
                    }
                    proof {
                        assert(opts.take(options@.len() as int) =~= opts);
                    }
                },
                ArgType::FreeText { .. } => {
                    proof {
                        assert(string_views(r@) =~= Seq::<Seq<char>>::empty());
                    }
                },
            },
            None => {
                proof {
                    assert(string_views(r@) =~= Seq::<Seq<char>>::empty());
                }
            },
        }
        r
    }

    /// Deletes the character before the cursor of the input; a query is
    /// refiltered, an option choice starts over.
    pub fn handle_backspace(&mut self)
        requires
            old(self).wf(),
            backspace_ok(old(self)@),
        ensures
            final(self).wf(),
            final(self)@ == backspace(old(self)@),
    {
        match self.phase {
            Phase::SelectCommand => {
                if self.query_cursor > 0 {
                    self.query_cursor -= 1;
                    self.query = remove_char(self.query.as_str(), self.query_cursor);
                    self.update_filter();
                }
            },
            Phase::InputArg { .. } => {
                if self.arg_cursor > 0 {
                    self.arg_cursor -= 1;
                    self.arg_input = remove_char(self.arg_input.as_str(), self.arg_cursor);
                    if self.arg_is_choice() {
                        self.arg_selected = 0;
                    }
                }
            },
        }
        proof {
            assert(self@ =~= backspace(old(self)@));
        }
    }

    /// Moves the selection up, among the commands or the options.
    pub fn move_selection_up(&mut self)
        requires
            old(self).wf(),
        ensures
            final(self).wf(),
            final(self)@ == selection_up(old(self)@),
    {
        match self.phase {
            Phase::SelectCommand => {
                if self.selected > 0 {
                    self.selected -= 1;
                }
            },
            Phase::InputArg { .. } => {
                if self.arg_is_choice() && self.arg_selected > 0 {
                    self.arg_selected -= 1;
                }
            },
        }
        proof {
            assert(self@ =~= selection_up(old(self)@));
        }
    }

    /// Moves the selection down, within the list of commands or options.
    pub fn move_selection_down(&mut self)
        requires
            old(self).wf(),
        ensures
            final(self).wf(),
            final(self)@ == selection_down(old(self)@),
    {
        match self.phase {
            Phase::SelectCommand => {
                if self.selected < self.filtered.len() && self.selected + 1 < self.filtered.len() {
                    self.selected += 1;
                }
            },
            Phase::InputArg { .. } => {
                if self.arg_is_choice() {
                    let count = self.filtered_arg_options().len();
                    if self.arg_selected < count && self.arg_selected + 1 < count {
                        self.arg_selected += 1;
                    }
                }
            },
        }
        proof {
            assert(self@ =~= selection_down(old(self)@));
        }
    }
}

/// Indices of the commands whose label the query matches.
fn matching_indices(commands: &[CommandSpec], query: &str) -> (r: Vec<usize>)
    ensures
        r@ == filter_of(command_models(commands@), query@),
{
    let ghost cm = command_models(commands@);
    let mut r: Vec<usize> = Vec::new();
    let mut k: usize = 0;
    while k < commands.len()
        invariant
            k <= commands@.len(),
            cm == command_models(commands@),
            r@ == matching(cm, query@, k as int),
        decreases commands@.len() - k,
    {
        let ghost before = r@;
        if fuzzy_match(query, commands[k].label.as_str()) {
            r.push(k);
        }
        proof {
            assert(cm[k as int].label == commands@[k as int].label@);
            assert(r@ =~= matching(cm, query@, k + 1));
        }
        k += 1;
    }
    r
}

/// `s` without the character that starts at byte `p`.
fn remove_char(s: &str, p: usize) -> (r: String)
    requires
        p < blen(s@),
        is_boundary(s@, p as int),
    ensures
        r@ == remove_at(s@, p as int),
{
    let chars = chars_of(s);
    let k = crate::utf8len::char_index_of_byte(chars.as_slice(), p);
    proof {
        lemma_boundary_split(chars@, p as int);
        if k == chars@.len() {
            assert(chars@.take(k as int) =~= chars@);
        }
        assert(k < chars@.len());
    }
    let mut out: Vec<char> = Vec::new();
    push_all(&mut out, vstd::slice::slice_subrange(chars.as_slice(), 0, k));
    push_all(&mut out, vstd::slice::slice_subrange(chars.as_slice(), k + 1, chars.len()));
    proof {
        assert(chars@.subrange(0, k as int) =~= chars@.take(k as int));
        assert(chars@.subrange(k + 1, chars@.len() as int) =~= chars@.skip(k + 1));
    }
    string_from_chars(out.as_slice())
}


/// A copy of a list of optional strings.
fn copy_values(v: &[Option<String>]) -> (r: Vec<Option<String>>)
    ensures
        opt_views(r@) == opt_views(v@),
{
    let mut r: Vec<Option<String>> = Vec::new();
    let mut k: usize = 0;
    while k < v.len()
        invariant
            k <= v@.len(),
            opt_views(r@) == opt_views(v@).take(k as int),
        decreases v@.len() - k,
    {
        let x = match &v[k] {
            Some(s) => Some(s.clone()),
            None => None,
        };
        let ghost before = opt_views(r@);
        r.push(x);
        proof {
            assert(opt_views(r@) =~= before.push(opt_view(v@[k as int])));
            assert(opt_views(v@).take(k + 1) =~= opt_views(v@).take(k as int).push(
                opt_view(v@[k as int]),
            ));
        }
        k += 1;
    }
    proof {
        assert(opt_views(v@).take(v@.len() as int) =~= opt_views(v@));
    }
    r
}

/// The byte range a replacement covers: the given range clamped to the
/// text, or the cursor (clamped) when there is none.
pub open spec fn replace_span(s: Seq<char>, cursor: nat, range: Option<Range<usize>>) -> (int, int) {
    let n = blen(s) as int;
    match range {
        Some(r) => (clamp_to(r.start as int, n), clamp_to(r.end as int, n)),
        None => (clamp_to(cursor as int, n), clamp_to(cursor as int, n)),
    }
}

/// A replacement of that span is defined: it is ordered, on character
/// boundaries, and the cursor after it fits.
pub open spec fn replace_ok(s: Seq<char>, cursor: nat, range: Option<Range<usize>>, t: Seq<char>) -> bool {
    let (a, b) = replace_span(s, cursor, range);
    a <= b && is_boundary(s, a) && is_boundary(s, b) && a + blen(t) <= usize::MAX
}

/// The input being edited, with its cursor.
pub open spec fn input_of(v: PaletteView) -> (Seq<char>, nat) {
    match v.phase {
        PhaseModel::SelectCommand => (v.query, v.query_cursor),
        PhaseModel::InputArg(_, _) => (v.arg_input, v.arg_cursor),
    }
}

/// The palette once `t` replaces the span of the input: a query is
/// refiltered, an option choice starts over.
pub open spec fn replace_text(v: PaletteView, range: Option<Range<usize>>, t: Seq<char>) -> PaletteView {
    let (s, cur) = input_of(v);
    let (a, b) = replace_span(s, cur, range);
    let s2 = replace_bytes(s, a, b, t);
    let c2 = (a + blen(t)) as nat;
    match v.phase {
        PhaseModel::SelectCommand => refilter(PaletteView { query_cursor: c2, ..v }, s2),
        PhaseModel::InputArg(_, _) => {
            let w = PaletteView { arg_input: s2, arg_cursor: c2, ..v };
            if arg_is_select(w) {
                PaletteView { arg_selected: 0, ..w }
            } else {
                w
            }
        },
    }
}

impl CommandPalette {
    /// Enter. Choosing a command without arguments returns it; one with
    /// arguments starts on its first. On an argument, its value is taken
    /// (see [`arg_value`]) and the next argument starts, or, after the
    /// last, the command returns with all the values. A required argument
    /// left empty keeps the palette as it is.
#[verifier::spinoff_prover]
    pub fn handle_confirm(&mut self) -> (r: Option<(String, Vec<Option<String>>)>)
        requires
            old(self).wf(),
        ensures
            final(self).wf(),
            final(self)@ == confirm(old(self)@).0,
            match r {
                Some((label, values)) => confirm(old(self)@).1 == Some((label@, opt_views(values@))),
                None => confirm(old(self)@).1 is None,
            },
    {
        let ghost v = self@;
        if self.selected >= self.filtered.len() {
            return None;
        }
        let c = self.filtered[self.selected];
        proof {
            lemma_matching(v.commands, v.query, v.commands.len() as int);
            assert(v.filtered[v.selected as int] == c);
        }
        let (in_arg, index) = match &self.phase {
            Phase::SelectCommand => (false, 0),
            Phase::InputArg { index, .. } => (true, *index),
        };
        let nargs = self.commands[c].args.len();
        if !in_arg {
            if nargs == 0 {
                let label = self.commands[c].label.clone();
                let r = Some((label, Vec::new()));
                proof {
                    assert(opt_views(Seq::<Option<String>>::empty()) =~= Seq::<Option<Seq<char>>>::empty());
                }
                return r;
            }
            self.phase = Phase::InputArg { index: 0, values: Vec::new() };
            self.arg_input = String::new();
            self.arg_cursor = 0;
            self.arg_selected = 0;
            proof {
                assert(opt_views(Seq::<Option<String>>::empty()) =~= Seq::<Option<Seq<char>>>::empty());
                assert(self@ =~= confirm(v).0);
            }
            return None;
        }
        if index >= nargs {
            return None;
        }
        let optional = self.commands[c].args[index].optional;
        let is_select = match &self.commands[c].args[index].arg_type {
            ArgType::Select { .. } => true,
            ArgType::FreeText { .. } => false,
        };
        let ghost a = v.commands[c as int].args[index as int];
        proof {
            assert(current_arg(v) == Some(a));
        }
        let val: Option<Option<String>> = if is_select {
            let opts = self.filtered_arg_options();
            if self.arg_selected < opts.len() {
                Some(Some(opts[self.arg_selected].clone()))
            } else if optional {
                Some(None)
            } else {
                None
            }
        } else {
            if self.arg_input.as_str().is_empty() {
                if optional {
                    Some(None)
                } else {
                    None
                }
            } else {
                Some(Some(self.arg_input.clone()))
            }
        };
        proof {
            assert(match val {
                Some(x) => arg_value(v, a) == Some(opt_view(x)),
                None => arg_value(v, a) is None,
            });
        }
        let x = match val {
            Some(x) => x,
            None => {
                return None;
            },
        };
        let mut values = match &self.phase {
            Phase::InputArg { values, .. } => copy_values(values.as_slice()),
            Phase::SelectCommand => Vec::new(),
        };
        let ghost vals = opt_views(values@);
        values.push(x);
        proof {
            assert(opt_views(values@) =~= vals.push(arg_value(v, a)->0));
        }
        if index + 1 < nargs {
            self.phase = Phase::InputArg { index: index + 1, values };
            self.arg_input = String::new();
            self.arg_cursor = 0;
            self.arg_selected = 0;
            proof {
                assert(self@ =~= confirm(v).0);
            }
            None
        } else {
            let label = self.commands[c].label.clone();
            Some((label, values))
        }
    }

    /// Escape. Closes the palette (true) when choosing a command; otherwise
    /// goes back to choosing, or to the previous argument.
#[verifier::spinoff_prover]
    pub fn handle_back(&mut self) -> (r: bool)
        requires
            old(self).wf(),
        ensures
            final(self).wf(),
            final(self)@ == back(old(self)@).0,
            r == back(old(self)@).1,
    {
        let ghost v = self@;
        let (index, mut prev) = match &self.phase {
            Phase::SelectCommand => {
                return true;
            },
            Phase::InputArg { index, values } => (*index, copy_values(values.as_slice())),
        };
        if index == 0 {
            self.phase = Phase::SelectCommand;
            self.arg_input = String::new();
            self.arg_cursor = 0;
            proof {
                assert(self@ =~= back(v).0);
            }
            return false;
        }
        let ghost vals = opt_views(prev@);
        let _ = prev.pop();
        proof {
            if vals.len() > 0 {
                assert(opt_views(prev@) =~= vals.drop_last());
            }
        }
        let n = prev.len();
        let input = if n > 0 {
            match &prev[n - 1] {
                Some(s) => s.clone(),
                None => String::new(),
            }
        } else {
            String::new()
        };
        self.arg_cursor = input.as_str().as_bytes().len();
        self.arg_input = input;
        self.phase = Phase::InputArg { index: index - 1, values: prev };
        self.arg_selected = 0;
        proof {
            assert(self@ =~= back(v).0);
        }
        false
    }

    /// Replaces a byte range of the input (the cursor when none) by
    /// `new_text`; a query is refiltered, an option choice starts over.
#[verifier::spinoff_prover]
    pub fn replace_text_in_range(&mut self, range: Option<Range<usize>>, new_text: &str)
        requires
            old(self).wf(),
            replace_ok(input_of(old(self)@).0, input_of(old(self)@).1, range, new_text@),
        ensures
            final(self).wf(),
            final(self)@ == replace_text(old(self)@, range, new_text@),
    {
        let ghost v = self@;
        match self.phase {
            Phase::SelectCommand => {
                let mut q = self.query.clone();
                let mut c = self.query_cursor;
                replace_in_string(&mut q, &mut c, range, new_text);
                self.query = q;
                self.query_cursor = c;
                self.update_filter();
            },
            Phase::InputArg { .. } => {
                let mut q = self.arg_input.clone();
                let mut c = self.arg_cursor;
                replace_in_string(&mut q, &mut c, range, new_text);
                self.arg_input = q;
                self.arg_cursor = c;
                if self.arg_is_choice() {
                    self.arg_selected = 0;
                }
            },
        }
        proof {
            assert(self@ =~= replace_text(v, range, new_text@));
        }
    }

    /// The text of a byte range of the input, clamped to it.
    pub fn text_for_range(&self, range: Range<usize>) -> (r: Option<String>)
        requires
            replace_ok(input_of(self@).0, 0, Some(range), seq![]),
        ensures
            ({
                let s = input_of(self@).0;
                let (a, b) = replace_span(s, 0, Some(range));
                r matches Some(t) && t@ == s.subrange(cidx(s, a), cidx(s, b))
            }),
    {
        let text = match self.phase {
            Phase::SelectCommand => self.query.as_str(),
            Phase::InputArg { .. } => self.arg_input.as_str(),
        };
        let n = text.as_bytes().len();
        let start = if range.start < n {
            range.start
        } else {
            n
        };
        let end = if range.end < n {
            range.end
        } else {
            n
        };
        let chars = chars_of(text);
        let ks = crate::utf8len::char_index_of_byte(chars.as_slice(), start);
        let ke = crate::utf8len::char_index_of_byte(chars.as_slice(), end);
        proof {
            lemma_boundary_split(chars@, start as int);
            lemma_boundary_split(chars@, end as int);
            if ke < ks {
                lemma_blen_mono(chars@, ke as int, ks as int);
            }
        }
        Some(string_from_chars(vstd::slice::slice_subrange(chars.as_slice(), ks, ke)))
    }

    /// The selection of the input: empty, at the cursor.
    pub fn selected_text_range(&self) -> (r: Option<Range<usize>>)
        ensures
            r matches Some(rg) && rg.start == input_of(self@).1 && rg.end == input_of(self@).1,
    {
        let cursor = match self.phase {
            Phase::SelectCommand => self.query_cursor,
            Phase::InputArg { .. } => self.arg_cursor,
        };
        Some(cursor..cursor)
    }

    /// The query typed to choose a command.
    pub fn query(&self) -> (r: &str)
        ensures
            r@ == self@.query,
    {
        self.query.as_str()
    }

    /// Indices of the listed commands.
    pub fn filtered(&self) -> (r: &[usize])
        ensures
            r@ == self@.filtered,
    {
        self.filtered.as_slice()
    }

    /// Position of the selection in the list of commands.
    pub fn selected(&self) -> (r: usize)
        ensures
            r == self@.selected,
    {
        self.selected
    }

    /// The index of the argument being entered, if one is.
    pub fn arg_index(&self) -> (r: Option<usize>)
        ensures
            match self@.phase {
                PhaseModel::SelectCommand => r is None,
                PhaseModel::InputArg(i, _) => r == Some(i as usize),
            },
    {
        match &self.phase {
            Phase::SelectCommand => None,
            Phase::InputArg { index, .. } => Some(*index),
        }
    }

    /// The input of the argument being entered.
    pub fn arg_input(&self) -> (r: &str)
        ensures
            r@ == self@.arg_input,
    {
        self.arg_input.as_str()
    }
}


/// How a piece of the palette's text is drawn: dimmed or bright.
#[derive(Debug, Clone, Copy, PartialEq, Eq, Structural)]
pub enum Tone {
    Dim,
    Bright,
}

/// What the palette shows: for an argument, the command and the step
/// (`label [k/n]`); the prompt line with the cursor drawn as a block and
/// the byte ranges drawn dim or bright; and the listed entries (at most
/// ten), the selected one flagged.
#[derive(Debug)]
pub struct PaletteDisplay {
    pub step: Option<String>,
    pub prompt: String,
    pub spans: Vec<(Range<usize>, Tone)>,
    pub items: Vec<(String, bool)>,
}

/// Model of [`PaletteDisplay`].
pub struct DisplayModel {
    pub step: Option<Seq<char>>,
    pub prompt: Seq<char>,
    pub spans: Seq<((int, int), Tone)>,
    pub items: Seq<(Seq<char>, bool)>,
}

impl PaletteDisplay {
    pub open spec fn view(&self) -> DisplayModel {
        DisplayModel {
            step: opt_view(self.step),
            prompt: self.prompt@,
            spans: self.spans@.map_values(
                |p: (Range<usize>, Tone)| ((p.0.start as int, p.0.end as int), p.1),
            ),
            items: self.items@.map_values(|p: (String, bool)| (p.0@, p.1)),
        }
    }
}

/// The block that marks the cursor.
pub open spec fn block() -> Seq<char> {
    seq!['\u{2588}']
}

/// The decimal digit `d`.
pub open spec fn digit_char(d: nat) -> char {
    if d == 0 {
        '0'
    } else if d == 1 {
        '1'
    } else if d == 2 {
        '2'
    } else if d == 3 {
        '3'
    } else if d == 4 {
        '4'
    } else if d == 5 {
        '5'
    } else if d == 6 {
        '6'
    } else if d == 7 {
        '7'
    } else if d == 8 {
        '8'
    } else {
        '9'
    }
}

/// `n` written in decimal.
pub open spec fn decimal(n: nat) -> Seq<char>
    decreases n,
{
    if n < 10 {
        seq![digit_char(n)]
    } else {
        decimal(n / 10).push(digit_char(n % 10))
    }
}

/// The first ten entries, each flagged when it is the selected one.
pub open spec fn listed(names: Seq<Seq<char>>, sel: nat) -> Seq<(Seq<char>, bool)> {
    let shown = if names.len() > 10 {
        names.take(10)
    } else {
        names
    };
    Seq::new(shown.len(), |i: int| (shown[i], i == sel))
}

/// An input with the cursor drawn as a block at byte `c`.
pub open spec fn with_block(s: Seq<char>, c: nat) -> Seq<char> {
    s.take(cidx(s, c as int)) + block() + s.skip(cidx(s, c as int))
}

/// What the palette shows (see [`PaletteDisplay`]). Choosing a command:
/// the prompt `> ` (dim) and the query with the block (bright), or, with
/// nothing typed, `> ` and the block with one byte of it bright; the
/// matching commands' labels. Entering an argument: the command's label
/// and `[k/n]`; with nothing typed, the argument's prompt and `: ` (bright),
/// the block (bright) and `(optional)` (dim) for an optional argument;
/// with something typed, the prompt and `: ` (dim) and the input with the
/// block (bright); the matching options for a choice.
pub open spec fn displayed(v: PaletteView) -> DisplayModel {
    match v.phase {
        PhaseModel::SelectCommand => {
            let gt = seq!['>', ' '];
            let names = v.filtered.map_values(|i: usize| v.commands[i as int].label);
            let items = listed(names, v.selected);
            if v.query.len() == 0 {
                DisplayModel {
                    step: None,
                    prompt: gt + block(),
                    spans: seq![((0, blen(gt) as int), Tone::Dim), ((blen(gt) as int, blen(gt) as int + 1), Tone::Bright)],
                    items,
                }
            } else {
                let before = gt + v.query.take(cidx(v.query, v.query_cursor as int));
                DisplayModel {
                    step: None,
                    prompt: gt + with_block(v.query, v.query_cursor),
                    spans: seq![
                        ((0, blen(gt) as int), Tone::Dim),
                        ((blen(before) as int, blen(before + block()) as int), Tone::Bright),
                    ],
                    items,
                }
            }
        },
        PhaseModel::InputArg(i, _) => {
            let c = v.commands[v.filtered[v.selected as int] as int];
            let a = c.args[i as int];
            let step = c.label + seq![' ', '['] + decimal(i + 1) + seq!['/'] + decimal(c.args.len())
                + seq![']'];
            let items = match a.arg_type {
                ArgTypeModel::Select(_) => listed(arg_options(v), v.arg_selected),
                ArgTypeModel::FreeText(_) => seq![],
            };
            let colon = seq![':', ' '];
            if v.arg_input.len() == 0 {
                let text = a.prompt + colon + block();
                let full = text + if a.optional {
                    "(optional)"@
                } else {
                    seq![]
                };
                DisplayModel {
                    step: Some(step),
                    prompt: full,
                    spans: seq![
                        ((0, blen(a.prompt + colon) as int), Tone::Bright),
                        ((blen(a.prompt + colon) as int, blen(text) as int), Tone::Bright),
                        ((blen(text) as int, blen(full) as int), Tone::Dim),
                    ],
                    items,
                }
            } else {
                let prefix = a.prompt + colon;
                let before = prefix + v.arg_input.take(cidx(v.arg_input, v.arg_cursor as int));
                DisplayModel {
                    step: Some(step),
                    prompt: prefix + with_block(v.arg_input, v.arg_cursor),
                    spans: seq![
                        ((0, blen(prefix) as int), Tone::Dim),
                        ((blen(before) as int, blen(before + block()) as int), Tone::Bright),
                    ],
                    items,
                }
            }
        },
    }
}

/// The decimal digit `d`.
fn digit(d: usize) -> (c: char)
    requires
        d < 10,
    ensures
        c == digit_char(d as nat),
{
    if d == 0 {
        '0'
    } else if d == 1 {
        '1'
    } else if d == 2 {
        '2'
    } else if d == 3 {
        '3'
    } else if d == 4 {
        '4'
    } else if d == 5 {
        '5'
    } else if d == 6 {
        '6'
    } else if d == 7 {
        '7'
    } else if d == 8 {
        '8'
    } else {
        '9'
    }
}

/// The decimal digits of `n`.
pub(crate) fn decimal_chars(n: usize) -> (r: Vec<char>)
    ensures
        r@ == decimal(n as nat),
    decreases n,
{
    if n < 10 {
        vec![digit(n)]
    } else {
        let mut v = decimal_chars(n / 10);
        v.push(digit(n % 10));
        v
    }
}

/// The first ten entries, each flagged when it is the selected one.
fn listed_items(names: &Vec<String>, sel: usize) -> (r: Vec<(String, bool)>)
    ensures
        r@.map_values(|p: (String, bool)| (p.0@, p.1)) == listed(string_views(names@), sel as nat),
{
    let n = if names.len() > 10 {
        10
    } else {
        names.len()
    };
    let ghost target = listed(string_views(names@), sel as nat);
    let mut r: Vec<(String, bool)> = Vec::new();
    let mut i: usize = 0;
    while i < n
        invariant
            i <= n,
            n <= names@.len(),
            n == target.len(),
            target == listed(string_views(names@), sel as nat),
            r@.map_values(|p: (String, bool)| (p.0@, p.1)) == target.take(i as int),
        decreases n - i,
    {
        let ghost before = r@.map_values(|p: (String, bool)| (p.0@, p.1));
        let name = names[i].clone();
        r.push((name, i == sel));
        proof {
            assert(r@.map_values(|p: (String, bool)| (p.0@, p.1)) =~= before.push((names@[i as int]@, i == sel)));
            assert(target[i as int] == (names@[i as int]@, i == sel));
            assert(target.take(i + 1) =~= target.take(i as int).push(target[i as int]));
        }
        i += 1;
    }
    proof {
        assert(target.take(i as int) =~= target);
    }
    r
}

/// The characters of `s` with the block at byte `c`.
fn chars_with_block(s: &str, c: usize) -> (r: Vec<char>)
    requires
        is_boundary(s@, c as int),
    ensures
        r@ == with_block(s@, c as nat),
{
    let chars = chars_of(s);
    let k = crate::utf8len::char_index_of_byte(chars.as_slice(), c);
    proof {
        lemma_boundary_split(s@, c as int);
    }
    let mut v: Vec<char> = Vec::new();
    push_all(&mut v, vstd::slice::slice_subrange(chars.as_slice(), 0, k));
    v.push('\u{2588}');
    push_all(&mut v, vstd::slice::slice_subrange(chars.as_slice(), k, chars.len()));
    proof {
        assert(v@ =~= with_block(s@, c as nat));
    }
    v
}


/// The text of characters, and its length in bytes.
fn text_and_len(v: &Vec<char>) -> (r: (String, usize))
    ensures
        r.0@ == v@,
        r.1 == blen(v@),
{
    let t = string_from_chars(v.as_slice());
    let n = t.as_str().as_bytes().len();
    (t, n)
}

impl CommandPalette {
    /// What the palette shows (see [`displayed`]). The cursor of the query
    /// or of the argument's input must lie on a character boundary.
    pub fn display(&self) -> (r: PaletteDisplay)
        requires
            self.wf(),
            self@.phase is SelectCommand && self@.query.len() > 0 ==> is_boundary(
                self@.query,
                self@.query_cursor as int,
            ),
            self@.phase is InputArg && self@.arg_input.len() > 0 ==> is_boundary(
                self@.arg_input,
                self@.arg_cursor as int,
            ),
        ensures
            r.view() == displayed(self@),
    {
        let ghost v = self@;
        match &self.phase {
            Phase::SelectCommand => {
                let ghost names_spec = v.filtered.map_values(|i: usize| v.commands[i as int].label);
                proof {
                    lemma_matching(v.commands, v.query, v.commands.len() as int);
                }
                let mut names: Vec<String> = Vec::new();
                let mut t: usize = 0;
                while t < self.filtered.len()
                    invariant
                        t <= self.filtered@.len(),
                        v == self@,
                        self.filtered@ == filter_of(v.commands, v.query),
                        forall|q: int| 0 <= q < self.filtered@.len() ==> (#[trigger] self.filtered@[q]) < v.commands.len(),
                        v.commands.len() == self.commands@.len(),
                        names_spec == v.filtered.map_values(|i: usize| v.commands[i as int].label),
                        string_views(names@) == names_spec.take(t as int),
                    decreases self.filtered@.len() - t,
                {
                    let i = self.filtered[t];
                    let ghost before = string_views(names@);
                    let lbl = self.commands[i].label.clone();
                    names.push(lbl);
                    proof {
                        assert(v.commands[i as int] == self.commands@[i as int].view());
                        assert(string_views(names@) =~= before.push(names_spec[t as int]));
                        assert(names_spec.take(t + 1) =~= names_spec.take(t as int).push(names_spec[t as int]));
                    }
                    t += 1;
                }
                proof {
                    assert(names_spec.take(t as int) =~= names_spec);
                }
                let items = listed_items(&names, self.selected);
                let mut gt: Vec<char> = vec!['>', ' '];
                proof {
                    assert(gt@ =~= seq!['>', ' ']);
                }
                let (_, g) = text_and_len(&gt);
                let qchars = chars_of(self.query.as_str());
                if qchars.len() == 0 {
                    gt.push('\u{2588}');
                    let (prompt, pl) = text_and_len(&gt);
                    proof {
                        assert(gt@ =~= seq!['>', ' '] + block());
                        lemma_blen_concat(seq!['>', ' '], block());
                        crate::utf8len::lemma_blen_single('\u{2588}');
                        crate::utf8len::lemma_clen_bounds('\u{2588}');
                    }
                    let spans = vec![(0..g, Tone::Dim), (g..g + 1, Tone::Bright)];
                    let r = PaletteDisplay { step: None, prompt, spans, items };
                    proof {
                        assert(r.view().spans =~= displayed(v).spans);
                        assert(r.view().items =~= displayed(v).items);
                    }
                    r
                } else {
                    let k = crate::utf8len::char_index_of_byte(qchars.as_slice(), self.query_cursor);
                    proof {
                        lemma_boundary_split(v.query, v.query_cursor as int);
                    }
                    let mut before: Vec<char> = gt.clone();
                    push_all(&mut before, vstd::slice::slice_subrange(qchars.as_slice(), 0, k));
                    let (_, bl) = text_and_len(&before);
                    let mut with: Vec<char> = before.clone();
                    with.push('\u{2588}');
                    let (_, be) = text_and_len(&with);
                    let mut all: Vec<char> = gt.clone();
                    push_all(&mut all, chars_with_block(self.query.as_str(), self.query_cursor).as_slice());
                    let (prompt, _) = text_and_len(&all);
                    let spans = vec![(0..g, Tone::Dim), (bl..be, Tone::Bright)];
                    let r = PaletteDisplay { step: None, prompt, spans, items };
                    proof {
                        assert(before@ =~= seq!['>', ' '] + v.query.take(cidx(v.query, v.query_cursor as int)));
                        assert(with@ =~= before@ + block());
                        assert(r.view().spans =~= displayed(v).spans);
                        assert(r.view().items =~= displayed(v).items);
                    }
                    r
                }
            },
            Phase::InputArg { index, .. } => {
                let index = *index;
                let c = self.filtered[self.selected];
                let cmd = &self.commands[c];
                let a = &cmd.args[index];
                proof {
                    assert(v.commands[c as int] == cmd.view());
                    assert(cmd.view().args[index as int] == a.view());
                }
                proof {
                    assert(index < cmd.view().args.len());
                    assert(cmd.view().args.len() == cmd.args@.len());
                }
                let nargs = cmd.args.len();
                let mut step: Vec<char> = chars_of(cmd.label.as_str());
                step.push(' ');
                step.push('[');
                push_all(&mut step, decimal_chars(index + 1).as_slice());
                step.push('/');
                push_all(&mut step, decimal_chars(nargs).as_slice());
                step.push(']');
                let (step_text, _) = text_and_len(&step);
                proof {
                    assert(step@ =~= cmd.label@ + seq![' ', '['] + decimal((index + 1) as nat) + seq!['/']
                        + decimal(cmd.args@.len()) + seq![']']);
                }
                let items: Vec<(String, bool)> = match &a.arg_type {
                    ArgType::Select { .. } => {
                        let opts = self.filtered_arg_options();
                        listed_items(&opts, self.arg_selected)
                    },
                    ArgType::FreeText { .. } => Vec::new(),
                };
                let mut prefix: Vec<char> = chars_of(a.prompt.as_str());
                prefix.push(':');
                prefix.push(' ');
                let (_, pl) = text_and_len(&prefix);
                proof {
                    assert(prefix@ =~= a.prompt@ + seq![':', ' ']);
                }
                let ichars = chars_of(self.arg_input.as_str());
                if ichars.len() == 0 {
                    let mut text: Vec<char> = prefix.clone();
                    text.push('\u{2588}');
                    let (_, tl) = text_and_len(&text);
                    let mut full: Vec<char> = text.clone();
                    if a.optional {
                        push_all(&mut full, chars_of("(optional)").as_slice());
                    }
                    let (prompt, fl) = text_and_len(&full);
                    let spans = vec![(0..pl, Tone::Bright), (pl..tl, Tone::Bright), (tl..fl, Tone::Dim)];
                    let r = PaletteDisplay { step: Some(step_text), prompt, spans, items };
                    proof {
                        assert(text@ =~= a.prompt@ + seq![':', ' '] + block());
                        if a.optional {
                            assert(full@ =~= text@ + "(optional)"@);
                        } else {
                            assert(full@ =~= text@ + Seq::<char>::empty());
                        }
                        assert(r.view().spans =~= displayed(v).spans);
                        assert(r.view().items =~= displayed(v).items);
                    }
                    r
                } else {
                    let k = crate::utf8len::char_index_of_byte(ichars.as_slice(), self.arg_cursor);
                    proof {
                        lemma_boundary_split(v.arg_input, v.arg_cursor as int);
                    }
                    let mut before: Vec<char> = prefix.clone();
                    push_all(&mut before, vstd::slice::slice_subrange(ichars.as_slice(), 0, k));
                    let (_, bl) = text_and_len(&before);
                    let mut with: Vec<char> = before.clone();
                    with.push('\u{2588}');
                    let (_, be) = text_and_len(&with);
                    let mut all: Vec<char> = prefix.clone();
                    push_all(&mut all, chars_with_block(self.arg_input.as_str(), self.arg_cursor).as_slice());
                    let (prompt, _) = text_and_len(&all);
                    let spans = vec![(0..pl, Tone::Dim), (bl..be, Tone::Bright)];
                    let r = PaletteDisplay { step: Some(step_text), prompt, spans, items };
                    proof {
                        assert(before@ =~= a.prompt@ + seq![':', ' '] + v.arg_input.take(cidx(v.arg_input, v.arg_cursor as int)));
                        assert(with@ =~= before@ + block());
                        assert(r.view().spans =~= displayed(v).spans);
                        assert(r.view().items =~= displayed(v).items);
                    }
                    r
                }
            },
        }
    }
}

} // verus!
