//! Launching items: splitting an argument line, choosing how an item is
//! opened, the order of pauses and launches of a run, and its report.
use vstd::prelude::*;
use vstd::string::StringExecFns;
use crate::config::{ItemKind, LaunchItem};
use crate::host::{
    extension_outcome, known_extension, lemma_some_extension, opt_view, path_extension,
    some_extension,
};
use crate::text::{
    chars_of, eq_ignore_ascii_case, is_white_space, is_whitespace_char, same_chars_ignore_ascii_case,
    string_of, trim, trim_chars,
};

verus! {

/// The outcome of launching one item.
#[derive(Debug)]
pub struct LaunchResult {
    pub id: String,
    pub name: String,
    pub ok: bool,
    pub error: Option<String>,
}

/// The outcome of launching every enabled item.
#[derive(Debug)]
pub struct LaunchReport {
    pub launched: usize,
    pub failed: usize,
    pub results: Vec<LaunchResult>,
}

/// How an item is opened: a program started directly with its arguments,
/// or a target handed to the system's default opener.
#[derive(Debug)]
pub enum LaunchAction {
    Spawn { program: String, args: Vec<String> },
    Open { target: String },
}

/// One step of a launch run: wait some milliseconds, or launch the item at
/// an index of the list.
#[derive(Debug, Clone, Copy, PartialEq, Eq, Structural)]
pub enum LaunchStep {
    Pause(u64),
    Launch(usize),
}

/// The state of splitting an argument line: the finished arguments, the
/// argument being read, and whether a quote is open.
pub type SplitState = (Seq<Seq<char>>, Seq<char>, bool);

/// Reading one character of an argument line: a `"` opens or closes a
/// quote and is dropped; white space outside quotes ends the current
/// argument, if any, and is dropped; any other character is kept.
pub open spec fn split_step(st: SplitState, c: char) -> SplitState {
    let (out, cur, quoted) = st;
    if c == '"' {
        (out, cur, !quoted)
    } else if is_white_space(c) && !quoted {
        if cur.len() > 0 {
            (out.push(cur), seq![], quoted)
        } else {
            (out, cur, quoted)
        }
    } else {
        (out, cur.push(c), quoted)
    }
}

/// The state after reading all of `s`.
pub open spec fn split_state(s: Seq<char>) -> SplitState
    decreases s.len(),
{
    if s.len() == 0 {
        (seq![], seq![], false)
    } else {
        split_step(split_state(s.drop_last()), s.last())
    }
}

/// The arguments of an argument line.
pub open spec fn split_args_rule(s: Seq<char>) -> Seq<Seq<char>> {
    let (out, cur, _) = split_state(s);
    if cur.len() > 0 {
        out.push(cur)
    } else {
        out
    }
}

/// The views of a list of strings.
pub open spec fn string_views(v: Seq<String>) -> Seq<Seq<char>> {
    v.map_values(|s: String| s@)
}

/// Splits an argument line at white space outside double quotes; the
/// quotes themselves are dropped and empty arguments are not kept.
pub fn split_args(input: &str) -> (r: Vec<String>)
    ensures
        string_views(r@) == split_args_rule(input@),
{
    let chars = chars_of(input);
    let n = chars.len();
    let mut out: Vec<String> = Vec::new();
    let mut cur: Vec<char> = Vec::new();
    let mut in_quotes = false;
    for i in 0..n
        invariant
            n == chars@.len(),
            chars@ == input@,
            (string_views(out@), cur@, in_quotes) == split_state(chars@.take(i as int)),
    {
        let c = chars[i];
        let ghost before = (string_views(out@), cur@, in_quotes);
        assert(chars@.take(i + 1).drop_last() == chars@.take(i as int));
        if c == '"' {
            in_quotes = !in_quotes;
        } else if is_whitespace_char(c) && !in_quotes {
            if cur.len() > 0 {
                let ghost old_out = out@;
                out.push(string_of(&cur));
                assert(string_views(out@) == string_views(old_out).push(cur@));
                cur = Vec::new();
            }
        } else {
            cur.push(c);
        }
        assert((string_views(out@), cur@, in_quotes) == split_step(before, c));
    }
    assert(chars@.take(n as int) == chars@);
    if cur.len() > 0 {
        let ghost old_out = out@;
        out.push(string_of(&cur));
        assert(string_views(out@) == string_views(old_out).push(cur@));
    }
    out
}

/// All the parts of `v`, one after the other.
pub open spec fn concat_all(v: Seq<Seq<char>>) -> Seq<char>
    decreases v.len(),
{
    if v.len() == 0 {
        seq![]
    } else {
        concat_all(v.drop_last()) + v.last()
    }
}

/// The characters of an argument line that end up in its arguments: all
/// but the quotes and the white space outside quotes.
pub open spec fn kept_chars(s: Seq<char>) -> Seq<char>
    decreases s.len(),
{
    if s.len() == 0 {
        seq![]
    } else {
        let c = s.last();
        let quoted = split_state(s.drop_last()).2;
        if c == '"' || (is_white_space(c) && !quoted) {
            kept_chars(s.drop_last())
        } else {
            kept_chars(s.drop_last()).push(c)
        }
    }
}

proof fn lemma_split_state_facts(s: Seq<char>)
    ensures
        concat_all(split_state(s).0) + split_state(s).1 == kept_chars(s),
        forall|k: int|
            0 <= k < split_state(s).0.len() ==> (#[trigger] split_state(s).0[k]).len() > 0
                && !split_state(s).0[k].contains('"'),
        !split_state(s).1.contains('"'),
    decreases s.len(),
{
    if s.len() > 0 {
        let p = s.drop_last();
        lemma_split_state_facts(p);
        let (out, cur, quoted) = split_state(p);
        let c = s.last();
        if c == '"' {
        } else if is_white_space(c) && !quoted {
            if cur.len() > 0 {
                assert(out.push(cur).drop_last() == out);
                assert(concat_all(out.push(cur)) == concat_all(out) + cur);
                assert(concat_all(out.push(cur)) + Seq::<char>::empty() == concat_all(out) + cur);
                assert forall|k: int| 0 <= k < out.push(cur).len() implies (#[trigger] out.push(
                    cur,
                )[k]).len() > 0 && !out.push(cur)[k].contains('"') by {
                    if k < out.len() {
                        assert(out.push(cur)[k] == out[k]);
                    }
                }
                assert(!Seq::<char>::empty().contains('"'));
            }
        } else {
            assert(concat_all(out) + cur.push(c) == (concat_all(out) + cur).push(c));
            assert forall|j: int| 0 <= j < cur.push(c).len() implies cur.push(c)[j] != '"' by {
                if j < cur.len() {
                    assert(cur.push(c)[j] == cur[j]);
                }
            }
        }
    } else {
        assert(concat_all(Seq::<Seq<char>>::empty()) + Seq::<char>::empty() == Seq::<
            char,
        >::empty());
    }
}

/// Every argument is non-empty and holds no double quote.
pub proof fn law_split_args_parts(s: Seq<char>)
    ensures
        forall|k: int|
            0 <= k < split_args_rule(s).len() ==> (#[trigger] split_args_rule(s)[k]).len() > 0
                && !split_args_rule(s)[k].contains('"'),
{
    lemma_split_state_facts(s);
    let (out, cur, q) = split_state(s);
    if cur.len() > 0 {
        assert forall|k: int| 0 <= k < out.push(cur).len() implies (#[trigger] out.push(
            cur,
        )[k]).len() > 0 && !out.push(cur)[k].contains('"') by {
            if k < out.len() {
                assert(out.push(cur)[k] == out[k]);
            }
        }
    }
}

/// The arguments, put back together, are the line without its quotes and
/// without the white space outside quotes.
pub proof fn law_split_args_keeps_text(s: Seq<char>)
    ensures
        concat_all(split_args_rule(s)) == kept_chars(s),
{
    lemma_split_state_facts(s);
    let (out, cur, q) = split_state(s);
    if cur.len() > 0 {
        assert(out.push(cur).drop_last() == out);
    } else {
        assert(concat_all(out) + cur == concat_all(out));
    }
}

/// The number of double quotes in `s`.
pub open spec fn quote_count(s: Seq<char>) -> nat
    decreases s.len(),
{
    if s.len() == 0 {
        0
    } else {
        quote_count(s.drop_last()) + if s.last() == '"' {
            1nat
        } else {
            0nat
        }
    }
}

/// `s` without its double quotes.
pub open spec fn without_quotes(s: Seq<char>) -> Seq<char>
    decreases s.len(),
{
    if s.len() == 0 {
        seq![]
    } else if s.last() == '"' {
        without_quotes(s.drop_last())
    } else {
        without_quotes(s.drop_last()).push(s.last())
    }
}

/// The character at index `i` of `s` stands inside quotes: an odd number
/// of double quotes precedes it.
pub open spec fn inside_quotes(s: Seq<char>, i: int) -> bool {
    quote_count(s.take(i)) % 2 == 1
}

/// Every white space character of `s` stands inside quotes.
pub open spec fn white_space_quoted(s: Seq<char>) -> bool {
    forall|i: int| 0 <= i < s.len() && is_white_space(#[trigger] s[i]) ==> inside_quotes(s, i)
}

/// Whether a quote is open after `s` is whether `s` holds an odd number of
/// double quotes.
proof fn lemma_split_quote_parity(s: Seq<char>)
    ensures
        split_state(s).2 == (quote_count(s) % 2 == 1),
    decreases s.len(),
{
    if s.len() > 0 {
        lemma_split_quote_parity(s.drop_last());
    }
}

proof fn lemma_quoted_line_state(s: Seq<char>)
    requires
        white_space_quoted(s),
    ensures
        split_state(s) == (Seq::<Seq<char>>::empty(), without_quotes(s), quote_count(s) % 2 == 1),
    decreases s.len(),
{
    if s.len() > 0 {
        let p = s.drop_last();
        assert forall|i: int| 0 <= i < p.len() && is_white_space(#[trigger] p[i]) implies inside_quotes(
            p,
            i,
        ) by {
            assert(p[i] == s[i]);
            assert(p.take(i) == s.take(i));
        }
        lemma_quoted_line_state(p);
        let c = s.last();
        if is_white_space(c) && c != '"' {
            assert(s[p.len() as int] == c);
            assert(s.take(p.len() as int) == p);
        }
    }
}

/// A line whose white space all stands inside quotes is one argument, the
/// line without its quotes, or none when nothing else is left: a quote
/// never ends an argument by itself.
pub proof fn law_split_args_quoted_line(s: Seq<char>)
    requires
        white_space_quoted(s),
    ensures
        split_args_rule(s) == if without_quotes(s).len() > 0 {
            seq![without_quotes(s)]
        } else {
            Seq::<Seq<char>>::empty()
        },
{
    lemma_quoted_line_state(s);
    if without_quotes(s).len() > 0 {
        assert(Seq::<Seq<char>>::empty().push(without_quotes(s)) == seq![without_quotes(s)]);
    }
}

/// The state after reading `b` from the state `st`.
pub open spec fn split_from(st: SplitState, b: Seq<char>) -> SplitState
    decreases b.len(),
{
    if b.len() == 0 {
        st
    } else {
        split_step(split_from(st, b.drop_last()), b.last())
    }
}

proof fn lemma_split_state_append(a: Seq<char>, b: Seq<char>)
    ensures
        split_state(a + b) == split_from(split_state(a), b),
    decreases b.len(),
{
    if b.len() == 0 {
        assert(a + b == a);
    } else {
        lemma_split_state_append(a, b.drop_last());
        assert((a + b).drop_last() == a + b.drop_last());
        assert((a + b).last() == b.last());
    }
}

proof fn lemma_split_from_shift(o: Seq<Seq<char>>, c: Seq<char>, q: bool, b: Seq<char>)
    ensures
        split_from((o, c, q), b) == (
            o + split_from((Seq::<Seq<char>>::empty(), c, q), b).0,
            split_from((Seq::<Seq<char>>::empty(), c, q), b).1,
            split_from((Seq::<Seq<char>>::empty(), c, q), b).2,
        ),
    decreases b.len(),
{
    if b.len() == 0 {
        assert(o + Seq::<Seq<char>>::empty() == o);
    } else {
        lemma_split_from_shift(o, c, q, b.drop_last());
        let (o1, c1, q1) = split_from((Seq::<Seq<char>>::empty(), c, q), b.drop_last());
        assert((o + o1).push(c1) == o + o1.push(c1));
    }
}

/// White space outside quotes separates arguments: the arguments of a line
/// are those of the text before such a character followed by those of the
/// text after it.
pub proof fn law_split_args_at_unquoted_space(s: Seq<char>, i: int)
    requires
        0 <= i < s.len(),
        is_white_space(s[i]),
        !inside_quotes(s, i),
    ensures
        split_args_rule(s) == split_args_rule(s.take(i)) + split_args_rule(s.skip(i + 1)),
{
    let a = s.take(i + 1);
    let b = s.skip(i + 1);
    let e = Seq::<Seq<char>>::empty();
    assert(s == a + b);
    assert(a.drop_last() == s.take(i));
    assert(a.last() == s[i]);
    lemma_split_quote_parity(s.take(i));
    let left = split_args_rule(s.take(i));
    assert(split_state(a) == (left, Seq::<char>::empty(), false));
    lemma_split_state_append(a, b);
    lemma_split_state_append(Seq::<char>::empty(), b);
    assert(Seq::<char>::empty() + b == b);
    lemma_split_from_shift(left, Seq::<char>::empty(), false, b);
    let (ob, cb, qb) = split_state(b);
    if cb.len() > 0 {
        assert((left + ob).push(cb) == left + ob.push(cb));
    }
}

/// `lnk`
pub open spec fn lnk_extension() -> Seq<char> {
    seq!['l', 'n', 'k']
}

/// Whether a path extension marks a Windows shortcut.
pub open spec fn is_shortcut_extension(e: Option<Seq<char>>) -> bool {
    e matches Some(x) && eq_ignore_ascii_case(x, lnk_extension())
}

/// Whether `target` is a Windows shortcut: its path extension is `lnk` in
/// any ASCII case.
pub fn is_shortcut(target: &str) -> (r: bool)
    ensures
        exists|e: Option<Seq<char>>| extension_outcome(target@, e) && r == is_shortcut_extension(e),
        r ==> target@.contains('.'),
        known_extension(target@) matches Some(e) ==> r == is_shortcut_extension(e),
{
    let ext = path_extension(target);
    let lnk = vec!['l', 'n', 'k'];
    assert(lnk@ == lnk_extension());
    let r = match &ext {
        Some(e) => same_chars_ignore_ascii_case(&chars_of(e.as_str()), &lnk),
        None => false,
    };
    assert(extension_outcome(target@, opt_view(ext)));
    assert(r == is_shortcut_extension(opt_view(ext)));
    proof {
        if r {
            assert(target@.contains('.')) by {
                let x = opt_view(ext)->Some_0;
                let i = choose|i: int|
                    0 <= i && i + (seq!['.'] + x).len() <= target@.len() && #[trigger] target@.subrange(
                        i,
                        i + (seq!['.'] + x).len(),
                    ) == seq!['.'] + x;
                assert(target@.subrange(i, i + (seq!['.'] + x).len())[0] == '.');
                assert(target@[i] == '.');
            }
        }
    }
    r
}

/// Whether an item is started directly as a program: it is a program, its
/// argument line is not blank, and it is not a shortcut.
pub open spec fn spawns(item: LaunchItem, shortcut: bool) -> bool {
    item.kind == ItemKind::App && trim(item.args@).len() > 0 && !shortcut
}

/// How an item is opened, given whether its target is a shortcut.
pub open spec fn action_rule(item: LaunchItem, shortcut: bool, r: LaunchAction) -> bool {
    if spawns(item, shortcut) {
        r matches LaunchAction::Spawn { program, args } && program@ == item.target@ && string_views(
            args@,
        ) == split_args_rule(item.args@)
    } else {
        r matches LaunchAction::Open { target } && target@ == item.target@
    }
}

/// How `item` is opened when `shortcut` says whether its target is a
/// shortcut: a program with arguments is started directly with its split
/// argument line; anything else goes to the system's default opener.
pub fn launch_action(item: &LaunchItem, shortcut: bool) -> (r: LaunchAction)
    ensures
        action_rule(*item, shortcut, r),
{
    let blank = trim_chars(&chars_of(item.args.as_str())).len() == 0;
    match item.kind {
        ItemKind::App => {
            if !blank && !shortcut {
                LaunchAction::Spawn {
                    program: item.target.clone(),
                    args: split_args(item.args.as_str()),
                }
            } else {
                LaunchAction::Open { target: item.target.clone() }
            }
        },
        _ => LaunchAction::Open { target: item.target.clone() },
    }
}

/// How `item` is opened: a program with a non-blank argument line that is
/// not a shortcut is started directly with its split arguments; anything
/// else goes to the system's default opener.
pub fn launch_item(item: &LaunchItem) -> (r: LaunchAction)
    ensures
        exists|e: Option<Seq<char>>|
            extension_outcome(item.target@, e) && action_rule(*item, is_shortcut_extension(e), r),
        (item.kind != ItemKind::App || trim(item.args@).len() == 0) ==> action_rule(
            *item,
            false,
            r,
        ),
        known_extension(item.target@) matches Some(e) ==> action_rule(
            *item,
            is_shortcut_extension(e),
            r,
        ),
{
    let blank = trim_chars(&chars_of(item.args.as_str())).len() == 0;
    match item.kind {
        ItemKind::App => {
            if !blank {
                let shortcut = is_shortcut(item.target.as_str());
                launch_action(item, shortcut)
            } else {
                let r = launch_action(item, false);
                proof {
                    let ghost e = some_extension(item.target@);
                    lemma_some_extension(item.target@);
                    assert(action_rule(*item, is_shortcut_extension(e), r));
                }
                r
            }
        },
        _ => {
            let r = launch_action(item, false);
            proof {
                let ghost e = some_extension(item.target@);
                lemma_some_extension(item.target@);
                assert(action_rule(*item, is_shortcut_extension(e), r));
            }
            r
        },
    }
}

/// The indices of the enabled items, in list order.
pub open spec fn enabled_positions(items: Seq<LaunchItem>) -> Seq<int>
    decreases items.len(),
{
    if items.len() == 0 {
        seq![]
    } else {
        let p = enabled_positions(items.drop_last());
        if items.last().enabled {
            p.push(items.len() - 1)
        } else {
            p
        }
    }
}

/// The steps for the `k`-th enabled item (at index `pos[k]`): its own
/// pause, if any, its launch, and the pause between launches unless it is
/// the last one.
pub open spec fn item_steps(items: Seq<LaunchItem>, pos: Seq<int>, k: int, stagger_ms: u64) -> Seq<
    LaunchStep,
> {
    let i = pos[k];
    let d = items[i].delay_ms;
    (if d > 0 {
        seq![LaunchStep::Pause(d)]
    } else {
        seq![]
    }) + seq![LaunchStep::Launch(i as usize)] + (if k + 1 < pos.len() && stagger_ms > 0 {
        seq![LaunchStep::Pause(stagger_ms)]
    } else {
        seq![]
    })
}

/// The steps for the first `k` enabled items.
pub open spec fn steps_upto(items: Seq<LaunchItem>, pos: Seq<int>, k: int, stagger_ms: u64) -> Seq<
    LaunchStep,
>
    decreases k,
{
    if k <= 0 {
        seq![]
    } else {
        steps_upto(items, pos, k - 1, stagger_ms) + item_steps(items, pos, k - 1, stagger_ms)
    }
}

/// The steps of a launch run over `items`.
pub open spec fn launch_plan(items: Seq<LaunchItem>, stagger_ms: u64) -> Seq<LaunchStep> {
    let pos = enabled_positions(items);
    steps_upto(items, pos, pos.len() as int, stagger_ms)
}

proof fn lemma_enabled_positions_bounds(items: Seq<LaunchItem>)
    ensures
        forall|k: int|
            0 <= k < enabled_positions(items).len() ==> 0 <= #[trigger] enabled_positions(items)[k]
                < items.len() && items[enabled_positions(items)[k]].enabled,
        forall|a: int, b: int|
            0 <= a < b < enabled_positions(items).len() ==> #[trigger] enabled_positions(items)[a]
                < #[trigger] enabled_positions(items)[b],
    decreases items.len(),
{
    if items.len() > 0 {
        let p = enabled_positions(items.drop_last());
        lemma_enabled_positions_bounds(items.drop_last());
        assert forall|k: int| 0 <= k < p.len() implies items[#[trigger] p[k]] == items.drop_last()[p[k]] by {
        }
    }
}

/// Runs the enabled items, in list order: before each one its own delay,
/// and between two launches the stagger pause; a pause of zero is left
/// out.
pub fn launch_enabled(items: &[LaunchItem], stagger_ms: u64) -> (r: Vec<LaunchStep>)
    ensures
        r@ == launch_plan(items@, stagger_ms),
{
    let n = items.len();
    let mut pos: Vec<usize> = Vec::new();
    for i in 0..n
        invariant
            n == items@.len(),
            pos@.map_values(|p: usize| p as int) == enabled_positions(items@.take(i as int)),
    {
        assert(items@.take(i + 1).drop_last() == items@.take(i as int));
        let ghost before = pos@;
        if items[i].enabled {
            pos.push(i);
            assert(pos@.map_values(|p: usize| p as int) == before.map_values(|p: usize| p as int).push(
                i as int,
            ));
        }
    }
    assert(items@.take(n as int) == items@);
    let ghost gp = enabled_positions(items@);
    proof {
        lemma_enabled_positions_bounds(items@);
    }
    assert(forall|k: int| 0 <= k < pos@.len() ==> pos@[k] as int == #[trigger] gp[k]);
    let m = pos.len();
    let mut steps: Vec<LaunchStep> = Vec::new();
    for k in 0..m
        invariant
            m == pos@.len() == gp.len(),
            n == items@.len(),
            gp == enabled_positions(items@),
            forall|q: int| 0 <= q < pos@.len() ==> pos@[q] as int == #[trigger] gp[q],
            forall|q: int| 0 <= q < gp.len() ==> 0 <= #[trigger] gp[q] < items@.len(),
            steps@ == steps_upto(items@, gp, k as int, stagger_ms),
    {
        let i = pos[k];
        assert(gp[k as int] == i);
        let d = items[i].delay_ms;
        let ghost before = steps@;
        if d > 0 {
            steps.push(LaunchStep::Pause(d));
        }
        steps.push(LaunchStep::Launch(i));
        if k + 1 < m && stagger_ms > 0 {
            steps.push(LaunchStep::Pause(stagger_ms));
        }
        assert(steps@ == before + item_steps(items@, gp, k as int, stagger_ms));
    }
    steps
}

/// The indices launched by a list of steps, in order.
pub open spec fn launched_indices(steps: Seq<LaunchStep>) -> Seq<int>
    decreases steps.len(),
{
    if steps.len() == 0 {
        seq![]
    } else {
        let p = launched_indices(steps.drop_last());
        match steps.last() {
            LaunchStep::Launch(i) => p.push(i as int),
            LaunchStep::Pause(_) => p,
        }
    }
}

proof fn lemma_launched_indices_append(a: Seq<LaunchStep>, b: Seq<LaunchStep>)
    ensures
        launched_indices(a + b) == launched_indices(a) + launched_indices(b),
    decreases b.len(),
{
    if b.len() == 0 {
        assert(a + b == a);
    } else {
        lemma_launched_indices_append(a, b.drop_last());
        assert((a + b).drop_last() == a + b.drop_last());
    }
}

proof fn lemma_steps_launch(items: Seq<LaunchItem>, pos: Seq<int>, k: int, stagger_ms: u64)
    requires
        0 <= k <= pos.len(),
        items.len() <= usize::MAX,
        forall|q: int| 0 <= q < pos.len() ==> 0 <= #[trigger] pos[q] < items.len(),
    ensures
        launched_indices(steps_upto(items, pos, k, stagger_ms)) == pos.take(k),
    decreases k,
{
    reveal_with_fuel(launched_indices, 2);
    if k > 0 {
        let j = k - 1;
        lemma_steps_launch(items, pos, j, stagger_ms);
        let d = items[pos[j]].delay_ms;
        let pre: Seq<LaunchStep> = if d > 0 {
            seq![LaunchStep::Pause(d)]
        } else {
            seq![]
        };
        let post: Seq<LaunchStep> = if j + 1 < pos.len() && stagger_ms > 0 {
            seq![LaunchStep::Pause(stagger_ms)]
        } else {
            seq![]
        };
        let mid: Seq<LaunchStep> = seq![LaunchStep::Launch(pos[j] as usize)];
        assert(item_steps(items, pos, j, stagger_ms) == pre + mid + post);
        lemma_launched_indices_append(pre + mid, post);
        lemma_launched_indices_append(pre, mid);
        assert(launched_indices(pre) == Seq::<int>::empty()) by {
            if d > 0 {
                assert(pre.drop_last() == Seq::<LaunchStep>::empty());
            }
        }
        assert(launched_indices(post) == Seq::<int>::empty()) by {
            if post.len() > 0 {
                assert(post.drop_last() == Seq::<LaunchStep>::empty());
            }
        }
        assert(mid.drop_last() == Seq::<LaunchStep>::empty());
        assert(launched_indices(mid) == seq![pos[j]]);
        lemma_launched_indices_append(
            steps_upto(items, pos, j, stagger_ms),
            item_steps(items, pos, j, stagger_ms),
        );
        assert(pos.take(k) == pos.take(j) + seq![pos[j]]);
    }
}

/// A launch run launches exactly the enabled items, each once, in list
/// order; disabled items are never launched.
pub proof fn law_plan_launches_enabled_items(items: Seq<LaunchItem>, stagger_ms: u64)
    requires
        items.len() <= usize::MAX,
    ensures
        launched_indices(launch_plan(items, stagger_ms)) == enabled_positions(items),
        forall|k: int|
            0 <= k < launched_indices(launch_plan(items, stagger_ms)).len() ==> items[
                #[trigger] launched_indices(launch_plan(items, stagger_ms))[k]
            ].enabled,
{
    let pos = enabled_positions(items);
    lemma_enabled_positions_bounds(items);
    lemma_steps_launch(items, pos, pos.len() as int, stagger_ms);
    assert(pos.take(pos.len() as int) == pos);
}

proof fn lemma_steps_prefix(items: Seq<LaunchItem>, pos: Seq<int>, a: int, b: int, stagger_ms: u64)
    requires
        0 <= a <= b,
    ensures
        steps_upto(items, pos, a, stagger_ms).len() <= steps_upto(items, pos, b, stagger_ms).len(),
        forall|j: int|
            0 <= j < steps_upto(items, pos, a, stagger_ms).len() ==> #[trigger] steps_upto(
                items,
                pos,
                b,
                stagger_ms,
            )[j] == steps_upto(items, pos, a, stagger_ms)[j],
    decreases b - a,
{
    if a < b {
        lemma_steps_prefix(items, pos, a, b - 1, stagger_ms);
        let s = steps_upto(items, pos, b - 1, stagger_ms);
        assert(steps_upto(items, pos, b, stagger_ms) == s + item_steps(items, pos, b - 1, stagger_ms));
    }
}

/// `steps` holds a pause of `d` milliseconds right before the launch of the
/// item at index `i`.
pub open spec fn waits_then_launches(steps: Seq<LaunchStep>, d: u64, i: int) -> bool {
    exists|j: int|
        0 <= j && j + 1 < steps.len() && #[trigger] steps[j] == LaunchStep::Pause(d) && steps[j
            + 1] == LaunchStep::Launch(i as usize)
}

/// Every enabled item with a delay of its own waits that delay right
/// before it is launched, the first one of the run included.
pub proof fn law_plan_honours_item_delays(items: Seq<LaunchItem>, stagger_ms: u64)
    requires
        items.len() <= usize::MAX,
    ensures
        forall|k: int|
            0 <= k < enabled_positions(items).len() && items[#[trigger] enabled_positions(
                items,
            )[k]].delay_ms > 0 ==> waits_then_launches(
                launch_plan(items, stagger_ms),
                items[enabled_positions(items)[k]].delay_ms,
                enabled_positions(items)[k],
            ),
{
    let pos = enabled_positions(items);
    let n = pos.len() as int;
    let plan = launch_plan(items, stagger_ms);
    lemma_enabled_positions_bounds(items);
    assert forall|k: int|
        0 <= k < n && items[#[trigger] pos[k]].delay_ms > 0 implies waits_then_launches(
        plan,
        items[pos[k]].delay_ms,
        pos[k],
    ) by {
        let d = items[pos[k]].delay_ms;
        let pre = steps_upto(items, pos, k, stagger_ms);
        let cur = steps_upto(items, pos, k + 1, stagger_ms);
        let st = item_steps(items, pos, k, stagger_ms);
        assert(cur == pre + st);
        assert(st[0] == LaunchStep::Pause(d));
        assert(st[1] == LaunchStep::Launch(pos[k] as usize));
        lemma_steps_prefix(items, pos, k + 1, n, stagger_ms);
        let j = pre.len() as int;
        assert(cur[j] == st[0]);
        assert(cur[j + 1] == st[1]);
        assert(plan[j] == cur[j]);
        assert(plan[j + 1] == cur[j + 1]);
    }
}

/// The pauses before the launch of the `k`-th enabled item: the stagger
/// pause after the previous launch (none before the first launch), then
/// the item's own delay; a pause of zero is left out.
pub open spec fn pauses_before(items: Seq<LaunchItem>, pos: Seq<int>, k: int, stagger_ms: u64) -> Seq<
    LaunchStep,
> {
    let d = items[pos[k]].delay_ms;
    (if k > 0 && stagger_ms > 0 {
        seq![LaunchStep::Pause(stagger_ms)]
    } else {
        seq![]
    }) + (if d > 0 {
        seq![LaunchStep::Pause(d)]
    } else {
        seq![]
    })
}

/// The first `k` enabled items, each launched after its pauses.
pub open spec fn launches_upto(items: Seq<LaunchItem>, pos: Seq<int>, k: int, stagger_ms: u64) -> Seq<
    LaunchStep,
>
    decreases k,
{
    if k <= 0 {
        seq![]
    } else {
        launches_upto(items, pos, k - 1, stagger_ms) + pauses_before(items, pos, k - 1, stagger_ms)
            + seq![LaunchStep::Launch(pos[k - 1] as usize)]
    }
}

proof fn lemma_steps_as_launches(items: Seq<LaunchItem>, pos: Seq<int>, k: int, stagger_ms: u64)
    requires
        0 <= k <= pos.len(),
    ensures
        steps_upto(items, pos, k, stagger_ms) == launches_upto(items, pos, k, stagger_ms) + (if 0
            < k < pos.len() && stagger_ms > 0 {
            seq![LaunchStep::Pause(stagger_ms)]
        } else {
            Seq::<LaunchStep>::empty()
        }),
    decreases k,
{
    if k > 0 {
        let j = k - 1;
        lemma_steps_as_launches(items, pos, j, stagger_ms);
        let d = items[pos[j]].delay_ms;
        let own: Seq<LaunchStep> = if d > 0 {
            seq![LaunchStep::Pause(d)]
        } else {
            seq![]
        };
        let lead: Seq<LaunchStep> = if j > 0 && stagger_ms > 0 {
            seq![LaunchStep::Pause(stagger_ms)]
        } else {
            seq![]
        };
        let tail: Seq<LaunchStep> = if k < pos.len() && stagger_ms > 0 {
            seq![LaunchStep::Pause(stagger_ms)]
        } else {
            seq![]
        };
        let mid: Seq<LaunchStep> = seq![LaunchStep::Launch(pos[j] as usize)];
        let before = launches_upto(items, pos, j, stagger_ms);
        assert(item_steps(items, pos, j, stagger_ms) == own + mid + tail);
        assert(pauses_before(items, pos, j, stagger_ms) == lead + own);
        assert(steps_upto(items, pos, j, stagger_ms) == before + lead);
        assert(before + lead + (own + mid + tail) == before + (lead + own) + mid + tail);
    }
}

/// A run is, for each enabled item in list order, the stagger pause after
/// the previous launch (none before the first launch), the item's own
/// delay, and its launch; a pause of zero is left out, and nothing follows
/// the last launch.
pub proof fn law_plan_shape(items: Seq<LaunchItem>, stagger_ms: u64)
    ensures
        launch_plan(items, stagger_ms) == launches_upto(
            items,
            enabled_positions(items),
            enabled_positions(items).len() as int,
            stagger_ms,
        ),
{
    let pos = enabled_positions(items);
    lemma_steps_as_launches(items, pos, pos.len() as int, stagger_ms);
    let l = launches_upto(items, pos, pos.len() as int, stagger_ms);
    assert(l + Seq::<LaunchStep>::empty() == l);
}

/// The total of the pauses of a list of steps.
pub open spec fn pause_total(steps: Seq<LaunchStep>) -> int
    decreases steps.len(),
{
    if steps.len() == 0 {
        0
    } else {
        pause_total(steps.drop_last()) + match steps.last() {
            LaunchStep::Pause(d) => d as int,
            LaunchStep::Launch(_) => 0,
        }
    }
}

/// The total of the own delays of the enabled items.
pub open spec fn enabled_delay_total(items: Seq<LaunchItem>) -> int
    decreases items.len(),
{
    if items.len() == 0 {
        0
    } else {
        enabled_delay_total(items.drop_last()) + if items.last().enabled {
            items.last().delay_ms as int
        } else {
            0
        }
    }
}

/// The total of the own delays of the items at the first `k` indices of
/// `pos`.
pub open spec fn listed_delay_total(items: Seq<LaunchItem>, pos: Seq<int>, k: int) -> int
    decreases k,
{
    if k <= 0 {
        0
    } else {
        listed_delay_total(items, pos, k - 1) + items[pos[k - 1]].delay_ms as int
    }
}

proof fn lemma_pause_total_append(a: Seq<LaunchStep>, b: Seq<LaunchStep>)
    ensures
        pause_total(a + b) == pause_total(a) + pause_total(b),
    decreases b.len(),
{
    if b.len() == 0 {
        assert(a + b == a);
    } else {
        lemma_pause_total_append(a, b.drop_last());
        assert((a + b).drop_last() == a + b.drop_last());
    }
}

proof fn lemma_listed_delay_total_same(
    items1: Seq<LaunchItem>,
    pos1: Seq<int>,
    items2: Seq<LaunchItem>,
    pos2: Seq<int>,
    k: int,
)
    requires
        forall|q: int| 0 <= q < k ==> items1[pos1[q]].delay_ms == #[trigger] items2[pos2[q]].delay_ms,
    ensures
        listed_delay_total(items1, pos1, k) == listed_delay_total(items2, pos2, k),
    decreases k,
{
    if k > 0 {
        lemma_listed_delay_total_same(items1, pos1, items2, pos2, k - 1);
    }
}

proof fn lemma_enabled_delay_total(items: Seq<LaunchItem>)
    ensures
        enabled_delay_total(items) == listed_delay_total(
            items,
            enabled_positions(items),
            enabled_positions(items).len() as int,
        ),
    decreases items.len(),
{
    if items.len() > 0 {
        let p0 = items.drop_last();
        let p = enabled_positions(p0);
        lemma_enabled_delay_total(p0);
        lemma_enabled_positions_bounds(p0);
        let m = p.len() as int;
        assert forall|q: int| 0 <= q < m implies items[p[q]].delay_ms == #[trigger] p0[p[q]].delay_ms by {
        }
        lemma_listed_delay_total_same(items, p, p0, p, m);
        if items.last().enabled {
            let pp = p.push(items.len() - 1);
            assert forall|q: int| 0 <= q < m implies items[pp[q]].delay_ms == #[trigger] items[
                p[q]
            ].delay_ms by {
                assert(pp[q] == p[q]);
            }
            lemma_listed_delay_total_same(items, pp, items, p, m);
            assert(pp[m] == items.len() - 1);
        }
    }
}

/// The number of pauses between launches among the steps of the first `k`
/// of `n` enabled items.
pub open spec fn staggers_upto(k: int, n: int) -> int {
    if k <= 0 {
        0
    } else if k < n {
        k
    } else {
        k - 1
    }
}

#[verifier::spinoff_prover]
proof fn lemma_steps_pause_total(items: Seq<LaunchItem>, pos: Seq<int>, k: int, stagger_ms: u64)
    requires
        0 <= k <= pos.len(),
    ensures
        pause_total(steps_upto(items, pos, k, stagger_ms)) == listed_delay_total(items, pos, k)
            + stagger_ms * staggers_upto(k, pos.len() as int),
    decreases k,
{
    reveal_with_fuel(pause_total, 2);
    if k > 0 {
        let j = k - 1;
        let n = pos.len() as int;
        lemma_steps_pause_total(items, pos, j, stagger_ms);
        let d = items[pos[j]].delay_ms;
        let pre: Seq<LaunchStep> = if d > 0 {
            seq![LaunchStep::Pause(d)]
        } else {
            seq![]
        };
        let post: Seq<LaunchStep> = if j + 1 < n && stagger_ms > 0 {
            seq![LaunchStep::Pause(stagger_ms)]
        } else {
            seq![]
        };
        let mid: Seq<LaunchStep> = seq![LaunchStep::Launch(pos[j] as usize)];
        assert(item_steps(items, pos, j, stagger_ms) == pre + mid + post);
        lemma_pause_total_append(pre + mid, post);
        lemma_pause_total_append(pre, mid);
        assert(pause_total(pre) == d) by {
            if d > 0 {
                assert(pre.drop_last() == Seq::<LaunchStep>::empty());
            }
        }
        assert(pause_total(post) == if j + 1 < n {
            stagger_ms as int
        } else {
            0
        }) by {
            if post.len() > 0 {
                assert(post.drop_last() == Seq::<LaunchStep>::empty());
            }
        }
        assert(mid.drop_last() == Seq::<LaunchStep>::empty());
        lemma_pause_total_append(
            steps_upto(items, pos, j, stagger_ms),
            item_steps(items, pos, j, stagger_ms),
        );
        let a = staggers_upto(j, n);
        let b = staggers_upto(k, n);
        let between: int = if j + 1 < n {
            stagger_ms as int
        } else {
            0
        };
        assert(stagger_ms * b == stagger_ms * a + between) by {
            if j + 1 < n {
                assert(b == a + 1);
                assert(stagger_ms * b == stagger_ms * a + stagger_ms) by (nonlinear_arith)
                    requires
                        b == a + 1,
                ;
            } else {
                assert(b == a);
            }
        }
        assert(pause_total(item_steps(items, pos, j, stagger_ms)) == d + between);
        assert(listed_delay_total(items, pos, k) == listed_delay_total(items, pos, j) + d);
    }
}

/// A run pauses, in all, the own delays of the enabled items and one
/// stagger pause between each two launches.
pub proof fn law_plan_pause_total(items: Seq<LaunchItem>, stagger_ms: u64)
    ensures
        pause_total(launch_plan(items, stagger_ms)) == enabled_delay_total(items) + if enabled_positions(
            items,
        ).len() > 0 {
            stagger_ms * (enabled_positions(items).len() - 1)
        } else {
            0
        },
{
    let pos = enabled_positions(items);
    lemma_steps_pause_total(items, pos, pos.len() as int, stagger_ms);
    lemma_enabled_delay_total(items);
}

/// What a launch result says of an item and the outcome of launching it.
pub open spec fn result_matches(r: LaunchResult, item: LaunchItem, outcome: Result<(), String>) -> bool {
    &&& r.id@ == item.id@
    &&& r.name@ == item.name@
    &&& r.ok == (outcome is Ok)
    &&& match outcome {
        Ok(_) => r.error is None,
        Err(e) => r.error matches Some(m) && m@ == e@,
    }
}

/// The result of launching `item` with the given outcome.
pub fn launch_result(item: &LaunchItem, outcome: Result<(), String>) -> (r: LaunchResult)
    ensures
        result_matches(r, *item, outcome),
{
    match outcome {
        Ok(()) => LaunchResult {
            id: item.id.clone(),
            name: item.name.clone(),
            ok: true,
            error: None,
        },
        Err(error) => LaunchResult {
            id: item.id.clone(),
            name: item.name.clone(),
            ok: false,
            error: Some(error),
        },
    }
}

/// The number of successful outcomes.
pub open spec fn count_ok(outcomes: Seq<Result<(), String>>) -> nat
    decreases outcomes.len(),
{
    if outcomes.len() == 0 {
        0
    } else {
        count_ok(outcomes.drop_last()) + if outcomes.last() is Ok {
            1nat
        } else {
            0nat
        }
    }
}

/// The report of a launch run over `items`, where `outcomes[k]` is the
/// outcome of launching the `k`-th enabled item: one result an enabled
/// item, in order, and how many launches succeeded and failed.
pub fn launch_report(items: &[LaunchItem], outcomes: &[Result<(), String>]) -> (r: LaunchReport)
    requires
        outcomes@.len() == enabled_positions(items@).len(),
    ensures
        r.results@.len() == outcomes@.len(),
        forall|k: int|
            0 <= k < outcomes@.len() ==> result_matches(
                #[trigger] r.results@[k],
                items@[enabled_positions(items@)[k]],
                outcomes@[k],
            ),
        r.launched == count_ok(outcomes@),
        r.failed == outcomes@.len() - count_ok(outcomes@),
{
    let n = items.len();
    let mut pos: Vec<usize> = Vec::new();
    for i in 0..n
        invariant
            n == items@.len(),
            pos@.map_values(|p: usize| p as int) == enabled_positions(items@.take(i as int)),
    {
        assert(items@.take(i + 1).drop_last() == items@.take(i as int));
        let ghost before = pos@;
        if items[i].enabled {
            pos.push(i);
            assert(pos@.map_values(|p: usize| p as int) == before.map_values(|p: usize| p as int).push(
                i as int,
            ));
        }
    }
    assert(items@.take(n as int) == items@);
    let ghost gp = enabled_positions(items@);
    proof {
        lemma_enabled_positions_bounds(items@);
    }
    assert(forall|k: int| 0 <= k < pos@.len() ==> pos@[k] as int == #[trigger] gp[k]);
    let m = outcomes.len();
    let mut results: Vec<LaunchResult> = Vec::new();
    let mut launched: usize = 0;
    let mut k: usize = 0;
    let ghost all = outcomes@;
    while k < m
        invariant
            m == all.len() == gp.len() == pos@.len(),
            n == items@.len(),
            gp == enabled_positions(items@),
            forall|q: int| 0 <= q < pos@.len() ==> pos@[q] as int == #[trigger] gp[q],
            forall|q: int| 0 <= q < gp.len() ==> 0 <= #[trigger] gp[q] < items@.len(),
            k <= m,
            outcomes@ == all,
            results@.len() == k,
            forall|q: int|
                0 <= q < k ==> result_matches(#[trigger] results@[q], items@[gp[q]], all[q]),
            launched == count_ok(all.take(k as int)),
            launched <= k,
        decreases m - k,
    {
        let i = pos[k];
        assert(gp[k as int] == i);
        let (is_ok, res) = match &outcomes[k] {
            Ok(()) => (true, launch_result(&items[i], Ok(()))),
            Err(e) => (false, launch_result(&items[i], Err(e.clone()))),
        };
        results.push(res);
        assert(all.take(k + 1).drop_last() == all.take(k as int));
        if is_ok {
            launched = launched + 1;
        }
        k = k + 1;
    }
    assert(all.take(m as int) == all);
    LaunchReport { launched, failed: m - launched, results }
}

/// Every enabled item gets one result, and each is counted once as
/// launched or failed.
pub proof fn law_report_counts(outcomes: Seq<Result<(), String>>)
    ensures
        count_ok(outcomes) <= outcomes.len(),
    decreases outcomes.len(),
{
    if outcomes.len() > 0 {
        law_report_counts(outcomes.drop_last());
    }
}

/// Windows' "access denied" error code.
pub open spec fn access_denied_code() -> i32 {
    5
}

/// Windows' "file not found" error code.
pub open spec fn not_found_code() -> i32 {
    2
}

/// The message for a launch the system refused.
pub open spec fn access_denied_message() -> Seq<char> {
    "Windows blocked this open (access denied)."@
}

/// The message for a target that is not there.
pub open spec fn not_found_message() -> Seq<char> {
    "Not found. The path may have moved."@
}

/// The message shown for an I/O error with the given OS error code and
/// text.
pub open spec fn io_message_rule(raw_os_error: Option<i32>, text: Seq<char>) -> Seq<char> {
    match raw_os_error {
        Some(code) => if code == access_denied_code() {
            access_denied_message()
        } else if code == not_found_code() {
            not_found_message()
        } else {
            text
        },
        None => text,
    }
}

/// Whether an OS error code is Windows' "access denied".
pub fn is_access_denied(raw_os_error: Option<i32>) -> (r: bool)
    ensures
        r == (raw_os_error == Some(access_denied_code())),
{
    match raw_os_error {
        Some(code) => code == 5,
        None => false,
    }
}

/// The message shown for an I/O error: a plain sentence for "access
/// denied" and "not found", else the error's own text.
pub fn io_error_message(raw_os_error: Option<i32>, text: String) -> (r: String)
    ensures
        r@ == io_message_rule(raw_os_error, text@),
{
    match raw_os_error {
        Some(5) => String::from_str("Windows blocked this open (access denied)."),
        Some(2) => String::from_str("Not found. The path may have moved."),
        _ => text,
    }
}

/// The message shown when a program could not be started: "not found"
/// when the error is of that kind, else as for any I/O error.
pub fn spawn_error_message(not_found: bool, raw_os_error: Option<i32>, text: String) -> (r: String)
    ensures
        r@ == if not_found {
            not_found_message()
        } else {
            io_message_rule(raw_os_error, text@)
        },
{
    if not_found {
        String::from_str("Not found. The path may have moved.")
    } else {
        io_error_message(raw_os_error, text)
    }
}

/// The least pause, in milliseconds, before the first launch after login.
pub open spec fn min_boot_wait() -> u64 {
    120
}

/// The pause before the first launch after login: the configured delay,
/// but at least 120 ms.
pub fn boot_wait_ms(login_delay_ms: u64) -> (r: u64)
    ensures
        r == if login_delay_ms >= min_boot_wait() {
            login_delay_ms
        } else {
            min_boot_wait()
        },
{
    if login_delay_ms >= 120 {
        login_delay_ms
    } else {
        120
    }
}
} // verus!
