use vstd::prelude::*;
use crate::{Tree, TreeV};

verus! {

// ---------------------------------------------------------------------------
// Whitespace
// ---------------------------------------------------------------------------

/// Whether a character counts as indentation: the Unicode White_Space
/// property, as `char::is_whitespace` decides it.
pub uninterp spec fn is_space(c: char) -> bool;

/// Relies on `char::is_whitespace`: the result depends on the character
/// alone (the Unicode White_Space property).
#[verifier::external_body]
fn char_is_whitespace(c: char) -> (r: bool)
    ensures
        r == is_space(c),
{
    c.is_whitespace()
}

/// Number of leading whitespace characters of a line: its indentation level.
pub open spec fn indent_of(s: Seq<char>) -> nat
    decreases s.len(),
{
    if s.len() > 0 && is_space(s[0]) {
        (1 + indent_of(s.drop_first())) as nat
    } else {
        0
    }
}

/// A line is blank when every character on it is whitespace.
pub open spec fn blank(s: Seq<char>) -> bool {
    indent_of(s) == s.len()
}

/// The indentation level is the length of the longest all-whitespace prefix.
pub proof fn lemma_indent_chars(s: Seq<char>, k: nat)
    requires
        k <= s.len(),
        forall|j: int| 0 <= j < k ==> is_space(s[j]),
        k < s.len() ==> !is_space(s[k as int]),
    ensures
        indent_of(s) == k,
    decreases k,
{
    if k == 0 {
    } else {
        assert(is_space(s[0]));
        lemma_indent_chars(s.drop_first(), (k - 1) as nat);
    }
}

// ---------------------------------------------------------------------------
// Items: what remains of the input once blank lines are dropped
// ---------------------------------------------------------------------------

/// One non-blank line, reduced to what the parser reads from it:
/// its indentation level and its label (the line after the indentation).
pub struct Entry {
    pub level: nat,
    pub label: Seq<char>,
}

pub open spec fn entry_of(line: Seq<char>) -> Entry {
    Entry { level: indent_of(line), label: line.skip(indent_of(line) as int) }
}

/// The sequence of entries of the non-blank lines, in order.
pub open spec fn items_of(lines: Seq<Seq<char>>) -> Seq<Entry>
    decreases lines.len(),
{
    if lines.len() == 0 {
        Seq::empty()
    } else if blank(lines[0]) {
        items_of(lines.drop_first())
    } else {
        seq![entry_of(lines[0])] + items_of(lines.drop_first())
    }
}

// ---------------------------------------------------------------------------
// The indentation stack
// ---------------------------------------------------------------------------

pub open spec fn leaf(label: Seq<char>) -> TreeV {
    TreeV { key: label, children: Seq::empty() }
}

pub open spec fn push_child(t: TreeV, c: TreeV) -> TreeV {
    TreeV { key: t.key, children: t.children.push(c) }
}

/// Pop the top of the stack and append it as the last child of the entry
/// below it. Stack entries pair an open node with its indentation level;
/// the bottom entry is the synthetic root.
pub open spec fn close_top(s: Seq<(TreeV, int)>) -> Seq<(TreeV, int)>
    recommends
        s.len() >= 2,
{
    let n = s.len() as int;
    s.take(n - 2).push((push_child(s[n - 2].0, s[n - 1].0), s[n - 2].1))
}

/// Close every open node whose level is greater than or equal to `w`:
/// equal indentation closes, it never nests.
pub open spec fn close_ge(s: Seq<(TreeV, int)>, w: int) -> Seq<(TreeV, int)>
    decreases s.len(),
{
    if s.len() >= 2 && s.last().1 >= w {
        close_ge(close_top(s), w)
    } else {
        s
    }
}

/// Process one entry: close the stack down to this entry's ancestor, then
/// open a fresh leaf for the entry.
pub open spec fn step_item(s: Seq<(TreeV, int)>, e: Entry) -> Seq<(TreeV, int)> {
    close_ge(s, e.level as int).push((leaf(e.label), e.level as int))
}

pub open spec fn run_items(s: Seq<(TreeV, int)>, items: Seq<Entry>) -> Seq<(TreeV, int)>
    decreases items.len(),
{
    if items.len() == 0 {
        s
    } else {
        run_items(step_item(s, items[0]), items.drop_first())
    }
}

/// Close everything that is still open at end of input.
pub open spec fn flush(s: Seq<(TreeV, int)>) -> Seq<(TreeV, int)>
    decreases s.len(),
{
    if s.len() >= 2 {
        flush(close_top(s))
    } else {
        s
    }
}

/// The initial stack: the synthetic root, open at the sentinel level -1,
/// which no line's level (>= 0) ever closes.
pub open spec fn init_stack() -> Seq<(TreeV, int)> {
    seq![(leaf(Seq::empty()), -1int)]
}

/// The tree that the indentation-stack algorithm builds from a sequence of
/// entries.
pub open spec fn build(items: Seq<Entry>) -> TreeV {
    flush(run_items(init_stack(), items))[0].0
}

/// What parsing a sequence of lines yields: build from the non-blank lines'
/// entries.
pub open spec fn parse_spec(lines: Seq<Seq<char>>) -> TreeV {
    build(items_of(lines))
}

pub open spec fn lines_view(lines: Seq<String>) -> Seq<Seq<char>> {
    Seq::new(lines.len(), |i: int| lines[i]@)
}

// ---------------------------------------------------------------------------
// Lemmas about the model
// ---------------------------------------------------------------------------

pub proof fn lemma_run_snoc(s: Seq<(TreeV, int)>, items: Seq<Entry>, e: Entry)
    ensures
        run_items(s, items.push(e)) == step_item(run_items(s, items), e),
    decreases items.len(),
{
    if items.len() == 0 {
        assert(items.push(e)[0] == e);
        assert(items.push(e).drop_first() =~= Seq::<Entry>::empty());
        assert(run_items(s, items.push(e)) == run_items(
            step_item(s, e),
            Seq::<Entry>::empty(),
        ));
        assert(run_items(step_item(s, e), Seq::<Entry>::empty()) == step_item(s, e));
        assert(run_items(s, items) == s);
    } else {
        assert(items.push(e)[0] == items[0]);
        assert(items.push(e).drop_first() =~= items.drop_first().push(e));
        lemma_run_snoc(step_item(s, items[0]), items.drop_first(), e);
        assert(run_items(s, items.push(e)) == run_items(
            step_item(s, items[0]),
            items.drop_first().push(e),
        ));
        assert(run_items(s, items) == run_items(step_item(s, items[0]), items.drop_first()));
    }
}

pub proof fn lemma_items_snoc(lines: Seq<Seq<char>>, x: Seq<char>)
    ensures
        items_of(lines.push(x)) == if blank(x) {
            items_of(lines)
        } else {
            items_of(lines).push(entry_of(x))
        },
    decreases lines.len(),
{
    if lines.len() == 0 {
        assert(lines.push(x)[0] == x);
        assert(lines.push(x).drop_first() =~= Seq::<Seq<char>>::empty());
        if !blank(x) {
            assert(seq![entry_of(x)] + items_of(Seq::<Seq<char>>::empty()) =~= items_of(
                lines,
            ).push(entry_of(x)));
        }
    } else {
        assert(lines.push(x)[0] == lines[0]);
        assert(lines.push(x).drop_first() =~= lines.drop_first().push(x));
        lemma_items_snoc(lines.drop_first(), x);
        if !blank(lines[0]) && !blank(x) {
            assert(seq![entry_of(lines[0])] + items_of(lines.drop_first()).push(entry_of(x)) =~= (
            seq![entry_of(lines[0])] + items_of(lines.drop_first())).push(entry_of(x)));
        }
    }
}

pub proof fn lemma_items_append(a: Seq<Seq<char>>, b: Seq<Seq<char>>)
    ensures
        items_of(a + b) == items_of(a) + items_of(b),
    decreases a.len(),
{
    if a.len() == 0 {
        assert(a + b =~= b);
        assert(items_of(a) + items_of(b) =~= items_of(b));
    } else {
        assert((a + b)[0] == a[0]);
        assert((a + b).drop_first() =~= a.drop_first() + b);
        lemma_items_append(a.drop_first(), b);
        if !blank(a[0]) {
            assert(seq![entry_of(a[0])] + (items_of(a.drop_first()) + items_of(b)) =~= (
            seq![entry_of(a[0])] + items_of(a.drop_first())) + items_of(b));
        }
    }
}

/// Blank-line invariance: inserting a blank or whitespace-only line
/// anywhere in the input never changes the resulting tree; so, read the
/// other way round, neither does removing one.
pub proof fn lemma_blank_line_invariance(
    lines: Seq<Seq<char>>,
    widened: Seq<Seq<char>>,
    x: Seq<char>,
    i: int,
)
    requires
        blank(x),
        0 <= i <= lines.len(),
        widened == lines.take(i) + seq![x] + lines.skip(i),
    ensures
        parse_spec(widened) == parse_spec(lines),
{
    lemma_items_append(lines.take(i) + seq![x], lines.skip(i));
    lemma_items_append(lines.take(i), seq![x]);
    lemma_items_append(lines.take(i), lines.skip(i));
    assert(seq![x].len() == 1);
    assert(seq![x][0] == x);
    assert(seq![x].drop_first() =~= Seq::<Seq<char>>::empty());
    assert(items_of(Seq::<Seq<char>>::empty()) == Seq::<Entry>::empty());
    assert(items_of(seq![x]) == items_of(seq![x].drop_first()));
    assert(lines.take(i) + lines.skip(i) =~= lines);
    assert(items_of(lines.take(i)) + items_of(seq![x]) =~= items_of(lines.take(i)));
    assert(items_of(widened) == items_of(lines));
}

// ---------------------------------------------------------------------------
// General facts about closing the stack
// ---------------------------------------------------------------------------

pub proof fn lemma_close_ge_len(s: Seq<(TreeV, int)>, w: int)
    requires
        s.len() >= 1,
    ensures
        1 <= close_ge(s, w).len() <= s.len(),
    decreases s.len(),
{
    if s.len() >= 2 && s.last().1 >= w {
        lemma_close_ge_len(close_top(s), w);
    }
}

pub proof fn lemma_run_append(s: Seq<(TreeV, int)>, a: Seq<Entry>, b: Seq<Entry>)
    ensures
        run_items(s, a + b) == run_items(run_items(s, a), b),
    decreases a.len(),
{
    if a.len() == 0 {
        assert(a + b =~= b);
    } else {
        assert((a + b)[0] == a[0]);
        assert((a + b).drop_first() =~= a.drop_first() + b);
        lemma_run_append(step_item(s, a[0]), a.drop_first(), b);
    }
}

/// Closing down to a lower threshold pops everything a higher threshold
/// pops, and possibly more.
pub proof fn lemma_close_ge_trans(s: Seq<(TreeV, int)>, d: int, e: int)
    requires
        e <= d,
    ensures
        close_ge(close_ge(s, d), e) == close_ge(s, e),
    decreases s.len(),
{
    if s.len() >= 2 && s.last().1 >= d {
        lemma_close_ge_trans(close_top(s), d, e);
    }
}

/// Flushing at end of input closes everything; closing part of the stack
/// first makes no difference.
pub proof fn lemma_flush_close(s: Seq<(TreeV, int)>, e: int)
    ensures
        flush(close_ge(s, e)) == flush(s),
    decreases s.len(),
{
    if s.len() >= 2 && s.last().1 >= e {
        lemma_flush_close(close_top(s), e);
    }
}

/// A step closes first, so steps cannot tell a stack from its closed form
/// at the same threshold.
pub proof fn lemma_run_close_first(s: Seq<(TreeV, int)>, items: Seq<Entry>)
    requires
        items.len() > 0,
    ensures
        run_items(s, items) == run_items(close_ge(s, items[0].level as int), items),
{
    lemma_close_ge_trans(s, items[0].level as int, items[0].level as int);
    assert(step_item(s, items[0]) == step_item(close_ge(s, items[0].level as int), items[0]));
}

// ---------------------------------------------------------------------------
// The round trip: a well-formed outline parses back to its own tree
// ---------------------------------------------------------------------------

/// The canonical well-formed outline of a subtree: one entry per node in
/// document order, the node itself at level `d`, every child one level
/// deeper — strictly increasing indentation nests, equal indentation makes
/// siblings.
pub open spec fn outline_of(t: TreeV, d: nat) -> Seq<Entry>
    decreases t, 0nat,
{
    seq![Entry { level: d, label: t.key }] + outline_of_siblings(t.children, d + 1, 0)
}

/// The canonical outline of the siblings `cs[k..]`, all at level `d`.
pub open spec fn outline_of_siblings(cs: Seq<TreeV>, d: nat, k: nat) -> Seq<Entry>
    recommends
        k <= cs.len(),
    decreases cs, cs.len() - k,
{
    if k < cs.len() {
        outline_of(cs[k as int], d) + outline_of_siblings(cs, d, k + 1)
    } else {
        Seq::empty()
    }
}

/// Append `c` as the last child of the node on top of the stack.
pub open spec fn attach_top(s: Seq<(TreeV, int)>, c: TreeV) -> Seq<(TreeV, int)>
    recommends
        s.len() >= 1,
{
    s.take(s.len() - 1).push((push_child(s.last().0, c), s.last().1))
}

/// Append each of `cs`, in order, as further children of the top node.
pub open spec fn attach_top_all(s: Seq<(TreeV, int)>, cs: Seq<TreeV>) -> Seq<(TreeV, int)>
    recommends
        s.len() >= 1,
{
    s.take(s.len() - 1).push(
        (TreeV { key: s.last().0.key, children: s.last().0.children + cs }, s.last().1),
    )
}

proof fn lemma_outline_first(cs: Seq<TreeV>, d: nat, k: nat)
    requires
        k < cs.len(),
    ensures
        outline_of_siblings(cs, d, k).len() > 0,
        outline_of_siblings(cs, d, k)[0] == (Entry { level: d, label: cs[k as int].key }),
{
    let e0 = Entry { level: d, label: cs[k as int].key };
    assert(outline_of(cs[k as int], d)[0] == e0);
    assert(outline_of_siblings(cs, d, k)[0] == outline_of(cs[k as int], d)[0]);
}

/// Running the canonical outline of `t` on a stack whose top is shallower
/// than `d`, then closing at `d`, attaches exactly `t` to the old top.
proof fn lemma_outline_node(t: TreeV, d: nat, s: Seq<(TreeV, int)>)
    requires
        s.len() >= 1,
        s.last().1 < d,
    ensures
        close_ge(run_items(s, outline_of(t, d)), d as int) == attach_top(s, t),
    decreases t, 0nat,
{
    let e0 = Entry { level: d, label: t.key };
    let f = outline_of_siblings(t.children, d + 1, 0);
    lemma_run_append(s, seq![e0], f);
    assert(seq![e0][0] == e0);
    assert(seq![e0].drop_first() =~= Seq::<Entry>::empty());
    assert(run_items(s, seq![e0]) == run_items(step_item(s, e0), seq![e0].drop_first()));
    assert(run_items(step_item(s, e0), Seq::<Entry>::empty()) == step_item(s, e0));
    assert(close_ge(s, d as int) == s);
    let s1 = s.push((leaf(t.key), d as int));
    assert(step_item(s, e0) == s1);
    assert(s1.last() == (leaf(t.key), d as int));
    lemma_outline_siblings(t.children, (d + 1) as nat, 0, s1);
    let r = run_items(s1, f);
    assert(run_items(s, outline_of(t, d)) == r);
    lemma_close_ge_trans(r, d as int + 1, d as int);
    let s2 = attach_top_all(s1, t.children.skip(0));
    assert(close_ge(r, d as int) == close_ge(s2, d as int));
    assert(t.children.skip(0) =~= t.children);
    assert(Seq::<TreeV>::empty() + t.children =~= t.children);
    assert(s1.take(s1.len() - 1) =~= s);
    assert((TreeV { key: leaf(t.key).key, children: leaf(t.key).children + t.children.skip(0) })
        =~= t);
    assert(s2 =~= s.push((t, d as int)));
    assert(s2.len() == s.len() + 1);
    assert(close_ge(s2, d as int) == close_ge(close_top(s2), d as int));
    assert(close_top(s2) =~= attach_top(s, t));
    assert(attach_top(s, t).last().1 == s.last().1);
    assert(close_ge(attach_top(s, t), d as int) == attach_top(s, t));
}

/// Running the canonical outline of the siblings `cs[k..]` on a stack whose
/// top is shallower than `d`, then closing at `d`, attaches them in order
/// as further children of the old top.
proof fn lemma_outline_siblings(cs: Seq<TreeV>, d: nat, k: nat, s: Seq<(TreeV, int)>)
    requires
        s.len() >= 1,
        s.last().1 < d,
        k <= cs.len(),
    ensures
        close_ge(run_items(s, outline_of_siblings(cs, d, k)), d as int) == attach_top_all(
            s,
            cs.skip(k as int),
        ),
    decreases cs, cs.len() - k,
{
    if k == cs.len() {
        assert(outline_of_siblings(cs, d, k) == Seq::<Entry>::empty());
        assert(run_items(s, Seq::<Entry>::empty()) == s);
        assert(close_ge(s, d as int) == s);
        assert(cs.skip(k as int) =~= Seq::<TreeV>::empty());
        assert(s.last().0.children + Seq::<TreeV>::empty() =~= s.last().0.children);
        assert((TreeV {
            key: s.last().0.key,
            children: s.last().0.children + cs.skip(k as int),
        }) =~= s.last().0);
        assert(attach_top_all(s, cs.skip(k as int)) =~= s);
    } else {
        let f_rest = outline_of_siblings(cs, d, k + 1);
        lemma_run_append(s, outline_of(cs[k as int], d), f_rest);
        let r = run_items(s, outline_of(cs[k as int], d));
        lemma_outline_node(cs[k as int], d, s);
        let s2 = attach_top(s, cs[k as int]);
        assert(s2.len() == s.len());
        assert(s2.last().1 == s.last().1);
        assert(run_items(s, outline_of_siblings(cs, d, k)) == run_items(r, f_rest));
        if k + 1 == cs.len() {
            assert(f_rest == Seq::<Entry>::empty());
            assert(run_items(r, f_rest) == r);
            assert(cs.skip(k as int) =~= seq![cs[k as int]]);
            assert(s.last().0.children + cs.skip(k as int) =~= s.last().0.children.push(
                cs[k as int],
            ));
            assert(attach_top_all(s, cs.skip(k as int)) =~= s2);
            assert(close_ge(run_items(r, f_rest), d as int) == attach_top_all(
                s,
                cs.skip(k as int),
            ));
        } else {
            lemma_outline_first(cs, d, (k + 1) as nat);
            lemma_run_close_first(r, f_rest);
            assert(run_items(r, f_rest) == run_items(s2, f_rest));
            lemma_outline_siblings(cs, d, (k + 1) as nat, s2);
            assert(s2.take(s2.len() - 1) =~= s.take(s.len() - 1));
            assert(s2.last().0.children == s.last().0.children.push(cs[k as int]));
            assert(s.last().0.children.push(cs[k as int]) + cs.skip(k as int + 1) =~= s.last().0
                .children + cs.skip(k as int));
            assert(attach_top_all(s2, cs.skip(k as int + 1)) =~= attach_top_all(
                s,
                cs.skip(k as int),
            ));
        }
    }
}

/// Round-trip shape: the canonical well-formed outline of any forest — one
/// line per node in document order, each child exactly one level deeper
/// than its parent, siblings at equal levels — builds back to exactly that
/// forest under the synthetic root.
pub proof fn lemma_round_trip(cs: Seq<TreeV>)
    ensures
        build(outline_of_siblings(cs, 0, 0)) == (TreeV { key: Seq::<char>::empty(), children: cs }),
{
    lemma_outline_siblings(cs, 0, 0, init_stack());
    let r = run_items(init_stack(), outline_of_siblings(cs, 0, 0));
    lemma_flush_close(r, 0);
    let fin = attach_top_all(init_stack(), cs.skip(0));
    assert(close_ge(r, 0) == fin);
    assert(fin.len() == 1);
    assert(flush(fin) == fin);
    assert(flush(r) == fin);
    assert(cs.skip(0) =~= cs);
    assert(init_stack().last().0.children + cs.skip(0) =~= cs);
    assert(fin[0] == (TreeV { key: Seq::<char>::empty(), children: cs }, -1int));
}

// ---------------------------------------------------------------------------
// The hand derivation: parent/child relations read off the item sequence
// ---------------------------------------------------------------------------

/// The first position at or after `from` whose entry does not lie deeper
/// than `lvl`; the end of input if there is none.
pub open spec fn seg_end(items: Seq<Entry>, from: int, lvl: nat) -> int
    decreases items.len() - from,
{
    if 0 <= from < items.len() {
        if items[from].level <= lvl {
            from
        } else {
            seg_end(items, from + 1, lvl)
        }
    } else {
        items.len() as int
    }
}

pub proof fn lemma_seg_end(items: Seq<Entry>, from: int, lvl: nat)
    requires
        0 <= from <= items.len(),
    ensures
        from <= seg_end(items, from, lvl) <= items.len(),
        forall|i: int| from <= i < seg_end(items, from, lvl) ==> items[i].level > lvl,
        seg_end(items, from, lvl) < items.len() ==> items[seg_end(items, from, lvl)].level <= lvl,
    decreases items.len() - from,
{
    if from < items.len() && items[from].level > lvl {
        lemma_seg_end(items, from + 1, lvl);
    }
}

/// The forest a reader derives by hand from `items[from..to)`: the first
/// entry's subtree spans to just before the next entry at its own level or
/// shallower; the entries from there on are its siblings.
pub open spec fn decl_forest(items: Seq<Entry>, from: int, to: int) -> Seq<TreeV>
    decreases to - from,
        when 0 <= from <= to <= items.len()
        via decl_forest_dec
{
    if from < to {
        let e = seg_end(items, from + 1, items[from].level);
        let j = if e < to {
            e
        } else {
            to
        };
        seq![(TreeV { key: items[from].label, children: decl_forest(items, from + 1, j) })]
            + decl_forest(items, j, to)
    } else {
        Seq::empty()
    }
}

#[via_fn]
proof fn decl_forest_dec(items: Seq<Entry>, from: int, to: int) {
    if 0 <= from <= to <= items.len() && from < to {
        lemma_seg_end(items, from + 1, items[from].level);
    }
}

/// The whole tree a reader derives by hand from an item sequence.
pub open spec fn decl_parse(items: Seq<Entry>) -> TreeV {
    TreeV { key: Seq::empty(), children: decl_forest(items, 0, items.len() as int) }
}

/// Running a stretch of items that all lie strictly deeper than the node
/// open on top of the stack attaches, once everything deeper is closed
/// again, exactly the hand-derived forest of that stretch to the old top.
proof fn lemma_run_decl(items: Seq<Entry>, from: int, to: int, s: Seq<(TreeV, int)>)
    requires
        0 <= from <= to <= items.len(),
        s.len() >= 1,
        forall|i: int| from <= i < to ==> items[i].level > s.last().1,
    ensures
        close_ge(run_items(s, items.subrange(from, to)), s.last().1 + 1) == attach_top_all(
            s,
            decl_forest(items, from, to),
        ),
    decreases to - from,
{
    let b = s.last().1;
    let f_all = decl_forest(items, from, to);
    if from == to {
        assert(items.subrange(from, to) =~= Seq::<Entry>::empty());
        assert(run_items(s, Seq::<Entry>::empty()) == s);
        assert(close_ge(s, b + 1) == s);
        assert(f_all == Seq::<TreeV>::empty());
        assert(s.last().0.children + f_all =~= s.last().0.children);
        assert((TreeV { key: s.last().0.key, children: s.last().0.children + f_all }) =~= s.last().0);
        assert(attach_top_all(s, f_all) =~= s);
    } else {
        let w = items[from].level;
        assert(items[from].level > b);
        lemma_seg_end(items, from + 1, w);
        let e = seg_end(items, from + 1, w);
        let j = if e < to {
            e
        } else {
            to
        };
        assert(items.subrange(from, to) =~= seq![items[from]] + items.subrange(from + 1, j)
            + items.subrange(j, to));
        lemma_run_append(
            s,
            seq![items[from]] + items.subrange(from + 1, j),
            items.subrange(j, to),
        );
        lemma_run_append(s, seq![items[from]], items.subrange(from + 1, j));
        assert(seq![items[from]][0] == items[from]);
        assert(seq![items[from]].drop_first() =~= Seq::<Entry>::empty());
        assert(run_items(s, seq![items[from]]) == run_items(
            step_item(s, items[from]),
            seq![items[from]].drop_first(),
        ));
        assert(run_items(step_item(s, items[from]), Seq::<Entry>::empty()) == step_item(
            s,
            items[from],
        ));
        assert(close_ge(s, w as int) == s);
        let s1 = s.push((leaf(items[from].label), w as int));
        assert(step_item(s, items[from]) == s1);
        assert(s1.last() == (leaf(items[from].label), w as int));
        lemma_run_decl(items, from + 1, j, s1);
        let r1 = run_items(s1, items.subrange(from + 1, j));
        let f_kids = decl_forest(items, from + 1, j);
        let t_from = TreeV { key: items[from].label, children: f_kids };
        assert(s1.take(s1.len() - 1) =~= s);
        assert((TreeV {
            key: leaf(items[from].label).key,
            children: leaf(items[from].label).children + f_kids,
        }) =~= t_from);
        let s2 = s.push((t_from, w as int));
        assert(attach_top_all(s1, f_kids) =~= s2);
        assert(close_ge(r1, w as int + 1) == s2);
        if j == to {
            assert(items.subrange(j, to) =~= Seq::<Entry>::empty());
            assert(run_items(s, items.subrange(from, to)) == run_items(r1, Seq::<Entry>::empty()));
            assert(run_items(r1, Seq::<Entry>::empty()) == r1);
            lemma_close_ge_trans(r1, w as int + 1, b + 1);
            assert(close_ge(s2, b + 1) == close_ge(close_top(s2), b + 1));
            assert(close_top(s2) =~= attach_top(s, t_from));
            assert(attach_top(s, t_from).last().1 == b);
            assert(close_ge(attach_top(s, t_from), b + 1) == attach_top(s, t_from));
            assert(decl_forest(items, j, to) == Seq::<TreeV>::empty());
            assert(f_all == seq![t_from] + Seq::<TreeV>::empty());
            assert(s.last().0.children + f_all =~= s.last().0.children.push(t_from));
            assert(attach_top_all(s, f_all) =~= attach_top(s, t_from));
        } else {
            assert(j == e);
            assert(items[j].level <= w);
            assert(items[j].level > b);
            let sibs = items.subrange(j, to);
            assert(sibs.len() > 0);
            assert(sibs[0] == items[j]);
            lemma_run_close_first(r1, sibs);
            lemma_close_ge_trans(r1, w as int + 1, items[j].level as int);
            let s3 = attach_top(s, t_from);
            assert(close_ge(s2, items[j].level as int) == close_ge(
                close_top(s2),
                items[j].level as int,
            ));
            assert(close_top(s2) =~= s3);
            assert(s3.last().1 == b);
            assert(close_ge(s3, items[j].level as int) == s3);
            assert(run_items(s, items.subrange(from, to)) == run_items(r1, sibs));
            assert(run_items(r1, sibs) == run_items(s3, sibs));
            lemma_run_decl(items, j, to, s3);
            let f_sibs = decl_forest(items, j, to);
            assert(close_ge(run_items(s3, sibs), b + 1) == attach_top_all(s3, f_sibs));
            assert(s3.take(s3.len() - 1) =~= s.take(s.len() - 1));
            assert(s3.last().0.children == s.last().0.children.push(t_from));
            assert(f_all == seq![t_from] + f_sibs);
            assert(s.last().0.children.push(t_from) + f_sibs =~= s.last().0.children + f_all);
            assert(attach_top_all(s3, f_sibs) =~= attach_top_all(s, f_all));
        }
    }
}

/// What the parser builds is what a reader derives by hand: the single
/// forward pass with its stack of open ancestors and the recursive
/// splitting of the item sequence give one and the same tree.
pub proof fn lemma_build_is_decl(items: Seq<Entry>)
    ensures
        build(items) == decl_parse(items),
{
    lemma_run_decl(items, 0, items.len() as int, init_stack());
    assert(items.subrange(0, items.len() as int) =~= items);
    let r = run_items(init_stack(), items);
    lemma_flush_close(r, 0);
    let f = decl_forest(items, 0, items.len() as int);
    let fin = attach_top_all(init_stack(), f);
    assert(close_ge(r, 0) == fin);
    assert(fin.len() == 1);
    assert(flush(fin) == fin);
    assert(flush(r) == fin);
    assert(init_stack().last().0.children + f =~= f);
    assert(fin[0].0 =~= decl_parse(items));
}

/// The same, read on whole text lines: parsing is the hand derivation
/// applied to the non-blank lines' levels and labels.
pub proof fn lemma_parse_is_decl(lines: Seq<Seq<char>>)
    ensures
        parse_spec(lines) == decl_parse(items_of(lines)),
{
    lemma_build_is_decl(items_of(lines));
}

/// The tie-break rule, read on the finished tree: when the line right
/// after L1 sits at L1's level or shallower, L1's node is a leaf of the
/// parsed tree — wherever the hand derivation reaches L1, its subtree
/// stops at once — so no later line, and in particular not that next one,
/// is ever a descendant of L1.
pub proof fn lemma_tie_break_in_tree(items: Seq<Entry>, j: int)
    requires
        0 <= j,
        j + 1 < items.len(),
        items[j + 1].level <= items[j].level,
    ensures
        forall|to: int|
            j < to <= items.len() ==> decl_forest(items, j, to)[0] == leaf(items[j].label),
{
    assert forall|to: int| j < to <= items.len() implies decl_forest(items, j, to)[0] == leaf(
        items[j].label,
    ) by {
        assert(seg_end(items, j + 1, items[j].level) == j + 1);
        assert(decl_forest(items, j + 1, j + 1) == Seq::<TreeV>::empty());
        assert(decl_forest(items, j, to)[0] == (TreeV {
            key: items[j].label,
            children: decl_forest(items, j + 1, j + 1),
        }));
        assert((TreeV { key: items[j].label, children: decl_forest(items, j + 1, j + 1) }) =~= leaf(
            items[j].label,
        ));
    }
}

/// The tie-break rule: when a line's level does not exceed the previous
/// line's, the step for the new line first closes the previous line's node
/// — handing it to its parent while it is still childless — and only then
/// opens the new node, so the new node is made a sibling of the previous
/// node or of one of its ancestors, never a child of it.
pub proof fn lemma_tie_break(s: Seq<(TreeV, int)>, e1: Entry, e2: Entry)
    requires
        s.len() >= 1,
        e2.level <= e1.level,
    ensures
        step_item(s, e1).last() == (leaf(e1.label), e1.level as int),
        close_ge(step_item(s, e1), e2.level as int) == close_ge(
            attach_top(close_ge(s, e1.level as int), leaf(e1.label)),
            e2.level as int,
        ),
        step_item(step_item(s, e1), e2).last() == (leaf(e2.label), e2.level as int),
{
    lemma_close_ge_len(s, e1.level as int);
    let s1 = step_item(s, e1);
    assert(s1.len() >= 2);
    assert(s1.last() == (leaf(e1.label), e1.level as int));
    assert(close_ge(s1, e2.level as int) == close_ge(close_top(s1), e2.level as int));
    assert(close_top(s1) =~= attach_top(close_ge(s, e1.level as int), leaf(e1.label)));
}

// ---------------------------------------------------------------------------
// Relating the executable stack to the model's stack
// ---------------------------------------------------------------------------

/// The model stack that an executable stack stands for. The bottom entry is
/// the synthetic root; its stored level is never read, and in the model it
/// is the sentinel -1.
pub open spec fn abs_stack(s: Seq<(Tree, usize)>) -> Seq<(TreeV, int)> {
    Seq::new(
        s.len(),
        |i: int|
            (
                s[i].0@,
                if i == 0 {
                    -1int
                } else {
                    s[i].1 as int
                },
            ),
    )
}

proof fn lemma_abs_push(s: Seq<(Tree, usize)>, t: Tree, w: usize)
    requires
        s.len() >= 1,
    ensures
        abs_stack(s.push((t, w))) == abs_stack(s).push((t@, w as int)),
{
    assert(abs_stack(s.push((t, w))) =~= abs_stack(s).push((t@, w as int)));
}

proof fn lemma_view_push_child(pre: Tree, c: Tree, post: Tree)
    requires
        post.key == pre.key,
        post.children@ == pre.children@.push(c),
    ensures
        post@ == push_child(pre@, c@),
{
    assert forall|i: int| 0 <= i < post@.children.len() implies post@.children[i] == push_child(
        pre@,
        c@,
    ).children[i] by {
        if i < pre.children@.len() {
            assert(post.children@[i] == pre.children@[i]);
        } else {
            assert(post.children@[i] == c);
        }
    }
    assert(post@.children =~= push_child(pre@, c@).children);
}

proof fn lemma_abs_close_top(s0: Seq<(Tree, usize)>, s1: Seq<(Tree, usize)>, parent_post: Tree)
    requires
        s0.len() >= 2,
        parent_post.key == s0[s0.len() - 2].0.key,
        parent_post.children@ == s0[s0.len() - 2].0.children@.push(s0[s0.len() - 1].0),
        s1 == s0.take(s0.len() - 2).push((parent_post, s0[s0.len() - 2].1)),
    ensures
        abs_stack(s1) == close_top(abs_stack(s0)),
{
    lemma_view_push_child(s0[s0.len() - 2].0, s0[s0.len() - 1].0, parent_post);
    assert forall|i: int| 0 <= i < abs_stack(s1).len() implies abs_stack(s1)[i] == close_top(
        abs_stack(s0),
    )[i] by {
        if i < s0.len() - 2 {
            assert(s1[i] == s0[i]);
        } else {
            assert(s1[i] == (parent_post, s0[s0.len() - 2].1));
        }
    }
    assert(abs_stack(s1) =~= close_top(abs_stack(s0)));
}

// ---------------------------------------------------------------------------
// The executable parser
// ---------------------------------------------------------------------------

impl Tree {
    /// Parses an indentation-structured outline, one text line per element,
    /// into a tree, and returns the synthetic root. A single forward pass
    /// keeps a stack of open ancestors: each non-blank line closes every
    /// open node whose indentation is greater than or equal to its own, then
    /// opens a new node; blank lines are skipped.
    pub fn from_lines(lines: &Vec<String>) -> (t: Tree)
        ensures
            t@ == parse_spec(lines_view(lines@)),
    {
        let ghost lv = lines_view(lines@);
        let mut stack: Vec<(Tree, usize)> = Vec::new();
        stack.push((Tree::new(String::new()), 0));
        proof {
            assert(lv.take(0) =~= Seq::<Seq<char>>::empty());
            assert(abs_stack(stack@) =~= init_stack());
        }
        let mut li: usize = 0;
        while li < lines.len()
            invariant
                li <= lines.len(),
                lv == lines_view(lines@),
                stack@.len() >= 1,
                abs_stack(stack@) == run_items(init_stack(), items_of(lv.take(li as int))),
            decreases lines.len() - li,
        {
            let ghost s_before = run_items(init_stack(), items_of(lv.take(li as int)));
            let line: &str = lines[li].as_str();
            let n: usize = line.unicode_len();
            let mut ws: usize = 0;
            loop
                invariant
                    n == line@.len(),
                    ws <= n,
                    forall|j: int| 0 <= j < ws ==> is_space(line@[j]),
                ensures
                    ws <= n,
                    n == line@.len(),
                    forall|j: int| 0 <= j < ws ==> is_space(line@[j]),
                    ws == n || !is_space(line@[ws as int]),
                decreases n - ws,
            {
                if ws >= n {
                    break ;
                }
                if !char_is_whitespace(line.get_char(ws)) {
                    break ;
                }
                ws = ws + 1;
            }
            proof {
                lemma_indent_chars(line@, ws as nat);
                assert(line@ == lv[li as int]);
                assert(lv.take(li as int + 1) =~= lv.take(li as int).push(lv[li as int]));
                lemma_items_snoc(lv.take(li as int), lv[li as int]);
            }
            if ws < n {
                let rest = line.substring_char(ws, n);
                let node = Tree::new(rest.to_owned());
                proof {
                    assert(rest@ =~= line@.skip(ws as int));
                    assert(node@ == leaf(entry_of(lv[li as int]).label));
                }
                while stack.len() >= 2 && stack[stack.len() - 1].1 >= ws
                    invariant
                        stack@.len() >= 1,
                        close_ge(abs_stack(stack@), ws as int) == close_ge(s_before, ws as int),
                    decreases stack@.len(),
                {
                    let ghost s0 = stack@;
                    let top = stack.pop().unwrap();
                    let below = stack.pop().unwrap();
                    let mut parent = below.0;
                    parent.children.push(top.0);
                    stack.push((parent, below.1));
                    proof {
                        assert(stack@ =~= s0.take(s0.len() - 2).push((parent, s0[s0.len() - 2].1)));
                        lemma_abs_close_top(s0, stack@, parent);
                        assert(abs_stack(s0).last().1 == s0.last().1 as int);
                        assert(close_ge(abs_stack(s0), ws as int) == close_ge(
                            close_top(abs_stack(s0)),
                            ws as int,
                        ));
                    }
                }
                proof {
                    assert(close_ge(abs_stack(stack@), ws as int) == abs_stack(stack@));
                }
                let ghost s_closed = stack@;
                stack.push((node, ws));
                proof {
                    lemma_abs_push(s_closed, node, ws);
                    lemma_run_snoc(init_stack(), items_of(lv.take(li as int)), entry_of(
                        lv[li as int],
                    ));
                    assert(entry_of(lv[li as int]).level == ws as nat);
                    assert(abs_stack(stack@) == step_item(s_before, entry_of(lv[li as int])));
                }
            } else {
                proof {
                    assert(blank(lv[li as int]));
                }
            }
            li = li + 1;
        }
        proof {
            assert(lv.take(lines@.len() as int) =~= lv);
        }
        let ghost r_full = run_items(init_stack(), items_of(lv));
        while stack.len() >= 2
            invariant
                stack@.len() >= 1,
                flush(abs_stack(stack@)) == flush(r_full),
            decreases stack@.len(),
        {
            let ghost s0 = stack@;
            let top = stack.pop().unwrap();
            let below = stack.pop().unwrap();
            let mut parent = below.0;
            parent.children.push(top.0);
            stack.push((parent, below.1));
            proof {
                assert(stack@ =~= s0.take(s0.len() - 2).push((parent, s0[s0.len() - 2].1)));
                lemma_abs_close_top(s0, stack@, parent);
            }
        }
        let ghost s_fin = stack@;
        let root = stack.pop().unwrap();
        proof {
            assert(flush(abs_stack(s_fin)) == abs_stack(s_fin));
            assert(root.0@ == abs_stack(s_fin)[0].0);
        }
        root.0
    }
}

} // verus!
