//! Numbers in decimal, text split into lines, and the lines of the detail
//! view of a task, piece by piece, each piece tagged with what it is so
//! that the screen can give it a style.
use vstd::prelude::*;
use vstd::string::*;
use crate::data::{Task, TaskView, lemma_task_children_view, strs_view};
use crate::detail::detail_lines_of;
use crate::rows::{repeat_seq, repeat_str};
use crate::seqs::count_of;
use crate::strings::{chars_of, concat_str, push_char};
use crate::theme::{ThemeColor, color_of, icon_of, status_color, status_icon};

verus! {

// ---------------------------------------------------------------------
// Decimal numbers
// ---------------------------------------------------------------------

/// The digit for `d`, which is below 10.
pub open spec fn digit_of(d: nat) -> char {
    if d == 0 { '0' } else if d == 1 { '1' } else if d == 2 { '2' } else if d == 3 { '3' } else if d == 4 {
        '4'
    } else if d == 5 { '5' } else if d == 6 { '6' } else if d == 7 { '7' } else if d == 8 { '8' } else { '9' }
}

/// `n` in decimal, without leading zeros.
pub open spec fn decimal(n: nat) -> Seq<char>
    decreases n,
{
    if n < 10 {
        seq![digit_of(n)]
    } else {
        decimal(n / 10).push(digit_of(n % 10))
    }
}

/// `i` in decimal, with a minus sign when it is negative.
pub open spec fn signed_decimal(i: int) -> Seq<char> {
    if i < 0 {
        seq!['-'] + decimal((-i) as nat)
    } else {
        decimal(i as nat)
    }
}

fn digit_char(d: u64) -> (c: char)
    requires
        d < 10,
    ensures
        c == digit_of(d as nat),
{
    if d == 0 { '0' } else if d == 1 { '1' } else if d == 2 { '2' } else if d == 3 { '3' } else if d == 4 {
        '4'
    } else if d == 5 { '5' } else if d == 6 { '6' } else if d == 7 { '7' } else if d == 8 { '8' } else { '9' }
}

/// `n` in decimal.
pub fn decimal_str(n: u64) -> (r: String)
    ensures
        r@ == decimal(n as nat),
    decreases n,
{
    if n < 10 {
        let mut s = String::new();
        push_char(&mut s, digit_char(n));
        assert(s@ =~= seq![digit_of(n as nat)]);
        s
    } else {
        let mut s = decimal_str(n / 10);
        push_char(&mut s, digit_char(n % 10));
        s
    }
}

/// `i` in decimal, with a minus sign when it is negative.
pub fn signed_decimal_str(i: i32) -> (r: String)
    ensures
        r@ == signed_decimal(i as int),
{
    let w: i64 = i as i64;
    if w < 0 {
        let m: u64 = (-w) as u64;
        let digits = decimal_str(m);
        proof {
            reveal_strlit("-");
        }
        concat_str("-", digits.as_str())
    } else {
        decimal_str(w as u64)
    }
}

// ---------------------------------------------------------------------
// Lines
// ---------------------------------------------------------------------

/// The pieces of `s` between the characters `c`: one more than there are
/// `c`, empty where two `c` follow each other or at an end.
pub open spec fn split_on(s: Seq<char>, c: char) -> Seq<Seq<char>>
    decreases s.len(),
{
    if s.len() == 0 {
        seq![seq![]]
    } else {
        let r = split_on(s.drop_last(), c);
        if s.last() == c {
            r.push(seq![])
        } else {
            r.update(r.len() - 1, r.last().push(s.last()))
        }
    }
}

pub proof fn lemma_split_on_len(s: Seq<char>, c: char)
    ensures
        split_on(s, c).len() == count_of(s, c) + 1,
    decreases s.len(),
{
    if s.len() > 0 {
        lemma_split_on_len(s.drop_last(), c);
    }
}

/// The lines of `s`, split at each newline.
pub fn split_lines(s: &str) -> (lines: Vec<String>)
    ensures
        strs_view(lines@) == split_on(s@, '\n'),
{
    let cs = chars_of(s);
    let n = cs.len();
    let mut done: Vec<String> = Vec::new();
    let mut cur = String::new();
    assert(s@.take(0) =~= Seq::<char>::empty());
    assert(strs_view(done@).push(cur@) =~= split_on(s@.take(0), '\n'));
    for i in 0..n
        invariant
            n == s@.len(),
            cs@ == s@,
            strs_view(done@).push(cur@) == split_on(s@.take(i as int), '\n'),
    {
        let ch = cs[i];
        assert(s@.take(i + 1).drop_last() =~= s@.take(i as int));
        assert(s@.take(i + 1).last() == ch);
        if ch == '\n' {
            done.push(cur);
            cur = String::new();
            assert(strs_view(done@).push(cur@) =~= split_on(s@.take(i + 1), '\n'));
        } else {
            push_char(&mut cur, ch);
            assert(strs_view(done@).push(cur@) =~= split_on(s@.take(i + 1), '\n'));
        }
    }
    assert(s@.take(n as int) =~= s@);
    let ghost d = strs_view(done@);
    done.push(cur);
    assert(strs_view(done@) =~= d.push(cur@));
    done
}

// ---------------------------------------------------------------------
// The detail view
// ---------------------------------------------------------------------

/// What a piece of a line of the detail view is.
#[derive(PartialEq, Eq, Structural, Clone, Copy, Debug)]
pub enum DetailPiece {
    /// The title of the task.
    Title,
    /// A status with its icon, in the status's color.
    Status(ThemeColor),
    /// The name of a field.
    FieldName,
    /// The value of a field, or the title of a sub-task.
    Value,
    /// The line under the header.
    Rule,
    /// A line of the description.
    Description,
    /// The heading of the list of sub-tasks.
    Heading,
    /// The number of a sub-task.
    Index,
    /// Blanks.
    Plain,
}

/// A status with its icon before it.
pub open spec fn status_text(status: Seq<char>) -> Seq<char> {
    icon_of(status) + " "@ + status
}

/// The line of a sub-task: its number, title and status.
pub open spec fn child_line(i: nat, t: TaskView) -> Seq<(DetailPiece, Seq<char>)> {
    seq![
        (DetailPiece::Index, "["@ + decimal(i + 1) + "] "@),
        (DetailPiece::Value, t.title),
        (DetailPiece::Plain, "  "@),
        (DetailPiece::Status(color_of(t.status)), status_text(t.status)),
    ]
}

/// The lines of the detail view of a task with a rule `width` wide: the
/// title; status, priority and owner; id and update time; the rule; the
/// lines of the description, if there is one; and, when the task has
/// sub-tasks, a blank line, a heading with their number and a line per
/// sub-task.
pub open spec fn detail_lines_spec(t: TaskView, width: nat) -> Seq<Seq<(DetailPiece, Seq<char>)>> {
    let title = seq![(DetailPiece::Title, t.title)];
    let meta = seq![
        (DetailPiece::Status(color_of(t.status)), status_text(t.status)),
        (DetailPiece::FieldName, "  priority: "@),
        (DetailPiece::Value, signed_decimal(t.priority as int)),
    ] + if t.assignee.len() > 0 {
        seq![(DetailPiece::FieldName, "  owner: "@), (DetailPiece::Value, t.assignee)]
    } else {
        seq![]
    };
    let id = seq![(DetailPiece::FieldName, "ID: "@), (DetailPiece::Value, t.id)] + if t.updated_at.len() > 0 {
        seq![(DetailPiece::FieldName, "  updated: "@), (DetailPiece::Value, t.updated_at)]
    } else {
        seq![]
    };
    let rule = seq![(DetailPiece::Rule, repeat_seq("─"@, width))];
    let desc = if t.description.len() > 0 {
        split_on(t.description, '\n').map_values(|l: Seq<char>| seq![(DetailPiece::Description, l)])
    } else {
        seq![]
    };
    let kids = if t.children.len() > 0 {
        seq![
            seq![],
            seq![(DetailPiece::Heading, "Children ("@ + decimal(t.children.len()) + "):"@)],
        ] + Seq::new(t.children.len(), |i: int| child_line(i as nat, t.children[i]))
    } else {
        seq![]
    };
    seq![title, meta, id, rule] + desc + kids
}

pub open spec fn line_view(l: Seq<(DetailPiece, String)>) -> Seq<(DetailPiece, Seq<char>)> {
    Seq::new(l.len(), |j: int| (l[j].0, l[j].1@))
}

pub open spec fn lines_view(v: Seq<Vec<(DetailPiece, String)>>) -> Seq<Seq<(DetailPiece, Seq<char>)>> {
    Seq::new(v.len(), |i: int| line_view(v[i]@))
}

fn push_piece(l: &mut Vec<(DetailPiece, String)>, p: DetailPiece, s: String)
    ensures
        line_view(final(l)@) == line_view(old(l)@).push((p, s@)),
{
    let ghost before = line_view(l@);
    l.push((p, s));
    assert(line_view(l@) =~= before.push((p, s@)));
}

fn push_line(lines: &mut Vec<Vec<(DetailPiece, String)>>, l: Vec<(DetailPiece, String)>)
    ensures
        lines_view(final(lines)@) == lines_view(old(lines)@).push(line_view(l@)),
{
    let ghost before = lines_view(lines@);
    let ghost lv = line_view(l@);
    lines.push(l);
    assert(lines_view(lines@) =~= before.push(lv));
}

fn status_piece(l: &mut Vec<(DetailPiece, String)>, status: &str)
    ensures
        line_view(final(l)@) == line_view(old(l)@).push((DetailPiece::Status(color_of(status@)), status_text(status@))),
{
    let text = concat_str(concat_str(status_icon(status), " ").as_str(), status);
    push_piece(l, DetailPiece::Status(status_color(status)), text);
}

/// The lines of the detail view of `task`, with a rule `width` wide.
pub fn detail_lines(task: &Task, width: usize) -> (lines: Vec<Vec<(DetailPiece, String)>>)
    ensures
        lines_view(lines@) == detail_lines_spec(task@, width as nat),
        lines@.len() == detail_lines_of(task@),
{
    let ghost t = task@;
    let mut lines: Vec<Vec<(DetailPiece, String)>> = Vec::new();
    assert(lines_view(lines@) =~= Seq::<Seq<(DetailPiece, Seq<char>)>>::empty());

    let mut title: Vec<(DetailPiece, String)> = Vec::new();
    assert(line_view(title@) =~= Seq::<(DetailPiece, Seq<char>)>::empty());
    push_piece(&mut title, DetailPiece::Title, task.title.clone());
    assert(line_view(title@) =~= seq![(DetailPiece::Title, t.title)]);
    push_line(&mut lines, title);

    let mut meta: Vec<(DetailPiece, String)> = Vec::new();
    assert(line_view(meta@) =~= Seq::<(DetailPiece, Seq<char>)>::empty());
    status_piece(&mut meta, task.status.as_str());
    push_piece(&mut meta, DetailPiece::FieldName, String::from_str("  priority: "));
    push_piece(&mut meta, DetailPiece::Value, signed_decimal_str(task.priority));
    if task.assignee.as_str().unicode_len() > 0 {
        push_piece(&mut meta, DetailPiece::FieldName, String::from_str("  owner: "));
        push_piece(&mut meta, DetailPiece::Value, task.assignee.clone());
    }
    let ghost meta_spec = seq![
        (DetailPiece::Status(color_of(t.status)), status_text(t.status)),
        (DetailPiece::FieldName, "  priority: "@),
        (DetailPiece::Value, signed_decimal(t.priority as int)),
    ] + if t.assignee.len() > 0 {
        seq![(DetailPiece::FieldName, "  owner: "@), (DetailPiece::Value, t.assignee)]
    } else {
        seq![]
    };
    assert(line_view(meta@) =~= meta_spec);
    push_line(&mut lines, meta);

    let mut id: Vec<(DetailPiece, String)> = Vec::new();
    assert(line_view(id@) =~= Seq::<(DetailPiece, Seq<char>)>::empty());
    push_piece(&mut id, DetailPiece::FieldName, String::from_str("ID: "));
    push_piece(&mut id, DetailPiece::Value, task.id.clone());
    if task.updated_at.as_str().unicode_len() > 0 {
        push_piece(&mut id, DetailPiece::FieldName, String::from_str("  updated: "));
        push_piece(&mut id, DetailPiece::Value, task.updated_at.clone());
    }
    let ghost id_spec = seq![(DetailPiece::FieldName, "ID: "@), (DetailPiece::Value, t.id)] + if t.updated_at.len() > 0 {
        seq![(DetailPiece::FieldName, "  updated: "@), (DetailPiece::Value, t.updated_at)]
    } else {
        seq![]
    };
    assert(line_view(id@) =~= id_spec);
    push_line(&mut lines, id);

    let mut rule: Vec<(DetailPiece, String)> = Vec::new();
    assert(line_view(rule@) =~= Seq::<(DetailPiece, Seq<char>)>::empty());
    push_piece(&mut rule, DetailPiece::Rule, repeat_str("─", width));
    assert(line_view(rule@) =~= seq![(DetailPiece::Rule, repeat_seq("─"@, width as nat))]);
    push_line(&mut lines, rule);

    let ghost head = lines_view(lines@);
    let ghost spec = detail_lines_spec(t, width as nat);
    assert(head =~= seq![
        seq![(DetailPiece::Title, t.title)],
        meta_spec,
        id_spec,
        seq![(DetailPiece::Rule, repeat_seq("─"@, width as nat))],
    ]);

    let ghost desc = if t.description.len() > 0 {
        split_on(t.description, '\n').map_values(|l: Seq<char>| seq![(DetailPiece::Description, l)])
    } else {
        Seq::<Seq<(DetailPiece, Seq<char>)>>::empty()
    };
    if task.description.as_str().unicode_len() > 0 {
        let parts = split_lines(task.description.as_str());
        let m = parts.len();
        for k in 0..m
            invariant
                m == parts@.len(),
                strs_view(parts@) == split_on(t.description, '\n'),
                t.description.len() > 0,
                desc == split_on(t.description, '\n').map_values(|l: Seq<char>| seq![(DetailPiece::Description, l)]),
                lines_view(lines@) == head + desc.take(k as int),
        {
            let mut l: Vec<(DetailPiece, String)> = Vec::new();
            assert(line_view(l@) =~= Seq::<(DetailPiece, Seq<char>)>::empty());
            assert(strs_view(parts@)[k as int] == parts@[k as int]@);
            push_piece(&mut l, DetailPiece::Description, parts[k].clone());
            push_line(&mut lines, l);
            assert(desc.take(k + 1) =~= desc.take(k as int).push(seq![(DetailPiece::Description, parts@[k as int]@)]));
            assert(head + desc.take(k + 1) =~= (head + desc.take(k as int)).push(seq![(DetailPiece::Description, parts@[k as int]@)]));
        }
        assert(desc.take(m as int) =~= desc);
    } else {
        assert(head + desc =~= head);
    }
    let ghost hd = head + desc;
    assert(lines_view(lines@) == hd);

    proof {
        lemma_task_children_view(*task);
    }
    let n = task.children.len();
    if n > 0 {
        let ghost kids = seq![
            seq![],
            seq![(DetailPiece::Heading, "Children ("@ + decimal(t.children.len()) + "):"@)],
        ] + Seq::new(t.children.len(), |i: int| child_line(i as nat, t.children[i]));
        let blank: Vec<(DetailPiece, String)> = Vec::new();
        assert(line_view(blank@) =~= Seq::<(DetailPiece, Seq<char>)>::empty());
        push_line(&mut lines, blank);
        let mut heading: Vec<(DetailPiece, String)> = Vec::new();
        assert(line_view(heading@) =~= Seq::<(DetailPiece, Seq<char>)>::empty());
        let count = decimal_str(n as u64);
        let text = concat_str(concat_str("Children (", count.as_str()).as_str(), "):");
        push_piece(&mut heading, DetailPiece::Heading, text);
        push_line(&mut lines, heading);
        assert(lines_view(lines@) =~= hd + kids.take(2));
        for i in 0..n
            invariant
                n == t.children.len(),
                task@ == t,
                t.children == crate::data::tasks_view(task.children@),
                kids == seq![
                    seq![],
                    seq![(DetailPiece::Heading, "Children ("@ + decimal(t.children.len()) + "):"@)],
                ] + Seq::new(t.children.len(), |i: int| child_line(i as nat, t.children[i])),
                lines_view(lines@) == hd + kids.take(i + 2),
        {
            let child = &task.children[i];
            assert(t.children[i as int] == child@);
            let mut l: Vec<(DetailPiece, String)> = Vec::new();
            assert(line_view(l@) =~= Seq::<(DetailPiece, Seq<char>)>::empty());
            let num = decimal_str((i + 1) as u64);
            push_piece(&mut l, DetailPiece::Index, concat_str(concat_str("[", num.as_str()).as_str(), "] "));
            push_piece(&mut l, DetailPiece::Value, child.title.clone());
            push_piece(&mut l, DetailPiece::Plain, String::from_str("  "));
            status_piece(&mut l, child.status.as_str());
            assert(line_view(l@) =~= child_line(i as nat, child@));
            push_line(&mut lines, l);
            assert(kids.take(i + 3) =~= kids.take(i + 2).push(child_line(i as nat, t.children[i as int])));
            assert(hd + kids.take(i + 3) =~= (hd + kids.take(i + 2)).push(child_line(i as nat, t.children[i as int])));
        }
        assert(kids.take(n + 2) =~= kids);
        assert(lines_view(lines@) =~= spec);
    } else {
        assert(lines_view(lines@) =~= spec);
    }
    proof {
        if t.description.len() > 0 {
            lemma_split_on_len(t.description, '\n');
        }
    }
    assert(lines@.len() == lines_view(lines@).len());
    lines
}

} // verus!
