//! The text of the rows of the tree, piece by piece, each piece tagged with
//! what it is so that the screen can give it a style.
use vstd::prelude::*;
use vstd::string::*;
use crate::data::strs_view;
use crate::strings::{concat_str, str_eq};
use crate::theme::{icon_of, status_icon};
use crate::ui::{KindView, TreeItem, TreeItemKind, TreeItemView, task_collapsible};

verus! {

/// What a piece of a row is.
#[derive(PartialEq, Eq, Structural, Clone, Copy, Debug)]
pub enum Piece {
    /// The selection mark, or a blank.
    Marker,
    /// Two spaces per level, one level more than the depth.
    Indent,
    /// The fold arrow with a space after it.
    Arrow,
    /// "Epic: " before the title of an epic.
    EpicTag,
    /// The name of a project or group, or the title of a task.
    Name,
    /// The labels of a project.
    Labels,
    /// The id of a task.
    Id,
    /// The status of a task with its icon.
    Status,
    /// Blanks in place of a fold arrow.
    Pad,
}

/// `s` written `n` times.
pub open spec fn repeat_seq(s: Seq<char>, n: nat) -> Seq<char>
    decreases n,
{
    if n == 0 {
        seq![]
    } else {
        repeat_seq(s, (n - 1) as nat) + s
    }
}

/// The parts joined with `sep` between two consecutive ones.
pub open spec fn join_with(parts: Seq<Seq<char>>, sep: Seq<char>) -> Seq<char>
    decreases parts.len(),
{
    if parts.len() == 0 {
        seq![]
    } else if parts.len() == 1 {
        parts[0]
    } else {
        join_with(parts.drop_last(), sep) + sep + parts.last()
    }
}

/// The fold arrow of a row, down when unfolded.
pub open spec fn arrow_of(expanded: bool) -> Seq<char> {
    if expanded { "▼ "@ } else { "▶ "@ }
}

/// The pieces of a row: the selection mark, the indent, then by kind of
/// row the fold arrow and name, with a project's labels in brackets, or a
/// task's arrow or blanks, "Epic: " for an epic, title, id in parentheses
/// and status with its icon.
pub open spec fn row_pieces(item: TreeItemView, selected: bool) -> Seq<(Piece, Seq<char>)> {
    let head = seq![
        (Piece::Marker, if selected { "▌"@ } else { " "@ }),
        (Piece::Indent, repeat_seq("  "@, (item.depth + 1) as nat)),
    ];
    head + match item.kind {
        KindView::Project(p) => seq![(Piece::Arrow, arrow_of(item.expanded)), (Piece::Name, p.name)] + if p.labels.len() > 0 {
            seq![(Piece::Labels, "  ["@ + join_with(p.labels, ", "@) + "]"@)]
        } else {
            seq![]
        },
        KindView::LabelGroup { name, .. } => seq![(Piece::Arrow, arrow_of(item.expanded)), (Piece::Name, name)],
        KindView::Task(t) => (if task_collapsible(t) {
            seq![(Piece::Arrow, arrow_of(item.expanded))] + if t.task_type == "epic"@ {
                seq![(Piece::EpicTag, "Epic: "@)]
            } else {
                seq![]
            }
        } else {
            seq![(Piece::Pad, "  "@)]
        }) + seq![
            (Piece::Name, t.title),
            (Piece::Id, "  ("@ + t.id + ")"@),
            (Piece::Status, "  "@ + icon_of(t.status) + " "@ + t.status),
        ],
    }
}

pub open spec fn pieces_view(v: Seq<(Piece, String)>) -> Seq<(Piece, Seq<char>)> {
    Seq::new(v.len(), |i: int| (v[i].0, v[i].1@))
}

proof fn lemma_pieces_view_push(v: Seq<(Piece, String)>, p: Piece, s: String)
    ensures
        pieces_view(v.push((p, s))) == pieces_view(v).push((p, s@)),
{
    assert(pieces_view(v.push((p, s))) =~= pieces_view(v).push((p, s@)));
}

fn push_piece(v: &mut Vec<(Piece, String)>, p: Piece, s: String)
    ensures
        pieces_view(final(v)@) == pieces_view(old(v)@).push((p, s@)),
{
    proof {
        lemma_pieces_view_push(v@, p, s);
    }
    v.push((p, s));
}

/// `s` written `n` times.
pub fn repeat_str(s: &str, n: usize) -> (r: String)
    ensures
        r@ == repeat_seq(s@, n as nat),
{
    let mut r = String::new();
    for i in 0..n
        invariant
            r@ == repeat_seq(s@, i as nat),
    {
        r.append(s);
    }
    r
}

/// The strings joined with `sep` between two consecutive ones.
pub fn join_strs(parts: &[String], sep: &str) -> (r: String)
    ensures
        r@ == join_with(strs_view(parts@), sep@),
{
    let n = parts.len();
    let mut r = String::new();
    assert(strs_view(parts@).take(0) =~= Seq::<Seq<char>>::empty());
    for i in 0..n
        invariant
            n == parts@.len(),
            r@ == join_with(strs_view(parts@).take(i as int), sep@),
    {
        let ghost v = strs_view(parts@);
        assert(v.take(i + 1).drop_last() =~= v.take(i as int));
        if i == 0 {
            r = parts[0].clone();
            assert(v.take(1) =~= seq![v[0]]);
        } else {
            r.append(sep);
            r.append(parts[i].as_str());
        }
    }
    assert(strs_view(parts@).take(n as int) =~= strs_view(parts@));
    r
}

fn arrow(expanded: bool) -> (r: String)
    ensures
        r@ == arrow_of(expanded),
{
    if expanded {
        String::from_str("▼ ")
    } else {
        String::from_str("▶ ")
    }
}

/// The pieces of the text of a row of the tree.
pub fn row_text(item: &TreeItem, selected: bool) -> (pieces: Vec<(Piece, String)>)
    requires
        item.depth < usize::MAX,
    ensures
        pieces_view(pieces@) == row_pieces(item@, selected),
{
    let mut v: Vec<(Piece, String)> = Vec::new();
    assert(pieces_view(v@) =~= Seq::<(Piece, Seq<char>)>::empty());
    push_piece(&mut v, Piece::Marker, if selected { String::from_str("▌") } else { String::from_str(" ") });
    push_piece(&mut v, Piece::Indent, repeat_str("  ", item.depth + 1));
    let ghost head = pieces_view(v@);
    match &item.kind {
        TreeItemKind::Project(p) => {
            push_piece(&mut v, Piece::Arrow, arrow(item.expanded));
            push_piece(&mut v, Piece::Name, p.name.clone());
            if p.labels.len() > 0 {
                let joined = join_strs(p.labels.as_slice(), ", ");
                push_piece(&mut v, Piece::Labels, concat_str(concat_str("  [", joined.as_str()).as_str(), "]"));
            }
        },
        TreeItemKind::LabelGroup { name, .. } => {
            push_piece(&mut v, Piece::Arrow, arrow(item.expanded));
            push_piece(&mut v, Piece::Name, name.clone());
        },
        TreeItemKind::Task(t) => {
            if str_eq(t.task_type.as_str(), "epic") || t.children.len() > 0 {
                push_piece(&mut v, Piece::Arrow, arrow(item.expanded));
                if str_eq(t.task_type.as_str(), "epic") {
                    push_piece(&mut v, Piece::EpicTag, String::from_str("Epic: "));
                }
            } else {
                push_piece(&mut v, Piece::Pad, String::from_str("  "));
            }
            push_piece(&mut v, Piece::Name, t.title.clone());
            push_piece(&mut v, Piece::Id, concat_str(concat_str("  (", t.id.as_str()).as_str(), ")"));
            let status = concat_str(concat_str(concat_str("  ", status_icon(t.status.as_str())).as_str(), " ").as_str(), t.status.as_str());
            push_piece(&mut v, Piece::Status, status);
        },
    }
    assert(pieces_view(v@) =~= row_pieces(item@, selected));
    v
}

} // verus!
