//! The viewport: how records become terminal rows, and the follow-mode
//! scroll state that decides which rows are drawn and which skips the worker
//! is asked for.
//!
//! Widths are counted in characters, and rows are cut between characters, so
//! a multi-byte character always stays whole within one row.

use vstd::prelude::*;
use vstd::string::*;
use crate::level::{Level, LevelMask, level_name};
use crate::message::Message;
use crate::record::{shown_time, time_text};
use crate::search::CommandMessage;
use crate::text::{pieces, split_pieces};

verus! {

/// `s` cut into rows of `n` characters, the last one shorter if need be; no
/// rows at all when `n` is 0.
pub open spec fn chunks(s: Seq<char>, n: nat) -> Seq<Seq<char>>
    decreases s.len(),
{
    if n == 0 || s.len() == 0 {
        Seq::empty()
    } else if s.len() <= n {
        seq![s]
    } else {
        seq![s.take(n as int)] + chunks(s.skip(n as int), n)
    }
}

/// Cuts `string` into pieces of `sub_len` characters (the last may be
/// shorter); none when `sub_len` is 0.
pub fn sub_strings(string: &str, sub_len: usize) -> (r: Vec<&str>)
    ensures
        r@.map_values(|p: &str| p@) == chunks(string@, sub_len as nat),
{
    let mut subs: Vec<&str> = Vec::new();
    if sub_len == 0 {
        proof {
            assert(subs@.map_values(|p: &str| p@) =~= Seq::<Seq<char>>::empty());
        }
        return subs;
    }
    let len = string.unicode_len();
    let mut pos: usize = 0;
    proof {
        assert(string@.subrange(0, len as int) =~= string@);
        assert(subs@.map_values(|p: &str| p@) + chunks(string@, sub_len as nat) =~= chunks(string@, sub_len as nat));
    }
    while pos < len
        invariant
            len == string@.len(),
            sub_len > 0,
            pos <= len,
            subs@.map_values(|p: &str| p@) + chunks(string@.subrange(pos as int, len as int), sub_len as nat)
                == chunks(string@, sub_len as nat),
        decreases len - pos,
    {
        let end = if len - pos <= sub_len {
            len
        } else {
            pos + sub_len
        };
        let piece = string.substring_char(pos, end);
        let ghost before = subs@;
        subs.push(piece);
        proof {
            let t = string@.subrange(pos as int, len as int);
            if t.len() > sub_len {
                assert(t.take(sub_len as int) =~= piece@);
                assert(t.skip(sub_len as int) =~= string@.subrange(end as int, len as int));
            } else {
                assert(t =~= piece@);
                assert(string@.subrange(end as int, len as int) =~= Seq::<char>::empty());
            }
            assert(subs@.map_values(|p: &str| p@) =~= before.map_values(|p: &str| p@).push(piece@));
            assert(subs@.map_values(|p: &str| p@) + chunks(string@.subrange(end as int, len as int), sub_len as nat)
                =~= before.map_values(|p: &str| p@) + chunks(t, sub_len as nat));
        }
        pos = end;
    }
    proof {
        assert(string@.subrange(len as int, len as int) =~= Seq::<char>::empty());
        assert(subs@.map_values(|p: &str| p@) + Seq::<Seq<char>>::empty() =~= subs@.map_values(|p: &str| p@));
    }
    subs
}

/// Concatenation of rows.
pub open spec fn joined(rows: Seq<Seq<char>>) -> Seq<char>
    decreases rows.len(),
{
    if rows.len() == 0 {
        Seq::empty()
    } else {
        joined(rows.drop_last()) + rows.last()
    }
}

proof fn lemma_joined_single(a: Seq<char>)
    ensures
        joined(seq![a]) == a,
{
    let x = seq![a];
    assert(x.drop_last() =~= Seq::<Seq<char>>::empty());
    assert(joined(x) == joined(x.drop_last()) + x.last());
    assert(Seq::<char>::empty() + a =~= a);
}

proof fn lemma_joined_front(a: Seq<char>, rows: Seq<Seq<char>>)
    ensures
        joined(seq![a] + rows) == a + joined(rows),
    decreases rows.len(),
{
    if rows.len() == 0 {
        lemma_joined_single(a);
        assert(seq![a] + rows =~= seq![a]);
        assert(a + joined(rows) =~= a);
    } else {
        lemma_joined_front(a, rows.drop_last());
        let x = seq![a] + rows;
        assert(x.drop_last() =~= seq![a] + rows.drop_last());
        assert(x.last() == rows.last());
        assert(joined(x) == joined(x.drop_last()) + x.last());
        assert(joined(rows) == joined(rows.drop_last()) + rows.last());
        assert(a + joined(rows.drop_last()) + rows.last() =~= a + (joined(rows.drop_last()) + rows.last()));
    }
}

/// Cutting into rows keeps every character, in order, each whole in one row,
/// and no row is longer than `n` or empty.
pub proof fn lemma_chunks_keep_characters(s: Seq<char>, n: nat)
    requires
        n > 0,
    ensures
        joined(chunks(s, n)) == s,
        forall|i: int| 0 <= i < chunks(s, n).len() ==> 0 < (#[trigger] chunks(s, n)[i]).len() <= n,
    decreases s.len(),
{
    if s.len() == 0 {
        assert(joined(chunks(s, n)) =~= s);
    } else if s.len() <= n {
        lemma_joined_single(s);
    } else {
        let rest = s.skip(n as int);
        lemma_chunks_keep_characters(rest, n);
        lemma_joined_front(s.take(n as int), chunks(rest, n));
        assert(s.take(n as int) + rest =~= s);
        let c = chunks(s, n);
        assert forall|i: int| 0 <= i < c.len() implies 0 < (#[trigger] c[i]).len() <= n by {
            if i > 0 {
                assert(c[i] == chunks(rest, n)[i - 1]);
            }
        }
    }
}

/// The rows of one line of text that starts after `prefix` columns of header:
/// the line as it is when it fits in `width`; else as many characters as fit
/// beside the header, then rows of `width` characters.
pub open spec fn wrapped_rows(prefix: nat, body: Seq<char>, width: nat) -> Seq<Seq<char>> {
    if prefix + body.len() <= width {
        seq![body]
    } else {
        let k = if width > prefix {
            (width - prefix) as nat
        } else {
            0
        };
        seq![body.take(k as int)] + chunks(body.skip(k as int), width)
    }
}

/// Wrapped, the rows of one line hold all of its characters, in order.
pub proof fn lemma_wrapped_rows_keep_characters(prefix: nat, body: Seq<char>, width: nat)
    requires
        width > 0,
    ensures
        joined(wrapped_rows(prefix, body, width)) == body,
        wrapped_rows(prefix, body, width).len() > 0,
{
    if prefix + body.len() <= width {
        lemma_joined_single(body);
    } else {
        let k = if width > prefix {
            (width - prefix) as nat
        } else {
            0
        };
        lemma_chunks_keep_characters(body.skip(k as int), width);
        lemma_joined_front(body.take(k as int), chunks(body.skip(k as int), width));
        assert(body.take(k as int) + body.skip(k as int) =~= body);
    }
}

fn wrap_line(prefix: usize, body: &str, width: usize) -> (r: Vec<String>)
    ensures
        r@.map_values(|p: String| p@) == wrapped_rows(prefix as nat, body@, width as nat),
{
    let n = body.unicode_len();
    let mut out: Vec<String> = Vec::new();
    if n <= width && prefix <= width - n {
        out.push(String::from_str(body));
        proof {
            assert(out@.map_values(|p: String| p@) =~= seq![body@]);
        }
        return out;
    }
    let k = if width > prefix {
        if width - prefix < n {
            width - prefix
        } else {
            n
        }
    } else {
        0
    };
    proof {
        assert(n > width - prefix || prefix > width);
    }
    out.push(String::from_str(body.substring_char(0, k)));
    let rest = body.substring_char(k, n);
    let parts = sub_strings(rest, width);
    let mut j: usize = 0;
    while j < parts.len()
        invariant
            j <= parts.len(),
            parts@.map_values(|p: &str| p@) == chunks(rest@, width as nat),
            out@.map_values(|p: String| p@) == seq![body@.take(k as int)] + chunks(rest@, width as nat).take(
                j as int,
            ),
        decreases parts.len() - j,
    {
        let ghost before = out@;
        out.push(String::from_str(parts[j]));
        proof {
            assert(chunks(rest@, width as nat).take(j + 1) =~= chunks(rest@, width as nat).take(j as int).push(
                parts@[j as int]@,
            ));
            assert(out@.map_values(|p: String| p@) =~= before.map_values(|p: String| p@).push(parts@[j as int]@));
        }
        j = j + 1;
    }
    proof {
        assert(chunks(rest@, width as nat).take(parts.len() as int) =~= chunks(rest@, width as nat));
        let kk = if width > prefix { (width - prefix) as nat } else { 0 };
        assert(body@.take(k as int) =~= body@.take(kk as int));
        assert(rest@ =~= body@.skip(kk as int));
    }
    out
}

/// How many columns a record's header takes: its time, its source and its
/// level, each followed by a space (capped at `usize::MAX`).
pub open spec fn header_width(m: Message) -> nat {
    let w = shown_time(m.timestamp).len() + m.system@.len() + level_name(m.level).len() + 3;
    if w > usize::MAX {
        usize::MAX as nat
    } else {
        w
    }
}

/// The rows of the lines of a record's text: the first line beside the
/// header, every later line on rows of its own.
pub open spec fn lines_rows(lines: Seq<Seq<char>>, header: nat, width: nat) -> Seq<Seq<char>>
    decreases lines.len(),
{
    if lines.len() == 0 {
        Seq::empty()
    } else {
        lines_rows(lines.drop_last(), header, width) + wrapped_rows(
            if lines.len() == 1 {
                header
            } else {
                0
            },
            lines.last(),
            width,
        )
    }
}

/// How many characters of text a row has beside the header when not
/// wrapping: the width plus ten, less the header.
pub open spec fn unwrapped_room(m: Message, width: nat) -> nat {
    if width + 10 > header_width(m) {
        (width + 10 - header_width(m)) as nat
    } else {
        0
    }
}

/// The texts of a record's rows (the first row is drawn after the header).
/// Wrapping, every line of the text starts a row and rows wider than the
/// terminal are cut; not wrapping, the record is one row cut short.
pub open spec fn record_texts(m: Message, width: nat, wrap: bool) -> Seq<Seq<char>> {
    if wrap {
        lines_rows(pieces(m.value@, '\n'), header_width(m), width)
    } else {
        seq![
            if m.value@.len() <= unwrapped_room(m, width) {
                m.value@
            } else {
                m.value@.take(unwrapped_room(m, width) as int)
            },
        ]
    }
}

/// The header drawn before a record's first row.
pub struct Header {
    pub time: String,
    pub system: String,
    pub level: Level,
}

/// One terminal row.
pub struct Row {
    pub header: Option<Header>,
    pub text: String,
}

pub open spec fn row_texts(rows: Seq<Row>) -> Seq<Seq<char>> {
    rows.map_values(|r: Row| r.text@)
}

/// The header shows the record's time, source and level.
pub open spec fn header_of(h: Header, m: Message) -> bool {
    h.time@ == shown_time(m.timestamp) && h.system@ == m.system@ && h.level == m.level
}

/// The first row carries the record's header.
pub open spec fn first_headed(rows: Seq<Row>, m: Message) -> bool {
    &&& rows.len() > 0
    &&& rows[0].header matches Some(h) && header_of(h, m)
}

/// Only a record's first row has a header.
pub open spec fn headed(rows: Seq<Row>, m: Message) -> bool {
    &&& first_headed(rows, m)
    &&& forall|k: int| 0 < k < rows.len() ==> (#[trigger] rows[k]).header is None
}

proof fn lemma_lines_rows_nonempty(lines: Seq<Seq<char>>, header: nat, width: nat)
    requires
        lines.len() > 0,
    ensures
        lines_rows(lines, header, width).len() > 0,
    decreases lines.len(),
{
    if lines.len() > 1 {
        lemma_lines_rows_nonempty(lines.drop_last(), header, width);
    }
}

/// The rows of one record.
pub fn record_rows(m: &Message, width: u16, wrap: bool) -> (r: Vec<Row>)
    ensures
        row_texts(r@) == record_texts(*m, width as nat, wrap),
        headed(r@, *m),
{
    let time = time_text(m);
    let hw = time.as_str().unicode_len().saturating_add(m.system.as_str().unicode_len()).saturating_add(
        m.level.name().unicode_len(),
    ).saturating_add(3);
    proof {
        assert(hw == header_width(*m));
    }
    let w = width as usize;
    let mut rows: Vec<Row> = Vec::new();
    if wrap {
        let lines = split_pieces(m.value.as_str(), '\n');
        let ghost ls = pieces(m.value@, '\n');
        let mut j: usize = 0;
        while j < lines.len()
            invariant
                hw == header_width(*m),
                time@ == shown_time(m.timestamp),
                w == width as nat,
                lines@.map_values(|p: String| p@) == ls,
                j <= lines.len(),
                row_texts(rows@) == lines_rows(ls.take(j as int), hw as nat, w as nat),
                j > 0 ==> headed(rows@, *m),
                j == 0 ==> rows@.len() == 0,
            decreases lines.len() - j,
        {
            let prefix = if j == 0 {
                hw
            } else {
                0
            };
            let parts = wrap_line(prefix, lines[j].as_str(), w);
            let ghost before = rows@;
            let mut k: usize = 0;
            while k < parts.len()
                invariant
                    hw == header_width(*m),
                    time@ == shown_time(m.timestamp),
                    j == 0 ==> before.len() == 0,
                    j > 0 ==> headed(before, *m),
                    k <= parts.len(),
                    parts@.map_values(|p: String| p@) == wrapped_rows(prefix as nat, ls[j as int], w as nat),
                    rows@.len() == before.len() + k,
                    forall|t: int| 0 <= t < before.len() ==> #[trigger] rows@[t] == before[t],
                    row_texts(rows@) == row_texts(before) + wrapped_rows(prefix as nat, ls[j as int], w as nat).take(
                        k as int,
                    ),
                    k > 0 && j == 0 ==> first_headed(rows@, *m),
                    forall|t: int| before.len() <= t < rows@.len() && !(t == 0 && j == 0) ==> (#[trigger] rows@[t]).header is None,
                decreases parts.len() - k,
            {
                let header = if j == 0 && k == 0 {
                    Some(Header { time: time.clone(), system: m.system.clone(), level: m.level })
                } else {
                    None
                };
                let ghost rb = rows@;
                rows.push(Row { header, text: parts[k].clone() });
                proof {
                    if j == 0 && k > 0 {
                        assert(rows@[0] == rb[0]);
                    }
                    assert(wrapped_rows(prefix as nat, ls[j as int], w as nat).take(k + 1) =~= wrapped_rows(
                        prefix as nat,
                        ls[j as int],
                        w as nat,
                    ).take(k as int).push(parts@[k as int]@));
                    assert(row_texts(rows@) =~= row_texts(rb).push(parts@[k as int]@));
                }
                k = k + 1;
            }
            proof {
                assert(wrapped_rows(prefix as nat, ls[j as int], w as nat).take(parts.len() as int) =~= wrapped_rows(
                    prefix as nat,
                    ls[j as int],
                    w as nat,
                ));
                let t = ls.take(j + 1);
                assert(t.drop_last() =~= ls.take(j as int));
                assert(t.last() == ls[j as int]);
                if j == 0 {
                    assert(t.len() == 1);
                    assert(row_texts(before) =~= Seq::<Seq<char>>::empty());
                    assert(row_texts(rows@) =~= wrapped_rows(prefix as nat, ls[j as int], w as nat));
                    if w > 0 {
                        lemma_wrapped_rows_keep_characters(prefix as nat, ls[j as int], w as nat);
                    } else {
                        assert(wrapped_rows(prefix as nat, ls[j as int], w as nat).len() > 0);
                    }
                    assert(rows@.len() > 0);
                }
            }
            j = j + 1;
        }
        proof {
            assert(ls.take(lines.len() as int) =~= ls);
            crate::text::lemma_split_pieces_nonempty(m.value@, '\n');
        }
    } else {
        let n = m.value.as_str().unicode_len();
        let room: usize = if w + 10 > hw {
            w + 10 - hw
        } else {
            0
        };
        let text = if n <= room {
            m.value.clone()
        } else {
            String::from_str(m.value.as_str().substring_char(0, room))
        };
        rows.push(Row { header: Some(Header { time, system: m.system.clone(), level: m.level }), text });
        proof {
            assert(row_texts(rows@) =~= record_texts(*m, width as nat, wrap));
        }
    }
    rows
}

/// Row by row, the rows of a snapshot belong to its records, newest record
/// first: each record's first row carries its header, its other rows none.
pub open spec fn layout_headed(rows: Seq<Row>, ms: Seq<Message>, width: nat, wrap: bool) -> bool
    decreases ms.len(),
{
    if ms.len() == 0 {
        rows.len() == 0
    } else {
        let n = record_texts(ms.last(), width, wrap).len();
        &&& n <= rows.len()
        &&& headed(rows.take(n as int), ms.last())
        &&& layout_headed(rows.skip(n as int), ms.drop_last(), width, wrap)
    }
}

proof fn lemma_layout_headed_append(
    a: Seq<Row>,
    t: Seq<Message>,
    b: Seq<Row>,
    x: Message,
    width: nat,
    wrap: bool,
)
    requires
        layout_headed(a, t, width, wrap),
        headed(b, x),
        b.len() == record_texts(x, width, wrap).len(),
    ensures
        layout_headed(a + b, seq![x] + t, width, wrap),
    decreases t.len(),
{
    let u = seq![x] + t;
    if t.len() == 0 {
        assert(a.len() == 0);
        assert(a + b =~= b);
        assert(u.last() == x);
        assert(u.drop_last() =~= Seq::<Message>::empty());
        assert(b.take(b.len() as int) =~= b);
        assert(b.skip(b.len() as int) =~= Seq::<Row>::empty());
        assert(layout_headed(b.skip(b.len() as int), u.drop_last(), width, wrap));
        assert(headed((a + b).take(b.len() as int), u.last()));
    } else {
        let n = record_texts(t.last(), width, wrap).len();
        assert(u.last() == t.last());
        assert(u.drop_last() =~= seq![x] + t.drop_last());
        lemma_layout_headed_append(a.skip(n as int), t.drop_last(), b, x, width, wrap);
        assert((a + b).take(n as int) =~= a.take(n as int));
        assert((a + b).skip(n as int) =~= a.skip(n as int) + b);
        assert(n <= a.len());
        assert(headed((a + b).take(n as int), u.last()));
        assert(layout_headed((a + b).skip(n as int), u.drop_last(), width, wrap));
    }
}

/// The texts of the rows of a snapshot, newest record first.
pub open spec fn layout_texts(ms: Seq<Message>, width: nat, wrap: bool) -> Seq<Seq<char>>
    decreases ms.len(),
{
    if ms.len() == 0 {
        Seq::empty()
    } else {
        record_texts(ms.last(), width, wrap) + layout_texts(ms.drop_last(), width, wrap)
    }
}

/// The rows of a snapshot (oldest record first in `ms`), drawn newest record
/// first.
pub fn layout(ms: &Vec<Message>, width: u16, wrap: bool) -> (r: Vec<Row>)
    ensures
        row_texts(r@) == layout_texts(ms@, width as nat, wrap),
        layout_headed(r@, ms@, width as nat, wrap),
{
    let mut out: Vec<Row> = Vec::new();
    let mut j: usize = ms.len();
    proof {
        assert(ms@.subrange(ms.len() as int, ms.len() as int) =~= Seq::<Message>::empty());
        assert(ms@.take(ms.len() as int) =~= ms@);
        assert(row_texts(out@) + layout_texts(ms@, width as nat, wrap) =~= layout_texts(ms@, width as nat, wrap));
    }
    while j > 0
        invariant
            j <= ms.len(),
            row_texts(out@) + layout_texts(ms@.take(j as int), width as nat, wrap) == layout_texts(
                ms@,
                width as nat,
                wrap,
            ),
            layout_headed(out@, ms@.subrange(j as int, ms.len() as int), width as nat, wrap),
        decreases j,
    {
        let rows = record_rows(&ms[j - 1], width, wrap);
        let ghost before = out@;
        let ghost added = rows@;
        let mut rows = rows;
        out.append(&mut rows);
        proof {
            assert(added.map_values(|r: Row| r.text@).len() == added.len());
            lemma_layout_headed_append(before, ms@.subrange(j as int, ms.len() as int), added, ms@[j - 1], width as nat, wrap);
            assert(seq![ms@[j - 1]] + ms@.subrange(j as int, ms.len() as int) =~= ms@.subrange(j - 1, ms.len() as int));
            assert(out@ =~= before + added);
            let t = ms@.take(j as int);
            assert(t.drop_last() =~= ms@.take(j - 1));
            assert(t.last() == ms@[j - 1]);
            assert(row_texts(out@) =~= row_texts(before) + record_texts(ms@[j - 1], width as nat, wrap));
            assert(row_texts(out@) + layout_texts(ms@.take(j - 1), width as nat, wrap) =~= row_texts(before)
                + layout_texts(t, width as nat, wrap));
        }
        j = j - 1;
    }
    proof {
        assert(ms@.take(0) =~= Seq::<Message>::empty());
        assert(row_texts(out@) + Seq::<Seq<char>>::empty() =~= row_texts(out@));
        assert(ms@.subrange(0, ms.len() as int) =~= ms@);
    }
    out
}

/// How many rows a record takes.
pub fn record_height(m: &Message, width: u16, wrap: bool) -> (r: usize)
    ensures
        r == record_texts(*m, width as nat, wrap).len(),
        r > 0,
{
    let rows = record_rows(m, width, wrap);
    rows.len()
}

/// A key the viewport reacts to.
pub enum Key {
    Up,
    Down,
    Enter,
    ToggleLevel(Level),
    ToggleWrap,
}

/// The scroll state of the viewport.
pub struct Viewport {
    /// Records the worker hides below the newest shown.
    pub skip: usize,
    /// Rows the user has scrolled up from the bottom.
    pub dropped_bottom: usize,
    /// Rows the newest record took in the last frame.
    pub last_message_height: usize,
    /// A skip more was asked whose height is still to be taken off the scroll.
    pub just_skipped: bool,
    /// A key asked the worker to skip one record less.
    pub just_skipped_bottom: bool,
    pub wrap: bool,
    /// The levels shown, as the worker was told.
    pub shown: LevelMask,
}

/// What one frame draws and asks for.
pub struct Frame {
    /// Rows left out above the drawn window.
    pub top_skip: usize,
    /// How many rows are drawn at most.
    pub height: usize,
    /// Skips asked of the worker, in order.
    pub commands: Vec<CommandMessage>,
}

/// While the screen is full and the rows scrolled past the bottom cover the
/// newest record, the worker is asked to skip one more record and the scroll
/// falls back by that record's height. Returns how many skips are asked and
/// the scroll left.
pub open spec fn settle(dropped: nat, height: nat, skip: nat, full: bool) -> (nat, nat)
    decreases dropped,
{
    if full && height > 0 && dropped >= height && skip < usize::MAX {
        let (n, d) = settle((dropped - height) as nat, height, skip + 1, full);
        (n + 1, d)
    } else {
        (0, dropped)
    }
}

/// The scroll after the latches of the previous frame are applied with that
/// frame's newest-record height `newest`: a skip less adds the height less
/// one; a skip more takes the height away.
pub open spec fn latched_dropped(v: Viewport, newest: nat) -> nat {
    let d0: nat = if v.just_skipped_bottom {
        if v.dropped_bottom + newest - 1 > usize::MAX {
            usize::MAX as nat
        } else if newest == 0 {
            v.dropped_bottom as nat
        } else {
            (v.dropped_bottom + newest - 1) as nat
        }
    } else {
        v.dropped_bottom as nat
    };
    if v.just_skipped && d0 >= newest {
        (d0 - newest) as nat
    } else {
        d0
    }
}

/// Rows left out above a window of `screen` rows scrolled up by `dropped`.
pub open spec fn top_skip(rows: nat, screen: nat, dropped: nat) -> nat {
    if rows > screen + dropped {
        (rows - screen - dropped) as nat
    } else {
        0
    }
}

impl Viewport {
    /// Following, wrapping, every level shown.
    pub fn new() -> (r: Viewport)
        ensures
            r.skip == 0,
            r.dropped_bottom == 0,
            r.last_message_height == 0,
            !r.just_skipped,
            !r.just_skipped_bottom,
            r.wrap,
            forall|l: Level| r.shown.shows(l),
    {
        Viewport {
            skip: 0,
            dropped_bottom: 0,
            last_message_height: 0,
            just_skipped: false,
            just_skipped_bottom: false,
            wrap: true,
            shown: LevelMask::all(),
        }
    }

    /// Takes the skip the worker reports after a return to follow mode.
    pub fn on_skip_update(&mut self, n: usize)
        ensures
            *final(self) == (Viewport { skip: n, ..*old(self) }),
    {
        self.skip = n;
    }

    /// Reacts to a key; returns the command to send the worker, if any.
    pub fn on_key(&mut self, key: Key) -> (r: Option<CommandMessage>)
        ensures
            match key {
                Key::Up => r is None && *final(self) == (Viewport {
                    dropped_bottom: if old(self).dropped_bottom < usize::MAX {
                        (old(self).dropped_bottom + 1) as usize
                    } else {
                        old(self).dropped_bottom
                    },
                    ..*old(self)
                }),
                Key::Down => if old(self).dropped_bottom > 0 {
                    r is None && *final(self) == (Viewport {
                        dropped_bottom: (old(self).dropped_bottom - 1) as usize,
                        ..*old(self)
                    })
                } else if old(self).skip > 0 {
                    r == Some(CommandMessage::SetSkip((old(self).skip - 1) as usize)) && *final(self) == (
                    Viewport { skip: (old(self).skip - 1) as usize, just_skipped_bottom: true, ..*old(self) })
                } else {
                    r is None && *final(self) == *old(self)
                },
                Key::Enter => r == Some(CommandMessage::SetSkip(0)) && *final(self) == (Viewport {
                    skip: 0,
                    dropped_bottom: 0,
                    ..*old(self)
                }),
                Key::ToggleLevel(l) => r == Some(toggle_command(l)) && *final(self) == (Viewport {
                    shown: old(self).shown.toggled(l),
                    ..*old(self)
                }),
                Key::ToggleWrap => r is None && *final(self) == (Viewport { wrap: !old(self).wrap, ..*old(self) }),
            },
    {
        match key {
            Key::Up => {
                if self.dropped_bottom < usize::MAX {
                    self.dropped_bottom = self.dropped_bottom + 1;
                }
                None
            },
            Key::Down => {
                if self.dropped_bottom > 0 {
                    self.dropped_bottom = self.dropped_bottom - 1;
                    None
                } else if self.skip > 0 {
                    self.skip = self.skip - 1;
                    self.just_skipped_bottom = true;
                    Some(CommandMessage::SetSkip(self.skip))
                } else {
                    None
                }
            },
            Key::Enter => {
                self.skip = 0;
                self.dropped_bottom = 0;
                Some(CommandMessage::SetSkip(0))
            },
            Key::ToggleLevel(l) => {
                self.shown.toggle(l);
                Some(make_toggle_command(l))
            },
            Key::ToggleWrap => {
                self.wrap = !self.wrap;
                None
            },
        }
    }

    /// One frame over a snapshot laid out in `rows` rows whose newest record
    /// takes `newest` rows (0 when the snapshot is empty), on a screen of
    /// `screen` rows. The latches of the previous frame adjust the scroll by
    /// the previous frame's newest-record height; then, while the screen is
    /// full and the scroll covers that record, one more skip is asked and the
    /// scroll falls back by its height, so each skip asked is matched by one
    /// subtraction here and the latch is left clear. Last, the newest record's height is
    /// taken (an empty snapshot keeps the previous one). The window drawn
    /// starts `top_skip` rows down.
    pub fn frame(&mut self, rows: usize, newest: usize, screen: usize) -> (r: Frame)
        ensures
            ({
                let h: nat = old(self).last_message_height as nat;
                let d = latched_dropped(*old(self), h);
                let (n, dfin) = settle(d, h, old(self).skip as nat, rows >= screen);
                &&& final(self).last_message_height == if newest > 0 {
                    newest
                } else {
                    old(self).last_message_height
                }
                &&& final(self).dropped_bottom == dfin
                &&& final(self).skip == old(self).skip + n
                &&& !final(self).just_skipped
                &&& !final(self).just_skipped_bottom
                &&& final(self).wrap == old(self).wrap
                &&& final(self).shown == old(self).shown
                &&& r.top_skip == top_skip(rows as nat, screen as nat, dfin)
                &&& r.height == screen
                &&& r.commands@.len() == n
                &&& forall|k: int| 0 <= k < n ==> #[trigger] r.commands@[k] == CommandMessage::SetSkip(
                    (old(self).skip + k + 1) as usize,
                )
            }),
    {
        let h = self.last_message_height;
        let ghost start = *self;
        if self.just_skipped_bottom {
            if h > 0 {
                self.dropped_bottom = self.dropped_bottom.saturating_add(h - 1);
            }
            self.just_skipped_bottom = false;
        }
        if self.just_skipped && self.dropped_bottom >= h {
            self.dropped_bottom = self.dropped_bottom - h;
        }
        self.just_skipped = false;
        let ghost d = self.dropped_bottom as nat;
        proof {
            assert(d == latched_dropped(start, h as nat));
        }
        let full = rows >= screen;
        let ghost skip0 = self.skip as nat;
        let mut commands: Vec<CommandMessage> = Vec::new();
        while full && h > 0 && self.dropped_bottom >= h && self.skip < usize::MAX
            invariant
                self.last_message_height == h,
                self.skip >= skip0,
                !self.just_skipped_bottom,
                self.wrap == old(self).wrap,
                self.shown == old(self).shown,
                !self.just_skipped,
                commands@.len() == self.skip - skip0,
                forall|k: int| 0 <= k < commands@.len() ==> #[trigger] commands@[k] == CommandMessage::SetSkip(
                    (skip0 + k + 1) as usize,
                ),
                settle(d, h as nat, skip0, full) == ({
                    let (n, f) = settle(self.dropped_bottom as nat, h as nat, self.skip as nat, full);
                    ((n + commands@.len()) as nat, f)
                }),
            decreases self.dropped_bottom,
        {
            self.skip = self.skip + 1;
            self.dropped_bottom = self.dropped_bottom - h;
            commands.push(CommandMessage::SetSkip(self.skip));
        }
        if newest > 0 {
            self.last_message_height = newest;
        }
        let top = rows.saturating_sub(screen).saturating_sub(self.dropped_bottom);
        Frame { top_skip: top, height: screen, commands }
    }
}

/// The command that switches level `l` at the worker.
pub open spec fn toggle_command(l: Level) -> CommandMessage {
    match l {
        Level::INFO => CommandMessage::ToggleInfo(),
        Level::WARN => CommandMessage::ToggleWarn(),
        Level::ERROR => CommandMessage::ToggleError(),
        Level::DEBUG => CommandMessage::ToggleDebug(),
    }
}

fn make_toggle_command(l: Level) -> (r: CommandMessage)
    ensures
        r == toggle_command(l),
{
    match l {
        Level::INFO => CommandMessage::ToggleInfo(),
        Level::WARN => CommandMessage::ToggleWarn(),
        Level::ERROR => CommandMessage::ToggleError(),
        Level::DEBUG => CommandMessage::ToggleDebug(),
    }
}

proof fn lemma_joined_concat(a: Seq<Seq<char>>, b: Seq<Seq<char>>)
    ensures
        joined(a + b) == joined(a) + joined(b),
    decreases b.len(),
{
    if b.len() == 0 {
        assert(a + b =~= a);
        assert(joined(a) + joined(b) =~= joined(a));
    } else {
        lemma_joined_concat(a, b.drop_last());
        assert((a + b).drop_last() =~= a + b.drop_last());
        assert((a + b).last() == b.last());
        assert(joined(a) + joined(b.drop_last()) + b.last() =~= joined(a) + (joined(b.drop_last()) + b.last()));
    }
}

/// Wrapped, the rows of a record's lines hold the characters of those lines,
/// in order, each whole in one row.
pub proof fn lemma_lines_rows_keep_characters(lines: Seq<Seq<char>>, header: nat, width: nat)
    requires
        width > 0,
    ensures
        joined(lines_rows(lines, header, width)) == joined(lines),
    decreases lines.len(),
{
    if lines.len() > 0 {
        let init = lines.drop_last();
        let p: nat = if lines.len() == 1 { header } else { 0 };
        lemma_lines_rows_keep_characters(init, header, width);
        lemma_joined_concat(lines_rows(init, header, width), wrapped_rows(p, lines.last(), width));
        lemma_wrapped_rows_keep_characters(p, lines.last(), width);
    }
}

/// Wrapped, a record's rows hold every character of its text but the line
/// breaks, in order, and no character is split between two rows.
pub proof fn lemma_record_rows_keep_characters(m: Message, width: nat)
    requires
        width > 0,
    ensures
        joined(record_texts(m, width, true)) == joined(pieces(m.value@, '\n')),
{
    lemma_lines_rows_keep_characters(pieces(m.value@, '\n'), header_width(m), width);
}

} // verus!
