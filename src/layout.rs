use vstd::prelude::*;

use crate::entry::{DirectoryEntry, DisplayOptions, EntryKind};
use crate::order::{
    lemma_selection_from_entries, lemma_selection_same, same_entry, same_snapshot, select, selection,
};
use crate::size::{format_size, size_text};

verus! {

/// `n` space characters.
pub open spec fn spaces(n: nat) -> Seq<char> {
    Seq::new(n, |i: int| ' ')
}

/// `s` followed by as many spaces as bring it to `width` characters; `s`
/// itself when it is already that long.
pub open spec fn padded(s: Seq<char>, width: nat) -> Seq<char> {
    if s.len() >= width {
        s
    } else {
        s + spaces((width - s.len()) as nat)
    }
}

/// Pads `s` with spaces on the right up to `width` characters.
pub fn right_pad(s: &str, width: usize) -> (r: String)
    ensures
        r@ == padded(s@, width as nat),
{
    let mut res = String::from_str(s);
    let mut n: usize = s.unicode_len();
    while n < width
        invariant
            n == res@.len(),
            s@.len() <= n,
            n <= width || n == s@.len(),
            res@ == s@ + spaces((n - s@.len()) as nat),
        decreases width - n,
    {
        res.append(" ");
        proof {
            reveal_strlit(" ");
        }
        n = n + 1;
        assert(res@ =~= s@ + spaces((n - s@.len()) as nat));
    }
    assert(res@ =~= padded(s@, width as nat));
    res
}

/// The colour, and weight, in which a piece of text is written.
#[derive(Clone, Copy, Debug, PartialEq, Eq, Structural)]
pub enum Style {
    White,
    BoldBlue,
    Cyan,
    Green,
    BoldRed,
    Yellow,
}

/// The style of an entry: missing entries red, symbolic links cyan,
/// directories blue, executable regular files green, the rest white.
pub open spec fn style_of(e: DirectoryEntry) -> Style {
    match e.kind {
        EntryKind::Missing => Style::BoldRed,
        EntryKind::Symlink => Style::Cyan,
        EntryKind::Directory => Style::BoldBlue,
        EntryKind::RegularFile => if e.is_executable {
            Style::Green
        } else {
            Style::White
        },
    }
}

/// The style in which `e` is written.
pub fn classify(e: &DirectoryEntry) -> (r: Style)
    ensures
        r == style_of(*e),
{
    match e.kind {
        EntryKind::Missing => Style::BoldRed,
        EntryKind::Symlink => Style::Cyan,
        EntryKind::Directory => Style::BoldBlue,
        EntryKind::RegularFile => if e.is_executable {
            Style::Green
        } else {
            Style::White
        },
    }
}

/// A piece of text written in one style.
#[derive(Clone, Debug)]
pub struct Segment {
    pub text: String,
    pub style: Style,
}

impl View for Segment {
    type V = (Seq<char>, Style);

    open spec fn view(&self) -> (Seq<char>, Style) {
        (self.text@, self.style)
    }
}

/// One line of output, its segments in the order they are written.
#[derive(Clone, Debug)]
pub struct RenderLine {
    pub segments: Vec<Segment>,
}

impl View for RenderLine {
    type V = Seq<(Seq<char>, Style)>;

    open spec fn view(&self) -> Seq<(Seq<char>, Style)> {
        self.segments@.map_values(|g: Segment| g@)
    }
}

pub open spec fn lines_view(v: Seq<RenderLine>) -> Seq<Seq<(Seq<char>, Style)>> {
    v.map_values(|l: RenderLine| l@)
}

/// The length of the longest display name; zero for no entries.
pub open spec fn max_name_len(entries: Seq<DirectoryEntry>) -> nat
    decreases entries.len(),
{
    if entries.len() == 0 {
        0
    } else {
        let m = max_name_len(entries.drop_last());
        let l = entries.last().display_name@.len();
        if l > m {
            l
        } else {
            m
        }
    }
}

/// No display name is longer than a `String` can be.
pub open spec fn names_fit(entries: Seq<DirectoryEntry>) -> bool {
    forall|i: int| 0 <= i < entries.len() ==> #[trigger] entries[i].display_name@.len() <= isize::MAX
}

/// The width of a column: the longest name and a two-space gutter.
pub open spec fn column_width(entries: Seq<DirectoryEntry>) -> nat {
    max_name_len(entries) + 2
}

/// How many entries go on one line; at least one.
pub open spec fn per_line(entries: Seq<DirectoryEntry>, width: nat) -> nat {
    if width / column_width(entries) >= 1 {
        width / column_width(entries)
    } else {
        1
    }
}

/// Whether all entries fit on one line at the full column width.
pub open spec fn fits_one_line(entries: Seq<DirectoryEntry>, width: nat) -> bool {
    column_width(entries) * entries.len() <= width
}

/// The width a name is padded to: its own length and the gutter when all
/// entries fit on one line, else the column width.
pub open spec fn cell_width(e: DirectoryEntry, entries: Seq<DirectoryEntry>, width: nat) -> nat {
    if fits_one_line(entries, width) {
        e.display_name@.len() + 2
    } else {
        column_width(entries)
    }
}

/// The padded name of `e` in its style.
pub open spec fn name_cell(e: DirectoryEntry, entries: Seq<DirectoryEntry>, width: nat) -> (
    Seq<char>,
    Style,
) {
    (padded(e.display_name@, cell_width(e, entries, width)), style_of(e))
}

/// The width of the size field.
pub const SIZE_FIELD: usize = 10;

/// The line of `e` when sizes are shown: the size field, then the name,
/// both in the entry's style; a missing entry shows its name alone.
pub open spec fn size_line(
    e: DirectoryEntry,
    entries: Seq<DirectoryEntry>,
    options: DisplayOptions,
    width: nat,
) -> Seq<(Seq<char>, Style)> {
    if e.kind != EntryKind::Missing && e.size_bytes is Some {
        seq![
            (
                padded(
                    size_text(
                        e.size_bytes->0 as nat,
                        options.human_readable,
                        options.size_base.spec_value() as nat,
                    ),
                    SIZE_FIELD as nat,
                ),
                style_of(e),
            ),
            name_cell(e, entries, width),
        ]
    } else {
        seq![name_cell(e, entries, width)]
    }
}

/// The entries in rows of `per_line`, left to right; the last row holds
/// what is left over.
pub open spec fn grid_lines(entries: Seq<DirectoryEntry>, width: nat) -> Seq<
    Seq<(Seq<char>, Style)>,
> {
    let k = per_line(entries, width);
    let full = entries.len() / k;
    let rest = entries.len() % k;
    Seq::new(
        if rest == 0 {
            full
        } else {
            full + 1
        },
        |l: int|
            Seq::new(
                if l < full {
                    k
                } else {
                    rest
                },
                |j: int| name_cell(entries[l * k + j], entries, width),
            ),
    )
}

/// The lines of the entries: one per entry with its size when sizes are
/// shown, else the grid.
pub open spec fn layout(entries: Seq<DirectoryEntry>, options: DisplayOptions, width: nat) -> Seq<
    Seq<(Seq<char>, Style)>,
> {
    if options.show_size {
        Seq::new(entries.len(), |l: int| size_line(entries[l], entries, options, width))
    } else {
        grid_lines(entries, width)
    }
}

proof fn lemma_max_name_len(entries: Seq<DirectoryEntry>)
    ensures
        forall|i: int|
            0 <= i < entries.len() ==> #[trigger] entries[i].display_name@.len() <= max_name_len(
                entries,
            ),
        entries.len() > 0 ==> exists|i: int|
            0 <= i < entries.len() && #[trigger] entries[i].display_name@.len() == max_name_len(
                entries,
            ),
    decreases entries.len(),
{
    if entries.len() > 0 {
        let d = entries.drop_last();
        lemma_max_name_len(d);
        assert forall|i: int| 0 <= i < entries.len() implies #[trigger] entries[i].display_name@.len()
            <= max_name_len(entries) by {
            if i < d.len() {
                assert(d[i] == entries[i]);
            }
        }
        if d.len() > 0 && max_name_len(d) >= entries.last().display_name@.len() {
            let i = choose|i: int| 0 <= i < d.len() && #[trigger] d[i].display_name@.len() == max_name_len(d);
            assert(entries[i] == d[i]);
        } else {
            assert(entries[entries.len() - 1].display_name@.len() == max_name_len(entries));
        }
    }
}

fn longest_name(entries: &Vec<DirectoryEntry>) -> (r: usize)
    requires
        names_fit(entries@),
    ensures
        r == max_name_len(entries@),
        r <= isize::MAX,
{
    let mut m: usize = 0;
    let mut i: usize = 0;
    assert(entries@.subrange(0, 0) =~= Seq::<DirectoryEntry>::empty());
    while i < entries.len()
        invariant
            i <= entries@.len(),
            names_fit(entries@),
            m == max_name_len(entries@.subrange(0, i as int)),
            m <= isize::MAX,
        decreases entries@.len() - i,
    {
        let l = entries[i].display_name.unicode_len();
        assert(entries@.subrange(0, i + 1).drop_last() =~= entries@.subrange(0, i as int));
        if l > m {
            m = l;
        }
        i = i + 1;
    }
    assert(entries@.subrange(0, i as int) =~= entries@);
    m
}

/// The lines that show `entries` (already selected and ordered) on a
/// terminal `terminal_width` columns wide.
pub fn render(entries: &Vec<DirectoryEntry>, options: &DisplayOptions, terminal_width: usize) -> (r:
    Vec<RenderLine>)
    requires
        names_fit(entries@),
    ensures
        lines_view(r@) == layout(entries@, *options, terminal_width as nat),
{
    let ghost es = entries@;
    let ghost wd = terminal_width as nat;
    let n = entries.len();
    let longest = longest_name(entries);
    let w: usize = longest + 2;
    let per: usize = if terminal_width / w >= 1 {
        terminal_width / w
    } else {
        1
    };
    let one_line = n <= terminal_width / w;
    proof {
        let ww = w as int;
        let t = terminal_width as int;
        vstd::arithmetic::div_mod::lemma_fundamental_div_mod(t, ww);
        assert(0 <= t % ww < ww);
        if n <= t / ww {
            assert(ww * n <= ww * (t / ww)) by (nonlinear_arith)
                requires
                    n <= t / ww,
                    ww > 0,
            ;
            assert(ww * n <= t);
        } else {
            assert(ww * n >= ww * (t / ww + 1)) by (nonlinear_arith)
                requires
                    n >= t / ww + 1,
                    ww > 0,
            ;
            assert(ww * (t / ww + 1) == ww * (t / ww) + ww) by (nonlinear_arith);
            assert(ww * n > t);
        }
        assert(one_line == fits_one_line(es, wd));
    }
    let mut lines: Vec<RenderLine> = Vec::new();
    if options.show_size {
        let base = options.size_base.value();
        let mut i: usize = 0;
        while i < n
            invariant
                n == es.len(),
                i <= n,
                es == entries@,
                w == column_width(es),
                one_line == fits_one_line(es, wd),
                wd == terminal_width,
                base == options.size_base.spec_value(),
                names_fit(es),
                lines_view(lines@) =~= Seq::new(
                    i as nat,
                    |l: int| size_line(es[l], es, *options, wd),
                ),
            decreases n - i,
        {
            let e = &entries[i];
            let style = classify(e);
            let cw = if one_line {
                e.display_name.unicode_len() + 2
            } else {
                w
            };
            assert(es[i as int] == *e);
            let name = Segment { text: right_pad(e.display_name.as_str(), cw), style };
            let mut segments: Vec<Segment> = Vec::new();
            match e.size_bytes {
                Some(b) => {
                    if e.kind != EntryKind::Missing {
                        let size = format_size(b, options.human_readable, base);
                        segments.push(Segment { text: right_pad(size.as_str(), SIZE_FIELD), style });
                    }
                },
                None => {},
            }
            segments.push(name);
            let line = RenderLine { segments };
            assert(line@ =~= size_line(es[i as int], es, *options, wd));
            let ghost before = lines@;
            lines.push(line);
            assert(lines_view(lines@) =~= lines_view(before).push(line@));
            i = i + 1;
        }
        return lines;
    }
    let mut cur: Vec<Segment> = Vec::new();
    let mut l: usize = 0;
    let mut j: usize = 0;
    let mut i: usize = 0;
    while i < n
        invariant
            n == es.len(),
            i <= n,
            es == entries@,
            w == column_width(es),
            per == per_line(es, wd),
            per >= 1,
            one_line == fits_one_line(es, wd),
            wd == terminal_width,
            names_fit(es),
            i == l * per + j,
            l <= i,
            j < per,
            lines@.len() == l,
            forall|a: int|
                0 <= a < l ==> #[trigger] lines@[a]@ =~= Seq::new(
                    per as nat,
                    |b: int| name_cell(es[a * per + b], es, wd),
                ),
            cur@.len() == j,
            forall|b: int|
                0 <= b < j ==> #[trigger] cur@[b]@ == name_cell(es[l * per + b], es, wd),
        decreases n - i,
    {
        let e = &entries[i];
        let style = classify(e);
        let cw = if one_line {
            e.display_name.unicode_len() + 2
        } else {
            w
        };
        cur.push(Segment { text: right_pad(e.display_name.as_str(), cw), style });
        if j + 1 == per {
            let line = RenderLine { segments: cur };
            assert(line@ =~= Seq::new(per as nat, |b: int| name_cell(es[l * per + b], es, wd)));
            lines.push(line);
            cur = Vec::new();
            assert((l + 1) * per == l * per + per) by (nonlinear_arith);
            l = l + 1;
            j = 0;
        } else {
            j = j + 1;
        }
        i = i + 1;
    }
    proof {
        vstd::arithmetic::div_mod::lemma_fundamental_div_mod_converse(
            n as int,
            per as int,
            l as int,
            j as int,
        );
    }
    if j > 0 {
        let line = RenderLine { segments: cur };
        assert(line@ =~= Seq::new(j as nat, |b: int| name_cell(es[l * per + b], es, wd)));
        lines.push(line);
    }
    assert(lines_view(lines@) =~= grid_lines(es, wd));
    lines
}


/// The header of a directory's block: an arrow and the directory's path.
pub open spec fn header_text(path: Seq<char>) -> Seq<char> {
    seq!['\u{27a5}', ' '] + path
}

/// The block of one directory: the header line in yellow, the lines of the
/// selected entries, and a blank line that ends the block.
pub open spec fn directory_lines(
    path: Seq<char>,
    entries: Seq<DirectoryEntry>,
    options: DisplayOptions,
    width: nat,
) -> Seq<Seq<(Seq<char>, Style)>> {
    seq![seq![(header_text(path), Style::Yellow)]] + layout(selection(entries, options), options, width)
        + seq![Seq::empty()]
}

/// The header line of the block of the directory at `path`.
pub fn header_line(path: &str) -> (r: RenderLine)
    ensures
        r@ == seq![(header_text(path@), Style::Yellow)],
{
    let mut text = String::from_str("➥ ");
    proof {
        reveal_strlit("➥ ");
    }
    assert(text@ =~= seq!['\u{27a5}', ' ']);
    text.append(path);
    let mut segments: Vec<Segment> = Vec::new();
    segments.push(Segment { text, style: Style::Yellow });
    let r = RenderLine { segments };
    assert(r@ =~= seq![(header_text(path@), Style::Yellow)]);
    r
}

/// The block of the directory at `path` whose enumeration gave `entries`:
/// its header, the entries that `options` select in their order, laid out
/// for `terminal_width` columns, and a closing blank line.
pub fn render_directory(
    path: &str,
    entries: Vec<DirectoryEntry>,
    options: &DisplayOptions,
    terminal_width: usize,
) -> (r: Vec<RenderLine>)
    requires
        names_fit(entries@),
    ensures
        lines_view(r@) == directory_lines(path@, entries@, *options, terminal_width as nat),
{
    let ghost es = entries@;
    let chosen = select(entries, options);
    proof {
        lemma_selection_from_entries(es, *options);
        assert forall|i: int| 0 <= i < chosen@.len() implies #[trigger] chosen@[i].display_name@.len()
            <= isize::MAX by {
            assert(es.contains(chosen@[i]));
        }
    }
    let mut body = render(&chosen, options, terminal_width);
    let mut lines: Vec<RenderLine> = Vec::new();
    lines.push(header_line(path));
    let ghost head = lines@;
    let ghost rendered = body@;
    lines.append(&mut body);
    assert(lines_view(lines@) =~= lines_view(head) + lines_view(rendered));
    let ghost mid = lines@;
    let blank = RenderLine { segments: Vec::new() };
    assert(blank@ =~= Seq::empty());
    lines.push(blank);
    assert(lines_view(lines@) =~= lines_view(mid).push(Seq::empty()));
    assert(lines_view(lines@) =~= directory_lines(path@, es, *options, terminal_width as nat));
    lines
}


/// The length of `s` without its trailing spaces.
pub open spec fn trimmed_len(s: Seq<char>) -> nat
    decreases s.len(),
{
    if s.len() == 0 {
        0
    } else if s.last() == ' ' {
        trimmed_len(s.drop_last())
    } else {
        s.len()
    }
}

/// The text of a line: its segments one after another.
pub open spec fn line_text(line: Seq<(Seq<char>, Style)>) -> Seq<char>
    decreases line.len(),
{
    if line.len() == 0 {
        Seq::empty()
    } else {
        line_text(line.drop_last()) + line.last().0
    }
}

proof fn lemma_trimmed_len_le(s: Seq<char>)
    ensures
        trimmed_len(s) <= s.len(),
    decreases s.len(),
{
    if s.len() > 0 {
        lemma_trimmed_len_le(s.drop_last());
    }
}

proof fn lemma_trimmed_concat(x: Seq<char>, y: Seq<char>)
    ensures
        trimmed_len(x + y) <= x.len() + trimmed_len(y),
    decreases y.len(),
{
    if y.len() == 0 {
        assert(x + y =~= x);
        lemma_trimmed_len_le(x);
    } else {
        assert((x + y).drop_last() =~= x + y.drop_last());
        lemma_trimmed_concat(x, y.drop_last());
    }
}

proof fn lemma_trimmed_padding(s: Seq<char>, k: nat)
    ensures
        trimmed_len(s + spaces(k)) <= s.len(),
    decreases k,
{
    if k == 0 {
        assert(s + spaces(k) =~= s);
        lemma_trimmed_len_le(s);
    } else {
        assert((s + spaces(k)).drop_last() =~= s + spaces((k - 1) as nat));
        lemma_trimmed_padding(s, (k - 1) as nat);
    }
}

proof fn lemma_line_text(line: Seq<(Seq<char>, Style)>, w: nat, m: nat)
    requires
        forall|j: int| 0 <= j < line.len() ==> (#[trigger] line[j]).0.len() == w,
        forall|j: int| 0 <= j < line.len() ==> trimmed_len((#[trigger] line[j]).0) <= m,
    ensures
        line_text(line).len() == line.len() * w,
        line.len() > 0 ==> trimmed_len(line_text(line)) <= (line.len() - 1) * w + m,
    decreases line.len(),
{
    if line.len() > 0 {
        let d = line.drop_last();
        lemma_line_text(d, w, m);
        lemma_trimmed_concat(line_text(d), line.last().0);
        assert(line.len() * w == d.len() * w + w) by (nonlinear_arith)
            requires
                line.len() == d.len() + 1,
        ;
    }
}

/// In the multi-column layout no line holds more than `per_line` entries,
/// and no line, without its trailing padding, is wider than the terminal,
/// as long as no single name is.
pub proof fn lemma_columns_fit(entries: Seq<DirectoryEntry>, options: DisplayOptions, width: nat)
    requires
        !options.show_size,
        !fits_one_line(entries, width),
        max_name_len(entries) <= width,
    ensures
        forall|l: int|
            0 <= l < layout(entries, options, width).len() ==> {
                &&& (#[trigger] layout(entries, options, width)[l]).len() <= per_line(entries, width)
                &&& trimmed_len(line_text(layout(entries, options, width)[l])) <= width
            },
{
    let lines = layout(entries, options, width);
    let k = per_line(entries, width);
    let cw = column_width(entries);
    let m = max_name_len(entries);
    lemma_max_name_len(entries);
    assert forall|l: int| 0 <= l < lines.len() implies {
        &&& (#[trigger] lines[l]).len() <= k
        &&& trimmed_len(line_text(lines[l])) <= width
    } by {
        let line = lines[l];
        let full = entries.len() / k;
        let rest = entries.len() % k;
        vstd::arithmetic::div_mod::lemma_fundamental_div_mod(entries.len() as int, k as int);
        assert(line.len() <= k);
        assert forall|j: int| 0 <= j < line.len() implies {
            &&& (#[trigger] line[j]).0.len() == cw
            &&& trimmed_len(line[j].0) <= m
        } by {
            assert(l * k + j < entries.len()) by (nonlinear_arith)
                requires
                    0 <= j < line.len(),
                    line.len() == (if l < full {
                        k
                    } else {
                        rest
                    }),
                    0 <= l,
                    l < full || (l == full && rest > 0),
                    entries.len() == k * full + rest,
                    0 <= rest < k,
            ;
            let e = entries[l * k + j];
            let name = e.display_name@;
            assert(name.len() <= m);
            lemma_trimmed_padding(name, (cw - name.len()) as nat);
        }
        lemma_line_text(line, cw, m);
        if line.len() > 0 {
            if width / cw >= 1 {
                vstd::arithmetic::div_mod::lemma_fundamental_div_mod(width as int, cw as int);
                assert((line.len() - 1) * cw + m <= width) by (nonlinear_arith)
                    requires
                        line.len() <= k,
                        k == width / cw,
                        width == cw * (width / cw) + width % cw,
                        width % cw >= 0,
                        m + 2 == cw,
                ;
            }
        }
    }
}


proof fn lemma_max_name_len_same(a: Seq<DirectoryEntry>, b: Seq<DirectoryEntry>)
    requires
        same_snapshot(a, b),
    ensures
        max_name_len(a) == max_name_len(b),
    decreases a.len(),
{
    if a.len() > 0 {
        assert(same_entry(a[a.len() - 1], b[b.len() - 1]));
        assert forall|i: int| 0 <= i < a.drop_last().len() implies same_entry(
            #[trigger] a.drop_last()[i],
            b.drop_last()[i],
        ) by {
            assert(same_entry(a[i], b[i]));
        }
        lemma_max_name_len_same(a.drop_last(), b.drop_last());
    }
}

proof fn lemma_layout_same(a: Seq<DirectoryEntry>, b: Seq<DirectoryEntry>, options: DisplayOptions, width: nat)
    requires
        same_snapshot(a, b),
    ensures
        layout(a, options, width) == layout(b, options, width),
{
    lemma_max_name_len_same(a, b);
    assert forall|i: int| 0 <= i < a.len() implies name_cell(#[trigger] a[i], a, width) == name_cell(
        b[i],
        b,
        width,
    ) && size_line(a[i], a, options, width) == size_line(b[i], b, options, width) by {
        assert(same_entry(a[i], b[i]));
    }
    if options.show_size {
        assert(layout(a, options, width) =~= layout(b, options, width));
    } else {
        let (ga, gb) = (grid_lines(a, width), grid_lines(b, width));
        assert forall|l: int| 0 <= l < ga.len() implies #[trigger] ga[l] =~= gb[l] by {
            let k = per_line(a, width);
            assert forall|j: int| 0 <= j < ga[l].len() implies #[trigger] ga[l][j] == gb[l][j] by {
                let full = a.len() / k;
                let rest = a.len() % k;
                vstd::arithmetic::div_mod::lemma_fundamental_div_mod(a.len() as int, k as int);
                assert(0 <= l * k + j < a.len()) by (nonlinear_arith)
                    requires
                        0 <= j < ga[l].len(),
                        ga[l].len() == (if l < full {
                            k
                        } else {
                            rest
                        }),
                        0 <= l,
                        l < full || (l == full && rest > 0),
                        a.len() == k * full + rest,
                        0 <= rest < k,
                ;
            }
        }
        assert(ga =~= gb);
    }
}

/// Rendering depends on the snapshot's values alone: two listings that agree
/// entry for entry give the same lines, segment for segment, so rendering
/// one snapshot twice with the same options and width gives identical output.
pub proof fn lemma_render_repeatable(
    path: Seq<char>,
    first: Seq<DirectoryEntry>,
    second: Seq<DirectoryEntry>,
    options: DisplayOptions,
    width: nat,
)
    requires
        same_snapshot(first, second),
    ensures
        directory_lines(path, first, options, width) == directory_lines(
            path,
            second,
            options,
            width,
        ),
{
    lemma_selection_same(first, second, options);
    lemma_layout_same(selection(first, options), selection(second, options), options, width);
}

} // verus!
