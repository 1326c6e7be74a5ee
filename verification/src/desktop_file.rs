//! A small, order-preserving reader/writer for freedesktop Desktop Entry files.
//!
//! A file is a flat list of lines: group headers, `key=value` pairs, and raw lines
//! (comments, blanks, anything unparsable) kept verbatim. `set` and `remove` edit a
//! single pair and leave every other line untouched. There is no locale handling,
//! no value escaping and no type coercion: everything is textual.
use vstd::prelude::*;

use crate::search::{
    first_from, last_in, lemma_first_from_found, lemma_first_from_none, lemma_last_in_found,
    lemma_last_in_none,
};
use crate::text::{chars_of, has_ws, is_whitespace, is_ws, line_ranges, push_char, ranges_text, string_of, trim, trim_range};

verus! {

/// The conventional main group of an autostart `.desktop` file.
pub const DESKTOP_ENTRY_GROUP: &'static str = "Desktop Entry";

/// The characters of [`DESKTOP_ENTRY_GROUP`].
pub open spec fn main_group() -> Seq<char> {
    seq!['D', 'e', 's', 'k', 't', 'o', 'p', ' ', 'E', 'n', 't', 'r', 'y']
}

/// What a line is, mathematically.
pub enum LineView {
    /// A `[name]` header.
    Group(Seq<char>),
    /// A `key=value` entry.
    Pair(Seq<char>, Seq<char>),
    /// Any other line, kept as it was.
    Raw(Seq<char>),
}

/// One physical line of a desktop file.
#[derive(Debug, Clone)]
pub enum Line {
    /// A `[Group Name]` header.
    Group(String),
    /// A `key=value` entry.
    Pair { key: String, value: String },
    /// Anything else: comments, blank lines, or unparsable content, preserved verbatim.
    Raw(String),
}

impl View for Line {
    type V = LineView;

    open spec fn view(&self) -> LineView {
        match self {
            Line::Group(name) => LineView::Group(name@),
            Line::Pair { key, value } => LineView::Pair(key@, value@),
            Line::Raw(raw) => LineView::Raw(raw@),
        }
    }
}

/// An in-memory, order-preserving view of a `.desktop` file.
#[derive(Debug, Clone)]
pub struct DesktopFile {
    lines: Vec<Line>,
}

impl View for DesktopFile {
    type V = Seq<LineView>;

    closed spec fn view(&self) -> Seq<LineView> {
        self.lines@.map_values(|l: Line| l@)
    }
}

/// The value of a pair line (empty for other lines).
pub open spec fn pair_value(l: LineView) -> Seq<char> {
    match l {
        LineView::Pair(_, v) => v,
        _ => seq![],
    }
}

/// The line is the header of group `g`.
pub open spec fn is_header(g: Seq<char>) -> spec_fn(LineView) -> bool {
    |l: LineView| l == LineView::Group(g)
}

/// The line is a group header.
pub open spec fn is_any_header() -> spec_fn(LineView) -> bool {
    |l: LineView| l is Group
}

/// The line is a pair with key `k`.
pub open spec fn is_key(k: Seq<char>) -> spec_fn(LineView) -> bool {
    |l: LineView|
        match l {
            LineView::Pair(k2, _) => k2 == k,
            _ => false,
        }
}

/// The line is anything but a blank (whitespace-only) raw line.
pub open spec fn is_content() -> spec_fn(LineView) -> bool {
    |l: LineView|
        match l {
            LineView::Raw(r) => trim(r).len() > 0,
            _ => true,
        }
}

/// The character is `c`.
pub open spec fn is_char(c: char) -> spec_fn(char) -> bool {
    |x: char| x == c
}

/// How one line of text reads.
pub open spec fn classify(raw: Seq<char>) -> LineView {
    let t = trim(raw);
    if t.len() >= 2 && t[0] == '[' && t.last() == ']' {
        LineView::Group(t.subrange(1, t.len() - 1))
    } else if t.len() > 0 && t[0] == '#' {
        LineView::Raw(raw)
    } else {
        match first_from(raw, 0, raw.len() as int, is_char('=')) {
            Some(e) => {
                let k = trim(raw.take(e));
                if k.len() > 0 && !has_ws(k) {
                    LineView::Pair(k, raw.skip(e + 1))
                } else {
                    LineView::Raw(raw)
                }
            },
            None => LineView::Raw(raw),
        }
    }
}

/// The lines that `text` reads as.
pub open spec fn parse_spec(text: Seq<char>) -> Seq<LineView> {
    crate::text::lines(text).map_values(|l: Seq<char>| classify(l))
}

/// How a line is written.
pub open spec fn render(l: LineView) -> Seq<char> {
    match l {
        LineView::Group(name) => seq!['['] + name + seq![']'],
        LineView::Pair(k, v) => k + seq!['='] + v,
        LineView::Raw(r) => r,
    }
}

/// The text of a list of lines: each line written and followed by a newline.
pub open spec fn text_of(ls: Seq<LineView>) -> Seq<char>
    decreases ls.len(),
{
    if ls.len() == 0 {
        seq![]
    } else {
        text_of(ls.drop_last()) + render(ls.last()) + seq!['\n']
    }
}

/// The body of group `g`: from the line after its first header up to the next header
/// (or the end).
pub open spec fn group_range_spec(ls: Seq<LineView>, g: Seq<char>) -> Option<(int, int)> {
    match first_from(ls, 0, ls.len() as int, is_header(g)) {
        None => None,
        Some(h) => Some(
            (
                h + 1,
                match first_from(ls, h + 1, ls.len() as int, is_any_header()) {
                    Some(e) => e,
                    None => ls.len() as int,
                },
            ),
        ),
    }
}

/// The index of the first pair with key `k` in the body of group `g`.
pub open spec fn key_index(ls: Seq<LineView>, g: Seq<char>, k: Seq<char>) -> Option<int> {
    match group_range_spec(ls, g) {
        None => None,
        Some((s, e)) => first_from(ls, s, e, is_key(k)),
    }
}

/// The value of key `k` in group `g`.
pub open spec fn get_spec(ls: Seq<LineView>, g: Seq<char>, k: Seq<char>) -> Option<Seq<char>> {
    match key_index(ls, g, k) {
        Some(i) => Some(pair_value(ls[i])),
        None => None,
    }
}

/// Where a new pair goes in the body `[s, e)`: just after its last non-blank line, or
/// at `e` when the body is blank.
pub open spec fn insert_at(ls: Seq<LineView>, s: int, e: int) -> int {
    match last_in(ls, s, e, is_content()) {
        Some(j) => j + 1,
        None => e,
    }
}

/// The lines after setting `k=v` in group `g`.
pub open spec fn set_spec(ls: Seq<LineView>, g: Seq<char>, k: Seq<char>, v: Seq<char>) -> Seq<
    LineView,
> {
    match group_range_spec(ls, g) {
        None => ls.push(LineView::Group(g)).push(LineView::Pair(k, v)),
        Some((s, e)) => match first_from(ls, s, e, is_key(k)) {
            Some(i) => ls.update(i, LineView::Pair(k, v)),
            None => ls.insert(insert_at(ls, s, e), LineView::Pair(k, v)),
        },
    }
}

/// The lines after removing key `k` from group `g`.
pub open spec fn remove_spec(ls: Seq<LineView>, g: Seq<char>, k: Seq<char>) -> Seq<LineView> {
    match key_index(ls, g, k) {
        Some(i) => ls.remove(i),
        None => ls,
    }
}

/// The lines after removing every pair with key `k` from the body of group `g`: one
/// removal after another, until the key is gone from it.
pub open spec fn remove_all_spec(ls: Seq<LineView>, g: Seq<char>, k: Seq<char>) -> Seq<LineView>
    decreases ls.len(),
{
    match key_index(ls, g, k) {
        Some(i) => if 0 <= i < ls.len() {
            remove_all_spec(ls.remove(i), g, k)
        } else {
            ls
        },
        None => ls,
    }
}

impl Default for DesktopFile {
    /// An empty file.
    fn default() -> (r: Self)
        ensures
            r@ == Seq::<LineView>::empty(),
    {
        let r = DesktopFile { lines: Vec::new() };
        assert(r@ =~= Seq::<LineView>::empty());
        r
    }
}

/// [`DESKTOP_ENTRY_GROUP`], with its characters known.
pub fn main_group_name() -> (r: &'static str)
    ensures
        r@ == main_group(),
{
    proof {
        reveal_strlit("Desktop Entry");
    }
    DESKTOP_ENTRY_GROUP
}

/// Whether `a` and `b` hold the same text.
fn same_text(a: &String, b: &String) -> (r: bool)
    ensures
        r == (a@ == b@),
{
    *a == *b
}

/// Reads the line `v[lo..hi]`.
fn classify_line(v: &Vec<char>, lo: usize, hi: usize) -> (r: Line)
    requires
        lo <= hi <= v.len(),
    ensures
        r@ == classify(v@.subrange(lo as int, hi as int)),
{
    let ghost raw = v@.subrange(lo as int, hi as int);
    let (a, b) = trim_range(v, lo, hi);
    let ghost t = trim(raw);
    assert(t =~= v@.subrange(a as int, b as int));
    if b - a >= 2 && v[a] == '[' && v[b - 1] == ']' {
        let name = string_of(v, a + 1, b - 1);
        assert(name@ =~= t.subrange(1, t.len() - 1));
        return Line::Group(name);
    }
    if b > a && v[a] == '#' {
        return Line::Raw(string_of(v, lo, hi));
    }
    let mut e = lo;
    while e < hi && v[e] != '='
        invariant
            lo <= e <= hi <= v.len(),
            forall|k: int| lo <= k < e ==> v@[k] != '=',
        decreases hi - e,
    {
        e = e + 1;
    }
    if e == hi {
        proof {
            assert forall|k: int| 0 <= k < raw.len() implies !is_char('=')(#[trigger] raw[k]) by {
                assert(raw[k] == v@[lo + k]);
            }
            lemma_first_from_none(raw, 0, raw.len() as int, is_char('='));
        }
        return Line::Raw(string_of(v, lo, hi));
    }
    proof {
        assert forall|k: int| 0 <= k < e - lo implies !is_char('=')(#[trigger] raw[k]) by {
            assert(raw[k] == v@[lo + k]);
        }
        lemma_first_from_found(raw, 0, raw.len() as int, is_char('='), e - lo);
        assert(raw.take(e - lo) =~= v@.subrange(lo as int, e as int));
        assert(raw.skip(e - lo + 1) =~= v@.subrange(e + 1, hi as int));
    }
    let (ka, kb) = trim_range(v, lo, e);
    let ghost k = v@.subrange(ka as int, kb as int);
    if kb == ka {
        return Line::Raw(string_of(v, lo, hi));
    }
    let mut j = ka;
    while j < kb && !is_whitespace(v[j])
        invariant
            ka <= j <= kb <= v.len(),
            forall|m: int| ka <= m < j ==> !is_ws(#[trigger] v@[m]),
        decreases kb - j,
    {
        j = j + 1;
    }
    if j < kb {
        assert(is_ws(k[j - ka]));
        return Line::Raw(string_of(v, lo, hi));
    }
    assert(!has_ws(k)) by {
        assert forall|m: int| 0 <= m < k.len() implies !is_ws(#[trigger] k[m]) by {
            assert(k[m] == v@[ka + m]);
        }
    }
    let key = string_of(v, ka, kb);
    let value = string_of(v, e + 1, hi);
    Line::Pair { key, value }
}


/// Whether `l` is the header of group `g`.
fn line_is_header(l: &Line, g: &String) -> (r: bool)
    ensures
        r == is_header(g@)(l@),
{
    match l {
        Line::Group(name) => same_text(name, g),
        _ => false,
    }
}

/// Whether `l` is a group header.
fn line_is_any_header(l: &Line) -> (r: bool)
    ensures
        r == is_any_header()(l@),
{
    match l {
        Line::Group(_) => true,
        _ => false,
    }
}

/// Whether `l` is a pair with key `k`.
fn line_has_key(l: &Line, k: &String) -> (r: bool)
    ensures
        r == is_key(k@)(l@),
{
    match l {
        Line::Pair { key, .. } => same_text(key, k),
        _ => false,
    }
}

/// Whether `l` is anything but a blank raw line.
fn line_is_content(l: &Line) -> (r: bool)
    ensures
        r == is_content()(l@),
{
    match l {
        Line::Raw(raw) => {
            let v = chars_of(raw.as_str());
            let (a, b) = trim_range(&v, 0, v.len());
            assert(v@.subrange(0, v.len() as int) =~= v@);
            b > a
        },
        _ => true,
    }
}

impl DesktopFile {
    /// Parse desktop-file text into an editable, order-preserving model.
    pub fn parse(text: &str) -> (r: Self)
        ensures
            r@ == parse_spec(text@),
    {
        let v = chars_of(text);
        let ranges = line_ranges(&v);
        let mut lines: Vec<Line> = Vec::new();
        let mut i: usize = 0;
        while i < ranges.len()
            invariant
                i <= ranges.len(),
                v@ == text@,
                ranges_text(v@, ranges@) == crate::text::lines(v@),
                forall|k: int| 0 <= k < ranges.len() ==> #[trigger] ranges@[k].0 <= ranges@[k].1 <= v.len(),
                lines.len() == i,
                forall|k: int| 0 <= k < i ==> #[trigger] lines@[k]@ == classify(crate::text::lines(v@)[k]),
            decreases ranges.len() - i,
        {
            let (lo, hi) = ranges[i];
            assert(ranges_text(v@, ranges@)[i as int] == v@.subrange(lo as int, hi as int));
            let line = classify_line(&v, lo, hi);
            lines.push(line);
            i = i + 1;
        }
        let r = DesktopFile { lines };
        assert(r@ =~= parse_spec(text@));
        r
    }

    /// Serialize back to desktop-file text (always newline-terminated).
    pub fn to_text(&self) -> (r: String)
        ensures
            r@ == text_of(self@),
    {
        let mut out = String::new();
        let mut i: usize = 0;
        while i < self.lines.len()
            invariant
                i <= self.lines.len(),
                out@ == text_of(self@.take(i as int)),
            decreases self.lines.len() - i,
        {
            let ghost before = out@;
            match &self.lines[i] {
                Line::Group(name) => {
                    push_char(&mut out, '[');
                    out.append(name.as_str());
                    push_char(&mut out, ']');
                },
                Line::Pair { key, value } => {
                    out.append(key.as_str());
                    push_char(&mut out, '=');
                    out.append(value.as_str());
                },
                Line::Raw(raw) => {
                    out.append(raw.as_str());
                },
            }
            push_char(&mut out, '\n');
            proof {
                let ls = self@.take(i + 1);
                assert(ls.drop_last() =~= self@.take(i as int));
                assert(ls.last() == self.lines@[i as int]@);
                assert(out@ =~= before + render(ls.last()) + seq!['\n']);
            }
            i = i + 1;
        }
        assert(self@.take(self.lines.len() as int) =~= self@);
        out
    }

    /// Get the value of `key` within `group`, if present.
    pub fn get(&self, group: &str, key: &str) -> (r: Option<&str>)
        ensures
            match r {
                Some(v) => get_spec(self@, group@, key@) == Some(v@),
                None => get_spec(self@, group@, key@) is None,
            },
    {
        let (start, end) = match self.group_range(group) {
            Some(range) => range,
            None => return None,
        };
        match self.find_key(start, end, key) {
            Some(i) => match &self.lines[i] {
                Line::Pair { value, .. } => Some(value.as_str()),
                _ => None,
            },
            None => None,
        }
    }

    /// Set `key=value` within `group`, updating in place if the key exists,
    /// appending to the end of the group otherwise. The group is created at the end
    /// of the file if it does not yet exist.
    pub fn set(&mut self, group: &str, key: &str, value: &str)
        ensures
            final(self)@ == set_spec(old(self)@, group@, key@, value@),
    {
        let ghost ls = self@;
        let (start, end) = match self.group_range(group) {
            Some(range) => range,
            None => {
                self.lines.push(Line::Group(group.to_owned()));
                self.lines.push(Line::Pair { key: key.to_owned(), value: value.to_owned() });
                assert(self@ =~= ls.push(LineView::Group(group@)).push(LineView::Pair(key@, value@)));
                return;
            },
        };
        if let Some(i) = self.find_key(start, end, key) {
            self.lines.set(i, Line::Pair { key: key.to_owned(), value: value.to_owned() });
            assert(self@ =~= ls.update(i as int, LineView::Pair(key@, value@)));
            return;
        }
        // Key not found in the group: insert just after the last non-blank line of
        // the group so it stays grouped, rather than after trailing blank lines.
        let mut j = end;
        while j > start && !line_is_content(&self.lines[j - 1])
            invariant
                start <= j <= end <= self.lines.len(),
                self@ == ls,
                forall|k: int| j <= k < end ==> !is_content()(#[trigger] ls[k]),
            decreases j - start,
        {
            j = j - 1;
        }
        let at = if j > start {
            proof {
                lemma_last_in_found(ls, start as int, end as int, is_content(), j - 1);
            }
            j
        } else {
            proof {
                lemma_last_in_none(ls, start as int, end as int, is_content());
            }
            end
        };
        self.lines.insert(at, Line::Pair { key: key.to_owned(), value: value.to_owned() });
        assert(self@ =~= ls.insert(at as int, LineView::Pair(key@, value@)));
    }

    /// Remove `key` from `group`. Returns `true` if a key was removed.
    pub fn remove(&mut self, group: &str, key: &str) -> (r: bool)
        ensures
            final(self)@ == remove_spec(old(self)@, group@, key@),
            r == key_index(old(self)@, group@, key@) is Some,
    {
        let ghost ls = self@;
        let (start, end) = match self.group_range(group) {
            Some(range) => range,
            None => return false,
        };
        match self.find_key(start, end, key) {
            Some(i) => {
                self.lines.remove(i);
                assert(self@ =~= ls.remove(i as int));
                true
            },
            None => false,
        }
    }

    /// The first pair with key `key` among lines `[start, end)`.
    fn find_key(&self, start: usize, end: usize, key: &str) -> (r: Option<usize>)
        requires
            start <= end <= self@.len(),
        ensures
            match r {
                Some(i) => first_from(self@, start as int, end as int, is_key(key@)) == Some(i as int)
                    && start <= i < end && is_key(key@)(self@[i as int]),
                None => first_from(self@, start as int, end as int, is_key(key@)) is None,
            },
    {
        let k = key.to_owned();
        let mut i = start;
        while i < end
            invariant
                start <= i <= end <= self.lines.len(),
                k@ == key@,
                forall|m: int| start <= m < i ==> !is_key(key@)(#[trigger] self@[m]),
            decreases end - i,
        {
            if line_has_key(&self.lines[i], &k) {
                proof {
                    lemma_first_from_found(self@, start as int, end as int, is_key(key@), i as int);
                }
                return Some(i);
            }
            i = i + 1;
        }
        proof {
            lemma_first_from_none(self@, start as int, end as int, is_key(key@));
        }
        None
    }

    /// Find the half-open line range `[start, end)` covering the body of `group`,
    /// where `start` is the line just after the group header and `end` is the next
    /// group header (or end of file).
    fn group_range(&self, group: &str) -> (r: Option<(usize, usize)>)
        ensures
            match r {
                Some((s, e)) => group_range_spec(self@, group@) == Some((s as int, e as int)) && s
                    <= e <= self@.len(),
                None => group_range_spec(self@, group@) is None,
            },
    {
        let g = group.to_owned();
        let len = self.lines.len();
        let mut h: usize = 0;
        while h < len && !line_is_header(&self.lines[h], &g)
            invariant
                h <= len == self@.len(),
                g@ == group@,
                forall|m: int| 0 <= m < h ==> !is_header(group@)(#[trigger] self@[m]),
            decreases len - h,
        {
            h = h + 1;
        }
        if h == len {
            proof {
                lemma_first_from_none(self@, 0, len as int, is_header(group@));
            }
            return None;
        }
        proof {
            lemma_first_from_found(self@, 0, len as int, is_header(group@), h as int);
        }
        let start = h + 1;
        let mut e = start;
        while e < len && !line_is_any_header(&self.lines[e])
            invariant
                start <= e <= len == self@.len(),
                forall|m: int| start <= m < e ==> !is_any_header()(#[trigger] self@[m]),
            decreases len - e,
        {
            e = e + 1;
        }
        proof {
            if e < len {
                lemma_first_from_found(self@, start as int, len as int, is_any_header(), e as int);
            } else {
                lemma_first_from_none(self@, start as int, len as int, is_any_header());
            }
        }
        Some((start, e))
    }
}

} // verus!
