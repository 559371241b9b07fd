//! Documents and the set of open tabs.
//!
//! Reading and writing files is left to the caller: a document is made from
//! the text that was read, and is told when its text was written.

use vstd::prelude::*;
use crate::text::{chars_of, is_whitespace, is_whitespace_char, string_from_chars};

verus! {

/// Calls `chrono::Local::now` and returns that instant as milliseconds
/// since the Unix epoch. Nothing is claimed of the result, which depends on
/// the clock.
#[verifier::external_body]
fn local_now() -> i64 {
    chrono::Local::now().timestamp_millis()
}

/// The index of the last `c` in `s`, or -1 when there is none.
pub open spec fn last_index_of(s: Seq<char>, c: char) -> int
    decreases s.len(),
{
    if s.len() == 0 {
        -1
    } else if s.last() == c {
        s.len() - 1
    } else {
        last_index_of(s.drop_last(), c)
    }
}

/// The part of `p` after its last `/`: all of `p` when it has none.
pub open spec fn final_component(p: Seq<char>) -> Seq<char> {
    p.skip(last_index_of(p, '/') + 1)
}

/// `n` is an ordinary file name on every platform: not empty, not `.` or
/// `..`, and without `/`, `\` or `:`.
pub open spec fn is_plain_name(n: Seq<char>) -> bool {
    &&& n.len() > 0
    &&& n != seq!['.']
    &&& n != seq!['.', '.']
    &&& forall|i: int| 0 <= i < n.len() ==> n[i] != '/' && n[i] != '\\' && n[i] != ':'
}

/// `p` is a file name, or directories separated by `/` followed by a file
/// name, that every platform splits the same way: it holds no `\` or `:`
/// (so no drive or other Windows prefix), does not start with `//`, and
/// its final component is a plain name.
pub open spec fn is_plain_path(p: Seq<char>) -> bool {
    &&& forall|i: int| 0 <= i < p.len() ==> p[i] != '\\' && p[i] != ':'
    &&& !(p.len() >= 2 && p[0] == '/' && p[1] == '/')
    &&& is_plain_name(final_component(p))
}

/// The stem of the file name `n`, as `Path::file_stem` takes it: the part
/// before the last `.`, or all of `n` when its only `.` is the first
/// character or it has none.
pub open spec fn file_stem_of(n: Seq<char>) -> Seq<char> {
    let k = last_index_of(n, '.');
    if k > 0 {
        n.take(k)
    } else {
        n
    }
}

/// Calls `std::path::Path::file_name` on `path`. Claimed: for a plain path
/// (see `is_plain_path`) the result is its final component, on every
/// platform. Nothing is claimed of other paths: how one with a drive, a
/// prefix or backslashes splits into components depends on the platform.
#[verifier::external_body]
fn path_file_name(path: &str) -> (r: Option<String>)
    ensures
        is_plain_path(path@) ==> r is Some && r.unwrap()@ == final_component(path@),
{
    std::path::Path::new(path).file_name().map(|n| n.to_string_lossy().into_owned())
}

/// Calls `std::path::Path::file_stem` on `path`. Claimed: for a plain path
/// the result is the stem of its final component (`file_stem_of`). Nothing
/// is claimed of other paths, for the reason given at `path_file_name`.
#[verifier::external_body]
fn path_file_stem(path: &str) -> (r: Option<String>)
    ensures
        is_plain_path(path@) ==> r is Some && r.unwrap()@ == file_stem_of(final_component(path@)),
{
    std::path::Path::new(path).file_stem().map(|n| n.to_string_lossy().into_owned())
}

/// A single text document.
pub struct Document {
    /// Where the document is saved, if it has been.
    pub path: Option<String>,
    pub text: String,
    modified: bool,
    /// When the document was made, in milliseconds since the Unix epoch.
    pub created_at: i64,
    /// When the document last changed or was saved, in milliseconds since
    /// the Unix epoch.
    pub modified_at: i64,
    /// The name shown while the document has no path.
    pub name: String,
}

/// The `i`-th character of `t` begins a word: it is not whitespace, and it
/// is the first character or follows whitespace.
pub open spec fn starts_word(t: Seq<char>, i: int) -> bool {
    &&& !is_whitespace_char(t[i])
    &&& (i == 0 || is_whitespace_char(t[i - 1]))
}

/// The number of words of `t`: maximal runs of non-whitespace characters.
pub open spec fn word_count_of(t: Seq<char>) -> nat
    decreases t.len(),
{
    if t.len() == 0 {
        0
    } else {
        word_count_of(t.drop_last()) + if starts_word(t, t.len() - 1) {
            1nat
        } else {
            0nat
        }
    }
}

/// The number of newline characters in `t`.
pub open spec fn newline_count(t: Seq<char>) -> nat
    decreases t.len(),
{
    if t.len() == 0 {
        0
    } else {
        newline_count(t.drop_last()) + if t.last() == '\n' {
            1nat
        } else {
            0nat
        }
    }
}

/// The number of lines of `t`: none when it is empty, else one per newline
/// plus a last line that does not end in a newline.
pub open spec fn line_count_of(t: Seq<char>) -> nat {
    if t.len() == 0 {
        0
    } else if t.last() == '\n' {
        newline_count(t)
    } else {
        newline_count(t) + 1
    }
}

/// The pieces `ps` joined, with `sep` between each two.
pub open spec fn join_with(ps: Seq<Seq<char>>, sep: Seq<char>) -> Seq<char>
    decreases ps.len(),
{
    if ps.len() == 0 {
        seq![]
    } else if ps.len() == 1 {
        ps[0]
    } else {
        join_with(ps.drop_last(), sep) + sep + ps.last()
    }
}

/// The character sequences of `v`.
pub open spec fn string_views(v: Seq<String>) -> Seq<Seq<char>> {
    v.map_values(|p: String| p@)
}

/// A blank line, the separator of paragraphs.
pub open spec fn paragraph_break() -> Seq<char> {
    seq!['\n', '\n']
}

/// A paragraph break starts at index `i` of `t`.
pub open spec fn break_at(t: Seq<char>, i: int) -> bool {
    0 <= i && i + 1 < t.len() && t[i] == '\n' && t[i + 1] == '\n'
}

/// `ps` is `t` split at paragraph breaks, taken from left to right without
/// overlapping: joined again with breaks they give `t`, no piece holds a
/// break, and no piece before the last ends with a newline (else the break
/// would have been taken one character earlier).
pub open spec fn are_paragraphs(t: Seq<char>, ps: Seq<Seq<char>>) -> bool {
    &&& ps.len() >= 1
    &&& join_with(ps, paragraph_break()) == t
    &&& forall|k: int, i: int| 0 <= k < ps.len() ==> !#[trigger] break_at(ps[k], i)
    &&& forall|k: int| 0 <= k < ps.len() - 1 ==> (#[trigger] ps[k]).len() == 0 || ps[k].last() != '\n'
}

/// What a document holds, as plain values (the time of the last change
/// aside).
pub struct DocumentView {
    pub path: Option<Seq<char>>,
    pub text: Seq<char>,
    pub modified: bool,
    pub created_at: i64,
    pub name: Seq<char>,
}

impl View for Document {
    type V = DocumentView;

    closed spec fn view(&self) -> DocumentView {
        DocumentView {
            path: match self.path {
                Some(p) => Some(p@),
                None => None,
            },
            text: self.text@,
            modified: self.modified,
            created_at: self.created_at,
            name: self.name@,
        }
    }
}

impl DocumentView {
    /// A fresh, empty, untitled document.
    pub open spec fn is_fresh(self) -> bool {
        &&& self.path is None
        &&& self.text == Seq::<char>::empty()
        &&& !self.modified
        &&& self.name == "Untitled"@
    }

    /// `self` is `other` with its modified flag set to `flag`.
    pub open spec fn same_but_flag(self, other: DocumentView, flag: bool) -> bool {
        self == DocumentView { modified: flag, ..other }
    }

    pub open spec fn is_empty_untitled(self) -> bool {
        self.path is None && self.text.len() == 0 && !self.modified
    }
}

impl Document {

    pub fn new() -> (d: Self)
        ensures
            d@.is_fresh(),
    {
        Document {
            path: None,
            text: String::new(),
            modified: false,
            created_at: local_now(),
            modified_at: local_now(),
            name: String::from_str("Untitled"),
        }
    }

    /// The document for a file at `path` whose contents are `text`, named
    /// after the file's stem.
    pub fn from_path(path: &str, text: String) -> (d: Self)
        ensures
            d@.path == Some(path@),
            d@.text == text@,
            !d@.modified,
            is_plain_path(path@) ==> d@.name == file_stem_of(final_component(path@)),
    {
        let name = match path_file_stem(path) {
            Some(n) => n,
            None => String::new(),
        };
        Document {
            path: Some(String::from_str(path)),
            text,
            modified: false,
            created_at: local_now(),
            modified_at: local_now(),
            name,
        }
    }

    /// The title shown for the document: its file name when it has a path,
    /// else its name.
    pub fn title(&self) -> (r: String)
        ensures
            self@.path is None ==> r@ == self@.name,
            self@.path is Some && is_plain_path(self@.path.unwrap()) ==> r@ == final_component(
                self@.path.unwrap(),
            ),
    {
        match &self.path {
            Some(p) => match path_file_name(p.as_str()) {
                Some(n) => n,
                None => String::new(),
            },
            None => self.name.clone(),
        }
    }

    /// Where the document's text is to be written by a save, if anywhere.
    pub fn save_path(&self) -> (r: Option<&String>)
        ensures
            match r {
                Some(p) => self@.path == Some(p@),
                None => self@.path is None,
            },
    {
        match &self.path {
            Some(p) => Some(p),
            None => None,
        }
    }

    /// Records that the text has been written to the document's path: a
    /// document with a path is no longer modified; one without is left as
    /// it is.
    pub fn mark_saved(&mut self)
        ensures
            old(self)@.path is Some ==> final(self)@.same_but_flag(old(self)@, false),
            old(self)@.path is None ==> *final(self) == *old(self),
    {
        if self.path.is_some() {
            self.modified = false;
            self.modified_at = local_now();
        }
    }

    pub fn is_modified(&self) -> (r: bool)
        ensures
            r == self@.modified,
    {
        self.modified
    }

    /// Whether the document has changes that can be written to its path
    /// (as auto-save and exit do).
    pub fn needs_save(&self) -> (r: bool)
        ensures
            r == (self@.modified && self@.path is Some),
    {
        self.modified && self.path.is_some()
    }

    pub fn is_empty_untitled(&self) -> (r: bool)
        ensures
            r == self@.is_empty_untitled(),
    {
        self.path.is_none() && self.text.as_str().unicode_len() == 0 && !self.modified
    }

    pub fn mark_modified(&mut self)
        ensures
            final(self)@.same_but_flag(old(self)@, true),
    {
        self.modified = true;
        self.modified_at = local_now();
    }

    /// The number of whitespace-separated words.
    pub fn word_count(&self) -> (r: usize)
        ensures
            r == word_count_of(self@.text),
    {
        let cs = chars_of(self.text.as_str());
        let mut count: usize = 0;
        let mut i: usize = 0;
        let mut prev_ws = true;
        while i < cs.len()
            invariant
                i <= cs.len(),
                count == word_count_of(cs@.take(i as int)),
                count <= i,
                i > 0 ==> prev_ws == is_whitespace_char(cs@[i - 1]),
                i == 0 ==> prev_ws,
            decreases cs.len() - i,
        {
            let ws = is_whitespace(cs[i]);
            proof {
                let t = cs@.take(i + 1);
                assert(t.drop_last() =~= cs@.take(i as int));
                assert(t.last() == cs@[i as int]);
                if i > 0 {
                    assert(t[i - 1] == cs@[i - 1]);
                }
            }
            if !ws && prev_ws {
                count += 1;
            }
            prev_ws = ws;
            i += 1;
        }
        assert(cs@.take(cs.len() as int) =~= self.text@);
        count
    }

    /// The number of characters.
    pub fn char_count(&self) -> (r: usize)
        ensures
            r == self@.text.len(),
    {
        self.text.as_str().unicode_len()
    }

    /// The number of lines, a final newline not starting another.
    pub fn line_count(&self) -> (r: usize)
        ensures
            r == line_count_of(self@.text),
    {
        let cs = chars_of(self.text.as_str());
        if cs.len() == 0 {
            return 0;
        }
        let mut count: usize = 0;
        let mut i: usize = 0;
        while i < cs.len()
            invariant
                i <= cs.len(),
                count == newline_count(cs@.take(i as int)),
                count <= i,
            decreases cs.len() - i,
        {
            proof {
                let t = cs@.take(i + 1);
                assert(t.drop_last() =~= cs@.take(i as int));
                assert(t.last() == cs@[i as int]);
            }
            if cs[i] == '\n' {
                count += 1;
            }
            i += 1;
        }
        assert(cs@.take(cs.len() as int) =~= self.text@);
        assert(self.text@.last() == cs@[cs.len() - 1]);
        if cs[cs.len() - 1] == '\n' {
            count
        } else {
            proof {
                lemma_newline_count_bound(cs@.drop_last());
                assert(cs@.drop_last().len() < cs@.len());
            }
            count + 1
        }
    }

    /// The paragraphs: the pieces of the text between blank lines.
    pub fn paragraphs(&self) -> (r: Vec<String>)
        ensures
            are_paragraphs(self@.text, string_views(r@)),
    {
        let cs = chars_of(self.text.as_str());
        let ghost t = cs@;
        let mut out: Vec<String> = Vec::new();
        let mut piece_start: usize = 0;
        let mut i: usize = 0;
        while i < cs.len()
            invariant
                t == cs@,
                cs@ == self.text@,
                piece_start <= i <= cs.len(),
                out@.len() == 0 ==> piece_start == 0,
                out@.len() > 0 ==> {
                    &&& piece_start >= 2
                    &&& break_at(t, piece_start - 2)
                    &&& join_with(string_views(out@), paragraph_break()) == t.take(
                        piece_start - 2,
                    )
                    &&& (out@.last()@.len() == 0 || out@.last()@.last() != '\n')
                },
                forall|k: int, j: int|
                    0 <= k < out@.len() ==> !#[trigger] break_at(string_views(out@)[k], j),
                forall|k: int|
                    0 <= k < out@.len() ==> ((#[trigger] string_views(out@)[k]).len() == 0
                        || string_views(out@)[k].last() != '\n'),
                forall|j: int| piece_start <= j < i ==> !#[trigger] break_at(t, j),
            decreases cs.len() - i,
        {
            if cs[i] == '\n' && i + 1 < cs.len() && cs[i + 1] == '\n' {
                let piece = string_from_chars(&cs, piece_start, i);
                let ghost old_out = out@;
                proof {
                    assert forall|j: int| !break_at(piece@, j) by {
                        if break_at(piece@, j) {
                            assert(piece@[j] == t[piece_start + j]);
                            assert(piece@[j + 1] == t[piece_start + j + 1]);
                            assert(break_at(t, piece_start + j));
                        }
                    }
                    if piece@.len() > 0 && piece@.last() == '\n' {
                        assert(piece@.last() == t[i - 1]);
                        assert(break_at(t, i - 1));
                    }
                    lemma_join_push(string_views(old_out), piece@, paragraph_break());
                    assert(old_out.push(piece).map_values(|p: String| p@) =~= string_views(old_out).push(piece@));
                    if old_out.len() > 0 {
                        assert(t.take(piece_start - 2) + paragraph_break() + piece@ =~= t.take(i as int));
                    } else {
                        assert(piece@ =~= t.take(i as int));
                    }
                }
                out.push(piece);
                i = i + 2;
                piece_start = i;
            } else {
                i = i + 1;
            }
        }
        let last = string_from_chars(&cs, piece_start, cs.len());
        let ghost old_out = out@;
        proof {
            assert forall|j: int| !break_at(last@, j) by {
                if break_at(last@, j) {
                    assert(last@[j] == t[piece_start + j]);
                    assert(last@[j + 1] == t[piece_start + j + 1]);
                    assert(break_at(t, piece_start + j));
                }
            }
            lemma_join_push(string_views(old_out), last@, paragraph_break());
            assert(old_out.push(last).map_values(|p: String| p@) =~= string_views(old_out).push(
                last@,
            ));
            if old_out.len() > 0 {
                assert(t.take(piece_start - 2) + paragraph_break() + last@ =~= t);
            } else {
                assert(last@ =~= t);
            }
        }
        out.push(last);
        proof {
            let ps = string_views(out@);
            assert forall|k: int| 0 <= k < ps.len() - 1 implies (#[trigger] ps[k]).len() == 0 || ps[k].last()
                != '\n' by {
                assert(ps[k] == string_views(old_out)[k]);
            }
            assert forall|k: int, j: int| 0 <= k < ps.len() implies !#[trigger] break_at(ps[k], j) by {
                if k < old_out.len() {
                    assert(ps[k] == string_views(old_out)[k]);
                }
            }
        }
        out
    }
}

proof fn lemma_newline_count_is_line_feeds(t: Seq<char>)
    ensures
        newline_count(t) == t.filter(|c: char| c == '\n').len(),
    decreases t.len(),
{
    reveal(Seq::filter);
    if t.len() > 0 {
        lemma_newline_count_is_line_feeds(t.drop_last());
    }
}

/// A text has one line per line feed, and one more when it does not end in
/// a line feed (an empty text has none): a carriage return never ends a
/// line, so a `\r\n` ending counts once.
pub proof fn lemma_lines_are_counted_by_line_feeds(t: Seq<char>)
    ensures
        line_count_of(t) == t.filter(|c: char| c == '\n').len() + if t.len() > 0 && t.last() != '\n' {
            1nat
        } else {
            0nat
        },
{
    lemma_newline_count_is_line_feeds(t);
}

/// Writing a line break as `\r\n` in place of `\n` does not change the
/// number of lines.
pub proof fn lemma_crlf_counts_as_one_line_break(a: Seq<char>, b: Seq<char>)
    ensures
        line_count_of(a + seq!['\r', '\n'] + b) == line_count_of(a + seq!['\n'] + b),
{
    let crlf = a + seq!['\r', '\n'] + b;
    let lf = a + seq!['\n'] + b;
    lemma_lines_are_counted_by_line_feeds(crlf);
    lemma_lines_are_counted_by_line_feeds(lf);
    let f = |c: char| c == '\n';
    Seq::filter_distributes_over_add(a + seq!['\r', '\n'], b, f);
    Seq::filter_distributes_over_add(a, seq!['\r', '\n'], f);
    Seq::filter_distributes_over_add(a + seq!['\n'], b, f);
    Seq::filter_distributes_over_add(a, seq!['\n'], f);
    reveal_with_fuel(Seq::filter, 3);
    assert(seq!['\r', '\n'].drop_last() =~= seq!['\r']);
    assert(seq!['\r'].drop_last() =~= Seq::<char>::empty());
    assert(seq!['\n'].drop_last() =~= Seq::<char>::empty());
    assert(seq!['\r', '\n'].filter(f) =~= seq!['\n'].filter(f));
    if b.len() > 0 {
        assert(crlf.last() == b.last());
        assert(lf.last() == b.last());
    } else {
        assert(crlf.last() == '\n');
        assert(lf.last() == '\n');
    }
}

proof fn lemma_newline_count_bound(t: Seq<char>)
    ensures
        newline_count(t) <= t.len(),
    decreases t.len(),
{
    if t.len() > 0 {
        lemma_newline_count_bound(t.drop_last());
    }
}

/// Joining one more piece appends a separator and the piece.
proof fn lemma_join_push(ps: Seq<Seq<char>>, x: Seq<char>, sep: Seq<char>)
    ensures
        ps.len() == 0 ==> join_with(ps.push(x), sep) == x,
        ps.len() > 0 ==> join_with(ps.push(x), sep) == join_with(ps, sep) + sep + x,
{
    assert(ps.push(x).drop_last() =~= ps);
    if ps.len() == 0 {
        assert(ps.push(x)[0] == x);
    }
}


/// Manages multiple open documents.
pub struct DocumentManager {
    documents: Vec<Document>,
    current: usize,
}

/// The paths of the documents `ds` that have one, in order.
pub open spec fn paths_of(ds: Seq<Document>) -> Seq<Seq<char>>
    decreases ds.len(),
{
    if ds.len() == 0 {
        seq![]
    } else {
        let rest = paths_of(ds.drop_last());
        match ds.last()@.path {
            Some(p) => rest.push(p),
            None => rest,
        }
    }
}

/// The tab after `cur` among `n`, wrapping around.
pub open spec fn next_index(cur: int, n: int) -> int {
    (cur + 1) % n
}

/// The tab before `cur` among `n`, wrapping around.
pub open spec fn prev_index(cur: int, n: int) -> int {
    if cur == 0 {
        n - 1
    } else {
        cur - 1
    }
}

impl DocumentManager {
    /// The open documents, in tab order.
    pub closed spec fn docs(&self) -> Seq<Document> {
        self.documents@
    }

    /// The index of the active tab.
    pub closed spec fn cur(&self) -> int {
        self.current as int
    }

    /// At least one document is open and the active tab is one of them.
    pub open spec fn wf(&self) -> bool {
        self.docs().len() >= 1 && 0 <= self.cur() < self.docs().len()
    }

    pub fn new() -> (m: Self)
        ensures
            m.docs().len() == 1,
            m.docs()[0]@.is_fresh(),
            m.cur() == 0,
            m.wf(),
    {
        let mut mgr = DocumentManager { documents: Vec::new(), current: 0 };
        mgr.documents.push(Document::new());
        mgr
    }

    /// Opens a new, empty tab and makes it active.
    pub fn new_document(&mut self)
        requires
            old(self).docs().len() < usize::MAX,
        ensures
            final(self).docs().len() == old(self).docs().len() + 1,
            final(self).docs().drop_last() == old(self).docs(),
            final(self).docs().last()@.is_fresh(),
            final(self).cur() == old(self).docs().len(),
            final(self).wf(),
    {
        self.documents.push(Document::new());
        self.current = self.documents.len() - 1;
        assert(self.documents@.drop_last() =~= old(self).documents@);
    }

    /// Adds an opened document as the active tab. When the only tab holds
    /// an empty untitled document, the opened one takes its place.
    pub fn open_document(&mut self, doc: Document)
        requires
            old(self).docs().len() < usize::MAX,
        ensures
            old(self).docs().len() == 1 && old(self).docs()[0]@.is_empty_untitled() ==> {
                &&& final(self).docs() == seq![doc]
                &&& final(self).cur() == 0
            },
            !(old(self).docs().len() == 1 && old(self).docs()[0]@.is_empty_untitled()) ==> {
                &&& final(self).docs() == old(self).docs().push(doc)
                &&& final(self).cur() == old(self).docs().len()
            },
            final(self).wf(),
    {
        if self.documents.len() == 1 && self.documents[0].is_empty_untitled() {
            self.documents.set(0, doc);
            self.current = 0;
            assert(self.documents@ =~= seq![doc]);
        } else {
            self.documents.push(doc);
            self.current = self.documents.len() - 1;
        }
    }

    /// Closes the tab at `index` unless it is the last one left. The active
    /// index stays, moved back onto the last tab if it fell off the end.
    pub fn close_document(&mut self, index: usize)
        requires
            old(self).docs().len() > 1 ==> index < old(self).docs().len(),
        ensures
            old(self).docs().len() <= 1 ==> *final(self) == *old(self),
            old(self).docs().len() > 1 ==> {
                &&& final(self).docs() == old(self).docs().remove(index as int)
                &&& final(self).cur() == if old(self).cur() >= old(self).docs().len() - 1 {
                    old(self).docs().len() - 2
                } else {
                    old(self).cur()
                }
            },
            old(self).wf() ==> final(self).wf(),
    {
        if self.documents.len() > 1 {
            self.documents.remove(index);
            if self.current >= self.documents.len() {
                self.current = self.documents.len() - 1;
            }
        }
    }

    pub fn current_document(&self) -> (r: Option<&Document>)
        ensures
            0 <= self.cur() < self.docs().len() ==> r == Some(&self.docs()[self.cur()]),
            !(0 <= self.cur() < self.docs().len()) ==> r is None,
    {
        if self.current < self.documents.len() {
            Some(&self.documents[self.current])
        } else {
            None
        }
    }

    pub fn current_text_mut(&mut self) -> (r: &mut String)
        requires
            old(self).cur() < old(self).docs().len(),
        ensures
            r@ == old(self).docs()[old(self).cur()]@.text,
            final(self).docs()[old(self).cur()]@ == (DocumentView {
                text: final(r)@,
                ..old(self).docs()[old(self).cur()]@
            }),
            final(self).cur() == old(self).cur(),
            final(self).docs().len() == old(self).docs().len(),
            forall|i: int| 0 <= i < old(self).docs().len() && i != old(self).cur() ==> final(self).docs()[i] == old(self).docs()[i],
    {
        &mut self.documents[self.current].text
    }

    pub fn current_document_mut(&mut self) -> (r: Option<&mut Document>)
        ensures
            final(self).cur() == old(self).cur(),
            final(self).docs().len() == old(self).docs().len(),
            0 <= old(self).cur() < old(self).docs().len() ==> {
                &&& r matches Some(d) && *d == old(self).docs()[old(self).cur()]
                    && final(self).docs() == old(self).docs().update(old(self).cur(), *final(d))
            },
            !(0 <= old(self).cur() < old(self).docs().len()) ==> {
                &&& r is None
                &&& final(self).docs() == old(self).docs()
            },
    {
        if self.current < self.documents.len() {
            Some(&mut self.documents[self.current])
        } else {
            None
        }
    }

    /// Marks the active document as modified.
    pub fn mark_modified(&mut self)
        ensures
            final(self).cur() == old(self).cur(),
            final(self).docs().len() == old(self).docs().len(),
            forall|i: int| 0 <= i < old(self).docs().len() && i != old(self).cur() ==> final(self).docs()[i] == old(self).docs()[i],
            0 <= old(self).cur() < old(self).docs().len() ==> final(self).docs()[old(self).cur()]@.same_but_flag(
                old(self).docs()[old(self).cur()]@,
                true,
            ),
            old(self).wf() ==> final(self).wf(),
    {
        if self.current < self.documents.len() {
            let mut doc = self.documents.remove(self.current);
            doc.mark_modified();
            self.documents.insert(self.current, doc);
            assert forall|i: int| 0 <= i < old(self).docs().len() && i != old(self).cur() implies self.docs()[i] == old(self).docs()[i] by {
                if i < self.current {
                } else {
                }
            }
        }
    }

    pub fn document_count(&self) -> (r: usize)
        ensures
            r == self.docs().len(),
    {
        self.documents.len()
    }

    pub fn current_index(&self) -> (r: usize)
        ensures
            r == self.cur(),
    {
        self.current
    }

    /// Makes the tab at `index` active, if there is one.
    pub fn set_current(&mut self, index: usize)
        ensures
            final(self).docs() == old(self).docs(),
            index < old(self).docs().len() ==> final(self).cur() == index,
            index >= old(self).docs().len() ==> final(self).cur() == old(self).cur(),
            old(self).wf() ==> final(self).wf(),
    {
        if index < self.documents.len() {
            self.current = index;
        }
    }

    /// Makes the next tab active, wrapping around after the last.
    pub fn next_document(&mut self)
        requires
            old(self).cur() < usize::MAX,
        ensures
            final(self).docs() == old(self).docs(),
            old(self).docs().len() > 0 ==> final(self).cur() == next_index(old(self).cur(), old(self).docs().len() as int),
            old(self).docs().len() == 0 ==> final(self).cur() == old(self).cur(),
            old(self).wf() ==> final(self).wf(),
    {
        if self.documents.len() > 0 {
            self.current = (self.current + 1) % self.documents.len();
        }
    }

    /// Makes the previous tab active, wrapping around before the first.
    pub fn prev_document(&mut self)
        ensures
            final(self).docs() == old(self).docs(),
            old(self).docs().len() > 0 ==> final(self).cur() == prev_index(old(self).cur(), old(self).docs().len() as int),
            old(self).docs().len() == 0 ==> final(self).cur() == old(self).cur(),
            old(self).wf() ==> final(self).wf(),
    {
        if self.documents.len() > 0 {
            self.current = if self.current == 0 {
                self.documents.len() - 1
            } else {
                self.current - 1
            };
        }
    }

    /// The title of the tab at `index`, or `Unknown` when there is none.
    pub fn document_title(&self, index: usize) -> (r: String)
        ensures
            index >= self.docs().len() ==> r@ == "Unknown"@,
            index < self.docs().len() && self.docs()[index as int]@.path is None ==> r@ == self.docs()[index as int]@.name,
            index < self.docs().len() && self.docs()[index as int]@.path is Some && is_plain_path(
                self.docs()[index as int]@.path.unwrap(),
            ) ==> r@ == final_component(self.docs()[index as int]@.path.unwrap()),
    {
        if index < self.documents.len() {
            self.documents[index].title()
        } else {
            String::from_str("Unknown")
        }
    }

    /// The paths of the open documents that have one, in tab order (to
    /// reopen them in the next session).
    pub fn open_paths(&self) -> (r: Vec<String>)
        ensures
            string_views(r@) == paths_of(self.docs()),
    {
        let mut out: Vec<String> = Vec::new();
        let mut i: usize = 0;
        while i < self.documents.len()
            invariant
                i <= self.documents.len(),
                string_views(out@) == paths_of(self.docs().take(i as int)),
            decreases self.documents.len() - i,
        {
            let ghost before = out@;
            proof {
                assert(self.docs().take(i + 1).drop_last() =~= self.docs().take(i as int));
                assert(self.docs().take(i + 1).last() == self.docs()[i as int]);
            }
            match &self.documents[i].path {
                Some(p) => {
                    out.push(p.clone());
                    assert(string_views(out@) =~= string_views(before).push(p@));
                },
                None => {},
            }
            i += 1;
        }
        assert(self.docs().take(self.documents.len() as int) =~= self.docs());
        out
    }

    /// All open documents, for changes that span the tabs (such as saving
    /// each one on exit).
    pub fn all_documents_mut(&mut self) -> (r: &mut Vec<Document>)
        ensures
            r@ == old(self).docs(),
            final(self).docs() == final(r)@,
            final(self).cur() == old(self).cur(),
    {
        &mut self.documents
    }
}


/// The tab after `cur` is `cur + 1`, or the first tab after the last.
proof fn lemma_next_index(cur: int, n: int)
    requires
        0 <= cur < n,
    ensures
        next_index(cur, n) == if cur + 1 < n {
            cur + 1
        } else {
            0
        },
{
    if cur + 1 < n {
        vstd::arithmetic::div_mod::lemma_small_mod((cur + 1) as nat, n as nat);
    } else {
        vstd::arithmetic::div_mod::lemma_mod_self_0(n);
    }
}

/// Moving to the next tab and then to the previous one comes back to the
/// tab one started from.
pub proof fn lemma_prev_undoes_next(cur: int, n: int)
    requires
        0 <= cur < n,
    ensures
        prev_index(next_index(cur, n), n) == cur,
{
    lemma_next_index(cur, n);
}

/// Moving to the previous tab and then to the next one comes back to the
/// tab one started from.
pub proof fn lemma_next_undoes_prev(cur: int, n: int)
    requires
        0 <= cur < n,
    ensures
        next_index(prev_index(cur, n), n) == cur,
{
    lemma_next_index(prev_index(cur, n), n);
}


proof fn lemma_join_front(ps: Seq<Seq<char>>, sep: Seq<char>)
    requires
        ps.len() >= 2,
    ensures
        join_with(ps, sep) == ps[0] + sep + join_with(ps.skip(1), sep),
    decreases ps.len(),
{
    if ps.len() == 2 {
        assert(ps.drop_last().len() == 1);
        assert(ps.skip(1).len() == 1);
        assert(ps.skip(1)[0] == ps[1]);
        assert(ps.drop_last()[0] == ps[0]);
        assert(join_with(ps.drop_last(), sep) == ps[0]);
        assert(join_with(ps.skip(1), sep) == ps[1]);
        assert(join_with(ps, sep) == join_with(ps.drop_last(), sep) + sep + ps.last());
    } else {
        lemma_join_front(ps.drop_last(), sep);
        assert(ps.drop_last().skip(1) =~= ps.skip(1).drop_last());
        assert(ps.skip(1).last() == ps.last());
        assert(ps.drop_last()[0] == ps[0]);
        assert(join_with(ps.skip(1), sep) == join_with(ps.skip(1).drop_last(), sep) + sep + ps.skip(1).last());
        assert(join_with(ps, sep) == join_with(ps.drop_last(), sep) + sep + ps.last());
        assert(join_with(ps, sep) =~= ps[0] + sep + join_with(ps.skip(1), sep));
    }
}

/// Where the text of well-split paragraphs has its first break: right
/// after the first piece, or nowhere when there is one piece; and the
/// pieces after the first split the rest of the text.
proof fn lemma_first_break(t: Seq<char>, ps: Seq<Seq<char>>)
    requires
        are_paragraphs(t, ps),
    ensures
        ps.len() == 1 ==> forall|j: int| !#[trigger] break_at(t, j),
        ps.len() >= 2 ==> {
            &&& break_at(t, ps[0].len() as int)
            &&& forall|j: int| j < ps[0].len() ==> !#[trigger] break_at(t, j)
            &&& t.take(ps[0].len() as int) == ps[0]
            &&& are_paragraphs(t.skip(ps[0].len() as int + 2), ps.skip(1))
        },
{
    if ps.len() == 1 {
        assert(join_with(ps, paragraph_break()) == ps[0]);
        assert forall|j: int| !#[trigger] break_at(t, j) by {
            assert(!break_at(ps[0], j));
        }
    } else {
        let sep = paragraph_break();
        lemma_join_front(ps, sep);
        let p0 = ps[0];
        let n = p0.len() as int;
        let rest = join_with(ps.skip(1), sep);
        assert(t == p0 + sep + rest);
        assert(t[n] == '\n' && t[n + 1] == '\n');
        assert forall|j: int| j < n implies !#[trigger] break_at(t, j) by {
            if break_at(t, j) {
                if j + 1 < n {
                    assert(p0[j] == t[j] && p0[j + 1] == t[j + 1]);
                    assert(break_at(p0, j));
                } else {
                    assert(p0.last() == t[n - 1]);
                    assert(p0.len() == 0 || p0.last() != '\n');
                }
            }
        }
        assert(t.take(n) =~= p0);
        assert(t.skip(n + 2) =~= rest);
        let qs = ps.skip(1);
        assert forall|k: int, i: int| 0 <= k < qs.len() implies !#[trigger] break_at(qs[k], i) by {
            assert(qs[k] == ps[k + 1]);
            assert(!break_at(ps[k + 1], i));
        }
        assert forall|k: int| 0 <= k < qs.len() - 1 implies (#[trigger] qs[k]).len() == 0 || qs[k].last() != '\n' by {
            assert(qs[k] == ps[k + 1]);
        }
    }
}

/// A text splits into paragraphs in one way only: two splits that both
/// meet `are_paragraphs` are the same.
pub proof fn lemma_paragraphs_unique(t: Seq<char>, ps: Seq<Seq<char>>, qs: Seq<Seq<char>>)
    requires
        are_paragraphs(t, ps),
        are_paragraphs(t, qs),
    ensures
        ps == qs,
    decreases ps.len(),
{
    lemma_first_break(t, ps);
    lemma_first_break(t, qs);
    if ps.len() == 1 {
        if qs.len() >= 2 {
            assert(break_at(t, qs[0].len() as int));
        }
        assert(join_with(ps, paragraph_break()) == ps[0]);
        assert(join_with(qs, paragraph_break()) == qs[0]);
        assert(ps =~= qs);
    } else {
        if qs.len() == 1 {
            assert(break_at(t, ps[0].len() as int));
        }
        let n = ps[0].len() as int;
        let m = qs[0].len() as int;
        if n < m {
            assert(break_at(t, n));
        } else if m < n {
            assert(break_at(t, m));
        }
        assert(ps[0] == qs[0]);
        lemma_paragraphs_unique(t.skip(n + 2), ps.skip(1), qs.skip(1));
        assert(ps =~= seq![ps[0]] + ps.skip(1));
        assert(qs =~= seq![qs[0]] + qs.skip(1));
    }
}

} // verus!
