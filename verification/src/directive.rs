//! The `#require <path>` directive: which lines of a shader source are
//! directives, the requirements that a source declares, and the body that is
//! left when the directive lines are taken out.

use vstd::prelude::*;
use crate::text::{
    chars_of, is_whitespace, lemma_trim_end_result, lemma_trim_end_skip_back,
    lemma_trim_start_result, text_of, trim, trim_start, trimmed,
};

verus! {

/// The characters that a required path is made of: ASCII letters and
/// digits, `/`, `-` and `_`.
pub open spec fn is_path_char(c: char) -> bool {
    ||| 'a' <= c <= 'z'
    ||| 'A' <= c <= 'Z'
    ||| '0' <= c <= '9'
    ||| c == '/'
    ||| c == '-'
    ||| c == '_'
}

/// The text `#require <`, with which a directive line begins.
pub open spec fn directive_opening() -> Seq<char> {
    seq!['#', 'r', 'e', 'q', 'u', 'i', 'r', 'e', ' ', '<']
}

/// `line` without the one carriage return that may end it.
pub open spec fn without_carriage_return(line: Seq<char>) -> Seq<char> {
    if line.len() > 0 && line.last() == '\r' {
        line.drop_last()
    } else {
        line
    }
}

/// Whether `line`, a text without line feed, is a directive: `#require <`,
/// a path of one or more path characters, `>`, and at most one carriage
/// return, with nothing before or after.
pub open spec fn is_directive(line: Seq<char>) -> bool {
    let core = without_carriage_return(line);
    &&& core.len() >= 12
    &&& core.subrange(0, 10) == directive_opening()
    &&& core.last() == '>'
    &&& forall|i: int| 10 <= i < core.len() - 1 ==> is_path_char(#[trigger] core[i])
}

/// The path between `<` and `>` in a directive line.
pub open spec fn directive_path(line: Seq<char>) -> Seq<char> {
    let core = without_carriage_return(line);
    core.subrange(10, core.len() - 1)
}

/// The length of the first line of `text`: the position of its first line
/// feed, or the length of `text` where it holds none.
pub open spec fn line_end(text: Seq<char>) -> int
    decreases text.len(),
{
    if text.len() == 0 || text[0] == '\n' {
        0
    } else {
        1 + line_end(text.drop_first())
    }
}

/// `line_end` lies within the text, no line feed stands before it, and one
/// stands at it unless the text ends there.
pub proof fn lemma_line_end(text: Seq<char>)
    ensures
        0 <= line_end(text) <= text.len(),
        forall|i: int| 0 <= i < line_end(text) ==> text[i] != '\n',
        line_end(text) < text.len() ==> text[line_end(text)] == '\n',
    decreases text.len(),
{
    if text.len() == 0 || text[0] == '\n' {
    } else {
        let rest = text.drop_first();
        lemma_line_end(rest);
        assert forall|i: int| 0 <= i < line_end(text) implies text[i] != '\n' by {
            if i > 0 {
                assert(text[i] == rest[i - 1]);
            }
        }
        if line_end(text) < text.len() {
            assert(text[line_end(text)] == rest[line_end(rest)]);
        }
    }
}

/// The first line of `text`.
pub open spec fn first_line(text: Seq<char>) -> Seq<char> {
    text.subrange(0, line_end(text))
}

/// What follows the first line feed of `text`; only meant where `text`
/// holds a line feed.
pub open spec fn after_first_line(text: Seq<char>) -> Seq<char> {
    text.subrange(line_end(text) + 1, text.len() as int)
}

/// The paths that the directive lines of `text` require, in the order of
/// the lines, repetitions included.
pub open spec fn requirements(text: Seq<char>) -> Seq<Seq<char>>
    decreases text.len(),
    via requirements_decreases
{
    let line = first_line(text);
    let here = if is_directive(line) {
        seq![directive_path(line)]
    } else {
        Seq::empty()
    };
    if line_end(text) >= text.len() {
        here
    } else {
        here + requirements(after_first_line(text))
    }
}

#[via_fn]
proof fn requirements_decreases(text: Seq<char>) {
    lemma_line_end(text);
}

/// `text` with the content of every directive line deleted; the line feeds
/// stay.
pub open spec fn without_directives(text: Seq<char>) -> Seq<char>
    decreases text.len(),
    via without_directives_decreases
{
    let line = first_line(text);
    let kept = if is_directive(line) {
        Seq::empty()
    } else {
        line
    };
    if line_end(text) >= text.len() {
        kept
    } else {
        kept.push('\n') + without_directives(after_first_line(text))
    }
}

#[via_fn]
proof fn without_directives_decreases(text: Seq<char>) {
    lemma_line_end(text);
}

/// The body of a source: `text` without its directive lines, then without
/// leading and trailing whitespace.
pub open spec fn body(text: Seq<char>) -> Seq<char> {
    trim(without_directives(text))
}

/// `line_end` is the only position before which no line feed stands and at
/// which one stands or the text ends.
pub proof fn lemma_line_end_is(text: Seq<char>, k: int)
    requires
        0 <= k <= text.len(),
        forall|i: int| 0 <= i < k ==> text[i] != '\n',
        k < text.len() ==> text[k] == '\n',
    ensures
        line_end(text) == k,
{
    lemma_line_end(text);
}

/// Deleting the directive lines of a text leaves no directive line, so
/// that deleting them once more changes nothing.
pub proof fn lemma_without_directives_idempotent(text: Seq<char>)
    ensures
        requirements(without_directives(text)) == Seq::<Seq<char>>::empty(),
        without_directives(without_directives(text)) == without_directives(text),
    decreases text.len(),
{
    lemma_line_end(text);
    let line = first_line(text);
    let kept = if is_directive(line) {
        Seq::<char>::empty()
    } else {
        line
    };
    let w = without_directives(text);
    assert(!is_directive(kept));
    if line_end(text) >= text.len() {
        lemma_line_end_is(w, w.len() as int);
        assert(first_line(w) =~= kept);
        assert(requirements(w) =~= Seq::<Seq<char>>::empty());
        assert(without_directives(w) =~= w);
    } else {
        let rest = after_first_line(text);
        lemma_without_directives_idempotent(rest);
        let tail = without_directives(rest);
        assert(w == kept.push('\n') + tail);
        lemma_line_end_is(w, kept.len() as int);
        assert(first_line(w) =~= kept);
        assert(after_first_line(w) =~= tail);
        assert(requirements(w) =~= Seq::<Seq<char>>::empty());
        assert(without_directives(w) =~= w);
    }
}

/// A text that holds no directive line stays as it is when its directive
/// lines are deleted.
pub proof fn lemma_without_directives_unchanged(text: Seq<char>)
    requires
        requirements(text).len() == 0,
    ensures
        without_directives(text) == text,
    decreases text.len(),
{
    lemma_line_end(text);
    if line_end(text) >= text.len() {
        assert(first_line(text) =~= text);
    } else {
        lemma_without_directives_unchanged(after_first_line(text));
        assert(first_line(text).push('\n') + after_first_line(text) =~= text);
    }
}

/// The last line of `text`: what follows its last line feed.
pub open spec fn last_line(text: Seq<char>) -> Seq<char>
    decreases text.len(),
    via last_line_decreases
{
    if line_end(text) >= text.len() {
        text
    } else {
        last_line(after_first_line(text))
    }
}

#[via_fn]
proof fn last_line_decreases(text: Seq<char>) {
    lemma_line_end(text);
}

/// Where a text holds no directive line, what is left of it from the
/// position `from` on holds none either, unless the line that is cut
/// there has become one.
proof fn lemma_no_directive_from(text: Seq<char>, from: int)
    requires
        requirements(text).len() == 0,
        0 <= from <= text.len(),
        !is_directive(first_line(text.subrange(from, text.len() as int))),
    ensures
        requirements(text.subrange(from, text.len() as int)).len() == 0,
    decreases text.len(),
{
    lemma_line_end(text);
    let n = line_end(text);
    let cut = text.subrange(from, text.len() as int);
    if from <= n {
        lemma_line_end_is(cut, n - from);
        if n < text.len() {
            assert(after_first_line(cut) =~= after_first_line(text));
        }
    } else {
        let rest = after_first_line(text);
        assert(cut =~= rest.subrange(from - n - 1, rest.len() as int));
        lemma_no_directive_from(rest, from - n - 1);
    }
}

/// Where a text holds no directive line, what stands before the position
/// `to` holds none either, unless the line that is cut there has become
/// one.
proof fn lemma_no_directive_up_to(text: Seq<char>, to: int)
    requires
        requirements(text).len() == 0,
        0 <= to <= text.len(),
        !is_directive(last_line(text.subrange(0, to))),
    ensures
        requirements(text.subrange(0, to)).len() == 0,
    decreases text.len(),
{
    lemma_line_end(text);
    let n = line_end(text);
    let cut = text.subrange(0, to);
    if to <= n {
        lemma_line_end_is(cut, to);
        assert(first_line(cut) =~= cut);
    } else {
        let rest = after_first_line(text);
        lemma_line_end_is(cut, n);
        assert(first_line(cut) =~= first_line(text));
        assert(after_first_line(cut) =~= rest.subrange(0, to - n - 1));
        lemma_no_directive_up_to(rest, to - n - 1);
    }
}

/// Whitespace behind a line that is no directive, and that does not end
/// with whitespace, makes no directive of it.
proof fn lemma_whitespace_behind_line(line: Seq<char>, behind: Seq<char>)
    requires
        !is_directive(line),
        line.len() == 0 || !is_whitespace(line.last()),
        forall|i: int| 0 <= i < behind.len() ==> is_whitespace(behind[i]),
    ensures
        !is_directive(line + behind),
{
    let whole = line + behind;
    let core = without_carriage_return(whole);
    if behind.len() == 0 {
        assert(whole =~= line);
    } else if is_directive(whole) {
        assert(whole.last() == behind.last());
        assert(is_whitespace(whole.last()));
        assert(!is_whitespace('>'));
        assert(whole.last() == '\r');
        assert(core == whole.drop_last());
        if behind.len() >= 2 {
            assert(core.last() == behind[behind.len() - 2]);
        } else if line.len() > 0 {
            assert(core =~= line);
            assert(without_carriage_return(line) == line);
        }
    }
}

/// Parsing the body of a parsed source once more gives no requirement and
/// the same body, where neither the first nor the last line of that body
/// is a directive. (Trimming can turn the line at either end into one:
/// ` #require <a>` is no directive, and is one once the space before it is
/// gone. No other line of a body is ever a directive.)
pub proof fn lemma_parse_body_again(text: Seq<char>)
    requires
        !is_directive(first_line(body(text))),
        !is_directive(last_line(body(text))),
    ensures
        parsed(body(text)) == (ShaderFileView {
            required: Seq::<Seq<char>>::empty(),
            rest: body(text),
        }),
{
    let stripped = without_directives(text);
    let tail = trim_start(stripped);
    let inner = body(text);
    lemma_without_directives_idempotent(text);
    lemma_trim_start_result(stripped);
    lemma_trim_end_result(tail);
    let behind = tail.subrange(inner.len() as int, tail.len() as int);
    assert(tail =~= inner + behind);
    assert forall|i: int| 0 <= i < behind.len() implies is_whitespace(behind[i]) by {
        lemma_trim_end_skip_back(tail, inner.len() as int, i + inner.len());
    }
    lemma_line_end(inner);
    lemma_line_end(behind);
    let n = line_end(inner);
    if n < inner.len() {
        lemma_line_end_is(tail, n);
        assert(first_line(tail) =~= first_line(inner));
    } else {
        let m = line_end(behind);
        lemma_line_end_is(tail, inner.len() + m);
        assert(first_line(inner) =~= inner);
        assert(first_line(tail) =~= inner + behind.subrange(0, m));
        lemma_whitespace_behind_line(inner, behind.subrange(0, m));
    }
    lemma_no_directive_from(stripped, stripped.len() - tail.len());
    lemma_no_directive_up_to(tail, inner.len() as int);
    lemma_without_directives_unchanged(inner);
    crate::text::lemma_trim_idempotent(stripped);
    assert(requirements(inner) =~= Seq::<Seq<char>>::empty());
}

/// Whether `c` may stand in a required path.
pub fn is_path_character(c: char) -> (r: bool)
    ensures
        r == is_path_char(c),
{
    ('a' <= c && c <= 'z') || ('A' <= c && c <= 'Z') || ('0' <= c && c <= '9') || c == '/' || c
        == '-' || c == '_'
}

/// The character at position `k` of `#require <`.
fn opening_char(k: usize) -> (r: char)
    requires
        k < 10,
    ensures
        r == directive_opening()[k as int],
{
    if k == 0 {
        '#'
    } else if k == 1 {
        'r'
    } else if k == 2 {
        'e'
    } else if k == 3 {
        'q'
    } else if k == 4 {
        'u'
    } else if k == 5 {
        'i'
    } else if k == 6 {
        'r'
    } else if k == 7 {
        'e'
    } else if k == 8 {
        ' '
    } else {
        '<'
    }
}

/// The end of the line that begins at `start`: the position of the next
/// line feed, or the length of `chars`.
fn line_end_from(chars: &Vec<char>, start: usize) -> (end: usize)
    requires
        start <= chars.len(),
    ensures
        start <= end <= chars.len(),
        end - start == line_end(chars@.subrange(start as int, chars.len() as int)),
{
    let n = chars.len();
    let mut end: usize = start;
    while end < n && chars[end] != '\n'
        invariant
            start <= end <= n,
            n == chars.len(),
            line_end(chars@.subrange(start as int, n as int)) == (end - start) + line_end(
                chars@.subrange(end as int, n as int),
            ),
        decreases n - end,
    {
        proof {
            let here = chars@.subrange(end as int, n as int);
            assert(here[0] == chars@[end as int]);
            assert(here.drop_first() =~= chars@.subrange(end + 1, n as int));
        }
        end += 1;
    }
    proof {
        let here = chars@.subrange(end as int, n as int);
        if end < n {
            assert(here[0] == chars@[end as int]);
        }
        assert(line_end(here) == 0);
    }
    end
}

/// The path that the line `chars[start..end]` requires, if that line is a
/// directive.
fn directive_at(chars: &Vec<char>, start: usize, end: usize) -> (r: Option<String>)
    requires
        start <= end <= chars.len(),
    ensures
        r is Some <==> is_directive(chars@.subrange(start as int, end as int)),
        r matches Some(path) ==> path@ == directive_path(
            chars@.subrange(start as int, end as int),
        ),
{
    let ghost line = chars@.subrange(start as int, end as int);
    let mut stop: usize = end;
    if stop > start && chars[stop - 1] == '\r' {
        stop -= 1;
    }
    let ghost core = without_carriage_return(line);
    assert(core =~= chars@.subrange(start as int, stop as int)) by {
        if end > start {
            assert(line.last() == chars@[end - 1]);
        }
    }
    if stop - start < 12 {
        return None;
    }
    let mut k: usize = 0;
    while k < 10
        invariant
            k <= 10,
            start + 12 <= stop <= chars.len(),
            core == chars@.subrange(start as int, stop as int),
            core == without_carriage_return(line),
            line == chars@.subrange(start as int, end as int),
            forall|j: int| 0 <= j < k ==> core[j] == directive_opening()[j],
        decreases 10 - k,
    {
        if chars[start + k] != opening_char(k) {
            assert(core.subrange(0, 10)[k as int] == core[k as int]);
            return None;
        }
        k += 1;
    }
    assert(core.subrange(0, 10) =~= directive_opening());
    if chars[stop - 1] != '>' {
        return None;
    }
    let mut path: Vec<char> = Vec::new();
    let mut i: usize = start + 10;
    while i < stop - 1
        invariant
            start + 10 <= i <= stop - 1,
            stop <= chars.len(),
            core == chars@.subrange(start as int, stop as int),
            core == without_carriage_return(line),
            line == chars@.subrange(start as int, end as int),
            path@ == core.subrange(10, i - start),
            forall|j: int| 10 <= j < i - start ==> is_path_char(#[trigger] core[j]),
        decreases stop - i,
    {
        let c = chars[i];
        assert(c == core[i - start]);
        if !is_path_character(c) {
            return None;
        }
        path.push(c);
        assert(path@ =~= core.subrange(10, i + 1 - start));
        i += 1;
    }
    Some(text_of(&path))
}

/// A parsed shader source: the chunk paths it requires and its body.
#[derive(Debug)]
pub struct ShaderFile {
    /// The required paths, in the order of their directive lines; a path
    /// required twice stands twice.
    pub required: Vec<String>,
    /// The source without its directive lines, trimmed.
    pub rest: String,
}

/// What a `ShaderFile` stands for in contracts.
pub struct ShaderFileView {
    pub required: Seq<Seq<char>>,
    pub rest: Seq<char>,
}

impl View for ShaderFile {
    type V = ShaderFileView;

    open spec fn view(&self) -> ShaderFileView {
        ShaderFileView { required: self.required.deep_view(), rest: self.rest@ }
    }
}

/// What parsing the source `text` gives.
pub open spec fn parsed(text: Seq<char>) -> ShaderFileView {
    ShaderFileView { required: requirements(text), rest: body(text) }
}

impl Clone for ShaderFile {
    fn clone(&self) -> (r: ShaderFile)
        ensures
            r@ == self@,
    {
        let mut required: Vec<String> = Vec::new();
        let mut i: usize = 0;
        while i < self.required.len()
            invariant
                i <= self.required.len(),
                required.deep_view() == self.required.deep_view().take(i as int),
            decreases self.required.len() - i,
        {
            let item = self.required[i].clone();
            let ghost before = required.deep_view();
            required.push(item);
            assert(required.deep_view() =~= before.push(item@));
            assert(required.deep_view() =~= self.required.deep_view().take(i + 1));
            i += 1;
        }
        assert(required.deep_view() =~= self.required.deep_view());
        ShaderFile { required, rest: self.rest.clone() }
    }
}

impl ShaderFile {
    /// Parses a shader source. Every line is taken as it stands: one that
    /// is no directive stays in the body, whatever it looks like.
    pub fn new(contents: &str) -> (r: ShaderFile)
        ensures
            r@ == parsed(contents@),
    {
        let chars = chars_of(contents);
        let n = chars.len();
        let mut required: Vec<String> = Vec::new();
        let mut kept: Vec<char> = Vec::new();
        let mut start: usize = 0;
        let mut done = false;
        proof {
            assert(chars@.subrange(0, n as int) =~= chars@);
            assert(required.deep_view() =~= Seq::<Seq<char>>::empty());
            assert(required.deep_view() + requirements(chars@) =~= requirements(chars@));
            assert(kept@ + without_directives(chars@) =~= without_directives(chars@));
        }
        while !done
            invariant
                start <= n,
                n == chars.len(),
                chars@ == contents@,
                !done ==> requirements(chars@) == required.deep_view() + requirements(
                    chars@.subrange(start as int, n as int),
                ),
                !done ==> without_directives(chars@) == kept@ + without_directives(
                    chars@.subrange(start as int, n as int),
                ),
                done ==> requirements(chars@) == required.deep_view(),
                done ==> without_directives(chars@) == kept@,
            decreases n - start + (if done { 0int } else { 1int }),
        {
            let ghost here = chars@.subrange(start as int, n as int);
            let ghost old_required = required.deep_view();
            let ghost old_kept = kept@;
            let end = line_end_from(&chars, start);
            assert(first_line(here) =~= chars@.subrange(start as int, end as int));
            match directive_at(&chars, start, end) {
                Some(path) => {
                    required.push(path);
                    assert(required.deep_view() =~= old_required + seq![directive_path(
                        first_line(here),
                    )]);
                },
                None => {
                    let mut i: usize = start;
                    while i < end
                        invariant
                            start <= i <= end <= n,
                            n == chars.len(),
                            kept@ == old_kept + chars@.subrange(start as int, i as int),
                        decreases end - i,
                    {
                        kept.push(chars[i]);
                        assert(kept@ =~= old_kept + chars@.subrange(start as int, i + 1));
                        i += 1;
                    }
                    assert(required.deep_view() =~= old_required + Seq::<Seq<char>>::empty());
                },
            }
            if end == n {
                done = true;
                proof {
                    assert(requirements(chars@) =~= required.deep_view());
                    assert(without_directives(chars@) =~= kept@);
                }
            } else {
                kept.push('\n');
                proof {
                    assert(after_first_line(here) =~= chars@.subrange(end + 1, n as int));
                    let next = chars@.subrange(end + 1, n as int);
                    assert(requirements(chars@) =~= required.deep_view() + requirements(next));
                    assert(without_directives(chars@) =~= kept@ + without_directives(next));
                }
                start = end + 1;
            }
        }
        let rest = text_of(&trimmed(&kept));
        ShaderFile { required, rest }
    }
}

} // verus!
