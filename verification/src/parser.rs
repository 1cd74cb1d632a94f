//! Extracting a challenge from free-form submitted text.
//!
//! The grammar is line oriented: the first line is the command keyword and is
//! discarded, leading blank lines are skipped, one line may carry the title,
//! and the first two fenced regions become the input and output blocks. Any
//! further fenced region is ignored.

use vstd::prelude::*;
use crate::challenge::{TextBlock, TextBlockView};
use crate::text::{chars_of, collect_range, push_char};

verus! {

/// Which block the next fence opening targets (or the one being filled).
pub enum Target {
    Input,
    Output,
    Done,
}

/// The parser's state between lines.
#[verifier::ext_equal]
pub ghost struct ParseState {
    pub filling: bool,
    pub target: Target,
    pub input: TextBlockView,
    pub output: TextBlockView,
}

pub open spec fn empty_block() -> TextBlockView {
    TextBlockView { language: None, content: Seq::empty() }
}

pub open spec fn is_ascii_ws(c: char) -> bool {
    c == ' ' || c == '\t' || c == '\n' || c == '\r' || c == '\u{c}'
}

/// A line that opens or closes a fenced region: three backticks at the start.
pub open spec fn is_fence(line: Seq<char>) -> bool {
    line.len() >= 3 && line[0] == '`' && line[1] == '`' && line[2] == '`'
}

/// A line that carries an explicit title: `# ` at the start.
pub open spec fn is_title_line(line: Seq<char>) -> bool {
    line.len() >= 2 && line[0] == '#' && line[1] == ' '
}

pub open spec fn skip_ws(s: Seq<char>) -> Seq<char>
    decreases s.len(),
{
    if s.len() == 0 {
        s
    } else if is_ascii_ws(s[0]) {
        skip_ws(s.drop_first())
    } else {
        s
    }
}

pub open spec fn trim_end(s: Seq<char>) -> Seq<char>
    decreases s.len(),
{
    if s.len() == 0 {
        s
    } else if is_ascii_ws(s.last()) {
        trim_end(s.drop_last())
    } else {
        s
    }
}

/// Whitespace removed from both ends.
pub open spec fn trim(s: Seq<char>) -> Seq<char> {
    trim_end(skip_ws(s))
}

pub open spec fn take_token(s: Seq<char>) -> Seq<char>
    decreases s.len(),
{
    if s.len() == 0 || is_ascii_ws(s[0]) {
        Seq::empty()
    } else {
        seq![s[0]] + take_token(s.drop_first())
    }
}

/// The language tag of a fence-opening line: the first whitespace-delimited
/// token after the three backticks, or none.
pub open spec fn fence_lang(line: Seq<char>) -> Option<Seq<char>> {
    let t = take_token(skip_ws(line.skip(3)));
    if t.len() == 0 {
        None
    } else {
        Some(t)
    }
}

pub open spec fn advance(t: Target) -> Target {
    match t {
        Target::Input => Target::Output,
        Target::Output => Target::Done,
        Target::Done => Target::Done,
    }
}

/// One line of the state machine.
pub open spec fn step(st: ParseState, line: Seq<char>) -> ParseState {
    if is_fence(line) {
        if st.filling {
            ParseState { filling: false, target: advance(st.target), ..st }
        } else {
            match st.target {
                Target::Input => ParseState {
                    filling: true,
                    input: TextBlockView { language: fence_lang(line), ..st.input },
                    ..st
                },
                Target::Output => ParseState {
                    filling: true,
                    output: TextBlockView { language: fence_lang(line), ..st.output },
                    ..st
                },
                Target::Done => st,
            }
        }
    } else if st.filling {
        match st.target {
            Target::Input => ParseState {
                input: TextBlockView { content: st.input.content.push(line), ..st.input },
                ..st
            },
            Target::Output => ParseState {
                output: TextBlockView { content: st.output.content.push(line), ..st.output },
                ..st
            },
            Target::Done => st,
        }
    } else {
        st
    }
}

pub open spec fn run(st: ParseState, lines: Seq<Seq<char>>) -> ParseState
    decreases lines.len(),
{
    if lines.len() == 0 {
        st
    } else {
        run(step(st, lines[0]), lines.drop_first())
    }
}

/// Drop leading blank lines.
pub open spec fn skip_blank(lines: Seq<Seq<char>>) -> Seq<Seq<char>>
    decreases lines.len(),
{
    if lines.len() == 0 {
        lines
    } else if lines[0].len() == 0 {
        skip_blank(lines.drop_first())
    } else {
        lines
    }
}

pub open spec fn placeholder_title() -> Seq<char> {
    seq!['N', 'o', ' ', 't', 'i', 't', 'l', 'e']
}

/// The title and the initial machine state chosen by the title line.
pub open spec fn title_of(line: Seq<char>) -> Seq<char> {
    if is_title_line(line) {
        trim(line.skip(2))
    } else {
        placeholder_title()
    }
}

pub open spec fn initial_state(line: Seq<char>) -> ParseState {
    ParseState {
        filling: !is_title_line(line) && is_fence(line),
        target: Target::Input,
        input: empty_block(),
        output: empty_block(),
    }
}

/// The lines the main loop runs over: everything after the keyword line,
/// leading blanks, and the title line.
pub open spec fn body_of(lines: Seq<Seq<char>>) -> Seq<Seq<char>> {
    if lines.len() == 0 {
        lines
    } else {
        skip_blank(lines.drop_first())
    }
}

/// The machine state after the whole text has been consumed.
pub open spec fn final_state(lines: Seq<Seq<char>>) -> ParseState {
    let body = body_of(lines);
    if body.len() == 0 {
        ParseState {
            filling: false,
            target: Target::Input,
            input: empty_block(),
            output: empty_block(),
        }
    } else {
        run(initial_state(body[0]), body.drop_first())
    }
}

/// What `extract_content` returns, as a mathematical function of the lines.
pub open spec fn spec_extract(lines: Seq<Seq<char>>) -> (Seq<char>, TextBlockView, TextBlockView) {
    let body = body_of(lines);
    if body.len() == 0 {
        (placeholder_title(), empty_block(), empty_block())
    } else {
        let fin = final_state(lines);
        (title_of(body[0]), fin.input, fin.output)
    }
}

pub open spec fn lines_view(l: Seq<String>) -> Seq<Seq<char>> {
    l.map_values(|s: String| s@)
}

fn is_ws_exec(c: char) -> (b: bool)
    ensures
        b == is_ascii_ws(c),
{
    c == ' ' || c == '\t' || c == '\n' || c == '\r' || c == '\u{c}'
}

fn is_fence_exec(s: &String) -> (b: bool)
    ensures
        b == is_fence(s@),
{
    let st = s.as_str();
    let n = st.unicode_len();
    n >= 3 && st.get_char(0) == '`' && st.get_char(1) == '`' && st.get_char(2) == '`'
}

fn is_title_exec(s: &String) -> (b: bool)
    ensures
        b == is_title_line(s@),
{
    let st = s.as_str();
    let n = st.unicode_len();
    n >= 2 && st.get_char(0) == '#' && st.get_char(1) == ' '
}

fn is_blank_exec(s: &String) -> (b: bool)
    ensures
        b == (s@.len() == 0),
{
    s.as_str().unicode_len() == 0
}

/// Whitespace trimmed from both ends of `v[from..]`.
fn trim_from(v: &Vec<char>, from: usize) -> (s: String)
    requires
        from <= v@.len(),
    ensures
        s@ == trim(v@.skip(from as int)),
{
    let n = v.len();
    let mut i: usize = from;
    while i < n && is_ws_exec(v[i])
        invariant
            from <= i <= n,
            n == v@.len(),
            skip_ws(v@.skip(from as int)) == skip_ws(v@.skip(i as int)),
        decreases n - i,
    {
        proof {
            assert(v@.skip(i as int).drop_first() =~= v@.skip(i as int + 1));
        }
        i = i + 1;
    }
    proof {
        assert(skip_ws(v@.skip(i as int)) == v@.skip(i as int));
    }
    let mut j: usize = n;
    while j > i && is_ws_exec(v[j - 1])
        invariant
            i <= j <= n,
            n == v@.len(),
            skip_ws(v@.skip(from as int)) == v@.skip(i as int),
            trim_end(v@.skip(i as int)) == trim_end(v@.subrange(i as int, j as int)),
        decreases j,
    {
        proof {
            assert(v@.skip(i as int) =~= v@.subrange(i as int, n as int));
            assert(v@.subrange(i as int, j as int).drop_last() =~= v@.subrange(
                i as int,
                j as int - 1,
            ));
        }
        j = j - 1;
    }
    proof {
        assert(v@.skip(i as int) =~= v@.subrange(i as int, n as int));
        assert(trim_end(v@.subrange(i as int, j as int)) == v@.subrange(i as int, j as int));
    }
    collect_range(v, i, j)
}

/// The language tag of a fence-opening line.
fn fence_lang_exec(s: &String) -> (r: Option<String>)
    requires
        is_fence(s@),
    ensures
        match r {
            Some(t) => fence_lang(s@) == Some(t@),
            None => fence_lang(s@) == None::<Seq<char>>,
        },
{
    let v = chars_of(s.as_str());
    let n = v.len();
    let mut i: usize = 3;
    while i < n && is_ws_exec(v[i])
        invariant
            3 <= i <= n,
            n == v@.len() == s@.len(),
            v@ == s@,
            skip_ws(s@.skip(3)) == skip_ws(v@.skip(i as int)),
        decreases n - i,
    {
        proof {
            assert(v@.skip(i as int).drop_first() =~= v@.skip(i as int + 1));
        }
        i = i + 1;
    }
    proof {
        assert(skip_ws(v@.skip(i as int)) == v@.skip(i as int));
    }
    let mut j: usize = i;
    let mut out = String::new();
    while j < n && !is_ws_exec(v[j])
        invariant
            i <= j <= n,
            n == v@.len() == s@.len(),
            v@ == s@,
            skip_ws(s@.skip(3)) == v@.skip(i as int),
            out@ + take_token(v@.skip(j as int)) == take_token(v@.skip(i as int)),
        decreases n - j,
    {
        proof {
            assert(v@.skip(j as int).drop_first() =~= v@.skip(j as int + 1));
            assert(take_token(v@.skip(j as int)) == seq![v@[j as int]] + take_token(
                v@.skip(j as int + 1),
            ));
        }
        push_char(&mut out, v[j]);
        j = j + 1;
        proof {
            assert(out@ + take_token(v@.skip(j as int)) =~= take_token(v@.skip(i as int)));
        }
    }
    proof {
        assert(take_token(v@.skip(j as int)) =~= Seq::<char>::empty());
        assert(out@ =~= out@ + take_token(v@.skip(j as int)));
        assert(out@ == take_token(skip_ws(s@.skip(3))));
    }
    if out.as_str().unicode_len() == 0 {
        None
    } else {
        Some(out)
    }
}

/// The ghost state the executable loop is in.
pub open spec fn exec_state(
    filling: bool,
    target: Target,
    input_lang: Option<String>,
    input_lines: Seq<String>,
    output_lang: Option<String>,
    output_lines: Seq<String>,
) -> ParseState {
    ParseState {
        filling,
        target,
        input: TextBlockView {
            language: match input_lang {
                Some(s) => Some(s@),
                None => None,
            },
            content: lines_view(input_lines),
        },
        output: TextBlockView {
            language: match output_lang {
                Some(s) => Some(s@),
                None => None,
            },
            content: lines_view(output_lines),
        },
    }
}

/// Extracts the title and the first two fenced blocks from the lines of a
/// submitted text. Never fails: what is absent comes back empty, and the
/// title falls back to a fixed placeholder.
pub fn extract_content(lines: &Vec<String>) -> (r: (String, TextBlock, TextBlock))
    ensures
        (r.0@, r.1@, r.2@) == spec_extract(lines_view(lines@)),
{
    let ghost lv = lines_view(lines@);
    let n = lines.len();
    let mut i: usize = if n > 0 {
        1
    } else {
        0
    };
    proof {
        if n > 0 {
            assert(lv.drop_first() =~= lv.skip(1));
        }
        assert(body_of(lv) == skip_blank(lv.skip(i as int)) || (n == 0 && body_of(lv) == lv));
        if n == 0 {
            assert(lv.skip(0) =~= lv);
        }
    }
    while i < n && is_blank_exec(&lines[i])
        invariant
            i <= n,
            n == lines@.len(),
            lv == lines_view(lines@),
            body_of(lv) == skip_blank(lv.skip(i as int)),
        decreases n - i,
    {
        proof {
            assert(lv.skip(i as int)[0] == lv[i as int]);
            assert(lv.skip(i as int).drop_first() =~= lv.skip(i as int + 1));
        }
        i = i + 1;
    }
    proof {
        assert(skip_blank(lv.skip(i as int)) == lv.skip(i as int));
    }
    // `i` now points at the title line, if any.
    let mut no_title = String::new();
    no_title.append("No title");
    proof {
        reveal_strlit("No title");
        assert(no_title@ =~= placeholder_title());
    }
    if i >= n {
        proof {
            assert(lv.skip(i as int) =~= Seq::<Seq<char>>::empty());
        }
        let inp = TextBlock::new(None, Vec::new());
        let out = TextBlock::new(None, Vec::new());
        proof {
            assert(inp@ =~= empty_block());
            assert(out@ =~= empty_block());
        }
        return (no_title, inp, out);
    }
    let ghost body = body_of(lv);
    proof {
        assert(body.len() > 0);
        assert(body[0] == lv[i as int]);
    }
    let title: String;
    let mut filling: bool = false;
    if is_title_exec(&lines[i]) {
        let v = chars_of(lines[i].as_str());
        title = trim_from(&v, 2);
        proof {
            assert(v@.skip(2) =~= lines[i as int]@.skip(2));
        }
    } else {
        filling = is_fence_exec(&lines[i]);
        title = no_title;
    }
    proof {
        assert(title@ == title_of(body[0]));
    }
    let mut target: Target = Target::Input;
    let mut input_lang: Option<String> = None;
    let mut input_lines: Vec<String> = Vec::new();
    let mut output_lang: Option<String> = None;
    let mut output_lines: Vec<String> = Vec::new();
    i = i + 1;
    proof {
        assert(lines_view(input_lines@) =~= Seq::<Seq<char>>::empty());
        assert(lines_view(output_lines@) =~= Seq::<Seq<char>>::empty());
        assert(exec_state(
            filling,
            target,
            input_lang,
            input_lines@,
            output_lang,
            output_lines@,
        ) == initial_state(body[0]));
        assert(body.drop_first() =~= lv.skip(i as int));
    }
    while i < n
        invariant
            i <= n,
            n == lines@.len(),
            lv == lines_view(lines@),
            body == body_of(lv),
            body.len() > 0,
            run(
                exec_state(
                    filling,
                    target,
                    input_lang,
                    input_lines@,
                    output_lang,
                    output_lines@,
                ),
                lv.skip(i as int),
            ) == run(initial_state(body[0]), body.drop_first()),
        decreases n - i,
    {
        let ghost pre = exec_state(
            filling,
            target,
            input_lang,
            input_lines@,
            output_lang,
            output_lines@,
        );
        proof {
            assert(lv.skip(i as int)[0] == lv[i as int]);
            assert(lv.skip(i as int).drop_first() =~= lv.skip(i as int + 1));
        }
        let line = &lines[i];
        if is_fence_exec(line) {
            if filling {
                filling = false;
                target = match target {
                    Target::Input => Target::Output,
                    Target::Output => Target::Done,
                    Target::Done => Target::Done,
                };
            } else {
                match target {
                    Target::Input => {
                        filling = true;
                        input_lang = fence_lang_exec(line);
                    },
                    Target::Output => {
                        filling = true;
                        output_lang = fence_lang_exec(line);
                    },
                    Target::Done => {},
                }
            }
        } else if filling {
            match target {
                Target::Input => {
                    input_lines.push(line.clone());
                    proof {
                        assert(lines_view(input_lines@) =~= pre.input.content.push(
                            line@,
                        ));
                    }
                },
                Target::Output => {
                    output_lines.push(line.clone());
                    proof {
                        assert(lines_view(output_lines@) =~= pre.output.content.push(
                            line@,
                        ));
                    }
                },
                Target::Done => {},
            }
        }
        proof {
            assert(exec_state(
                filling,
                target,
                input_lang,
                input_lines@,
                output_lang,
                output_lines@,
            ) == step(pre, lv[i as int]));
        }
        i = i + 1;
    }
    proof {
        assert(lv.skip(i as int) =~= Seq::<Seq<char>>::empty());
    }
    let inp = TextBlock::new(input_lang, input_lines);
    let out = TextBlock::new(output_lang, output_lines);
    (title, inp, out)
}

pub proof fn lemma_run_append(st: ParseState, a: Seq<Seq<char>>, b: Seq<Seq<char>>)
    ensures
        run(st, a + b) == run(run(st, a), b),
    decreases a.len(),
{
    if a.len() == 0 {
        assert(a + b =~= b);
    } else {
        assert((a + b)[0] == a[0]);
        assert((a + b).drop_first() =~= a.drop_first() + b);
        lemma_run_append(step(st, a[0]), a.drop_first(), b);
    }
}

proof fn lemma_done_implies_not_filling(st: ParseState, lines: Seq<Seq<char>>)
    requires
        st.target is Done ==> !st.filling,
    ensures
        run(st, lines).target is Done ==> !run(st, lines).filling,
    decreases lines.len(),
{
    if lines.len() > 0 {
        let st1 = step(st, lines[0]);
        assert(st1.target is Done ==> !st1.filling);
        lemma_done_implies_not_filling(st1, lines.drop_first());
    }
}

proof fn lemma_done_absorbs(st: ParseState, lines: Seq<Seq<char>>)
    requires
        st.target is Done,
        !st.filling,
    ensures
        run(st, lines) == st,
    decreases lines.len(),
{
    if lines.len() > 0 {
        assert(step(st, lines[0]) == st);
        lemma_done_absorbs(st, lines.drop_first());
    }
}

proof fn lemma_skip_blank_append(a: Seq<Seq<char>>, extra: Seq<Seq<char>>)
    requires
        skip_blank(a).len() > 0,
    ensures
        skip_blank(a + extra) == skip_blank(a) + extra,
    decreases a.len(),
{
    assert(a.len() > 0);
    if a[0].len() == 0 {
        assert((a + extra)[0] == a[0]);
        assert((a + extra).drop_first() =~= a.drop_first() + extra);
        lemma_skip_blank_append(a.drop_first(), extra);
    } else {
        assert((a + extra)[0] == a[0]);
        assert(skip_blank(a + extra) == a + extra);
        assert(skip_blank(a) + extra =~= a + extra);
    }
}

/// Once both blocks are closed the parse is done: whatever lines follow --
/// a third fenced region among them -- neither the title nor the blocks
/// change.
pub proof fn lemma_extra_lines_ignored(lines: Seq<Seq<char>>, extra: Seq<Seq<char>>)
    requires
        final_state(lines).target is Done,
    ensures
        spec_extract(lines + extra) == spec_extract(lines),
{
    assert(lines.len() > 0);
    lemma_done_implies_not_filling(
        initial_state(body_of(lines)[0]),
        body_of(lines).drop_first(),
    );
    assert(!final_state(lines).filling);
    let rest = lines.drop_first();
    let body = skip_blank(rest);
    assert(body.len() > 0);
    assert((lines + extra).len() > 0);
    assert((lines + extra).drop_first() =~= rest + extra);
    lemma_skip_blank_append(rest, extra);
    let body2 = body_of(lines + extra);
    assert(body2 == body + extra);
    assert(body2[0] == body[0]);
    assert(body2.len() > 0);
    assert(body2.drop_first() =~= body.drop_first() + extra);
    let st0 = initial_state(body[0]);
    lemma_run_append(st0, body.drop_first(), extra);
    lemma_done_absorbs(final_state(lines), extra);
    assert(final_state(lines + extra) == final_state(lines));
}

proof fn lemma_input_untouched(st: ParseState, lines: Seq<Seq<char>>)
    requires
        !(st.target is Input),
    ensures
        run(st, lines).input == st.input,
    decreases lines.len(),
{
    if lines.len() > 0 {
        assert(step(st, lines[0]).input == st.input);
        assert(!(step(st, lines[0]).target is Input));
        lemma_input_untouched(step(st, lines[0]), lines.drop_first());
    }
}

proof fn lemma_fill_input(st: ParseState, lines: Seq<Seq<char>>)
    requires
        st.filling,
        st.target is Input,
        forall|i: int| 0 <= i < lines.len() ==> !is_fence(#[trigger] lines[i]),
    ensures
        run(st, lines) == (ParseState {
            input: TextBlockView { content: st.input.content + lines, ..st.input },
            ..st
        }),
    decreases lines.len(),
{
    if lines.len() == 0 {
        assert(st.input.content + lines =~= st.input.content);
        assert((ParseState {
            input: TextBlockView { content: st.input.content + lines, ..st.input },
            ..st
        }) =~= st);
    } else {
        let st1 = step(st, lines[0]);
        assert(st1.input.content == st.input.content.push(lines[0]));
        lemma_fill_input(st1, lines.drop_first());
        assert(st.input.content.push(lines[0]) + lines.drop_first() =~= st.input.content + lines);
        assert(run(st, lines) =~= (ParseState {
            input: TextBlockView { content: st.input.content + lines, ..st.input },
            ..st
        }));
    }
}

/// A text with no title line whose first content line opens a fence gets the
/// placeholder title, and its input block is exactly the lines strictly
/// between that fence and its matching close, with no language tag.
pub proof fn lemma_headless_input(lines: Seq<Seq<char>>, j: int)
    requires
        body_of(lines).len() > 0,
        !is_title_line(body_of(lines)[0]),
        is_fence(body_of(lines)[0]),
        1 <= j <= body_of(lines).len(),
        forall|t: int| 1 <= t < j ==> !is_fence(#[trigger] body_of(lines)[t]),
        j < body_of(lines).len() ==> is_fence(body_of(lines)[j]),
    ensures
        spec_extract(lines).0 == placeholder_title(),
        spec_extract(lines).1.content == body_of(lines).subrange(1, j),
        spec_extract(lines).1.language is None,
{
    let body = body_of(lines);
    let st0 = initial_state(body[0]);
    assert(st0.filling);
    let mid = body.subrange(1, j);
    let rest = body.skip(j);
    assert(body.drop_first() =~= mid + rest);
    lemma_run_append(st0, mid, rest);
    assert(forall|i: int| 0 <= i < mid.len() ==> !is_fence(#[trigger] mid[i]));
    lemma_fill_input(st0, mid);
    let st1 = run(st0, mid);
    assert(st1.input.content =~= mid);
    assert(st1.input.language is None);
    if j < body.len() {
        assert(rest[0] == body[j]);
        let st2 = step(st1, rest[0]);
        assert(st2.input == st1.input);
        assert(!(st2.target is Input));
        assert(rest.drop_first() =~= body.skip(j + 1));
        lemma_input_untouched(st2, rest.drop_first());
        assert(run(st1, rest).input == st1.input);
    } else {
        assert(rest =~= Seq::<Seq<char>>::empty());
        assert(run(st1, rest) == st1);
    }
}

proof fn lemma_run_one(st: ParseState, line: Seq<char>)
    ensures
        run(st, seq![line]) == step(st, line),
{
    assert(seq![line].drop_first() =~= Seq::<Seq<char>>::empty());
    assert(seq![line][0] == line);
    assert(run(step(st, line), Seq::<Seq<char>>::empty()) == step(st, line));
}

proof fn lemma_skip_nonfence(st: ParseState, lines: Seq<Seq<char>>)
    requires
        !st.filling,
        forall|i: int| 0 <= i < lines.len() ==> !is_fence(#[trigger] lines[i]),
    ensures
        run(st, lines) == st,
    decreases lines.len(),
{
    if lines.len() > 0 {
        assert(step(st, lines[0]) == st);
        lemma_skip_nonfence(st, lines.drop_first());
    }
}

proof fn lemma_fill_output(st: ParseState, lines: Seq<Seq<char>>)
    requires
        st.filling,
        st.target is Output,
        forall|i: int| 0 <= i < lines.len() ==> !is_fence(#[trigger] lines[i]),
    ensures
        run(st, lines) == (ParseState {
            output: TextBlockView { content: st.output.content + lines, ..st.output },
            ..st
        }),
    decreases lines.len(),
{
    if lines.len() == 0 {
        assert(st.output.content + lines =~= st.output.content);
        assert((ParseState {
            output: TextBlockView { content: st.output.content + lines, ..st.output },
            ..st
        }) =~= st);
    } else {
        let st1 = step(st, lines[0]);
        assert(st1.output.content == st.output.content.push(lines[0]));
        lemma_fill_output(st1, lines.drop_first());
        assert(st.output.content.push(lines[0]) + lines.drop_first() =~= st.output.content
            + lines);
        assert(run(st, lines) =~= (ParseState {
            output: TextBlockView { content: st.output.content + lines, ..st.output },
            ..st
        }));
    }
}

/// A text with a title line and two fenced blocks yields that title
/// (trimmed) and exactly those blocks: each block's language is the tag on
/// its opening fence and its content is the lines strictly between its
/// fences. `j` is the fence closing the input, `m` the one opening the
/// output, `k` the one closing it (or the end of the text).
pub proof fn lemma_titled_two_blocks(lines: Seq<Seq<char>>, j: int, m: int, k: int)
    requires
        body_of(lines).len() > 0,
        is_title_line(body_of(lines)[0]),
        1 < body_of(lines).len(),
        is_fence(body_of(lines)[1]),
        1 < j < m < k <= body_of(lines).len(),
        is_fence(body_of(lines)[j]),
        is_fence(body_of(lines)[m]),
        k < body_of(lines).len() ==> is_fence(body_of(lines)[k]),
        forall|t: int| 1 < t < j ==> !is_fence(#[trigger] body_of(lines)[t]),
        forall|t: int| j < t < m ==> !is_fence(#[trigger] body_of(lines)[t]),
        forall|t: int| m < t < k ==> !is_fence(#[trigger] body_of(lines)[t]),
    ensures
        spec_extract(lines).0 == trim(body_of(lines)[0].skip(2)),
        spec_extract(lines).1.language == fence_lang(body_of(lines)[1]),
        spec_extract(lines).1.content == body_of(lines).subrange(2, j),
        spec_extract(lines).2.language == fence_lang(body_of(lines)[m]),
        spec_extract(lines).2.content == body_of(lines).subrange(m + 1, k),
{
    let body = body_of(lines);
    let st0 = initial_state(body[0]);
    let mid1 = body.subrange(2, j);
    let mid2 = body.subrange(j + 1, m);
    let mid3 = body.subrange(m + 1, k);
    let rest = body.skip(k);
    assert(body.drop_first() =~= seq![body[1]] + (mid1 + (seq![body[j]] + (mid2 + (seq![
        body[m],
    ] + (mid3 + rest))))));
    lemma_run_append(st0, seq![body[1]], mid1 + (seq![body[j]] + (mid2 + (seq![body[m]] + (mid3
        + rest)))));
    lemma_run_one(st0, body[1]);
    let s1 = step(st0, body[1]);
    assert(s1.filling && s1.target is Input);
    assert(s1.input.language == fence_lang(body[1]));
    assert(s1.input.content =~= Seq::<Seq<char>>::empty());
    lemma_run_append(s1, mid1, seq![body[j]] + (mid2 + (seq![body[m]] + (mid3 + rest))));
    lemma_fill_input(s1, mid1);
    let s2 = run(s1, mid1);
    assert(s2.input.content =~= mid1);
    lemma_run_append(s2, seq![body[j]], mid2 + (seq![body[m]] + (mid3 + rest)));
    lemma_run_one(s2, body[j]);
    let s3 = step(s2, body[j]);
    assert(!s3.filling && s3.target is Output);
    assert(s3.input == s2.input);
    lemma_run_append(s3, mid2, seq![body[m]] + (mid3 + rest));
    lemma_skip_nonfence(s3, mid2);
    lemma_run_append(s3, seq![body[m]], mid3 + rest);
    lemma_run_one(s3, body[m]);
    let s5 = step(s3, body[m]);
    assert(s5.filling && s5.target is Output);
    assert(s5.output.language == fence_lang(body[m]));
    assert(s5.output.content =~= Seq::<Seq<char>>::empty());
    assert(s5.input == s3.input);
    lemma_run_append(s5, mid3, rest);
    lemma_fill_output(s5, mid3);
    let s6 = run(s5, mid3);
    assert(s6.output.content =~= mid3);
    assert(s6.input == s5.input);
    if k < body.len() {
        assert(rest =~= seq![body[k]] + body.skip(k + 1));
        lemma_run_append(s6, seq![body[k]], body.skip(k + 1));
        lemma_run_one(s6, body[k]);
        let s7 = step(s6, body[k]);
        assert(!s7.filling && s7.target is Done);
        assert(s7.input == s6.input && s7.output == s6.output);
        lemma_done_absorbs(s7, body.skip(k + 1));
        assert(final_state(lines) == s7);
    } else {
        assert(rest =~= Seq::<Seq<char>>::empty());
        assert(final_state(lines) == s6);
    }
}

} // verus!
