//! The stored text format: one task per line, three comma-separated fields,
//! with literal commas in the description escaped by a backslash. This module
//! defines the format as spec functions, implements writing and reading
//! against them, and proves that a written store reads back unchanged.

use vstd::prelude::*;
use vstd::string::*;
use crate::num::{digits_of, is_digit, lemma_digits_of_val, parse_digits, fmt_usize, parse_usize};
use crate::store::{StoreView, TodoList};
use crate::task::{Task, TaskView, TodoError};
use crate::text::{append_str_chars, chars_to_string, chars_eq_str, push_all, str_to_chars};

verus! {

/// The description with every literal comma escaped: `,` becomes `\,`.
pub open spec fn escape(s: Seq<char>) -> Seq<char>
    decreases s.len(),
{
    if s.len() == 0 {
        Seq::empty()
    } else if s[0] == ',' {
        seq!['\\', ','] + escape(s.drop_first())
    } else {
        seq![s[0]] + escape(s.drop_first())
    }
}

/// The inverse reading: every `\,` becomes a literal comma.
pub open spec fn unescape(s: Seq<char>) -> Seq<char>
    decreases s.len(),
{
    if s.len() == 0 {
        Seq::empty()
    } else if s.len() >= 2 && s[0] == '\\' && s[1] == ',' {
        seq![','] + unescape(s.skip(2))
    } else {
        seq![s[0]] + unescape(s.drop_first())
    }
}

proof fn lemma_escape_head(s: Seq<char>)
    ensures
        s.len() > 0 ==> escape(s).len() > 0 && escape(s)[0] != ',',
        s.len() == 0 ==> escape(s).len() == 0,
{
}

/// Escaping and unescaping round-trip: reading an escaped description gives
/// the description back, whatever characters it holds.
pub proof fn lemma_unescape_escape(s: Seq<char>)
    ensures
        unescape(escape(s)) == s,
    decreases s.len(),
{
    if s.len() == 0 {
    } else if s[0] == ',' {
        let e = escape(s.drop_first());
        assert((seq!['\\', ','] + e).skip(2) =~= e);
        lemma_unescape_escape(s.drop_first());
        assert(seq![','] + s.drop_first() =~= s);
    } else {
        let e = escape(s.drop_first());
        lemma_escape_head(s.drop_first());
        assert((seq![s[0]] + e).drop_first() =~= e);
        assert((seq![s[0]] + e).len() >= 2 ==> (seq![s[0]] + e)[1] == e[0]);
        lemma_unescape_escape(s.drop_first());
        assert(seq![s[0]] + s.drop_first() =~= s);
    }
}

proof fn lemma_escape_no_newline(s: Seq<char>)
    requires
        forall|i: int| 0 <= i < s.len() ==> s[i] != '\n',
    ensures
        forall|i: int| 0 <= i < escape(s).len() ==> #[trigger] escape(s)[i] != '\n',
    decreases s.len(),
{
    if s.len() > 0 {
        assert forall|i: int| 0 <= i < s.drop_first().len() implies #[trigger] s.drop_first()[i]
            != '\n' by {
            assert(s.drop_first()[i] == s[i + 1]);
        }
        lemma_escape_no_newline(s.drop_first());
        let e = escape(s.drop_first());
        let h = if s[0] == ',' {
            seq!['\\', ',']
        } else {
            seq![s[0]]
        };
        assert(escape(s) == h + e);
        assert forall|i: int| 0 <= i < escape(s).len() implies #[trigger] escape(s)[i] != '\n' by {
            if i < h.len() {
                assert(escape(s)[i] == h[i]);
            } else {
                assert(escape(s)[i] == e[i - h.len()]);
            }
        }
    }
}

/// The given sequence with the escaped form of the first field spliced in
/// front of the first piece.
pub open spec fn prepend_first(p: Seq<char>, ss: Seq<Seq<char>>) -> Seq<Seq<char>>
    recommends
        ss.len() > 0,
{
    ss.update(0, p + ss[0])
}

/// The comma-separated fields of a line, read left to right; a backslash
/// followed by a comma stays inside the current field.
pub open spec fn split_fields(s: Seq<char>) -> Seq<Seq<char>>
    decreases s.len(),
{
    if s.len() == 0 {
        seq![Seq::<char>::empty()]
    } else if s.len() >= 2 && s[0] == '\\' && s[1] == ',' {
        prepend_first(seq!['\\', ','], split_fields(s.skip(2)))
    } else if s[0] == ',' {
        seq![Seq::<char>::empty()] + split_fields(s.drop_first())
    } else {
        prepend_first(seq![s[0]], split_fields(s.drop_first()))
    }
}

/// The newline-separated lines of the stored text.
pub open spec fn split_lines(s: Seq<char>) -> Seq<Seq<char>>
    decreases s.len(),
{
    if s.len() == 0 {
        seq![Seq::<char>::empty()]
    } else if s[0] == '\n' {
        seq![Seq::<char>::empty()] + split_lines(s.drop_first())
    } else {
        prepend_first(seq![s[0]], split_lines(s.drop_first()))
    }
}

proof fn lemma_split_fields_len(s: Seq<char>)
    ensures
        split_fields(s).len() >= 1,
    decreases s.len(),
{
    if s.len() == 0 {
    } else if s.len() >= 2 && s[0] == '\\' && s[1] == ',' {
        lemma_split_fields_len(s.skip(2));
    } else if s[0] == ',' {
        lemma_split_fields_len(s.drop_first());
    } else {
        lemma_split_fields_len(s.drop_first());
    }
}

proof fn lemma_split_lines_len(s: Seq<char>)
    ensures
        split_lines(s).len() >= 1,
    decreases s.len(),
{
    if s.len() == 0 {
    } else if s[0] == '\n' {
        lemma_split_lines_len(s.drop_first());
    } else {
        lemma_split_lines_len(s.drop_first());
    }
}

proof fn lemma_prepend_prepend(a: Seq<char>, b: Seq<char>, ss: Seq<Seq<char>>)
    requires
        ss.len() > 0,
    ensures
        prepend_first(a, prepend_first(b, ss)) == prepend_first(a + b, ss),
{
    assert(a + (b + ss[0]) =~= (a + b) + ss[0]);
    assert(prepend_first(a, prepend_first(b, ss)) =~= prepend_first(a + b, ss));
}

proof fn lemma_prepend_empty(ss: Seq<Seq<char>>)
    requires
        ss.len() > 0,
    ensures
        prepend_first(Seq::empty(), ss) == ss,
{
    assert(Seq::empty() + ss[0] =~= ss[0]);
    assert(prepend_first(Seq::empty(), ss) =~= ss);
}

proof fn lemma_prepend_head(a: Seq<char>, ss: Seq<Seq<char>>)
    ensures
        prepend_first(a, seq![Seq::<char>::empty()] + ss) == seq![a] + ss,
{
    assert(a + (seq![Seq::<char>::empty()] + ss)[0] =~= a);
    assert(prepend_first(a, seq![Seq::<char>::empty()] + ss) =~= seq![a] + ss);
}

/// The escaped description with every comma escaped.
pub fn escape_chars(v: &Vec<char>) -> (r: Vec<char>)
    ensures
        r@ == escape(v@),
{
    let mut r: Vec<char> = Vec::new();
    let mut i: usize = 0;
    proof {
        assert(v@.skip(0) =~= v@);
        assert(Seq::<char>::empty() + escape(v@) =~= escape(v@));
    }
    while i < v.len()
        invariant
            i <= v.len(),
            escape(v@) == r@ + escape(v@.skip(i as int)),
        decreases v.len() - i,
    {
        proof {
            assert(v@.skip(i as int)[0] == v@[i as int]);
            assert(v@.skip(i as int).drop_first() =~= v@.skip(i + 1));
        }
        let c = v[i];
        if c == ',' {
            r.push('\\');
            r.push(',');
            proof {
                assert(escape(v@.skip(i as int)) == seq!['\\', ','] + escape(v@.skip(i + 1)));
                assert(r@ + escape(v@.skip(i + 1)) =~= (r@.drop_last().drop_last()) + (seq![
                    '\\',
                    ',',
                ] + escape(v@.skip(i + 1))));
            }
        } else {
            r.push(c);
            proof {
                assert(escape(v@.skip(i as int)) == seq![c] + escape(v@.skip(i + 1)));
                assert(r@ + escape(v@.skip(i + 1)) =~= (r@.drop_last()) + (seq![c] + escape(
                    v@.skip(i + 1),
                )));
            }
        }
        i = i + 1;
    }
    proof {
        assert(v@.skip(v@.len() as int) =~= Seq::<char>::empty());
        assert(r@ + Seq::<char>::empty() =~= r@);
    }
    r
}

/// The description read back from its escaped form.
pub fn unescape_chars(v: &Vec<char>) -> (r: Vec<char>)
    ensures
        r@ == unescape(v@),
{
    let mut r: Vec<char> = Vec::new();
    let mut i: usize = 0;
    proof {
        assert(v@.skip(0) =~= v@);
        assert(Seq::<char>::empty() + unescape(v@) =~= unescape(v@));
    }
    while i < v.len()
        invariant
            i <= v.len(),
            unescape(v@) == r@ + unescape(v@.skip(i as int)),
        decreases v.len() - i,
    {
        proof {
            assert(v@.skip(i as int)[0] == v@[i as int]);
            assert(v@.skip(i as int).len() >= 2 ==> v@.skip(i as int)[1] == v@[i + 1]);
            assert(v@.skip(i as int).drop_first() =~= v@.skip(i + 1));
            assert(v@.skip(i as int).len() >= 2 ==> v@.skip(i as int).skip(2) =~= v@.skip(i + 2));
        }
        let c = v[i];
        if c == '\\' && i + 1 < v.len() && v[i + 1] == ',' {
            r.push(',');
            proof {
                assert(unescape(v@.skip(i as int)) == seq![','] + unescape(v@.skip(i + 2)));
                assert(r@ + unescape(v@.skip(i + 2)) =~= (r@.drop_last()) + (seq![','] + unescape(
                    v@.skip(i + 2),
                )));
            }
            i = i + 2;
        } else {
            r.push(c);
            proof {
                assert(unescape(v@.skip(i as int)) == seq![c] + unescape(v@.skip(i + 1)));
                assert(r@ + unescape(v@.skip(i + 1)) =~= (r@.drop_last()) + (seq![c] + unescape(
                    v@.skip(i + 1),
                )));
            }
            i = i + 1;
        }
    }
    proof {
        assert(v@.skip(v@.len() as int) =~= Seq::<char>::empty());
        assert(r@ + Seq::<char>::empty() =~= r@);
    }
    r
}

/// The fields of a line, split on unescaped commas.
fn split_fields_chars(v: &Vec<char>) -> (r: Vec<Vec<char>>)
    ensures
        r.deep_view() == split_fields(v@),
{
    let mut out: Vec<Vec<char>> = Vec::new();
    let mut cur: Vec<char> = Vec::new();
    let mut i: usize = 0;
    proof {
        assert(v@.skip(0) =~= v@);
        lemma_split_fields_len(v@);
        lemma_prepend_empty(split_fields(v@));
        assert(out.deep_view() =~= Seq::<Seq<char>>::empty());
        assert(Seq::<Seq<char>>::empty() + split_fields(v@) =~= split_fields(v@));
    }
    while i < v.len()
        invariant
            i <= v.len(),
            split_fields(v@) == out.deep_view() + prepend_first(
                cur@,
                split_fields(v@.skip(i as int)),
            ),
        decreases v.len() - i,
    {
        let ghost pc = cur@;
        let ghost po = out.deep_view();
        let ghost rest0 = split_fields(v@.skip(i as int));
        proof {
            assert(v@.skip(i as int)[0] == v@[i as int]);
            assert(v@.skip(i as int).len() >= 2 ==> v@.skip(i as int)[1] == v@[i + 1]);
            assert(v@.skip(i as int).drop_first() =~= v@.skip(i + 1));
            assert(v@.skip(i as int).len() >= 2 ==> v@.skip(i as int).skip(2) =~= v@.skip(i + 2));
        }
        let c = v[i];
        if c == '\\' && i + 1 < v.len() && v[i + 1] == ',' {
            cur.push('\\');
            cur.push(',');
            proof {
                let rest = split_fields(v@.skip(i + 2));
                lemma_split_fields_len(v@.skip(i + 2));
                assert(rest0 == prepend_first(seq!['\\', ','], rest));
                lemma_prepend_prepend(pc, seq!['\\', ','], rest);
                assert(pc + seq!['\\', ','] =~= cur@);
                assert(split_fields(v@) == out.deep_view() + prepend_first(cur@, rest));
            }
            i = i + 2;
        } else if c == ',' {
            proof {
                assert(pc =~= cur.deep_view());
            }
            out.push(cur);
            cur = Vec::new();
            proof {
                let rest = split_fields(v@.skip(i + 1));
                lemma_split_fields_len(v@.skip(i + 1));
                assert(rest0 == seq![Seq::<char>::empty()] + rest);
                lemma_prepend_head(pc, rest);
                lemma_prepend_empty(rest);
                assert(out.deep_view() =~= po + seq![pc]);
                assert(po + (seq![pc] + rest) =~= (po + seq![pc]) + rest);
                assert(cur@ =~= Seq::<char>::empty());
                assert(prepend_first(cur@, rest) == rest);
                assert(split_fields(v@) == out.deep_view() + prepend_first(cur@, rest));
            }
            i = i + 1;
        } else {
            cur.push(c);
            proof {
                let rest = split_fields(v@.skip(i + 1));
                lemma_split_fields_len(v@.skip(i + 1));
                assert(rest0 == prepend_first(seq![c], rest));
                lemma_prepend_prepend(pc, seq![c], rest);
                assert(pc + seq![c] =~= cur@);
                assert(split_fields(v@) == out.deep_view() + prepend_first(cur@, rest));
            }
            i = i + 1;
        }
    }
    let ghost pc = cur@;
    let ghost po = out.deep_view();
    proof {
        assert(pc =~= cur.deep_view());
    }
    out.push(cur);
    proof {
        assert(v@.skip(v@.len() as int) =~= Seq::<char>::empty());
        assert(seq![Seq::<char>::empty()] + Seq::<Seq<char>>::empty() =~= seq![
            Seq::<char>::empty(),
        ]);
        lemma_prepend_head(pc, Seq::<Seq<char>>::empty());
        assert(out.deep_view() =~= po + seq![pc]);
        assert(po + (seq![pc] + Seq::<Seq<char>>::empty()) =~= po + seq![pc]);
    }
    out
}

/// The lines of the stored text, split on newlines.
fn split_lines_chars(v: &Vec<char>) -> (r: Vec<Vec<char>>)
    ensures
        r.deep_view() == split_lines(v@),
{
    let mut out: Vec<Vec<char>> = Vec::new();
    let mut cur: Vec<char> = Vec::new();
    let mut i: usize = 0;
    proof {
        assert(v@.skip(0) =~= v@);
        lemma_split_lines_len(v@);
        lemma_prepend_empty(split_lines(v@));
        assert(out.deep_view() =~= Seq::<Seq<char>>::empty());
        assert(Seq::<Seq<char>>::empty() + split_lines(v@) =~= split_lines(v@));
    }
    while i < v.len()
        invariant
            i <= v.len(),
            split_lines(v@) == out.deep_view() + prepend_first(
                cur@,
                split_lines(v@.skip(i as int)),
            ),
        decreases v.len() - i,
    {
        let ghost pc = cur@;
        let ghost po = out.deep_view();
        let ghost rest0 = split_lines(v@.skip(i as int));
        proof {
            assert(v@.skip(i as int)[0] == v@[i as int]);
            assert(v@.skip(i as int).drop_first() =~= v@.skip(i + 1));
        }
        let c = v[i];
        if c == '\n' {
            proof {
                assert(pc =~= cur.deep_view());
            }
            out.push(cur);
            cur = Vec::new();
            proof {
                let rest = split_lines(v@.skip(i + 1));
                lemma_split_lines_len(v@.skip(i + 1));
                assert(rest0 == seq![Seq::<char>::empty()] + rest);
                lemma_prepend_head(pc, rest);
                lemma_prepend_empty(rest);
                assert(out.deep_view() =~= po + seq![pc]);
                assert(po + (seq![pc] + rest) =~= (po + seq![pc]) + rest);
                assert(cur@ =~= Seq::<char>::empty());
                assert(prepend_first(cur@, rest) == rest);
                assert(split_lines(v@) == out.deep_view() + prepend_first(cur@, rest));
            }
        } else {
            cur.push(c);
            proof {
                let rest = split_lines(v@.skip(i + 1));
                lemma_split_lines_len(v@.skip(i + 1));
                assert(rest0 == prepend_first(seq![c], rest));
                lemma_prepend_prepend(pc, seq![c], rest);
                assert(pc + seq![c] =~= cur@);
                assert(split_lines(v@) == out.deep_view() + prepend_first(cur@, rest));
            }
        }
        i = i + 1;
    }
    let ghost pc = cur@;
    let ghost po = out.deep_view();
    proof {
        assert(pc =~= cur.deep_view());
    }
    out.push(cur);
    proof {
        assert(v@.skip(v@.len() as int) =~= Seq::<char>::empty());
        assert(seq![Seq::<char>::empty()] + Seq::<Seq<char>>::empty() =~= seq![
            Seq::<char>::empty(),
        ]);
        lemma_prepend_head(pc, Seq::<Seq<char>>::empty());
        assert(out.deep_view() =~= po + seq![pc]);
        assert(po + (seq![pc] + Seq::<Seq<char>>::empty()) =~= po + seq![pc]);
    }
    out
}

/// The status field as stored: `completed` or `pending`.
pub open spec fn status_word(completed: bool) -> Seq<char> {
    if completed {
        "completed"@
    } else {
        "pending"@
    }
}

/// The stored line for one task: its identifier, its status word, and its
/// escaped description, separated by commas.
pub open spec fn line_of(t: TaskView) -> Seq<char> {
    digits_of(t.id) + seq![','] + status_word(t.completed) + seq![','] + escape(t.description)
}

/// The whole stored text: one line per task in insertion order, each line
/// ended by a newline.
pub open spec fn save_of(tasks: Seq<TaskView>) -> Seq<char>
    decreases tasks.len(),
{
    if tasks.len() == 0 {
        Seq::empty()
    } else {
        line_of(tasks[0]) + seq!['\n'] + save_of(tasks.drop_first())
    }
}

proof fn lemma_save_of_push(tasks: Seq<TaskView>, t: TaskView)
    ensures
        save_of(tasks.push(t)) == save_of(tasks) + line_of(t) + seq!['\n'],
    decreases tasks.len(),
{
    if tasks.len() == 0 {
        assert(tasks.push(t)[0] == t);
        assert(tasks.push(t).drop_first() =~= Seq::<TaskView>::empty());
        assert(tasks =~= Seq::<TaskView>::empty());
        assert(save_of(Seq::<TaskView>::empty()) == Seq::<char>::empty());
        assert(line_of(t) + seq!['\n'] + Seq::<char>::empty() =~= Seq::<char>::empty() + line_of(
            t,
        ) + seq!['\n']);
    } else {
        assert(tasks.push(t)[0] == tasks[0]);
        assert(tasks.push(t).drop_first() =~= tasks.drop_first().push(t));
        lemma_save_of_push(tasks.drop_first(), t);
        assert(line_of(tasks[0]) + seq!['\n'] + (save_of(tasks.drop_first()) + line_of(t) + seq![
            '\n',
        ]) =~= (line_of(tasks[0]) + seq!['\n'] + save_of(tasks.drop_first())) + line_of(t) + seq![
            '\n',
        ]);
    }
}

/// What one stored line means: a task, a silently skipped malformed line, or
/// a bad identifier field.
pub enum LineParse {
    Bad,
    Skip,
    Parsed(TaskView),
}

/// The meaning of one stored line. A line without exactly three fields is
/// skipped; an identifier field that is not a numeral this store can hold is
/// bad; otherwise the line is a task, completed exactly when its status field
/// is the word `completed`.
pub open spec fn parse_line(line: Seq<char>) -> LineParse {
    let f = split_fields(line);
    if f.len() != 3 {
        LineParse::Skip
    } else {
        match parse_digits(f[0]) {
            Option::None => LineParse::Bad,
            Option::Some(v) => if v >= usize::MAX as nat {
                LineParse::Bad
            } else {
                LineParse::Parsed(
                    (TaskView {
                        id: v,
                        description: unescape(f[2]),
                        completed: f[1] == status_word(true),
                    }),
                )
            },
        }
    }
}

/// The tasks denoted by the lines from position `i` on: the parsed tasks in
/// order, or the one-based number of the first line with a bad identifier.
pub open spec fn parse_tasks_from(lines: Seq<Seq<char>>, i: int) -> Result<Seq<TaskView>, nat>
    decreases lines.len() - i,
{
    if i < 0 || i >= lines.len() {
        Ok(Seq::empty())
    } else {
        match parse_line(lines[i]) {
            LineParse::Bad => Err((i + 1) as nat),
            LineParse::Skip => parse_tasks_from(lines, i + 1),
            LineParse::Parsed(t) => match parse_tasks_from(lines, i + 1) {
                Ok(ts) => Ok(seq![t] + ts),
                Err(n) => Err(n),
            },
        }
    }
}

/// The meaning of a whole stored text.
pub open spec fn parsed_tasks(s: Seq<char>) -> Result<Seq<TaskView>, nat> {
    parse_tasks_from(split_lines(s), 0)
}

/// The greatest identifier among the tasks, or zero when there are none.
pub open spec fn max_id(tasks: Seq<TaskView>) -> nat
    decreases tasks.len(),
{
    if tasks.len() == 0 {
        0
    } else {
        let m = max_id(tasks.drop_last());
        if tasks.last().id > m {
            tasks.last().id
        } else {
            m
        }
    }
}

/// The store a load yields for the given tasks: `next_id` one above the
/// greatest identifier read, or one when nothing was read.
pub open spec fn loaded_store(tasks: Seq<TaskView>) -> StoreView {
    StoreView {
        tasks,
        next_id: if tasks.len() == 0 {
            1
        } else {
            max_id(tasks) + 1
        },
    }
}

spec fn with_prefix(acc: Seq<TaskView>, rest: Result<Seq<TaskView>, nat>) -> Result<
    Seq<TaskView>,
    nat,
> {
    match rest {
        Ok(ts) => Ok(acc + ts),
        Err(n) => Err(n),
    }
}

enum LineOutcome {
    Bad,
    Skip,
    Parsed(Task),
}

fn parse_line_chars(line: &Vec<char>) -> (r: LineOutcome)
    ensures
        match r {
            LineOutcome::Bad => parse_line(line@) == LineParse::Bad,
            LineOutcome::Skip => parse_line(line@) == LineParse::Skip,
            LineOutcome::Parsed(t) => parse_line(line@) == LineParse::Parsed(t@) && t.id
                < usize::MAX,
        },
{
    let fields = split_fields_chars(line);
    let ghost f = split_fields(line@);
    if fields.len() != 3 {
        return LineOutcome::Skip;
    }
    proof {
        assert(fields@[0].deep_view() =~= fields@[0]@);
        assert(fields@[1].deep_view() =~= fields@[1]@);
        assert(fields@[2].deep_view() =~= fields@[2]@);
        assert(f[0] == fields@[0]@);
        assert(f[1] == fields@[1]@);
        assert(f[2] == fields@[2]@);
    }
    match parse_usize(&fields[0]) {
        Option::None => LineOutcome::Bad,
        Option::Some(u) => {
            if u == usize::MAX {
                LineOutcome::Bad
            } else {
                let completed = chars_eq_str(&fields[1], "completed");
                let desc_chars = unescape_chars(&fields[2]);
                let description = chars_to_string(&desc_chars);
                LineOutcome::Parsed(Task { id: u, description, completed })
            }
        },
    }
}

impl TodoList {
    /// The stored text for the whole store, ready to be written out.
    pub fn save_tasks(&self) -> (out: String)
        ensures
            out@ == save_of(self@.tasks),
    {
        let mut buf: Vec<char> = Vec::new();
        let mut i: usize = 0;
        proof {
            assert(self@.tasks.take(0) =~= Seq::<TaskView>::empty());
        }
        while i < self.tasks.len()
            invariant
                i <= self.tasks.len(),
                self@.tasks.len() == self.tasks@.len(),
                buf@ == save_of(self@.tasks.take(i as int)),
            decreases self.tasks.len() - i,
        {
            let t = &self.tasks[i];
            let digits = fmt_usize(t.id);
            push_all(&mut buf, &digits);
            buf.push(',');
            if t.completed {
                append_str_chars(&mut buf, "completed");
            } else {
                append_str_chars(&mut buf, "pending");
            }
            buf.push(',');
            let dchars = str_to_chars(t.description.as_str());
            let esc = escape_chars(&dchars);
            push_all(&mut buf, &esc);
            buf.push('\n');
            proof {
                lemma_save_of_push(self@.tasks.take(i as int), self@.tasks[i as int]);
                assert(self@.tasks.take(i as int).push(self@.tasks[i as int]) =~= self@.tasks.take(
                    i + 1,
                ));
                assert(buf@ =~= save_of(self@.tasks.take(i as int)) + line_of(
                    self@.tasks[i as int],
                ) + seq!['\n']);
            }
            i = i + 1;
        }
        proof {
            assert(self@.tasks.take(self@.tasks.len() as int) =~= self@.tasks);
        }
        chars_to_string(&buf)
    }

    /// Reads a store back from its stored text; `None` stands for a missing
    /// file and yields the empty store. A line that does not split into
    /// exactly three fields is skipped; a line whose identifier field is not
    /// a numeral this store can hold stops the read with `ParseError` naming
    /// its one-based line number. `next_id` ends one above the greatest
    /// identifier read, or at one.
    pub fn load_tasks(contents: Option<&str>) -> (r: Result<TodoList, TodoError>)
        ensures
            match contents {
                Option::None => r matches Ok(store) && store@ == (StoreView {
                    tasks: Seq::<TaskView>::empty(),
                    next_id: 1 as nat,
                }),
                Option::Some(c) => match parsed_tasks(c@) {
                    Ok(ts) => r matches Ok(store) && store@ == loaded_store(ts),
                    Err(n) => r matches Err(e) && e matches TodoError::ParseError(k) && k as nat
                        == n,
                },
            },
    {
        let c = match contents {
            Option::None => {
                let s = TodoList::new();
                proof {
                    assert(s@ =~= (StoreView { tasks: Seq::<TaskView>::empty(), next_id: 1 as nat }));
                }
                return Ok(s);
            },
            Option::Some(c) => c,
        };
        let chars = str_to_chars(c);
        let lines = split_lines_chars(&chars);
        let ghost el = lines.deep_view();
        let mut tasks: Vec<Task> = Vec::new();
        let mut i: usize = 0;
        proof {
            assert(tasks.deep_view() =~= Seq::<TaskView>::empty());
            if parse_tasks_from(el, 0) is Ok {
                assert(Seq::<TaskView>::empty() + parse_tasks_from(el, 0)->Ok_0 =~= parse_tasks_from(
                    el,
                    0,
                )->Ok_0);
            }
        }
        while i < lines.len()
            invariant
                contents == Option::Some(c),
                i <= lines.len(),
                el == lines.deep_view(),
                el == split_lines(c@),
                lines@.len() == el.len(),
                parse_tasks_from(el, 0) == with_prefix(tasks.deep_view(), parse_tasks_from(el, i as int)),
                forall|k: int| 0 <= k < tasks@.len() ==> (#[trigger] tasks@[k]).id < usize::MAX,
            decreases lines.len() - i,
        {
            proof {
                assert(lines@[i as int].deep_view() =~= lines@[i as int]@);
                assert(el[i as int] == lines@[i as int]@);
            }
            match parse_line_chars(&lines[i]) {
                LineOutcome::Bad => {
                    proof {
                        assert(parse_tasks_from(el, i as int) == Err::<Seq<TaskView>, nat>(
                            (i + 1) as nat,
                        ));
                        assert(parse_tasks_from(el, 0) == Err::<Seq<TaskView>, nat>(
                            (i + 1) as nat,
                        ));
                        assert(parsed_tasks(c@) == Err::<Seq<TaskView>, nat>((i + 1) as nat));
                    }
                    return Err(TodoError::ParseError(i + 1));
                },
                LineOutcome::Skip => {
                    proof {
                        assert(parse_tasks_from(el, i as int) == parse_tasks_from(el, i + 1));
                    }
                },
                LineOutcome::Parsed(t) => {
                    let ghost tv = t@;
                    let ghost acc = tasks.deep_view();
                    tasks.push(t);
                    proof {
                        assert(tasks.deep_view() =~= acc.push(tv));
                        match parse_tasks_from(el, i + 1) {
                            Result::Ok(ts) => {
                                assert(parse_tasks_from(el, i as int) == Ok::<Seq<TaskView>, nat>(
                                    seq![tv] + ts,
                                ));
                                assert(acc + (seq![tv] + ts) =~= acc.push(tv) + ts);
                            },
                            Result::Err(n) => {},
                        }
                    }
                },
            }
            i = i + 1;
        }
        proof {
            assert(parse_tasks_from(el, el.len() as int) == Ok::<Seq<TaskView>, nat>(Seq::empty()));
            assert(tasks.deep_view() + Seq::<TaskView>::empty() =~= tasks.deep_view());
        }
        let ghost ts = tasks.deep_view();
        let mut m: usize = 0;
        let mut j: usize = 0;
        proof {
            assert(ts.take(0) =~= Seq::<TaskView>::empty());
        }
        while j < tasks.len()
            invariant
                j <= tasks.len(),
                ts == tasks.deep_view(),
                tasks@.len() == ts.len(),
                forall|k: int| 0 <= k < tasks@.len() ==> (#[trigger] tasks@[k]).id < usize::MAX,
                m as nat == max_id(ts.take(j as int)),
                m < usize::MAX,
            decreases tasks.len() - j,
        {
            proof {
                assert(ts.take(j + 1).drop_last() =~= ts.take(j as int));
                assert(ts.take(j + 1).last() == ts[j as int]);
                assert(ts[j as int].id == tasks@[j as int].id as nat);
            }
            if tasks[j].id > m {
                m = tasks[j].id;
            }
            j = j + 1;
        }
        proof {
            assert(ts.take(ts.len() as int) =~= ts);
        }
        let next_id: usize = if tasks.len() == 0 {
            1
        } else {
            m + 1
        };
        let r = TodoList { tasks, next_id };
        proof {
            assert(r@.tasks =~= ts);
            assert(r@ =~= loaded_store(ts));
        }
        Ok(r)
    }
}

proof fn lemma_split_single(a: Seq<char>, rest: Seq<char>)
    requires
        forall|i: int| 0 <= i < a.len() ==> a[i] != ',' && a[i] != '\\',
    ensures
        split_fields(a + seq![','] + rest) == seq![a] + split_fields(rest),
    decreases a.len(),
{
    let s = a + seq![','] + rest;
    if a.len() == 0 {
        assert(s =~= seq![','] + rest);
        assert(s[0] == ',');
        assert(s.drop_first() =~= rest);
        assert(a =~= Seq::<char>::empty());
    } else {
        assert(s[0] == a[0]);
        assert(s.drop_first() =~= a.drop_first() + seq![','] + rest);
        assert forall|i: int| 0 <= i < a.drop_first().len() implies a.drop_first()[i] != ','
            && a.drop_first()[i] != '\\' by {
            assert(a.drop_first()[i] == a[i + 1]);
        }
        lemma_split_single(a.drop_first(), rest);
        lemma_split_fields_len(rest);
        assert(split_fields(s) == prepend_first(
            seq![a[0]],
            seq![a.drop_first()] + split_fields(rest),
        ));
        assert(seq![a[0]] + (seq![a.drop_first()] + split_fields(rest))[0] =~= a);
        assert(prepend_first(seq![a[0]], seq![a.drop_first()] + split_fields(rest)) =~= seq![a]
            + split_fields(rest));
    }
}

proof fn lemma_split_escape(d: Seq<char>)
    ensures
        split_fields(escape(d)) == seq![escape(d)],
    decreases d.len(),
{
    let s = escape(d);
    if d.len() == 0 {
        assert(s =~= Seq::<char>::empty());
        assert(split_fields(s) == seq![Seq::<char>::empty()]);
        assert(seq![Seq::<char>::empty()] =~= seq![s]);
    } else if d[0] == ',' {
        let e = escape(d.drop_first());
        assert(s == seq!['\\', ','] + e);
        assert(s.len() >= 2 && s[0] == '\\' && s[1] == ',');
        assert(s.skip(2) =~= e);
        lemma_split_escape(d.drop_first());
        assert(split_fields(s) == prepend_first(seq!['\\', ','], seq![e]));
        assert(seq!['\\', ','] + (seq![e])[0] =~= s);
        assert(prepend_first(seq!['\\', ','], seq![e]) =~= seq![s]);
    } else {
        let e = escape(d.drop_first());
        lemma_escape_head(d.drop_first());
        assert(s == seq![d[0]] + e);
        assert(s[0] == d[0]);
        assert(s.len() >= 2 ==> s[1] == e[0]);
        assert(!(s.len() >= 2 && s[0] == '\\' && s[1] == ','));
        assert(s.drop_first() =~= e);
        lemma_split_escape(d.drop_first());
        assert(split_fields(s) == prepend_first(seq![d[0]], seq![e]));
        assert(seq![d[0]] + (seq![e])[0] =~= s);
        assert(prepend_first(seq![d[0]], seq![e]) =~= seq![s]);
    }
}

proof fn lemma_digits_chars(n: nat)
    ensures
        forall|i: int|
            0 <= i < digits_of(n).len() ==> #[trigger] digits_of(n)[i] != ','
                && digits_of(n)[i] != '\\' && digits_of(n)[i] != '\n',
{
    lemma_digits_of_val(n);
    assert forall|i: int|
        0 <= i < digits_of(n).len() implies #[trigger] digits_of(n)[i] != ',' && digits_of(n)[i]
        != '\\' && digits_of(n)[i] != '\n' by {
        assert(is_digit(digits_of(n)[i]));
    }
}

proof fn lemma_status_word_chars(b: bool)
    ensures
        status_word(b).len() > 0,
        forall|i: int|
            0 <= i < status_word(b).len() ==> #[trigger] status_word(b)[i] != ','
                && status_word(b)[i] != '\\' && status_word(b)[i] != '\n',
        (status_word(b) == status_word(true)) == b,
{
    reveal_strlit("completed");
    reveal_strlit("pending");
    if !b {
        assert(status_word(b).len() != status_word(true).len());
    }
}

/// A stored line reads back as exactly the task it was written for.
proof fn lemma_parse_line_of(t: TaskView)
    requires
        t.id < usize::MAX,
    ensures
        parse_line(line_of(t)) == LineParse::Parsed(t),
{
    let digits = digits_of(t.id);
    let w = status_word(t.completed);
    let esc = escape(t.description);
    let line = line_of(t);
    lemma_digits_chars(t.id);
    lemma_status_word_chars(t.completed);
    lemma_split_escape(t.description);
    assert(line =~= digits + seq![','] + (w + seq![','] + esc));
    lemma_split_single(w, esc);
    lemma_split_single(digits, w + seq![','] + esc);
    assert(split_fields(line) == seq![digits] + (seq![w] + seq![esc]));
    assert(split_fields(line) =~= seq![digits, w, esc]);
    lemma_digits_of_val(t.id);
    lemma_unescape_escape(t.description);
    assert(parse_line(line) == LineParse::Parsed(
        (TaskView { id: t.id, description: t.description, completed: t.completed }),
    ));
    assert((TaskView { id: t.id, description: t.description, completed: t.completed }) =~= t);
}

proof fn lemma_line_of_no_newline(t: TaskView)
    requires
        forall|j: int| 0 <= j < t.description.len() ==> t.description[j] != '\n',
    ensures
        forall|i: int| 0 <= i < line_of(t).len() ==> #[trigger] line_of(t)[i] != '\n',
{
    let digits = digits_of(t.id);
    let w = status_word(t.completed);
    let esc = escape(t.description);
    lemma_digits_chars(t.id);
    lemma_status_word_chars(t.completed);
    lemma_escape_no_newline(t.description);
    assert forall|i: int| 0 <= i < line_of(t).len() implies #[trigger] line_of(t)[i] != '\n' by {
        let line = line_of(t);
        if i < digits.len() {
            assert(line[i] == digits[i]);
        } else if i < digits.len() + 1 {
            assert(line[i] == ',');
        } else if i < digits.len() + 1 + w.len() {
            assert(line[i] == w[i - digits.len() - 1]);
        } else if i < digits.len() + 1 + w.len() + 1 {
            assert(line[i] == ',');
        } else {
            assert(line[i] == esc[i - digits.len() - 1 - w.len() - 1]);
        }
    }
}

proof fn lemma_split_lines_sep(a: Seq<char>, rest: Seq<char>)
    requires
        forall|i: int| 0 <= i < a.len() ==> a[i] != '\n',
    ensures
        split_lines(a + seq!['\n'] + rest) == seq![a] + split_lines(rest),
    decreases a.len(),
{
    let s = a + seq!['\n'] + rest;
    if a.len() == 0 {
        assert(s =~= seq!['\n'] + rest);
        assert(s[0] == '\n');
        assert(s.drop_first() =~= rest);
        assert(a =~= Seq::<char>::empty());
    } else {
        assert(s[0] == a[0]);
        assert(s.drop_first() =~= a.drop_first() + seq!['\n'] + rest);
        assert forall|i: int| 0 <= i < a.drop_first().len() implies a.drop_first()[i] != '\n' by {
            assert(a.drop_first()[i] == a[i + 1]);
        }
        lemma_split_lines_sep(a.drop_first(), rest);
        lemma_split_lines_len(rest);
        assert(split_lines(s) == prepend_first(
            seq![a[0]],
            seq![a.drop_first()] + split_lines(rest),
        ));
        assert(seq![a[0]] + (seq![a.drop_first()] + split_lines(rest))[0] =~= a);
        assert(prepend_first(seq![a[0]], seq![a.drop_first()] + split_lines(rest)) =~= seq![a]
            + split_lines(rest));
    }
}

proof fn lemma_parse_shift(l: Seq<char>, ls: Seq<Seq<char>>, i: int)
    requires
        0 <= i <= ls.len(),
    ensures
        parse_tasks_from(seq![l] + ls, i + 1) == (match parse_tasks_from(ls, i) {
            Ok(ts) => Ok::<Seq<TaskView>, nat>(ts),
            Err(n) => Err::<Seq<TaskView>, nat>((n + 1) as nat),
        }),
    decreases ls.len() - i,
{
    let m = seq![l] + ls;
    if i == ls.len() {
        assert(parse_tasks_from(m, i + 1) == Ok::<Seq<TaskView>, nat>(Seq::empty()));
    } else {
        assert(m[i + 1] == ls[i]);
        lemma_parse_shift(l, ls, i + 1);
    }
}

proof fn lemma_max_id_bound(tasks: Seq<TaskView>)
    ensures
        forall|i: int| 0 <= i < tasks.len() ==> #[trigger] tasks[i].id <= max_id(tasks),
    decreases tasks.len(),
{
    if tasks.len() > 0 {
        lemma_max_id_bound(tasks.drop_last());
        assert forall|i: int| 0 <= i < tasks.len() implies #[trigger] tasks[i].id <= max_id(
            tasks,
        ) by {
            if i < tasks.len() - 1 {
                assert(tasks.drop_last()[i] == tasks[i]);
            }
        }
    }
}

proof fn lemma_max_id_lt(tasks: Seq<TaskView>, n: nat)
    requires
        n >= 1,
        forall|i: int| 0 <= i < tasks.len() ==> #[trigger] tasks[i].id < n,
    ensures
        max_id(tasks) < n,
    decreases tasks.len(),
{
    if tasks.len() > 0 {
        assert forall|i: int| 0 <= i < tasks.drop_last().len() implies #[trigger] tasks.drop_last(
        )[i].id < n by {
            assert(tasks.drop_last()[i] == tasks[i]);
        }
        lemma_max_id_lt(tasks.drop_last(), n);
        assert(tasks.last() == tasks[tasks.len() - 1]);
    }
}

proof fn lemma_save_parse_tasks(tasks: Seq<TaskView>)
    requires
        forall|i: int| 0 <= i < tasks.len() ==> (#[trigger] tasks[i]).id < usize::MAX,
        forall|i: int, j: int|
            0 <= i < tasks.len() && 0 <= j < tasks[i].description.len() ==> #[trigger] tasks[i]
                .description[j] != '\n',
    ensures
        parse_tasks_from(split_lines(save_of(tasks)), 0) == Ok::<Seq<TaskView>, nat>(tasks),
    decreases tasks.len(),
{
    if tasks.len() == 0 {
        let ls = split_lines(save_of(tasks));
        assert(save_of(tasks) == Seq::<char>::empty());
        assert(ls == seq![Seq::<char>::empty()]);
        assert(split_fields(Seq::<char>::empty()) == seq![Seq::<char>::empty()]);
        assert(parse_line(ls[0]) == LineParse::Skip);
        assert(parse_tasks_from(ls, 1) == Ok::<Seq<TaskView>, nat>(Seq::empty()));
        assert(tasks =~= Seq::<TaskView>::empty());
    } else {
        let t0 = tasks[0];
        let rest = tasks.drop_first();
        assert(save_of(tasks) == line_of(t0) + seq!['\n'] + save_of(rest));
        assert forall|j: int| 0 <= j < t0.description.len() implies t0.description[j] != '\n' by {
            assert(tasks[0].description[j] != '\n');
        }
        lemma_line_of_no_newline(t0);
        lemma_split_lines_sep(line_of(t0), save_of(rest));
        let ls = split_lines(save_of(rest));
        assert(split_lines(save_of(tasks)) == seq![line_of(t0)] + ls);
        lemma_parse_line_of(t0);
        assert forall|i: int| 0 <= i < rest.len() implies (#[trigger] rest[i]).id < usize::MAX by {
            assert(rest[i] == tasks[i + 1]);
        }
        assert forall|i: int, j: int|
            0 <= i < rest.len() && 0 <= j < rest[i].description.len() implies #[trigger] rest[i]
                .description[j] != '\n' by {
            assert(rest[i] == tasks[i + 1]);
            assert(tasks[i + 1].description[j] != '\n');
        }
        lemma_save_parse_tasks(rest);
        lemma_split_lines_len(save_of(rest));
        lemma_parse_shift(line_of(t0), ls, 0);
        let m = seq![line_of(t0)] + ls;
        assert(m[0] == line_of(t0));
        assert(parse_tasks_from(m, 1) == Ok::<Seq<TaskView>, nat>(rest));
        assert(parse_tasks_from(m, 0) == Ok::<Seq<TaskView>, nat>(seq![t0] + rest));
        assert(seq![t0] + rest =~= tasks);
    }
}

/// Law: writing out a well-formed store and reading the text back yields
/// exactly the tasks that were written, in order, with each identifier,
/// description (commas included), and completion flag intact; and the store
/// the read yields is well-formed again. Descriptions must not span lines:
/// a newline inside one would be written as a line break and cannot survive.
pub proof fn lemma_save_load_round_trip(store: StoreView)
    requires
        store.wf(),
        store.next_id <= usize::MAX,
        forall|i: int, j: int|
            0 <= i < store.tasks.len() && 0 <= j < store.tasks[i].description.len()
                ==> #[trigger] store.tasks[i].description[j] != '\n',
    ensures
        parsed_tasks(save_of(store.tasks)) == Ok::<Seq<TaskView>, nat>(store.tasks),
        loaded_store(store.tasks).wf(),
{
    assert forall|i: int| 0 <= i < store.tasks.len() implies (#[trigger] store.tasks[i]).id
        < usize::MAX by {
        assert(store.tasks[i].id < store.next_id);
    }
    lemma_save_parse_tasks(store.tasks);
    if store.tasks.len() > 0 {
        lemma_max_id_bound(store.tasks);
        lemma_max_id_lt(store.tasks, store.next_id);
    }
}


} // verus!
