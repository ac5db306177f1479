//! The latest stored line of a sensor: a file's last line, and the answer
//! chosen between a sensor's aggregated frames and its raw values.
use vstd::prelude::*;

verus! {

/// Whether `text` is one JSON value, as `serde_json` reads it.
pub uninterp spec fn spec_is_json(text: Seq<char>) -> bool;

/// Parses `text` with `serde_json::from_str::<serde_json::Value>` and says
/// whether it parsed. The contract only names the answer: it depends on the
/// text alone; which texts `serde_json` accepts is left unsaid.
#[verifier::external_body]
fn is_json(text: &[char]) -> (r: bool)
    ensures
        r == spec_is_json(text@),
{
    let s: String = text.iter().collect();
    serde_json::from_str::<serde_json::Value>(&s).is_ok()
}

/// The characters after the last newline of `s`; all of `s` when it has none.
pub open spec fn after_last_newline(s: Seq<char>) -> Seq<char>
    decreases s.len(),
{
    if s.len() == 0 {
        s
    } else if s.last() == '\n' {
        Seq::<char>::empty()
    } else {
        after_last_newline(s.drop_last()).push(s.last())
    }
}

/// `s` without one carriage return at its end.
pub open spec fn strip_cr(s: Seq<char>) -> Seq<char> {
    if s.len() > 0 && s.last() == '\r' {
        s.drop_last()
    } else {
        s
    }
}

/// The last line of `text` as `str::lines` yields it: a line ends at "\n"
/// or "\r\n", which are not part of it, and a line ending at the very end
/// starts no further line; `None` for an empty text.
pub open spec fn last_line(text: Seq<char>) -> Option<Seq<char>> {
    if text.len() == 0 {
        None
    } else if text.last() == '\n' {
        Some(strip_cr(after_last_newline(text.drop_last())))
    } else {
        Some(after_last_newline(text))
    }
}

/// What follows the last newline of `s` is what follows position `j`, when
/// `j` is just past a newline (or 0) and no newline comes after it.
proof fn lemma_after_last_newline(s: Seq<char>, j: int)
    requires
        0 <= j <= s.len(),
        j == 0 || s[j - 1] == '\n',
        forall|k: int| j <= k < s.len() ==> s[k] != '\n',
    ensures
        after_last_newline(s) == s.subrange(j, s.len() as int),
    decreases s.len(),
{
    if s.len() > 0 {
        let p = s.drop_last();
        if s.last() == '\n' {
            assert(s.subrange(j, s.len() as int) =~= Seq::<char>::empty());
        } else {
            lemma_after_last_newline(p, j);
            assert(s.subrange(j, s.len() as int) =~= p.subrange(j, p.len() as int).push(s.last()));
        }
    } else {
        assert(s.subrange(j, s.len() as int) =~= Seq::<char>::empty());
    }
}

/// The last line of `text`; `None` when it has no line.
pub fn last_line_of(text: &[char]) -> (r: Option<Vec<char>>)
    ensures
        match r {
            Some(l) => last_line(text@) == Some(l@),
            None => last_line(text@) is None,
        },
{
    let len = text.len();
    if len == 0 {
        return None;
    }
    let terminated = text[len - 1] == '\n';
    let mut end: usize = if terminated { len - 1 } else { len };
    let mut start: usize = end;
    while start > 0 && text[start - 1] != '\n'
        invariant
            start <= end,
            end <= len,
            len == text@.len(),
            forall|k: int| start <= k < end ==> text@[k] != '\n',
        decreases start,
    {
        start = start - 1;
    }
    let ghost body = text@.subrange(0, end as int);
    proof {
        lemma_after_last_newline(body, start as int);
        assert(body.subrange(start as int, end as int) =~= text@.subrange(start as int, end as int));
        if terminated {
            assert(body =~= text@.drop_last());
        } else {
            assert(body =~= text@);
        }
    }
    if terminated && end > start && text[end - 1] == '\r' {
        end = end - 1;
        assert(text@.subrange(start as int, end as int) =~= text@.subrange(
            start as int,
            end + 1,
        ).drop_last());
    }
    let mut r: Vec<char> = Vec::new();
    let mut i: usize = start;
    while i < end
        invariant
            start <= i <= end,
            end <= len,
            len == text@.len(),
            r@ == text@.subrange(start as int, i as int),
        decreases end - i,
    {
        r.push(text[i]);
        i = i + 1;
        assert(r@ =~= text@.subrange(start as int, i as int));
    }
    Some(r)
}

/// The answer about a sensor's latest value.
#[derive(Debug, PartialEq, Eq)]
pub enum Latest {
    /// The last line of its aggregated file, which is JSON.
    Aggregated(Vec<char>),
    /// The last line of its raw file.
    Raw(Vec<char>),
    /// Its raw file is there but holds no line.
    RawWithoutLines,
    /// Neither file gives an answer.
    NotFound,
}

/// Chooses the answer from what was read: `aggregated_last` is the last
/// line of the aggregated file (when it is there and has one) and
/// `aggregated_is_json` whether that line is JSON; `raw_last` is `None`
/// when there is no raw file, else its last line, if any. The aggregated
/// line wins when it is JSON; else the raw file's last line.
pub fn choose_latest(
    aggregated_last: Option<Vec<char>>,
    aggregated_is_json: bool,
    raw_last: Option<Option<Vec<char>>>,
) -> (r: Latest)
    ensures
        aggregated_last is Some && aggregated_is_json ==> r == Latest::Aggregated(
            aggregated_last->0,
        ),
        !(aggregated_last is Some && aggregated_is_json) ==> match raw_last {
            Some(Some(l)) => r == Latest::Raw(l),
            Some(None) => r == Latest::RawWithoutLines,
            None => r == Latest::NotFound,
        },
{
    if aggregated_is_json {
        if let Some(line) = aggregated_last {
            return Latest::Aggregated(line);
        }
    }
    match raw_last {
        Some(Some(line)) => Latest::Raw(line),
        Some(None) => Latest::RawWithoutLines,
        None => Latest::NotFound,
    }
}

/// The text of an answer's line, when it has one.
pub open spec fn answer_line(r: Latest) -> Option<Seq<char>> {
    match r {
        Latest::Aggregated(l) => Some(l@),
        Latest::Raw(l) => Some(l@),
        _ => None,
    }
}

/// The answer about a sensor's latest value, from the contents of its
/// aggregated file and of its raw file (`None` for a file that could not be
/// read): the aggregated file's last line when that is JSON, else the raw
/// file's last line.
pub fn latest_answer(aggregated: Option<&[char]>, raw: Option<&[char]>) -> (r: Latest)
    ensures
        ({
            let a = match aggregated {
                Some(t) => last_line(t@),
                None => None,
            };
            if a is Some && spec_is_json(a->0) {
                r is Aggregated && answer_line(r) == a
            } else {
                match raw {
                    Some(t) => match last_line(t@) {
                        Some(l) => r is Raw && answer_line(r) == Some(l),
                        None => r is RawWithoutLines,
                    },
                    None => r is NotFound,
                }
            }
        }),
{
    let aggregated_last = match aggregated {
        Some(t) => last_line_of(t),
        None => None,
    };
    let aggregated_is_json = match &aggregated_last {
        Some(l) => is_json(l.as_slice()),
        None => false,
    };
    let raw_last = match raw {
        Some(t) => Some(last_line_of(t)),
        None => None,
    };
    choose_latest(aggregated_last, aggregated_is_json, raw_last)
}

/// The texts that `v` holds, where it holds one.
pub open spec fn optional_texts(v: Seq<Option<Vec<char>>>) -> Seq<Option<Seq<char>>> {
    v.map_values(|o: Option<Vec<char>>|
        match o {
            Some(t) => Some(t@),
            None => None,
        })
}

/// The lines of `lines` that are there and flagged, in order.
pub open spec fn flagged(lines: Seq<Option<Seq<char>>>, flags: Seq<bool>) -> Seq<Seq<char>>
    decreases lines.len(),
{
    if lines.len() == 0 {
        Seq::<Seq<char>>::empty()
    } else {
        let before = flagged(lines.drop_last(), flags);
        let i = lines.len() - 1;
        if lines.last() is Some && flags[i] {
            before.push(lines.last()->0)
        } else {
            before
        }
    }
}

/// What follows the last newline does not depend on anything before a
/// newline.
proof fn lemma_after_last_newline_concat(a: Seq<char>, c: Seq<char>)
    ensures
        after_last_newline(a + seq!['\n'] + c) == after_last_newline(c),
    decreases c.len(),
{
    let s = a + seq!['\n'] + c;
    if c.len() == 0 {
        assert(s.last() == '\n');
    } else {
        assert(s.drop_last() =~= a + seq!['\n'] + c.drop_last());
        assert(s.last() == c.last());
        lemma_after_last_newline_concat(a, c.drop_last());
    }
}

/// A text without newlines is all after its last newline.
proof fn lemma_after_last_newline_none(c: Seq<char>)
    requires
        !c.contains('\n'),
    ensures
        after_last_newline(c) == c,
    decreases c.len(),
{
    if c.len() > 0 {
        let p = c.drop_last();
        assert(!p.contains('\n')) by {
            if p.contains('\n') {
                let i = choose|i: int| 0 <= i < p.len() && p[i] == '\n';
                assert(c[i] == '\n');
            }
        }
        lemma_after_last_newline_none(p);
        assert(c[c.len() - 1] == c.last());
        assert(p.push(c.last()) =~= c);
    }
}

/// Earlier lines never change the last line: whatever precedes a newline
/// is dropped, when something follows it.
pub proof fn lemma_last_line_ignores_earlier_lines(a: Seq<char>, b: Seq<char>)
    requires
        b.len() > 0,
    ensures
        last_line(a + seq!['\n'] + b) == last_line(b),
{
    let s = a + seq!['\n'] + b;
    assert(s.last() == b.last());
    if b.last() == '\n' {
        assert(s.drop_last() =~= a + seq!['\n'] + b.drop_last());
        lemma_after_last_newline_concat(a, b.drop_last());
    } else {
        lemma_after_last_newline_concat(a, b);
    }
}

/// A text of one line is its own last line; so is it with "\r\n" after it,
/// and with "\n" after it when it does not end in a carriage return; an
/// empty text has no line.
pub proof fn lemma_last_line_of_one_line(b: Seq<char>)
    requires
        !b.contains('\n'),
    ensures
        last_line(Seq::<char>::empty()) is None,
        b.len() > 0 ==> last_line(b) == Some(b),
        last_line(b + seq!['\r', '\n']) == Some(b),
        (b.len() == 0 || b.last() != '\r') ==> last_line(b + seq!['\n']) == Some(b),
{
    lemma_after_last_newline_none(b);
    let t = b + seq!['\n'];
    assert(t.drop_last() =~= b);
    assert(t.last() == '\n');
    let u = b + seq!['\r', '\n'];
    let br = b.push('\r');
    assert(u.drop_last() =~= br);
    assert(u.last() == '\n');
    assert(!br.contains('\n')) by {
        if br.contains('\n') {
            let i = choose|i: int| 0 <= i < br.len() && br[i] == '\n';
            if i < b.len() {
                assert(b[i] == '\n');
            }
        }
    }
    lemma_after_last_newline_none(br);
    assert(br.drop_last() =~= b);
}

/// The lines that `flagged` keeps: each line that is there and whose flag
/// is set, in order.
pub open spec fn present_and_flagged(lines: Seq<Option<Seq<char>>>, flags: Seq<bool>) -> Seq<
    Seq<char>,
> {
    Seq::new(lines.len(), |i: int| (lines[i], flags[i])).filter_map(
        |p: (Option<Seq<char>>, bool)|
            if p.1 {
                p.0
            } else {
                None
            },
    )
}

/// `flagged` keeps exactly the lines that are there and flagged, in order,
/// and none else.
pub proof fn lemma_flagged_keeps_every_flagged_line(
    lines: Seq<Option<Seq<char>>>,
    flags: Seq<bool>,
)
    requires
        flags.len() >= lines.len(),
    ensures
        flagged(lines, flags) == present_and_flagged(lines, flags),
    decreases lines.len(),
{
    if lines.len() > 0 {
        let pre = lines.drop_last();
        lemma_flagged_keeps_every_flagged_line(pre, flags);
        let z = Seq::new(lines.len(), |i: int| (lines[i], flags[i]));
        assert(z.drop_last() =~= Seq::new(pre.len(), |i: int| (pre[i], flags[i])));
        assert(z.last() == (lines.last(), flags[lines.len() - 1]));
        let f = present_and_flagged(pre, flags);
        if lines.last() is Some && flags[lines.len() - 1] {
            assert(f.push(lines.last()->0) =~= f + seq![lines.last()->0]);
        }
    } else {
        assert(Seq::new(lines.len(), |i: int| (lines[i], flags[i])) =~= Seq::<
            (Option<Seq<char>>, bool),
        >::empty());
    }
}

/// A line that is there and flagged, after the others, comes last; one
/// that is not adds nothing.
pub proof fn lemma_flagged_push(
    lines: Seq<Option<Seq<char>>>,
    flags: Seq<bool>,
    line: Option<Seq<char>>,
)
    requires
        flags.len() > lines.len(),
    ensures
        line is Some && flags[lines.len() as int] ==> flagged(lines.push(line), flags) == flagged(
            lines,
            flags,
        ).push(line->0),
        !(line is Some && flags[lines.len() as int]) ==> flagged(lines.push(line), flags)
            == flagged(lines, flags),
        flagged(lines, flags).len() <= lines.len(),
{
    assert(lines.push(line).drop_last() =~= lines);
    lemma_flagged_len(lines, flags);
}

proof fn lemma_flagged_len(lines: Seq<Option<Seq<char>>>, flags: Seq<bool>)
    ensures
        flagged(lines, flags).len() <= lines.len(),
    decreases lines.len(),
{
    if lines.len() > 0 {
        lemma_flagged_len(lines.drop_last(), flags);
    }
}

/// Keeps, in order, the lines that are there and whose flag is set.
pub fn keep_flagged(lines: &Vec<Option<Vec<char>>>, flags: &Vec<bool>) -> (r: Vec<Vec<char>>)
    requires
        flags@.len() == lines@.len(),
    ensures
        r@.map_values(|t: Vec<char>| t@) == flagged(optional_texts(lines@), flags@),
{
    let mut r: Vec<Vec<char>> = Vec::new();
    let mut i: usize = 0;
    while i < lines.len()
        invariant
            i <= lines@.len(),
            flags@.len() == lines@.len(),
            r@.map_values(|t: Vec<char>| t@) == flagged(
                optional_texts(lines@).subrange(0, i as int),
                flags@,
            ),
        decreases lines@.len() - i,
    {
        let ghost prev = r@;
        let ghost texts = optional_texts(lines@);
        assert(texts.subrange(0, i + 1).drop_last() =~= texts.subrange(0, i as int));
        if flags[i] {
            match &lines[i] {
                Some(t) => {
                    r.push(t.clone());
                    assert(r@.map_values(|t: Vec<char>| t@) =~= prev.map_values(
                        |t: Vec<char>| t@,
                    ).push(t@));
                },
                None => {},
            }
        }
        i = i + 1;
    }
    assert(optional_texts(lines@).subrange(0, lines@.len() as int) =~= optional_texts(lines@));
    r
}

/// The flags of `lines`: whether each is there and is JSON.
pub open spec fn json_flags(lines: Seq<Option<Seq<char>>>) -> Seq<bool> {
    lines.map_values(|o: Option<Seq<char>>| o is Some && spec_is_json(o->0))
}

/// The last lines of `contents` (a file's contents, or `None` when it could
/// not be read).
pub open spec fn last_lines(contents: Seq<Option<Vec<char>>>) -> Seq<Option<Seq<char>>> {
    contents.map_values(|o: Option<Vec<char>>|
        match o {
            Some(t) => last_line(t@),
            None => None,
        })
}

/// The latest frame of each sensor whose aggregated file could be read, has a
/// line and ends in JSON, in the order of `contents`.
pub fn latest_frames(contents: &Vec<Option<Vec<char>>>) -> (r: Vec<Vec<char>>)
    ensures
        r@.map_values(|t: Vec<char>| t@) == flagged(
            last_lines(contents@),
            json_flags(last_lines(contents@)),
        ),
{
    let mut lines: Vec<Option<Vec<char>>> = Vec::new();
    let mut flags: Vec<bool> = Vec::new();
    let mut i: usize = 0;
    while i < contents.len()
        invariant
            i <= contents@.len(),
            lines@.len() == i,
            flags@.len() == i,
            optional_texts(lines@) == last_lines(contents@).subrange(0, i as int),
            flags@ == json_flags(last_lines(contents@)).subrange(0, i as int),
        decreases contents@.len() - i,
    {
        let line = match &contents[i] {
            Some(t) => last_line_of(t.as_slice()),
            None => None,
        };
        let flag = match &line {
            Some(l) => is_json(l.as_slice()),
            None => false,
        };
        lines.push(line);
        flags.push(flag);
        i = i + 1;
        assert(optional_texts(lines@) =~= last_lines(contents@).subrange(0, i as int));
        assert(flags@ =~= json_flags(last_lines(contents@)).subrange(0, i as int));
    }
    assert(last_lines(contents@).subrange(0, contents@.len() as int) =~= last_lines(contents@));
    assert(json_flags(last_lines(contents@)).subrange(0, contents@.len() as int) =~= json_flags(
        last_lines(contents@),
    ));
    keep_flagged(&lines, &flags)
}

} // verus!
