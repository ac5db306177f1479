//! The text form of a sensor reading: comma-separated fields, the sensor's
//! id first, then either one value or three vector components.
use vstd::prelude::*;

verus! {

/// The fields of `s` split at every comma, in order; a text without commas is
/// one field.
pub open spec fn fields(s: Seq<char>) -> Seq<Seq<char>>
    decreases s.len(),
{
    if s.len() == 0 {
        seq![Seq::<char>::empty()]
    } else {
        let before = fields(s.drop_last());
        if s.last() == ',' {
            before.push(Seq::<char>::empty())
        } else {
            before.update(before.len() - 1, before.last().push(s.last()))
        }
    }
}

/// The fields `fs` written one after another with a comma between each two.
pub open spec fn joined(fs: Seq<Seq<char>>) -> Seq<char>
    decreases fs.len(),
{
    if fs.len() == 0 {
        Seq::<char>::empty()
    } else if fs.len() == 1 {
        fs[0]
    } else {
        joined(fs.drop_last()) + seq![','] + fs.last()
    }
}

proof fn lemma_fields_nonempty(s: Seq<char>)
    ensures
        fields(s).len() >= 1,
    decreases s.len(),
{
    if s.len() > 0 {
        lemma_fields_nonempty(s.drop_last());
    }
}

/// Splitting and joining undo each other: the fields of `s`, joined with
/// commas, give back `s`, and no field holds a comma.
pub proof fn lemma_fields_join(s: Seq<char>)
    ensures
        joined(fields(s)) == s,
        forall|k: int| 0 <= k < fields(s).len() ==> !(#[trigger] fields(s)[k]).contains(','),
    decreases s.len(),
{
    lemma_fields_nonempty(s);
    if s.len() > 0 {
        let p = s.drop_last();
        lemma_fields_join(p);
        lemma_fields_nonempty(p);
        let before = fields(p);
        if s.last() == ',' {
            assert(before.push(Seq::<char>::empty()).drop_last() =~= before);
            assert(joined(fields(s)) =~= s);
        } else {
            let after = before.update(before.len() - 1, before.last().push(s.last()));
            assert(s =~= p.push(s.last()));
            if before.len() == 1 {
                assert(joined(after) =~= s);
            } else {
                assert(after.drop_last() =~= before.drop_last());
                assert(joined(before) == joined(before.drop_last()) + seq![','] + before.last());
                assert(joined(after) == joined(after.drop_last()) + seq![','] + after.last());
                assert(joined(after) =~= s);
            }
            assert forall|k: int| 0 <= k < after.len() implies !(#[trigger] after[k]).contains(
                ',',
            ) by {
                if k == after.len() - 1 {
                    assert(!before[k].contains(','));
                    if after[k].contains(',') {
                        let j = choose|j: int| 0 <= j < after[k].len() && after[k][j] == ',';
                        if j < before[k].len() {
                            assert(before[k][j] == ',');
                        }
                    }
                }
            }
        }
    }
}

/// The texts that `v` holds.
pub open spec fn texts(v: Seq<Vec<char>>) -> Seq<Seq<char>> {
    v.map_values(|f: Vec<char>| f@)
}

/// Splits `line` at every comma.
pub fn split_fields(line: &[char]) -> (r: Vec<Vec<char>>)
    ensures
        texts(r@) == fields(line@),
{
    let mut done: Vec<Vec<char>> = Vec::new();
    let mut cur: Vec<char> = Vec::new();
    let mut i: usize = 0;
    while i < line.len()
        invariant
            i <= line@.len(),
            texts(done@).push(cur@) == fields(line@.take(i as int)),
        decreases line@.len() - i,
    {
        let c = line[i];
        proof {
            assert(line@.take(i + 1).drop_last() =~= line@.take(i as int));
        }
        if c == ',' {
            let finished = cur;
            done.push(finished);
            cur = Vec::new();
            assert(texts(done@).push(cur@) =~= fields(line@.take(i + 1)));
        } else {
            cur.push(c);
            assert(texts(done@).push(cur@) =~= fields(line@.take(i + 1)));
        }
        i = i + 1;
    }
    done.push(cur);
    assert(line@.take(line@.len() as int) =~= line@);
    done
}


/// A reading line taken apart: the sensor's id and the texts of the value's
/// components (one for a scalar, three for a vector).
pub struct ReadingFields {
    pub sensor_id: Vec<char>,
    pub components: Vec<Vec<char>>,
}

/// The reading that `line` holds: with two fields, the sensor's id and one
/// value; with four or more, the id and a vector's three components (fields
/// past the fourth are ignored); any other line holds none.
pub open spec fn reading_of(line: Seq<char>) -> Option<(Seq<char>, Seq<Seq<char>>)> {
    let fs = fields(line);
    if fs.len() == 2 {
        Some((fs[0], fs.subrange(1, 2)))
    } else if fs.len() >= 4 {
        Some((fs[0], fs.subrange(1, 4)))
    } else {
        None
    }
}

/// Takes a reading line apart into the sensor's id and the value's
/// components; `None` when it holds no reading.
pub fn parse_reading_line(line: &[char]) -> (r: Option<ReadingFields>)
    ensures
        match r {
            Some(rf) => reading_of(line@) == Some((rf.sensor_id@, texts(rf.components@))),
            None => reading_of(line@) is None,
        },
{
    let mut fs = split_fields(line);
    let n = fs.len();
    if n == 2 || n >= 4 {
        if n >= 4 {
            fs.truncate(4);
        }
        let ghost kept = texts(fs@);
        let sensor_id = fs.remove(0);
        assert(texts(fs@) =~= kept.subrange(1, kept.len() as int));
        Some(ReadingFields { sensor_id, components: fs })
    } else {
        None
    }
}


/// The characters trimmed from both ends of a stored value: a closing
/// brace, a space and a double quote.
pub open spec fn is_value_padding(c: char) -> bool {
    c == '}' || c == ' ' || c == '"'
}

/// `s` without the padding at its start.
pub open spec fn trim_start_padding(s: Seq<char>) -> Seq<char>
    decreases s.len(),
{
    if s.len() > 0 && is_value_padding(s[0]) {
        trim_start_padding(s.drop_first())
    } else {
        s
    }
}

/// `s` without the padding at its end.
pub open spec fn trim_end_padding(s: Seq<char>) -> Seq<char>
    decreases s.len(),
{
    if s.len() > 0 && is_value_padding(s.last()) {
        trim_end_padding(s.drop_last())
    } else {
        s
    }
}

/// The value text of a stored line that is not a bare number: its last
/// field, without padding at either end.
pub open spec fn value_text(line: Seq<char>) -> Seq<char> {
    trim_end_padding(trim_start_padding(fields(line).last()))
}

/// The last field of `s` is what follows its last comma.
proof fn lemma_last_field(s: Seq<char>, j: int)
    requires
        0 <= j <= s.len(),
        j == 0 || s[j - 1] == ',',
        forall|k: int| j <= k < s.len() ==> s[k] != ',',
    ensures
        fields(s).last() == s.subrange(j, s.len() as int),
    decreases s.len(),
{
    lemma_fields_nonempty(s);
    if s.len() > 0 {
        let p = s.drop_last();
        lemma_fields_nonempty(p);
        if s.last() == ',' {
            assert(s.subrange(j, s.len() as int) =~= Seq::<char>::empty());
        } else {
            lemma_last_field(p, j);
            assert(s.subrange(j, s.len() as int) =~= p.subrange(j, p.len() as int).push(s.last()));
        }
    } else {
        assert(s.subrange(j, s.len() as int) =~= Seq::<char>::empty());
    }
}

/// Trimming the start of `s` is trimming the start of what follows a
/// run of padding at its start.
proof fn lemma_trim_start_skip(s: Seq<char>, a: int)
    requires
        0 <= a <= s.len(),
        forall|k: int| 0 <= k < a ==> is_value_padding(#[trigger] s[k]),
    ensures
        trim_start_padding(s) == trim_start_padding(s.subrange(a, s.len() as int)),
    decreases a,
{
    if a > 0 {
        let t = s.drop_first();
        lemma_trim_start_skip(t, a - 1);
        assert(t.subrange(a - 1, t.len() as int) =~= s.subrange(a, s.len() as int));
    } else {
        assert(s.subrange(0, s.len() as int) =~= s);
    }
}

/// Trimming the end of `s` is trimming the end of what precedes a run of
/// padding at its end.
proof fn lemma_trim_end_skip(s: Seq<char>, b: int)
    requires
        0 <= b <= s.len(),
        forall|k: int| b <= k < s.len() ==> is_value_padding(#[trigger] s[k]),
    ensures
        trim_end_padding(s) == trim_end_padding(s.subrange(0, b)),
    decreases s.len() - b,
{
    if b < s.len() {
        let t = s.drop_last();
        lemma_trim_end_skip(t, b);
        assert(t.subrange(0, b) =~= s.subrange(0, b));
    } else {
        assert(s.subrange(0, b) =~= s);
    }
}

/// The value text of a stored line: its last field, without padding at
/// either end.
pub fn last_value_text(line: &[char]) -> (r: Vec<char>)
    ensures
        r@ == value_text(line@),
{
    let len = line.len();
    // Where the last field starts.
    let mut start: usize = len;
    while start > 0 && line[start - 1] != ','
        invariant
            start <= len,
            len == line@.len(),
            forall|k: int| start <= k < len ==> line@[k] != ',',
        decreases start,
    {
        start = start - 1;
    }
    proof {
        lemma_last_field(line@, start as int);
    }
    let ghost last = line@.subrange(start as int, len as int);
    let mut a: usize = start;
    while a < len && (line[a] == '}' || line[a] == ' ' || line[a] == '"')
        invariant
            start <= a <= len,
            len == line@.len(),
            last == line@.subrange(start as int, len as int),
            forall|k: int| 0 <= k < a - start ==> is_value_padding(#[trigger] last[k]),
        decreases len - a,
    {
        a = a + 1;
    }
    proof {
        lemma_trim_start_skip(last, a - start);
        assert(last.subrange(a - start, last.len() as int) =~= line@.subrange(a as int, len as int));
    }
    let ghost mid = line@.subrange(a as int, len as int);
    let mut b: usize = len;
    while b > a && (line[b - 1] == '}' || line[b - 1] == ' ' || line[b - 1] == '"')
        invariant
            a <= b <= len,
            len == line@.len(),
            mid == line@.subrange(a as int, len as int),
            forall|k: int| b - a <= k < mid.len() ==> is_value_padding(#[trigger] mid[k]),
        decreases b,
    {
        b = b - 1;
    }
    proof {
        lemma_trim_end_skip(mid, b - a);
        assert(mid.subrange(0, b - a) =~= line@.subrange(a as int, b as int));
    }
    let mut r: Vec<char> = Vec::new();
    let mut i: usize = a;
    while i < b
        invariant
            a <= i <= b,
            b <= len,
            len == line@.len(),
            r@ == line@.subrange(a as int, i as int),
        decreases b - i,
    {
        r.push(line[i]);
        i = i + 1;
        assert(r@ =~= line@.subrange(a as int, i as int));
    }
    let ghost rest = line@.subrange(a as int, b as int);
    assert(b > a ==> !is_value_padding(rest.last()));
    assert(a < len ==> !is_value_padding(mid[0]));
    assert(trim_start_padding(mid) == mid);
    assert(trim_end_padding(rest) == rest);
    r
}


/// A text without commas is a single field.
pub proof fn lemma_fields_no_comma(s: Seq<char>)
    requires
        !s.contains(','),
    ensures
        fields(s) == seq![s],
    decreases s.len(),
{
    if s.len() > 0 {
        let p = s.drop_last();
        assert(!p.contains(',')) by {
            if p.contains(',') {
                let i = choose|i: int| 0 <= i < p.len() && p[i] == ',';
                assert(s[i] == ',');
            }
        }
        lemma_fields_no_comma(p);
        assert(s[s.len() - 1] == s.last());
        assert(p.push(s.last()) =~= s);
        assert(seq![p].update(0, p.push(s.last())) =~= seq![s]);
    } else {
        assert(s =~= Seq::<char>::empty());
    }
}

/// A comma splits a text into the fields before it followed by the fields
/// after it.
pub proof fn lemma_fields_concat(a: Seq<char>, b: Seq<char>)
    ensures
        fields(a + seq![','] + b) == fields(a) + fields(b),
    decreases b.len(),
{
    let s = a + seq![','] + b;
    if b.len() == 0 {
        assert(s.drop_last() =~= a);
        assert(fields(a).push(Seq::<char>::empty()) =~= fields(a) + fields(b));
    } else {
        let b2 = b.drop_last();
        assert(s.drop_last() =~= a + seq![','] + b2);
        lemma_fields_concat(a, b2);
        lemma_fields_nonempty(b2);
        let x = fields(a) + fields(b2);
        if b.last() == ',' {
            assert(x.push(Seq::<char>::empty()) =~= fields(a) + fields(b2).push(Seq::<char>::empty()));
        } else {
            let f = fields(b2);
            assert(x.update(x.len() - 1, x.last().push(b.last())) =~= fields(a) + f.update(
                f.len() - 1,
                f.last().push(b.last()),
            ));
        }
    }
}

/// A line with two fields, an id and a value, is a scalar reading of that
/// id and value.
pub proof fn lemma_scalar_reading(id: Seq<char>, v: Seq<char>)
    requires
        !id.contains(','),
        !v.contains(','),
    ensures
        reading_of(id + seq![','] + v) == Some((id, seq![v])),
{
    lemma_fields_concat(id, v);
    lemma_fields_no_comma(id);
    lemma_fields_no_comma(v);
    assert(fields(id + seq![','] + v) =~= seq![id, v]);
    assert(seq![id, v].subrange(1, 2) =~= seq![v]);
}

/// A line with exactly four fields is a vector reading: the id and its
/// three components.
pub proof fn lemma_vector_reading(id: Seq<char>, x: Seq<char>, y: Seq<char>, z: Seq<char>)
    requires
        !id.contains(','),
        !x.contains(','),
        !y.contains(','),
        !z.contains(','),
    ensures
        reading_of(id + seq![','] + x + seq![','] + y + seq![','] + z) == Some((id, seq![x, y, z])),
{
    lemma_fields_no_comma(id);
    lemma_fields_no_comma(x);
    lemma_fields_no_comma(y);
    lemma_fields_no_comma(z);
    lemma_fields_concat(id, x);
    lemma_fields_concat(id + seq![','] + x, y);
    lemma_fields_concat(id + seq![','] + x + seq![','] + y, z);
    let fs = fields(id + seq![','] + x + seq![','] + y + seq![','] + z);
    assert(fs =~= seq![id, x, y, z]);
    assert(fs.subrange(1, 4) =~= seq![x, y, z]);
}

/// Fields after the fourth do not change a vector reading.
pub proof fn lemma_vector_reading_ignores_extra_fields(
    id: Seq<char>,
    x: Seq<char>,
    y: Seq<char>,
    z: Seq<char>,
    rest: Seq<char>,
)
    requires
        !id.contains(','),
        !x.contains(','),
        !y.contains(','),
        !z.contains(','),
    ensures
        reading_of(id + seq![','] + x + seq![','] + y + seq![','] + z + seq![','] + rest) == Some(
            (id, seq![x, y, z]),
        ),
{
    lemma_fields_no_comma(id);
    lemma_fields_no_comma(x);
    lemma_fields_no_comma(y);
    lemma_fields_no_comma(z);
    lemma_fields_nonempty(rest);
    lemma_fields_concat(id, x);
    lemma_fields_concat(id + seq![','] + x, y);
    lemma_fields_concat(id + seq![','] + x + seq![','] + y, z);
    lemma_fields_concat(id + seq![','] + x + seq![','] + y + seq![','] + z, rest);
    let fs = fields(id + seq![','] + x + seq![','] + y + seq![','] + z + seq![','] + rest);
    assert(fs =~= seq![id, x, y, z] + fields(rest));
    assert(fs.subrange(1, 4) =~= seq![x, y, z]);
}

/// A line of one field, or of three, holds no reading.
pub proof fn lemma_no_reading(a: Seq<char>, b: Seq<char>, c: Seq<char>)
    requires
        !a.contains(','),
        !b.contains(','),
        !c.contains(','),
    ensures
        reading_of(a) is None,
        reading_of(a + seq![','] + b + seq![','] + c) is None,
{
    lemma_fields_no_comma(a);
    lemma_fields_no_comma(b);
    lemma_fields_no_comma(c);
    lemma_fields_concat(a, b);
    lemma_fields_concat(a + seq![','] + b, c);
    assert(fields(a + seq![','] + b + seq![','] + c) =~= seq![a, b, c]);
}

/// Trimming the start keeps a text free of a character it lacks.
proof fn lemma_trim_start_lacks(s: Seq<char>, c: char)
    requires
        !s.contains(c),
    ensures
        !trim_start_padding(s).contains(c),
    decreases s.len(),
{
    if s.len() > 0 && is_value_padding(s[0]) {
        let t = s.drop_first();
        assert(!t.contains(c)) by {
            if t.contains(c) {
                let i = choose|i: int| 0 <= i < t.len() && t[i] == c;
                assert(s[i + 1] == c);
            }
        }
        lemma_trim_start_lacks(t, c);
    }
}

/// Trimming the end keeps a text free of a character it lacks.
proof fn lemma_trim_end_lacks(s: Seq<char>, c: char)
    requires
        !s.contains(c),
    ensures
        !trim_end_padding(s).contains(c),
    decreases s.len(),
{
    if s.len() > 0 && is_value_padding(s.last()) {
        let t = s.drop_last();
        assert(!t.contains(c)) by {
            if t.contains(c) {
                let i = choose|i: int| 0 <= i < t.len() && t[i] == c;
                assert(s[i] == c);
            }
        }
        lemma_trim_end_lacks(t, c);
    }
}

/// A value text never holds a comma.
pub proof fn lemma_value_text_has_no_comma(line: Seq<char>)
    ensures
        !value_text(line).contains(','),
{
    lemma_fields_join(line);
    lemma_fields_nonempty(line);
    let last = fields(line).last();
    assert(!fields(line)[fields(line).len() - 1].contains(','));
    lemma_trim_start_lacks(last, ',');
    lemma_trim_end_lacks(trim_start_padding(last), ',');
}

/// What comes before a comma never changes a line's value text.
pub proof fn lemma_value_text_after_comma(a: Seq<char>, b: Seq<char>)
    ensures
        value_text(a + seq![','] + b) == value_text(b),
{
    lemma_fields_concat(a, b);
    lemma_fields_nonempty(b);
    assert((fields(a) + fields(b)).last() == fields(b).last());
}

/// The value text of a field `x` (without a comma, and neither starting nor
/// ending with padding) with padding `p` before it and `q` after it is `x`.
pub proof fn lemma_value_text_of_padded(p: Seq<char>, x: Seq<char>, q: Seq<char>)
    requires
        !x.contains(','),
        x.len() > 0,
        !is_value_padding(x[0]),
        !is_value_padding(x.last()),
        forall|k: int| 0 <= k < p.len() ==> is_value_padding(#[trigger] p[k]),
        forall|k: int| 0 <= k < q.len() ==> is_value_padding(#[trigger] q[k]),
    ensures
        value_text(p + x + q) == x,
{
    let s = p + x + q;
    assert(!s.contains(',')) by {
        if s.contains(',') {
            let i = choose|i: int| 0 <= i < s.len() && s[i] == ',';
            if i < p.len() {
                assert(is_value_padding(p[i]));
            } else if i < p.len() + x.len() {
                assert(x[i - p.len()] == ',');
            } else {
                assert(is_value_padding(q[i - p.len() - x.len()]));
            }
        }
    }
    lemma_fields_no_comma(s);
    assert(fields(s).last() == s);
    assert forall|k: int| 0 <= k < p.len() implies is_value_padding(#[trigger] s[k]) by {
        assert(s[k] == p[k]);
    }
    lemma_trim_start_skip(s, p.len() as int);
    let xq = x + q;
    assert(s.subrange(p.len() as int, s.len() as int) =~= xq);
    assert(xq[0] == x[0]);
    assert(trim_start_padding(xq) == xq);
    assert forall|k: int| x.len() <= k < xq.len() implies is_value_padding(#[trigger] xq[k]) by {
        assert(xq[k] == q[k - x.len()]);
    }
    lemma_trim_end_skip(xq, x.len() as int);
    assert(xq.subrange(0, x.len() as int) =~= x);
    assert(x[x.len() - 1] == x.last());
}

/// A text of padding only has an empty value text.
pub proof fn lemma_value_text_of_padding(q: Seq<char>)
    requires
        forall|k: int| 0 <= k < q.len() ==> is_value_padding(#[trigger] q[k]),
    ensures
        value_text(q) == Seq::<char>::empty(),
{
    assert(!q.contains(',')) by {
        if q.contains(',') {
            let i = choose|i: int| 0 <= i < q.len() && q[i] == ',';
            assert(is_value_padding(q[i]));
        }
    }
    lemma_fields_no_comma(q);
    assert(fields(q).last() == q);
    lemma_trim_start_skip(q, q.len() as int);
    assert(q.subrange(q.len() as int, q.len() as int) =~= Seq::<char>::empty());
}

} // verus!
