//! Sensor ids: the registered sensors, and the "aggregated_" prefix that
//! names the file of a sensor's aggregated frames.
use vstd::prelude::*;

verus! {

/// The ids of the registered sensors.
pub fn registered_sensors() -> (r: Vec<&'static str>)
    ensures
        r@.len() == 3,
        r@[0]@ == "thermo-1"@,
        r@[1]@ == "accel-1"@,
        r@[2]@ == "force-1"@,
{
    let mut r: Vec<&'static str> = Vec::new();
    r.push("thermo-1");
    r.push("accel-1");
    r.push("force-1");
    r
}

/// The prefix of an aggregated sensor id.
pub open spec fn aggregated_prefix() -> Seq<char> {
    seq!['a', 'g', 'g', 'r', 'e', 'g', 'a', 't', 'e', 'd', '_']
}

/// The prefix of an aggregated sensor id.
fn prefix_chars() -> (r: Vec<char>)
    ensures
        r@ == aggregated_prefix(),
{
    let mut r: Vec<char> = Vec::new();
    r.push('a');
    r.push('g');
    r.push('g');
    r.push('r');
    r.push('e');
    r.push('g');
    r.push('a');
    r.push('t');
    r.push('e');
    r.push('d');
    r.push('_');
    assert(r@ =~= aggregated_prefix());
    r
}

/// Whether `pat` occurs in `text` at position `i`.
fn occurs_at(text: &[char], i: usize, pat: &Vec<char>) -> (r: bool)
    requires
        i <= text@.len(),
    ensures
        r == (i + pat@.len() <= text@.len() && text@.subrange(i as int, i + pat@.len()) == pat@),
{
    if pat.len() > text.len() - i {
        return false;
    }
    let len = text.len();
    let mut k: usize = 0;
    while k < pat.len()
        invariant
            len == text@.len(),
            k <= pat@.len(),
            i + pat@.len() <= text@.len(),
            forall|m: int| 0 <= m < k ==> text@[i + m] == pat@[m],
        decreases pat@.len() - k,
    {
        if text[i + k] != pat[k] {
            assert(text@.subrange(i as int, i + pat@.len())[k as int] != pat@[k as int]);
            return false;
        }
        k = k + 1;
    }
    assert(text@.subrange(i as int, i + pat@.len()) =~= pat@);
    true
}

/// The id of sensor `id`'s aggregated frames.
pub fn aggregated_id(id: &[char]) -> (r: Vec<char>)
    ensures
        r@ == aggregated_prefix() + id@,
{
    let mut r = prefix_chars();
    let mut i: usize = 0;
    while i < id.len()
        invariant
            i <= id@.len(),
            r@ == aggregated_prefix() + id@.subrange(0, i as int),
        decreases id@.len() - i,
    {
        r.push(id[i]);
        i = i + 1;
        assert(r@ =~= aggregated_prefix() + id@.subrange(0, i as int));
    }
    assert(id@.subrange(0, id@.len() as int) =~= id@);
    r
}

/// Whether `id` names aggregated frames: it starts with the prefix.
pub fn is_aggregated_id(id: &[char]) -> (r: bool)
    ensures
        r == aggregated_prefix().is_prefix_of(id@),
{
    let p = prefix_chars();
    let r = occurs_at(id, 0, &p);
    proof {
        if aggregated_prefix().is_prefix_of(id@) {
            assert(id@.subrange(0, aggregated_prefix().len() as int) =~= aggregated_prefix());
        }
    }
    r
}

/// `s` with every occurrence of the prefix taken out, scanning from the
/// start as `str::replace` with an empty replacement does.
pub open spec fn without_prefix_text(s: Seq<char>) -> Seq<char>
    decreases s.len(),
{
    let p = aggregated_prefix();
    if s.len() == 0 {
        s
    } else if p.len() <= s.len() && s.subrange(0, p.len() as int) == p {
        without_prefix_text(s.subrange(p.len() as int, s.len() as int))
    } else {
        seq![s[0]] + without_prefix_text(s.subrange(1, s.len() as int))
    }
}

/// `id` with every occurrence of "aggregated_" taken out.
pub fn plain_sensor_id(id: &[char]) -> (r: Vec<char>)
    ensures
        r@ == without_prefix_text(id@),
{
    let p = prefix_chars();
    let plen = p.len();
    let len = id.len();
    let mut r: Vec<char> = Vec::new();
    let mut i: usize = 0;
    assert(id@.subrange(0, len as int) =~= id@);
    assert(r@ + without_prefix_text(id@) =~= without_prefix_text(id@));
    while i < len
        invariant
            i <= len,
            len == id@.len(),
            p@ == aggregated_prefix(),
            plen == p@.len(),
            r@ + without_prefix_text(id@.subrange(i as int, len as int)) == without_prefix_text(
                id@,
            ),
        decreases len - i,
    {
        let ghost rest = id@.subrange(i as int, len as int);
        if occurs_at(id, i, &p) {
            assert(rest.subrange(0, plen as int) =~= id@.subrange(i as int, i + plen));
            assert(rest.subrange(plen as int, rest.len() as int) =~= id@.subrange(
                i + plen,
                len as int,
            ));
            i = i + plen;
        } else {
            assert(!(plen <= rest.len() && rest.subrange(0, plen as int) == p@)) by {
                if plen <= rest.len() {
                    assert(rest.subrange(0, plen as int) =~= id@.subrange(i as int, i + plen));
                }
            }
            assert(rest.subrange(1, rest.len() as int) =~= id@.subrange(i + 1, len as int));
            let ghost prev = r@;
            r.push(id[i]);
            assert(r@ =~= prev + seq![rest[0]]);
            assert(r@ + without_prefix_text(id@.subrange(i + 1, len as int)) =~= prev + (seq![
                rest[0],
            ] + without_prefix_text(rest.subrange(1, rest.len() as int))));
            i = i + 1;
        }
    }
    assert(without_prefix_text(id@.subrange(len as int, len as int)) =~= Seq::<char>::empty());
    assert(r@ + Seq::<char>::empty() =~= r@);
    r
}

/// Taking the prefix out of a text that starts with it is taking it out of
/// the rest.
pub proof fn lemma_without_prefix_skips_it(s: Seq<char>)
    ensures
        without_prefix_text(aggregated_prefix() + s) == without_prefix_text(s),
{
    let t = aggregated_prefix() + s;
    let n = aggregated_prefix().len() as int;
    assert(t.subrange(0, n) =~= aggregated_prefix());
    assert(t.subrange(n, t.len() as int) =~= s);
}

/// A text without the letter 'a' holds no occurrence of the prefix, and is
/// kept as it is in front of whatever follows.
pub proof fn lemma_without_prefix_keeps_other_text(a: Seq<char>, b: Seq<char>)
    requires
        !a.contains('a'),
    ensures
        without_prefix_text(a + b) == a + without_prefix_text(b),
    decreases a.len(),
{
    if a.len() == 0 {
        assert(a + b =~= b);
    } else {
        let t = a + b;
        let n = aggregated_prefix().len() as int;
        assert(t[0] == a[0]);
        assert(a[0] != 'a');
        if n <= t.len() {
            assert(t.subrange(0, n)[0] != aggregated_prefix()[0]);
        }
        let rest = a.subrange(1, a.len() as int);
        assert(!rest.contains('a')) by {
            if rest.contains('a') {
                let i = choose|i: int| 0 <= i < rest.len() && rest[i] == 'a';
                assert(a[i + 1] == 'a');
            }
        }
        lemma_without_prefix_keeps_other_text(rest, b);
        assert(t.subrange(1, t.len() as int) =~= rest + b);
        assert(seq![t[0]] + (rest + without_prefix_text(b)) =~= a + without_prefix_text(b));
    }
}

/// An aggregated id is recognised as one, and taking its prefixes out of it
/// gives back the plain id when that holds no 'a'.
pub proof fn lemma_aggregated_id_round_trip(id: Seq<char>)
    requires
        !id.contains('a'),
    ensures
        aggregated_prefix().is_prefix_of(aggregated_prefix() + id),
        without_prefix_text(aggregated_prefix() + id) == id,
{
    assert((aggregated_prefix() + id).subrange(0, aggregated_prefix().len() as int)
        =~= aggregated_prefix());
    lemma_without_prefix_skips_it(id);
    lemma_without_prefix_keeps_other_text(id, Seq::<char>::empty());
    assert(without_prefix_text(Seq::<char>::empty()) =~= Seq::<char>::empty());
    assert(id + Seq::<char>::empty() =~= id);
}

} // verus!
