//! Contexts as single strings: the tokens of a context joined by a delimiter,
//! and split again at every place where the delimiter stands.

use crate::text::chars_of;
use vstd::prelude::*;

verus! {

/// The delimiter between the tokens of an encoded context.
pub const SPLIT_TOKEN: &'static str = "<[SP]>";

/// The parts of `parts` in one string, with `d` between each two.
pub open spec fn join(parts: Seq<Seq<char>>, d: Seq<char>) -> Seq<char>
    decreases parts.len(),
{
    if parts.len() == 0 {
        Seq::empty()
    } else if parts.len() == 1 {
        parts[0]
    } else {
        parts[0] + d + join(parts.drop_first(), d)
    }
}

/// `d` stands in `s` at place `p`.
pub open spec fn occurs_at(s: Seq<char>, d: Seq<char>, p: int) -> bool {
    &&& 0 <= p
    &&& p + d.len() <= s.len()
    &&& s.subrange(p, p + d.len()) == d
}

/// `p` is the first place of `s` at which `d` stands.
pub open spec fn first_occurrence(s: Seq<char>, d: Seq<char>, p: int) -> bool {
    &&& occurs_at(s, d, p)
    &&& forall|q: int| 0 <= q < p ==> !occurs_at(s, d, q)
}

/// Whether `d` stands anywhere in `s`.
pub open spec fn contains(s: Seq<char>, d: Seq<char>) -> bool {
    exists|p: int| occurs_at(s, d, p)
}

/// The parts of `s` between the places where `d` stands, read from the left:
/// what is in front of the first such place, then the parts of what is behind
/// it. A string in which `d` stands nowhere is one part.
pub open spec fn split(s: Seq<char>, d: Seq<char>) -> Seq<Seq<char>>
    decreases s.len(),
{
    if d.len() > 0 && exists|p: int| first_occurrence(s, d, p) {
        let p = choose|p: int| first_occurrence(s, d, p);
        seq![s.take(p)] + split(s.skip(p + d.len()), d)
    } else {
        seq![s]
    }
}

/// The first character of `d` stands nowhere else in `d`.
pub open spec fn starts_apart(d: Seq<char>) -> bool {
    &&& d.len() > 0
    &&& forall|k: int| 1 <= k < d.len() ==> #[trigger] d[k] != d[0]
}

/// The delimiter is six different characters.
pub proof fn lemma_split_token()
    ensures
        SPLIT_TOKEN@ == seq!['<', '[', 'S', 'P', ']', '>'],
        starts_apart(SPLIT_TOKEN@),
{
    reveal_strlit("<[SP]>");
    assert(SPLIT_TOKEN@ =~= seq!['<', '[', 'S', 'P', ']', '>']);
}

/// The first place at which `d` stands is the place that `split` cuts at.
pub proof fn lemma_first_occurrence(s: Seq<char>, d: Seq<char>, p: int)
    requires
        d.len() > 0,
        first_occurrence(s, d, p),
    ensures
        split(s, d) == seq![s.take(p)] + split(s.skip(p + d.len()), d),
{
    let q = choose|q: int| first_occurrence(s, d, q);
    assert(first_occurrence(s, d, q));
    if q < p {
        assert(!occurs_at(s, d, q));
    }
    if p < q {
        assert(!occurs_at(s, d, p));
    }
}

/// A string in which `d` stands nowhere is not split.
pub proof fn lemma_no_occurrence(s: Seq<char>, d: Seq<char>)
    requires
        forall|p: int| !occurs_at(s, d, p),
    ensures
        split(s, d) == seq![s],
{
    if exists|p: int| first_occurrence(s, d, p) {
        let p = choose|p: int| first_occurrence(s, d, p);
        assert(occurs_at(s, d, p));
    }
}

/// Splitting gives at least one part.
pub proof fn lemma_split_has_parts(s: Seq<char>, d: Seq<char>)
    ensures
        split(s, d).len() >= 1,
{
}

/// Joining one more part puts the delimiter and the part at the end.
pub proof fn lemma_join_push(parts: Seq<Seq<char>>, d: Seq<char>, part: Seq<char>)
    requires
        parts.len() > 0,
    ensures
        join(parts.push(part), d) == join(parts, d) + d + part,
    decreases parts.len(),
{
    let all = parts.push(part);
    assert(all[0] == parts[0]);
    if parts.len() == 1 {
        assert(all.drop_first() == seq![part]);
        assert(join(seq![part], d) == part);
    } else {
        assert(all.drop_first() == parts.drop_first().push(part));
        lemma_join_push(parts.drop_first(), d, part);
        assert(parts[0] + d + (join(parts.drop_first(), d) + d + part) == (parts[0] + d + join(
            parts.drop_first(),
            d,
        )) + d + part);
    }
}

/// Splitting what was joined gives the parts back, where there is at least
/// one part, the delimiter stands in none of them, and the first character of
/// the delimiter stands nowhere else in it.
pub proof fn lemma_split_join(parts: Seq<Seq<char>>, d: Seq<char>)
    requires
        parts.len() > 0,
        starts_apart(d),
        forall|i: int| 0 <= i < parts.len() ==> !contains(#[trigger] parts[i], d),
    ensures
        split(join(parts, d), d) == parts,
    decreases parts.len(),
{
    let s = join(parts, d);
    let a = parts[0];
    assert(!contains(a, d));
    if parts.len() == 1 {
        assert forall|p: int| !occurs_at(s, d, p) by {
            if occurs_at(s, d, p) {
                assert(contains(a, d));
            }
        }
        lemma_no_occurrence(s, d);
        assert(parts == seq![s]);
    } else {
        let rest = parts.drop_first();
        let tail = join(rest, d);
        let n = a.len() as int;
        assert(s == a + d + tail);
        assert(s.subrange(n, n + d.len()) == d);
        assert forall|q: int| 0 <= q < n implies !occurs_at(s, d, q) by {
            if occurs_at(s, d, q) {
                if q + d.len() <= n {
                    assert(a.subrange(q, q + d.len()) == s.subrange(q, q + d.len()));
                    assert(occurs_at(a, d, q));
                } else {
                    let k = n - q;
                    assert(s.subrange(q, q + d.len())[k] == s[n]);
                    assert(s[n] == d[0]);
                    assert(d[k] != d[0]);
                }
            }
        }
        assert(first_occurrence(s, d, n));
        lemma_first_occurrence(s, d, n);
        assert(s.take(n) == a);
        assert(s.skip(n + d.len()) == tail);
        assert forall|i: int| 0 <= i < rest.len() implies !contains(#[trigger] rest[i], d) by {
            assert(rest[i] == parts[i + 1]);
        }
        lemma_split_join(rest, d);
        assert(seq![a] + rest == parts);
    }
}

/// Whether `d` stands in `s` at place `p`.
fn stands_at(s: &Vec<char>, d: &Vec<char>, p: usize) -> (r: bool)
    requires
        p + d.len() <= s.len(),
    ensures
        r == occurs_at(s@, d@, p as int),
{
    let mut k: usize = 0;
    while k < d.len()
        invariant
            k <= d.len(),
            p + d.len() <= s.len(),
            forall|m: int| 0 <= m < k ==> s@[p + m] == d@[m],
        decreases d.len() - k,
    {
        if s[p + k] != d[k] {
            return false;
        }
        k += 1;
    }
    assert(s@.subrange(p as int, p + d.len()) =~= d@);
    true
}

/// Joins the tokens of `context` with the delimiter between each two.
pub fn encode_context(context: &Vec<String>) -> (r: String)
    ensures
        r@ == join(context.deep_view(), SPLIT_TOKEN@),
{
    let ghost parts = context.deep_view();
    let mut out = String::new();
    if context.len() == 0 {
        return out;
    }
    out.append(context[0].as_str());
    let mut i: usize = 1;
    while i < context.len()
        invariant
            1 <= i <= context.len(),
            parts == context.deep_view(),
            out@ == join(parts.take(i as int), SPLIT_TOKEN@),
        decreases context.len() - i,
    {
        proof {
            lemma_join_push(parts.take(i as int), SPLIT_TOKEN@, parts[i as int]);
            assert(parts.take(i as int).push(parts[i as int]) == parts.take(i + 1));
        }
        out.append(SPLIT_TOKEN);
        out.append(context[i].as_str());
        i += 1;
    }
    assert(parts.take(i as int) == parts);
    out
}

/// Splits `key` at every place where the delimiter stands: the tokens of the
/// context that `key` encodes. A key without the delimiter is one token, the
/// empty key too.
pub fn decode_context(key: &str) -> (r: Vec<String>)
    ensures
        r.deep_view() == split(key@, SPLIT_TOKEN@),
{
    let s = chars_of(key);
    let d = chars_of(SPLIT_TOKEN);
    proof {
        lemma_split_token();
    }
    let mut out: Vec<String> = Vec::new();
    let mut start: usize = 0;
    let mut i: usize = 0;
    assert(s@.skip(0) == s@);
    while d.len() <= s.len() && i <= s.len() - d.len()
        invariant
            s@ == key@,
            d@ == SPLIT_TOKEN@,
            d.len() == 6,
            start <= i <= s.len(),
            split(s@, d@) == out.deep_view() + split(s@.skip(start as int), d@),
            forall|q: int| start <= q < i ==> !occurs_at(s@, d@, q),
        decreases s.len() - i,
    {
        if stands_at(&s, &d, i) {
            proof {
                let rest = s@.skip(start as int);
                let p = i - start;
                assert(rest.subrange(p, p + d.len()) == s@.subrange(i as int, i + d.len()));
                assert forall|q: int| 0 <= q < p implies !occurs_at(rest, d@, q) by {
                    assert(rest.subrange(q, q + d.len()) == s@.subrange(
                        start + q,
                        start + q + d.len(),
                    ));
                    assert(!occurs_at(s@, d@, start + q));
                }
                lemma_first_occurrence(rest, d@, p);
                assert(rest.take(p) == s@.subrange(start as int, i as int));
                assert(rest.skip(p + d.len()) == s@.skip(i + d.len()));
            }
            let part = key.substring_char(start, i).to_owned();
            let ghost earlier = out.deep_view();
            out.push(part);
            assert(earlier.push(s@.subrange(start as int, i as int)) + split(
                s@.skip(i + d.len()),
                d@,
            ) == earlier + (seq![s@.subrange(start as int, i as int)] + split(
                s@.skip(i + d.len()),
                d@,
            )));
            i += d.len();
            start = i;
        } else {
            i += 1;
        }
    }
    proof {
        let rest = s@.skip(start as int);
        assert forall|p: int| !occurs_at(rest, d@, p) by {
            if occurs_at(rest, d@, p) {
                assert(rest.subrange(p, p + d.len()) == s@.subrange(
                    start + p,
                    start + p + d.len(),
                ));
                assert(occurs_at(s@, d@, start + p));
            }
        }
        lemma_no_occurrence(rest, d@);
    }
    let part = key.substring_char(start, s.len()).to_owned();
    let ghost earlier = out.deep_view();
    out.push(part);
    assert(earlier.push(s@.subrange(start as int, s@.len() as int)) == earlier + seq![
        s@.subrange(start as int, s@.len() as int),
    ]);
    out
}

} // verus!
