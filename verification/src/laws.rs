//! Laws of the merge store: what holds of every run, proved once and for
//! all over the models the contracts use.

use vstd::prelude::*;
use crate::record::{Rec, spec_record_line};
use crate::parse::{spec_parse, spec_parse_field3};
use crate::store::{spec_merge_line, spec_merge_lines};
use crate::text::{find_from, find_ws, skip_ws, is_ws_char, lemma_find_from_is,
    lemma_find_from_props, lemma_find_ws_is, lemma_find_ws_props, lemma_skip_ws_is,
    lemma_skip_ws_props};

verus! {

/// No character of `s` is whitespace.
pub open spec fn no_ws(s: Seq<char>) -> bool {
    forall|i: int| 0 <= i < s.len() ==> !is_ws_char(s[i])
}

/// A record whose line form parses back: the key holds exactly one tab and
/// does not open a comment, the three tokens are nonempty and free of
/// whitespace, and the first token holds exactly one `=`.
///
/// Records built by the parser have all of this except that `t` may be
/// empty, when the main file carried no tick line.
pub open spec fn emittable(r: Rec) -> bool {
    &&& r.key.len() > 0
    &&& r.key[0] != '#'
    &&& find_from(r.key, 0, '\t') < r.key.len()
    &&& find_from(r.key, find_from(r.key, 0, '\t') + 1, '\t') == r.key.len()
    &&& r.c.len() > 0
    &&& no_ws(r.c)
    &&& r.d.len() > 0
    &&& no_ws(r.d)
    &&& r.t.len() > 0
    &&& no_ws(r.t)
    &&& find_from(r.c, 0, '=') < r.c.len()
    &&& find_from(r.c, find_from(r.c, 0, '=') + 1, '=') == r.c.len()
}

/// Every record the parser yields is emittable: its tokens come from
/// whitespace splitting and its key from a three-way tab split.  (A record
/// first inserted under an empty tick tag is the one way a stored record
/// can fail `emittable`: its `t` is then empty.)
pub proof fn lemma_parsed_emittable(line: Seq<char>)
    requires
        spec_parse(line) is Some,
    ensures
        emittable(spec_parse(line)->Some_0),
{
    let r = spec_parse(line)->Some_0;
    let n = line.len() as int;
    let i1 = find_from(line, 0, '\t');
    let i2 = find_from(line, i1 + 1, '\t');
    lemma_find_from_props(line, 0, '\t');
    lemma_find_from_props(line, i1 + 1, '\t');
    // the key: the prefix up to the second tab, with one tab inside
    assert(r.key =~= line.subrange(0, i2));
    assert(forall|j: int| 0 <= j < i2 ==> r.key[j] == line[j]);
    lemma_find_from_is(r.key, 0, '\t', i1);
    lemma_find_from_is(r.key, i1 + 1, '\t', i2);
    assert(r.key[0] != '#');
    // the three tokens: delimited by whitespace scans
    let t0s = skip_ws(line, i2 + 1);
    let t0e = find_ws(line, t0s);
    let t1s = skip_ws(line, t0e);
    let t1e = find_ws(line, t1s);
    let t2s = skip_ws(line, t1e);
    let t2e = find_ws(line, t2s);
    lemma_skip_ws_props(line, i2 + 1);
    lemma_find_ws_props(line, t0s);
    lemma_skip_ws_props(line, t0e);
    lemma_find_ws_props(line, t1s);
    lemma_skip_ws_props(line, t1e);
    lemma_find_ws_props(line, t2s);
    assert(r.c =~= line.subrange(t0s, t0e));
    assert(r.d =~= line.subrange(t1s, t1e));
    assert(r.t =~= line.subrange(t2s, t2e));
    assert(no_ws(r.c)) by {
        assert(forall|j: int| 0 <= j < r.c.len() ==> r.c[j] == line[t0s + j]);
    }
    assert(no_ws(r.d)) by {
        assert(forall|j: int| 0 <= j < r.d.len() ==> r.d[j] == line[t1s + j]);
    }
    assert(no_ws(r.t)) by {
        assert(forall|j: int| 0 <= j < r.t.len() ==> r.t[j] == line[t2s + j]);
    }
    assert(r.c.len() > 0 && r.d.len() > 0 && r.t.len() > 0);
    // the first token's single `=`
    let e1 = find_from(r.c, 0, '=');
    lemma_find_from_props(r.c, 0, '=');
    lemma_find_from_props(r.c, e1 + 1, '=');
    assert(find_from(r.c, e1 + 1, '=') == r.c.len());
}

/// Round trip: parsing the line form of an emittable record gives back a
/// record with the same key and the same three tokens.
pub proof fn lemma_round_trip(r: Rec)
    requires
        emittable(r),
    ensures
        spec_parse(spec_record_line(r)) matches Some(p) && p.key == r.key && p.c == r.c && p.d
            == r.d && p.t == r.t,
{
    let line = spec_record_line(r);
    let kl = r.key.len() as int;
    let cl = r.c.len() as int;
    let dl = r.d.len() as int;
    let tl = r.t.len() as int;
    let n = line.len() as int;
    assert(n == kl + 1 + cl + 1 + dl + 1 + tl);
    assert(forall|j: int| 0 <= j < kl ==> line[j] == r.key[j]);
    assert(line[kl] == '\t');
    assert(forall|j: int| kl + 1 <= j < kl + 1 + cl ==> line[j] == r.c[j - (kl + 1)]);
    assert(line[kl + 1 + cl] == ' ');
    assert(forall|j: int|
        kl + 2 + cl <= j < kl + 2 + cl + dl ==> line[j] == r.d[j - (kl + 2 + cl)]);
    assert(line[kl + 2 + cl + dl] == ' ');
    assert(forall|j: int| kl + 3 + cl + dl <= j < n ==> line[j] == r.t[j - (kl + 3 + cl + dl)]);
    // tab whitespace facts
    assert(is_ws_char('\t'));
    assert(is_ws_char(' '));
    assert(!is_ws_char('=') && '=' != '\t');
    // the key's single tab
    let ktab = find_from(r.key, 0, '\t');
    lemma_find_from_props(r.key, 0, '\t');
    lemma_find_from_props(r.key, ktab + 1, '\t');
    // tab positions in the whole line
    lemma_find_from_is(line, 0, '\t', ktab);
    lemma_find_from_is(line, ktab + 1, '\t', kl);
    assert(find_from(line, kl + 1, '\t') == n) by {
        assert(forall|j: int| kl + 1 <= j < n ==> line[j] != '\t');
        lemma_find_from_is(line, kl + 1, '\t', n);
    }
    // whitespace structure of the third field
    lemma_skip_ws_is(line, kl + 1, kl + 1);
    lemma_find_ws_is(line, kl + 1, kl + 1 + cl);
    lemma_skip_ws_is(line, kl + 1 + cl, kl + 2 + cl);
    lemma_find_ws_is(line, kl + 2 + cl, kl + 2 + cl + dl);
    lemma_skip_ws_is(line, kl + 2 + cl + dl, kl + 3 + cl + dl);
    lemma_find_ws_is(line, kl + 3 + cl + dl, n);
    assert(line.len() > 0 && line[0] != '#');
    let p = spec_parse_field3(line, kl);
    let ctok = line.subrange(kl + 1, kl + 1 + cl);
    assert(ctok =~= r.c);
    assert(line.subrange(0, kl) =~= r.key);
    assert(line.subrange(kl + 2 + cl, kl + 2 + cl + dl) =~= r.d);
    assert(line.subrange(kl + 3 + cl + dl, n) =~= r.t);
    assert(spec_parse(line) == p);
    assert(p matches Some(q) && q.key == r.key && q.c == r.c && q.d == r.d && q.t == r.t);
}

/// Tie-breaking: two lines with one key and one confidence merged in
/// sequence: the second never disturbs the stored data and tag fields.
pub proof fn lemma_tie_preserves_data(
    tick: Seq<char>,
    l1: Seq<char>,
    l2: Seq<char>,
    m: Map<Seq<char>, Rec>,
)
    requires
        spec_parse(l1) is Some,
        spec_parse(l2) is Some,
        spec_parse(l1)->Some_0.key == spec_parse(l2)->Some_0.key,
        spec_parse(l1)->Some_0.ci == spec_parse(l2)->Some_0.ci,
    ensures
        ({
            let k = spec_parse(l1)->Some_0.key;
            let m1 = spec_merge_line(tick, l1, m);
            let m2 = spec_merge_line(tick, l2, m1);
            &&& m1.contains_key(k)
            &&& m2[k].d == m1[k].d
            &&& m2[k].t == m1[k].t
        }),
{
    let r1 = spec_parse(l1)->Some_0;
    let r2 = spec_parse(l2)->Some_0;
    let k = r1.key;
    let m1 = spec_merge_line(tick, l1, m);
    assert(m1.contains_key(k));
    assert(m1[k].ci >= r1.ci);
}

/// Line `i` offers a record under key `k`.
pub open spec fn offers_key(lines: Seq<Seq<char>>, i: int, k: Seq<char>) -> bool {
    0 <= i < lines.len() && spec_parse(lines[i]) is Some && spec_parse(lines[i])->Some_0.key == k
}

/// Confidence offered by line `i`.
pub open spec fn offer_ci(lines: Seq<Seq<char>>, i: int) -> int {
    spec_parse(lines[i])->Some_0.ci
}

/// Confidence token offered by line `i`.
pub open spec fn offer_c(lines: Seq<Seq<char>>, i: int) -> Seq<char> {
    spec_parse(lines[i])->Some_0.c
}

/// What a run of merges does to one key, over an arbitrary starting map:
/// the key is present afterwards exactly when it was present or offered;
/// data and tag fields of a present entry never change; the stored
/// confidence never sinks and dominates every offer; and the stored
/// confidence pair is the old one or comes from some offer.
proof fn lemma_merge_lines_facts(
    tick: Seq<char>,
    lines: Seq<Seq<char>>,
    m: Map<Seq<char>, Rec>,
    k: Seq<char>,
)
    ensures
        ({
            let r = spec_merge_lines(tick, lines, m);
            &&& r.contains_key(k) <==> (m.contains_key(k) || exists|i: int|
                offers_key(lines, i, k))
            &&& m.contains_key(k) ==> r.contains_key(k) && r[k].d == m[k].d && r[k].t == m[k].t
                && r[k].ci >= m[k].ci && r[k].key == m[k].key
            &&& forall|i: int| offers_key(lines, i, k) ==> r.contains_key(k) && r[k].ci
                >= offer_ci(lines, i)
            &&& r.contains_key(k) ==> ((m.contains_key(k) && r[k].ci == m[k].ci && r[k].c
                == m[k].c) || exists|i: int|
                offers_key(lines, i, k) && offer_ci(lines, i) == r[k].ci && offer_c(lines, i)
                    == r[k].c)
        }),
    decreases lines.len(),
{
    let r = spec_merge_lines(tick, lines, m);
    if lines.len() == 0 {
        assert(forall|i: int| !offers_key(lines, i, k));
    } else {
        let l0 = lines[0];
        let tail = lines.drop_first();
        let m1 = spec_merge_line(tick, l0, m);
        lemma_merge_lines_facts(tick, tail, m1, k);
        assert(r == spec_merge_lines(tick, tail, m1));
        assert(forall|i: int| 1 <= i < lines.len() ==> lines[i] == tail[i - 1]);
        // the single step from m to m1, at key k
        assert(m.contains_key(k) ==> m1.contains_key(k) && m1[k].d == m[k].d && m1[k].t == m[k].t
            && m1[k].ci >= m[k].ci && m1[k].key == m[k].key);
        assert(offers_key(lines, 0, k) ==> m1.contains_key(k) && m1[k].ci >= offer_ci(lines, 0));
        // presence
        assert(r.contains_key(k) <==> (m.contains_key(k) || exists|i: int|
            offers_key(lines, i, k))) by {
            if r.contains_key(k) {
                if !m.contains_key(k) {
                    if m1.contains_key(k) {
                        assert(offers_key(lines, 0, k));
                    } else {
                        let i = choose|i: int| offers_key(tail, i, k);
                        assert(offers_key(lines, i + 1, k));
                    }
                }
            }
            if m.contains_key(k) {
                assert(m1.contains_key(k));
            }
            if exists|i: int| offers_key(lines, i, k) {
                let i = choose|i: int| offers_key(lines, i, k);
                if i == 0 {
                    assert(m1.contains_key(k));
                } else {
                    assert(offers_key(tail, i - 1, k));
                }
            }
        }
        // every offer is dominated
        assert forall|i: int| offers_key(lines, i, k) implies r.contains_key(k) && r[k].ci
            >= offer_ci(lines, i) by {
            if i == 0 {
                assert(m1.contains_key(k) && m1[k].ci >= offer_ci(lines, 0));
            } else {
                assert(offers_key(tail, i - 1, k));
                assert(offer_ci(tail, i - 1) == offer_ci(lines, i));
            }
        }
        // provenance of the stored confidence pair
        if r.contains_key(k) {
            if m1.contains_key(k) && r[k].ci == m1[k].ci && r[k].c == m1[k].c {
                if m.contains_key(k) && m1[k].ci == m[k].ci && m1[k].c == m[k].c {
                } else {
                    assert(offers_key(lines, 0, k) && offer_ci(lines, 0) == m1[k].ci && offer_c(
                        lines,
                        0,
                    ) == m1[k].c);
                }
            } else {
                let i = choose|i: int|
                    offers_key(tail, i, k) && offer_ci(tail, i) == r[k].ci && offer_c(tail, i)
                        == r[k].c;
                assert(offers_key(lines, i + 1, k) && offer_ci(lines, i + 1) == r[k].ci && offer_c(
                    lines,
                    i + 1,
                ) == r[k].c);
            }
        }
    }
}

/// After any sequence of merges into an empty store, each stored confidence
/// is the greatest ever offered for its key, and the stored confidence
/// token is one that came with exactly that confidence.
pub proof fn lemma_confidence_is_max(tick: Seq<char>, lines: Seq<Seq<char>>, k: Seq<char>)
    ensures
        ({
            let r = spec_merge_lines(tick, lines, Map::<Seq<char>, Rec>::empty());
            &&& r.contains_key(k) <==> exists|i: int| offers_key(lines, i, k)
            &&& forall|i: int| offers_key(lines, i, k) ==> r.contains_key(k) && r[k].ci
                >= offer_ci(lines, i)
            &&& r.contains_key(k) ==> exists|i: int|
                offers_key(lines, i, k) && offer_ci(lines, i) == r[k].ci && offer_c(lines, i)
                    == r[k].c
        }),
{
    lemma_merge_lines_facts(tick, lines, Map::<Seq<char>, Rec>::empty(), k);
}

/// Merging lines into a map whose entries already dominate every offer
/// changes nothing.
proof fn lemma_merge_lines_noop(tick: Seq<char>, lines: Seq<Seq<char>>, m: Map<Seq<char>, Rec>)
    requires
        forall|i: int|
            0 <= i < lines.len() && spec_parse(lines[i]) is Some ==> m.contains_key(
                spec_parse(lines[i])->Some_0.key,
            ) && m[spec_parse(lines[i])->Some_0.key].ci >= spec_parse(lines[i])->Some_0.ci,
    ensures
        spec_merge_lines(tick, lines, m) == m,
    decreases lines.len(),
{
    if lines.len() > 0 {
        assert(spec_parse(lines[0]) is Some ==> spec_merge_line(tick, lines[0], m) == m);
        assert(spec_merge_line(tick, lines[0], m) == m);
        let tail = lines.drop_first();
        assert(forall|i: int| 0 <= i < tail.len() ==> tail[i] == lines[i + 1]);
        lemma_merge_lines_noop(tick, tail, m);
    }
}

/// Idempotence: a second full pass of the same lines over the store the
/// first pass built leaves it exactly as it was.
pub proof fn lemma_merge_idempotent(tick: Seq<char>, lines: Seq<Seq<char>>)
    ensures
        ({
            let once = spec_merge_lines(tick, lines, Map::<Seq<char>, Rec>::empty());
            spec_merge_lines(tick, lines, once) == once
        }),
{
    let once = spec_merge_lines(tick, lines, Map::<Seq<char>, Rec>::empty());
    assert forall|i: int|
        0 <= i < lines.len() && spec_parse(lines[i]) is Some implies once.contains_key(
        spec_parse(lines[i])->Some_0.key,
    ) && once[spec_parse(lines[i])->Some_0.key].ci >= spec_parse(lines[i])->Some_0.ci by {
        let k = spec_parse(lines[i])->Some_0.key;
        lemma_merge_lines_facts(tick, lines, Map::<Seq<char>, Rec>::empty(), k);
        assert(offers_key(lines, i, k));
    }
    lemma_merge_lines_noop(tick, lines, once);
}

} // verus!
