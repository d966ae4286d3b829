//! The merge store: one record per key, highest confidence winning, kept in
//! ascending key order; and the drivers that feed lines into it.

use vstd::prelude::*;
use crate::record::{Rec, Userdb, convert_to_str, spec_record_line};
use crate::header::{FileHeader, HeaderV, spec_header_step, header_line};
use crate::parse::{spec_parse, parse_userdb};
use crate::text::{lex_lt, lemma_lex_connected, lemma_lex_trans, lemma_lex_irrefl, str_lex_lt,
    str_eq};
use vstd::string::StringExecFns;

verus! {

/// The map a record sequence denotes: later entries shadow earlier ones,
/// though a store never holds two records with one key.
pub open spec fn seq_to_map(s: Seq<Rec>) -> Map<Seq<char>, Rec>
    decreases s.len(),
{
    if s.len() == 0 {
        Map::empty()
    } else {
        seq_to_map(s.drop_last()).insert(s.last().key, s.last())
    }
}

/// No two records of `s` share a key.
pub open spec fn distinct_keys(s: Seq<Rec>) -> bool {
    forall|i: int, j: int| 0 <= i < j < s.len() ==> s[i].key != s[j].key
}

/// A key is in the denoted map exactly when some record carries it.
pub proof fn lemma_seq_to_map_contains(s: Seq<Rec>, k: Seq<char>)
    ensures
        seq_to_map(s).contains_key(k) <==> exists|i: int| 0 <= i < s.len() && s[i].key == k,
    decreases s.len(),
{
    if s.len() > 0 {
        lemma_seq_to_map_contains(s.drop_last(), k);
        if s.last().key == k {
            assert(s[s.len() - 1].key == k);
        } else if seq_to_map(s).contains_key(k) {
            let i = choose|i: int| 0 <= i < s.drop_last().len() && s.drop_last()[i].key == k;
            assert(s[i].key == k);
        } else if exists|i: int| 0 <= i < s.len() && s[i].key == k {
            let i = choose|i: int| 0 <= i < s.len() && s[i].key == k;
            assert(s.drop_last()[i].key == k);
        }
    }
}

/// With distinct keys, the denoted map sends each record's key to it.
pub proof fn lemma_seq_to_map_index(s: Seq<Rec>, i: int)
    requires
        distinct_keys(s),
        0 <= i < s.len(),
    ensures
        seq_to_map(s).contains_key(s[i].key),
        seq_to_map(s)[s[i].key] == s[i],
    decreases s.len(),
{
    if i == s.len() - 1 {
        assert(s.last() == s[i]);
    } else {
        assert(distinct_keys(s.drop_last())) by {
            assert(forall|a: int, b: int|
                0 <= a < b < s.len() - 1 ==> s.drop_last()[a] == s[a] && s.drop_last()[b] == s[b]);
        }
        lemma_seq_to_map_index(s.drop_last(), i);
        assert(s.drop_last()[i] == s[i]);
        assert(s[i].key != s.last().key);
    }
}

/// Inserting a record whose key is fresh denotes a map insertion.
proof fn lemma_map_of_insert(s: Seq<Rec>, idx: int, r: Rec)
    requires
        distinct_keys(s),
        0 <= idx <= s.len(),
        forall|i: int| 0 <= i < s.len() ==> s[i].key != r.key,
    ensures
        seq_to_map(s.insert(idx, r)) =~= seq_to_map(s).insert(r.key, r),
{
    let s2 = s.insert(idx, r);
    assert(s2[idx] == r);
    assert(forall|j: int| 0 <= j < idx ==> s2[j] == s[j]);
    assert(forall|j: int| idx < j < s2.len() ==> s2[j] == s[j - 1]);
    assert forall|k: Seq<char>|
        seq_to_map(s2).contains_key(k) == seq_to_map(s).insert(r.key, r).contains_key(
            k,
        ) by {
        lemma_seq_to_map_contains(s2, k);
        lemma_seq_to_map_contains(s, k);
        if k == r.key {
            assert(s2[idx].key == k);
        } else {
            if exists|i: int| 0 <= i < s2.len() && s2[i].key == k {
                let i = choose|i: int| 0 <= i < s2.len() && s2[i].key == k;
                if i < idx {
                    assert(s[i].key == k);
                } else {
                    assert(i > idx);
                    assert(s[i - 1].key == k);
                }
            }
            if exists|i: int| 0 <= i < s.len() && s[i].key == k {
                let i = choose|i: int| 0 <= i < s.len() && s[i].key == k;
                if i < idx {
                    assert(s2[i].key == k);
                } else {
                    assert(s2[i + 1].key == k);
                }
            }
        }
    }
    assert(distinct_keys(s2)) by {
        assert forall|a: int, b: int| 0 <= a < b < s2.len() implies s2[a].key != s2[b].key by {
            if a == idx {
                assert(s2[b] == s[b - 1]);
            } else if b == idx {
                assert(s2[a] == s[a]);
            } else {
                if a < idx && b < idx {
                    assert(s2[a] == s[a] && s2[b] == s[b]);
                } else if a < idx && b > idx {
                    assert(s2[a] == s[a] && s2[b] == s[b - 1]);
                    assert(a <= b - 1);
                    assert(a < b - 1 || s[a] == s[b - 1]);
                    if a == b - 1 {
                        assert(s2[a].key != r.key);
                        assert(s2[a] == s2[b] ==> s2[b].key != r.key);
                    }
                    assert(s[a].key != s[b - 1].key || a == b - 1);
                    if a == b - 1 {
                    } else {
                        assert(s[a].key != s[b - 1].key);
                    }
                } else {
                    assert(s2[a] == s[a - 1] && s2[b] == s[b - 1]);
                }
            }
        }
    }
    assert forall|k: Seq<char>|
        seq_to_map(s2).contains_key(k) implies seq_to_map(s2)[k] == seq_to_map(s).insert(
        r.key,
        r,
    )[k] by {
        lemma_seq_to_map_contains(s2, k);
        let j = choose|j: int| 0 <= j < s2.len() && s2[j].key == k;
        lemma_seq_to_map_index(s2, j);
        if k == r.key {
            if j != idx {
                if j < idx {
                    assert(s[j].key == k);
                } else {
                    assert(s[j - 1].key == k);
                }
                assert(false);
            }
            assert(seq_to_map(s2)[k] == r);
        } else {
            assert(j != idx);
            if j < idx {
                lemma_seq_to_map_index(s, j);
                assert(s2[j] == s[j]);
            } else {
                lemma_seq_to_map_index(s, j - 1);
                assert(s2[j] == s[j - 1]);
            }
        }
    }
    assert(seq_to_map(s2) =~= seq_to_map(s).insert(r.key, r));
}

/// Replacing the record at `idx` by one with the same key denotes a map
/// insertion at that key.
proof fn lemma_map_of_update(s: Seq<Rec>, idx: int, r: Rec)
    requires
        distinct_keys(s),
        0 <= idx < s.len(),
        r.key == s[idx].key,
    ensures
        seq_to_map(s.update(idx, r)) =~= seq_to_map(s).insert(r.key, r),
{
    let s2 = s.update(idx, r);
    assert(forall|j: int| 0 <= j < s.len() && j != idx ==> s2[j] == s[j]);
    assert(s2[idx] == r);
    assert(distinct_keys(s2)) by {
        assert(forall|j: int| 0 <= j < s.len() ==> s2[j].key == s[j].key);
    }
    assert forall|k: Seq<char>|
        seq_to_map(s2).contains_key(k) == seq_to_map(s).insert(r.key, r).contains_key(
            k,
        ) by {
        lemma_seq_to_map_contains(s2, k);
        lemma_seq_to_map_contains(s, k);
        assert(forall|j: int| 0 <= j < s.len() ==> s2[j].key == s[j].key);
    }
    assert forall|k: Seq<char>|
        seq_to_map(s2).contains_key(k) implies seq_to_map(s2)[k] == seq_to_map(s).insert(
        r.key,
        r,
    )[k] by {
        lemma_seq_to_map_contains(s2, k);
        let j = choose|j: int| 0 <= j < s2.len() && s2[j].key == k;
        lemma_seq_to_map_index(s2, j);
        if k == r.key {
            if j != idx {
                assert(s2[j].key == s[j].key);
                assert(s[j].key == s[idx].key);
                assert(false);
            }
            assert(seq_to_map(s2)[k] == r);
        } else {
            assert(j != idx);
            lemma_seq_to_map_index(s, j);
            assert(s2[j] == s[j]);
        }
    }
    assert(seq_to_map(s2) =~= seq_to_map(s).insert(r.key, r));
}


/// An ordered, deduplicated record store.
///
/// Holds at most one record per key, the records sorted in strictly
/// ascending key order; its view is the map from keys to records.
pub struct Store {
    pub v: Vec<Userdb>,
}

impl View for Store {
    type V = Map<Seq<char>, Rec>;

    open spec fn view(&self) -> Map<Seq<char>, Rec> {
        seq_to_map(self.recs())
    }
}

impl Store {
    /// The records in emission order.
    pub open spec fn recs(&self) -> Seq<Rec> {
        self.v@.map_values(|u: Userdb| u@)
    }

    /// Well-formed: keys strictly ascending (hence unique).
    pub open spec fn wf(&self) -> bool {
        forall|i: int, j: int|
            0 <= i < j < self.recs().len() ==> lex_lt(self.recs()[i].key, self.recs()[j].key)
    }

    /// Sorted keys are distinct.
    pub proof fn lemma_wf_distinct(&self)
        requires
            self.wf(),
        ensures
            distinct_keys(self.recs()),
    {
        assert forall|i: int, j: int|
            0 <= i < j < self.recs().len() implies self.recs()[i].key != self.recs()[j].key by {
            lemma_lex_irrefl(self.recs()[i].key);
        }
    }

    /// An empty store.
    pub fn new() -> (s: Store)
        ensures
            s.recs() == Seq::<Rec>::empty(),
            s@ == Map::<Seq<char>, Rec>::empty(),
            s.wf(),
    {
        let s = Store { v: Vec::new() };
        proof {
            assert(s.recs() =~= Seq::<Rec>::empty());
            assert(s@ =~= Map::<Seq<char>, Rec>::empty());
        }
        s
    }

    /// Whether a record with key `k` is stored.
    pub fn contains_key(&self, k: &str) -> (r: bool)
        requires
            self.wf(),
        ensures
            r == self@.contains_key(k@),
    {
        let mut i: usize = 0;
        let n = self.v.len();
        while i < n
            invariant
                i <= n,
                n == self.v@.len(),
                forall|j: int| 0 <= j < i ==> self.recs()[j].key != k@,
            decreases n - i,
        {
            if str_eq(self.v[i].key.as_str(), k) {
                proof {
                    assert(self.recs()[i as int].key == k@);
                    lemma_seq_to_map_contains(self.recs(), k@);
                }
                return true;
            }
            i = i + 1;
        }
        proof {
            lemma_seq_to_map_contains(self.recs(), k@);
        }
        false
    }

    /// The stored record with key `k`, if any.
    pub fn get(&self, k: &str) -> (r: Option<&Userdb>)
        requires
            self.wf(),
        ensures
            match r {
                Some(u) => self@.contains_key(k@) && u@ == self@[k@],
                None => !self@.contains_key(k@),
            },
    {
        let mut i: usize = 0;
        let n = self.v.len();
        while i < n
            invariant
                i <= n,
                n == self.v@.len(),
                self.wf(),
                forall|j: int| 0 <= j < i ==> self.recs()[j].key != k@,
            decreases n - i,
        {
            if str_eq(self.v[i].key.as_str(), k) {
                proof {
                    self.lemma_wf_distinct();
                    assert(self.recs()[i as int].key == k@);
                    lemma_seq_to_map_index(self.recs(), i as int);
                }
                return Some(&self.v[i]);
            }
            i = i + 1;
        }
        proof {
            lemma_seq_to_map_contains(self.recs(), k@);
        }
        None
    }
}

/// How one parsed record enters the store: a fresh key is inserted with the
/// tick tag as its third token; a present key is updated only when the new
/// confidence is strictly greater, and then only in its confidence fields.
pub open spec fn spec_merge_rec(tick: Seq<char>, r: Rec, m: Map<Seq<char>, Rec>) -> Map<
    Seq<char>,
    Rec,
> {
    if m.contains_key(r.key) {
        if m[r.key].ci < r.ci {
            m.insert(
                r.key,
                Rec { key: m[r.key].key, ci: r.ci, c: r.c, d: m[r.key].d, t: m[r.key].t },
            )
        } else {
            m
        }
    } else {
        m.insert(r.key, Rec { key: r.key, ci: r.ci, c: r.c, d: r.d, t: tick })
    }
}

/// How one raw line changes the store: rejected lines change nothing.
pub open spec fn spec_merge_line(tick: Seq<char>, line: Seq<char>, m: Map<Seq<char>, Rec>) -> Map<
    Seq<char>,
    Rec,
> {
    match spec_parse(line) {
        None => m,
        Some(r) => spec_merge_rec(tick, r, m),
    }
}

/// Merges one line into the store, as `spec_merge_line` describes: the
/// single point of truth for the dedupe-and-upsert rule.
pub fn parser_line(h: &FileHeader, line: &str, m: &mut Store)
    requires
        old(m).wf(),
    ensures
        final(m).wf(),
        final(m)@ == spec_merge_line(h@.tick, line@, old(m)@),
{
    let parsed = parse_userdb(line);
    match parsed {
        None => {},
        Some(mut u) => {
            let ghost r = u@;
            let n = m.v.len();
            let mut i: usize = 0;
            loop
                invariant
                    i <= n,
                    n == m.v@.len(),
                    *m == *old(m),
                    m.wf(),
                    u@ == r,
                    forall|j: int| 0 <= j < i ==> lex_lt(m.recs()[j].key, r.key),
                ensures
                    i <= n,
                    i == n || !lex_lt(m.recs()[i as int].key, r.key),
                    forall|j: int| 0 <= j < i ==> lex_lt(m.recs()[j].key, r.key),
                decreases n - i,
            {
                if i == n {
                    break ;
                }
                let goes_after = str_lex_lt(m.v[i].key.as_str(), u.key.as_str());
                proof {
                    assert(m.recs()[i as int].key == m.v@[i as int]@.key);
                }
                if goes_after {
                    i = i + 1;
                } else {
                    break ;
                }
            }
            let present = i < n && str_eq(m.v[i].key.as_str(), u.key.as_str());
            if present {
                proof {
                    m.lemma_wf_distinct();
                    assert(m.recs()[i as int].key == r.key);
                    lemma_seq_to_map_index(m.recs(), i as int);
                }
                let cur_ci = m.v[i].ci;
                if cur_ci < u.ci {
                    let old_r = m.v.remove(i);
                    let newr = Userdb {
                        key: old_r.key,
                        ci: u.ci,
                        c: u.c,
                        d: old_r.d,
                        t: old_r.t,
                    };
                    let ghost nr = newr@;
                    let ghost srecs = old(m).recs();
                    proof {
                        assert(nr == Rec {
                            key: old(m)@[r.key].key,
                            ci: r.ci,
                            c: r.c,
                            d: old(m)@[r.key].d,
                            t: old(m)@[r.key].t,
                        });
                    }
                    m.v.insert(i, newr);
                    proof {
                        assert(m.recs() =~= srecs.update(i as int, nr)) by {
                            assert forall|j: int| 0 <= j < m.v@.len() implies m.recs()[j]
                                == srecs.update(i as int, nr)[j] by {
                                if j < i {
                                    assert(m.v@[j] == old(m).v@[j]);
                                } else if j == i {
                                    assert(m.v@[j]@ == nr);
                                } else {
                                    assert(m.v@[j] == old(m).v@[j]);
                                }
                            }
                        }
                        lemma_map_of_update(srecs, i as int, nr);
                        assert(m@ == spec_merge_line(h@.tick, line@, old(m)@));
                        assert forall|a: int, b: int|
                            0 <= a < b < m.recs().len() implies lex_lt(
                            m.recs()[a].key,
                            m.recs()[b].key,
                        ) by {
                            assert(forall|j: int|
                                0 <= j < srecs.len() ==> m.recs()[j].key == srecs[j].key);
                        }
                    }
                }
            } else {
                proof {
                    m.lemma_wf_distinct();
                    if i < n {
                        assert(m.recs()[i as int].key != r.key);
                        lemma_lex_connected(m.recs()[i as int].key, r.key);
                        assert(lex_lt(r.key, m.recs()[i as int].key));
                    }
                    assert forall|j: int| 0 <= j < n implies m.recs()[j].key != r.key by {
                        if j < i {
                            lemma_lex_irrefl(r.key);
                        } else {
                            if j > i {
                                lemma_lex_trans(
                                    r.key,
                                    m.recs()[i as int].key,
                                    m.recs()[j].key,
                                );
                            }
                            lemma_lex_irrefl(r.key);
                        }
                    }
                    lemma_seq_to_map_contains(m.recs(), r.key);
                }
                u.t = h.tick.clone();
                let ghost srecs = old(m).recs();
                let ghost newrec = u@;
                proof {
                    assert(newrec == Rec { key: r.key, ci: r.ci, c: r.c, d: r.d, t: h@.tick });
                }
                m.v.insert(i, u);
                proof {
                    let s2 = srecs.insert(i as int, newrec);
                    assert(m.recs() =~= s2) by {
                        assert forall|j: int| 0 <= j < m.v@.len() implies m.recs()[j]
                            == s2[j] by {
                            if j < i {
                                assert(m.v@[j] == old(m).v@[j]);
                            } else if j == i {
                                assert(m.v@[j]@ == newrec);
                            } else {
                                assert(m.v@[j] == old(m).v@[j - 1]);
                            }
                        }
                    }
                    lemma_map_of_insert(srecs, i as int, newrec);
                    assert(m@ == spec_merge_line(h@.tick, line@, old(m)@));
                    assert forall|a: int, b: int|
                        0 <= a < b < s2.len() implies lex_lt(s2[a].key, s2[b].key) by {
                        if a < i && b < i {
                            assert(s2[a] == srecs[a] && s2[b] == srecs[b]);
                        } else if a < i && b == i {
                            assert(s2[a] == srecs[a]);
                            assert(s2[b] == newrec);
                        } else if a < i && b > i {
                            assert(s2[a] == srecs[a] && s2[b] == srecs[b - 1]);
                            assert(a < b - 1 || a == b - 1);
                            if a == b - 1 {
                                assert(i <= b - 1);
                                assert(false);
                            }
                        } else if a == i {
                            assert(s2[a] == newrec);
                            assert(s2[b] == srecs[b - 1]);
                            assert(b - 1 >= i);
                            if b - 1 > i {
                                lemma_lex_trans(r.key, srecs[i as int].key, srecs[b - 1].key);
                            }
                        } else {
                            assert(s2[a] == srecs[a - 1] && s2[b] == srecs[b - 1]);
                        }
                    }
                }
            }
        },
    }
}

/// How a whole sequence of lines changes the store, front to back.
pub open spec fn spec_merge_lines(
    tick: Seq<char>,
    lines: Seq<Seq<char>>,
    m: Map<Seq<char>, Rec>,
) -> Map<Seq<char>, Rec>
    decreases lines.len(),
{
    if lines.len() == 0 {
        m
    } else {
        spec_merge_lines(tick, lines.drop_first(), spec_merge_line(tick, lines[0], m))
    }
}

/// Merges every line of an additional input file into the store, in order,
/// under the main file's already-final tick tag.
pub fn parser_lines(h: &FileHeader, lines: &Vec<String>, m: &mut Store)
    requires
        old(m).wf(),
    ensures
        final(m).wf(),
        final(m)@ == spec_merge_lines(h@.tick, lines.deep_view(), old(m)@),
{
    let ghost lv = lines.deep_view();
    proof {
        assert(lv.skip(0) =~= lv);
    }
    let n = lines.len();
    let mut i: usize = 0;
    while i < n
        invariant
            i <= n,
            n == lines@.len(),
            m.wf(),
            lv == lines.deep_view(),
            spec_merge_lines(h@.tick, lv.skip(i as int), m@) == spec_merge_lines(
                h@.tick,
                lv,
                old(m)@,
            ),
        decreases n - i,
    {
        proof {
            assert(lv.skip(i as int)[0] == lv[i as int]);
            assert(lv[i as int] == lines@[i as int]@);
            assert(lv.skip(i as int).drop_first() =~= lv.skip(i as int + 1));
        }
        parser_line(h, lines[i].as_str(), m);
        i = i + 1;
    }
    proof {
        assert(lv.skip(n as int) =~= Seq::<Seq<char>>::empty());
    }
}

/// One forward pass over the main file's lines: comment lines extend the
/// header (a tick line renewing the tick tag), every other line is merged
/// under the tick tag as known at that moment.
pub open spec fn spec_main_run(lines: Seq<Seq<char>>, hv: HeaderV, m: Map<Seq<char>, Rec>) -> (
    HeaderV,
    Map<Seq<char>, Rec>,
)
    decreases lines.len(),
{
    if lines.len() == 0 {
        (hv, m)
    } else if lines[0].len() > 0 && lines[0][0] == '#' {
        spec_main_run(lines.drop_first(), spec_header_step(hv, lines[0]), m)
    } else {
        spec_main_run(lines.drop_first(), hv, spec_merge_line(hv.tick, lines[0], m))
    }
}

/// Consumes the main file's lines in one pass, seeding the store and
/// returning the completed header, as `spec_main_run` describes.
pub fn parser_main_lines(lines: &Vec<String>, m: &mut Store) -> (h: FileHeader)
    requires
        old(m).wf(),
    ensures
        final(m).wf(),
        h@ == spec_main_run(
            lines.deep_view(),
            HeaderV { header: Seq::empty(), tick: Seq::empty() },
            old(m)@,
        ).0,
        final(m)@ == spec_main_run(
            lines.deep_view(),
            HeaderV { header: Seq::empty(), tick: Seq::empty() },
            old(m)@,
        ).1,
{
    let mut fh = FileHeader { header: String::new(), tick: String::new() };
    let ghost init = HeaderV { header: Seq::<char>::empty(), tick: Seq::<char>::empty() };
    let ghost lv = lines.deep_view();
    proof {
        assert(fh@ =~= init);
        assert(lv.skip(0) =~= lv);
    }
    let n = lines.len();
    let mut i: usize = 0;
    while i < n
        invariant
            i <= n,
            n == lines@.len(),
            m.wf(),
            lv == lines.deep_view(),
            spec_main_run(lv.skip(i as int), fh@, m@) == spec_main_run(lv, init, old(m)@),
        decreases n - i,
    {
        proof {
            assert(lv.skip(i as int)[0] == lv[i as int]);
            assert(lv[i as int] == lines@[i as int]@);
            assert(lv.skip(i as int).drop_first() =~= lv.skip(i as int + 1));
        }
        let line = &lines[i];
        let nonempty = line.as_str().unicode_len() > 0;
        if nonempty && line.as_str().get_char(0) == '#' {
            header_line(&mut fh, line.as_str());
        } else {
            parser_line(&fh, line.as_str(), m);
        }
        i = i + 1;
    }
    proof {
        assert(lv.skip(n as int) =~= Seq::<Seq<char>>::empty());
    }
    fh
}

/// The emitted text of a record sequence: each record's line form, newline
/// terminated, in sequence order.
pub open spec fn spec_render(rs: Seq<Rec>) -> Seq<char>
    decreases rs.len(),
{
    if rs.len() == 0 {
        Seq::empty()
    } else {
        spec_render(rs.drop_last()) + spec_record_line(rs.last()) + seq!['\n']
    }
}

/// Serializes the header block followed by every stored record, in stored
/// (ascending key) order.
pub fn render_output(h: &FileHeader, m: &Store) -> (r: String)
    ensures
        r@ == h@.header + spec_render(m.recs()),
{
    let mut out = h.header.clone();
    let n = m.v.len();
    let mut i: usize = 0;
    proof {
        assert(m.recs().take(0) =~= Seq::<Rec>::empty());
        assert(out@ =~= h@.header + spec_render(m.recs().take(0)));
    }
    while i < n
        invariant
            i <= n,
            n == m.v@.len(),
            out@ == h@.header + spec_render(m.recs().take(i as int)),
        decreases n - i,
    {
        let line = convert_to_str(&m.v[i]);
        out.append(line.as_str());
        proof {
            assert(m.recs().take(i as int + 1).drop_last() =~= m.recs().take(i as int));
            assert(m.recs().take(i as int + 1).last() == m.recs()[i as int]);
            assert(out@ =~= h@.header + spec_render(m.recs().take(i as int + 1)));
        }
        i = i + 1;
    }
    proof {
        assert(m.recs().take(n as int) =~= m.recs());
    }
    out
}

} // verus!
