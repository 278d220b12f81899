//! The layout of a Kafka log in the linearizable key-value service.
//!
//! Topic `k` keeps its last handed-out offset under `latest_<k>`, its
//! committed offset under `commit_<k>`, and its entries in segments of
//! `BATCH_SIZE` offsets: `entry_<k>_<start>-<end>` holds `o:v` pairs joined by
//! commas, for offsets `o` in `[start, end)`.
use vstd::prelude::*;
use crate::text::{chars_of, decimal, parse_u64_chars, parse_u64_spec, push_char, push_decimal};

verus! {

/// Offsets per segment.
pub const BATCH_SIZE: u64 = 20;

/// The first offset of the segment holding offset `o`.
pub open spec fn segment_start(o: u64) -> u64 {
    (o - o % BATCH_SIZE) as u64
}

/// `prefix`, an underscore, then `k`.
pub open spec fn prefixed(prefix: Seq<char>, k: Seq<char>) -> Seq<char> {
    prefix.push('_') + k
}

pub open spec fn latest_prefix() -> Seq<char> {
    seq!['l', 'a', 't', 'e', 's', 't']
}

pub open spec fn commit_prefix() -> Seq<char> {
    seq!['c', 'o', 'm', 'm', 'i', 't']
}

pub open spec fn entry_prefix() -> Seq<char> {
    seq!['e', 'n', 't', 'r', 'y']
}

/// The key of the segment of topic `k` that starts at `start`.
pub open spec fn entry_key_spec(k: Seq<char>, start: u64) -> Seq<char> {
    (prefixed(entry_prefix(), k).push('_') + decimal(start as nat)).push('-') + decimal(
        (start + BATCH_SIZE) as nat,
    )
}

fn append_str(s: &mut String, t: &str)
    ensures
        final(s)@ == old(s)@ + t@,
{
    let cs = chars_of(t);
    let mut i: usize = 0;
    while i < cs.len()
        invariant
            i <= cs@.len(),
            cs@ == t@,
            s@ == old(s)@ + cs@.subrange(0, i as int),
        decreases cs@.len() - i,
    {
        push_char(s, cs[i]);
        proof {
            assert(s@ =~= old(s)@ + cs@.subrange(0, i + 1));
        }
        i = i + 1;
    }
    proof {
        assert(cs@.subrange(0, i as int) =~= cs@);
    }
}

fn prefixed_key(prefix: &str, k: &str) -> (r: String)
    ensures
        r@ == prefixed(prefix@, k@),
{
    let mut r = String::new();
    append_str(&mut r, prefix);
    push_char(&mut r, '_');
    append_str(&mut r, k);
    proof {
        assert(r@ =~= prefixed(prefix@, k@));
    }
    r
}

/// The key of topic `k`'s last handed-out offset.
pub fn latest_key(k: &str) -> (r: String)
    ensures
        r@ == prefixed(latest_prefix(), k@),
{
    proof {
        reveal_strlit("latest");
        assert("latest"@ =~= latest_prefix());
    }
    prefixed_key("latest", k)
}

/// The key of topic `k`'s committed offset.
pub fn commit_key(k: &str) -> (r: String)
    ensures
        r@ == prefixed(commit_prefix(), k@),
{
    proof {
        reveal_strlit("commit");
        assert("commit"@ =~= commit_prefix());
    }
    prefixed_key("commit", k)
}

/// The key of the segment of topic `k` that starts at `start`.
pub fn entry_key(k: &str, start: u64) -> (r: String)
    requires
        start <= u64::MAX - BATCH_SIZE,
    ensures
        r@ == entry_key_spec(k@, start),
{
    proof {
        reveal_strlit("entry");
        assert("entry"@ =~= entry_prefix());
    }
    let mut r = prefixed_key("entry", k);
    push_char(&mut r, '_');
    push_decimal(&mut r, start);
    push_char(&mut r, '-');
    push_decimal(&mut r, start + BATCH_SIZE);
    r
}

/// The segment text `s` with the pair `o:v` added at its end.
pub open spec fn segment_append(s: Seq<char>, o: u64, v: u64) -> Seq<char> {
    ((if s.len() == 0 { s } else { s.push(',') }) + decimal(o as nat)).push(':') + decimal(v as nat)
}

/// Adds the pair `o:v` at the end of segment text `s`.
pub fn append_entry(s: &mut String, offset: u64, value: u64)
    ensures
        final(s)@ == segment_append(old(s)@, offset, value),
{
    if !s.as_str().is_empty() {
        push_char(s, ',');
    }
    push_decimal(s, offset);
    push_char(s, ':');
    push_decimal(s, value);
}

/// The position of the last comma of `s`, or -1.
pub open spec fn last_comma(s: Seq<char>) -> int
    decreases s.len(),
{
    if s.len() == 0 {
        -1
    } else if s.last() == ',' {
        s.len() - 1
    } else {
        last_comma(s.drop_last())
    }
}

/// The comma-separated pieces of `s`, in order.
pub open spec fn pieces(s: Seq<char>) -> Seq<Seq<char>>
    decreases s.len(),
{
    let i = last_comma(s);
    if 0 <= i < s.len() {
        pieces(s.subrange(0, i)).push(s.subrange(i + 1, s.len() as int))
    } else {
        seq![s]
    }
}

/// The position of the first colon of `p`, or -1.
pub open spec fn first_colon(p: Seq<char>) -> int
    decreases p.len(),
{
    if p.len() == 0 {
        -1
    } else if p[0] == ':' {
        0
    } else {
        let j = first_colon(p.drop_first());
        if j < 0 {
            -1
        } else {
            j + 1
        }
    }
}

/// The pair a piece `o:v` stands for, split at its first colon; `None` when
/// it has no colon or either side is not a decimal `u64`.
pub open spec fn piece_entry(p: Seq<char>) -> Option<(u64, u64)> {
    let j = first_colon(p);
    if j < 0 {
        None
    } else {
        match (parse_u64_spec(p.subrange(0, j)), parse_u64_spec(p.subrange(j + 1, p.len() as int))) {
            (Some(o), Some(v)) => Some((o, v)),
            _ => None,
        }
    }
}

/// The well-formed pairs of `ps` whose offset is at least `from`, in order.
pub open spec fn select_entries(ps: Seq<Seq<char>>, from: u64) -> Seq<(u64, u64)>
    decreases ps.len(),
{
    if ps.len() == 0 {
        Seq::empty()
    } else {
        let r = select_entries(ps.drop_last(), from);
        match piece_entry(ps.last()) {
            Some(e) => if e.0 >= from {
                r.push(e)
            } else {
                r
            },
            None => r,
        }
    }
}

/// The pairs of segment text `s` at or beyond offset `from`, in order.
pub open spec fn segment_entries(s: Seq<char>, from: u64) -> Seq<(u64, u64)> {
    select_entries(pieces(s), from)
}

/// A poll of a segment from offset `from` gives only entries at or beyond
/// `from`.
pub proof fn lemma_segment_entries_from(s: Seq<char>, from: u64)
    ensures
        forall|i: int| 0 <= i < segment_entries(s, from).len() ==> #[trigger] segment_entries(s, from)[i].0 >= from,
{
    lemma_select_entries_from(pieces(s), from);
}

proof fn lemma_select_entries_from(ps: Seq<Seq<char>>, from: u64)
    ensures
        forall|i: int| 0 <= i < select_entries(ps, from).len() ==> #[trigger] select_entries(ps, from)[i].0 >= from,
    decreases ps.len(),
{
    if ps.len() > 0 {
        lemma_select_entries_from(ps.drop_last(), from);
        let r = select_entries(ps.drop_last(), from);
        assert forall|i: int| 0 <= i < select_entries(ps, from).len() implies #[trigger] select_entries(ps, from)[i].0 >= from by {
            if i < r.len() {
                assert(select_entries(ps, from)[i] == r[i]);
            }
        }
    }
}

proof fn lemma_last_comma(s: Seq<char>, c: int)
    requires
        -1 <= c < s.len(),
        c >= 0 ==> s[c] == ',',
        forall|k: int| c < k < s.len() ==> s[k] != ',',
    ensures
        last_comma(s) == c,
    decreases s.len(),
{
    if s.len() > 0 && c < s.len() - 1 {
        lemma_last_comma(s.drop_last(), c);
    }
}

proof fn lemma_first_colon(p: Seq<char>, j: int)
    requires
        0 <= j <= p.len(),
        j < p.len() ==> p[j] == ':',
        forall|k: int| 0 <= k < j ==> p[k] != ':',
    ensures
        first_colon(p) == if j < p.len() { j } else { -1 },
    decreases p.len(),
{
    if p.len() > 0 && j > 0 {
        lemma_first_colon(p.drop_first(), j - 1);
    }
}

/// The pair that the piece `cs[lo..hi]` stands for.
fn parse_piece(cs: &Vec<char>, lo: usize, hi: usize) -> (r: Option<(u64, u64)>)
    requires
        lo <= hi <= cs@.len(),
    ensures
        r == piece_entry(cs@.subrange(lo as int, hi as int)),
{
    let ghost p = cs@.subrange(lo as int, hi as int);
    let mut j: usize = lo;
    while j < hi && cs[j] != ':'
        invariant
            lo <= j <= hi <= cs@.len(),
            p == cs@.subrange(lo as int, hi as int),
            forall|k: int| 0 <= k < j - lo ==> p[k] != ':',
        decreases hi - j,
    {
        j = j + 1;
    }
    proof {
        lemma_first_colon(p, j - lo);
    }
    if j == hi {
        return None;
    }
    proof {
        assert(p.subrange(0, j - lo) =~= cs@.subrange(lo as int, j as int));
        assert(p.subrange(j - lo + 1, p.len() as int) =~= cs@.subrange(j + 1, hi as int));
    }
    let o = parse_u64_chars(cs, lo, j);
    let v = parse_u64_chars(cs, j + 1, hi);
    match (o, v) {
        (Some(o), Some(v)) => Some((o, v)),
        _ => None,
    }
}

/// The `(offset, value)` pairs of segment text `s` at or beyond `from`, in order;
/// pieces that are not `o:v` with decimal `o` and `v` are skipped.
pub fn parse_segment(s: &str, from: u64) -> (r: Vec<(u64, u64)>)
    ensures
        r@ == segment_entries(s@, from),
{
    let cs = chars_of(s);
    let mut r: Vec<(u64, u64)> = Vec::new();
    let mut start: usize = 0;
    let mut i: usize = 0;
    proof {
        assert(select_entries(Seq::<Seq<char>>::empty(), from) == Seq::<(u64, u64)>::empty());
    }
    while i < cs.len()
        invariant
            i <= cs@.len(),
            cs@ == s@,
            start <= i,
            start == 0 ==> r@.len() == 0,
            start > 0 ==> cs@[start - 1] == ',' && r@ == select_entries(pieces(cs@.subrange(0, start - 1)), from),
            forall|k: int| start <= k < i ==> cs@[k] != ',',
        decreases cs@.len() - i,
    {
        if cs[i] == ',' {
            let e = parse_piece(&cs, start, i);
            proof {
                let pre = cs@.subrange(0, i as int);
                if start > 0 {
                    lemma_last_comma(pre, start - 1);
                    assert(pre.subrange(0, start - 1) =~= cs@.subrange(0, start - 1));
                    assert(pre.subrange(start as int, i as int) =~= cs@.subrange(start as int, i as int));
                    assert(pieces(pre) == pieces(cs@.subrange(0, start - 1)).push(cs@.subrange(start as int, i as int)));
                } else {
                    lemma_last_comma(pre, -1);
                    assert(pre =~= cs@.subrange(0, i as int));
                    assert(pieces(pre) == seq![cs@.subrange(0, i as int)]);
                    assert(seq![cs@.subrange(0, i as int)].drop_last() =~= Seq::<Seq<char>>::empty());
                }
                assert(pieces(pre).drop_last() == if start > 0 {
                    pieces(cs@.subrange(0, start - 1))
                } else {
                    Seq::<Seq<char>>::empty()
                });
            }
            proof {
                let pre = cs@.subrange(0, i as int);
                assert(pieces(pre).last() == cs@.subrange(start as int, i as int));
                assert(pieces(pre).len() > 0);
                assert(select_entries(Seq::<Seq<char>>::empty(), from) == Seq::<(u64, u64)>::empty());
            }
            let ghost before = r@;
            match e {
                Some(p) => {
                    if p.0 >= from {
                        r.push(p);
                    }
                },
                None => {},
            }
            proof {
                let pre = cs@.subrange(0, i as int);
                assert(before == select_entries(pieces(pre).drop_last(), from));
                assert(r@ == select_entries(pieces(pre), from));
                assert(cs@.subrange(0, i + 1 - 1) =~= pre);
            }
            start = i + 1;
        }
        i = i + 1;
    }
    let e = parse_piece(&cs, start, cs.len());
    proof {
        let all = cs@;
        assert(all.subrange(0, all.len() as int) =~= all);
        if start > 0 {
            lemma_last_comma(all, start - 1);
            assert(pieces(all) == pieces(all.subrange(0, start - 1)).push(all.subrange(start as int, all.len() as int)));
        } else {
            lemma_last_comma(all, -1);
            assert(pieces(all) == seq![all]);
            assert(seq![all].drop_last() =~= Seq::<Seq<char>>::empty());
            assert(all.subrange(0, all.len() as int) == all);
        }
        assert(pieces(all).last() == all.subrange(start as int, all.len() as int));
        assert(pieces(all).drop_last() == if start > 0 {
            pieces(all.subrange(0, start - 1))
        } else {
            Seq::<Seq<char>>::empty()
        });
        assert(select_entries(Seq::<Seq<char>>::empty(), from) == Seq::<(u64, u64)>::empty());
    }
    let ghost before = r@;
    match e {
        Some(p) => {
            if p.0 >= from {
                r.push(p);
            }
        },
        None => {},
    }
    proof {
        assert(before == select_entries(pieces(cs@).drop_last(), from));
        assert(r@ == select_entries(pieces(cs@), from));
    }
    r
}

/// Where a send of key `key` goes in a cluster of `n` nodes, seen from node
/// `node_id`: `Some(i)` when node `i` owns the key and that is not this node,
/// `None` when this node serves it. A key owns to node `k mod n` when it reads
/// as a decimal `k`; node ids read as a letter and their index.
pub open spec fn route_spec(key: Seq<char>, node_id: Seq<char>, n: nat) -> Option<u64> {
    match (parse_u64_spec(key), if node_id.len() > 0 { parse_u64_spec(node_id.drop_first()) } else { None }) {
        (Some(k), Some(nid)) => if n > 0 && (k as int) % (n as int) != nid as int {
            Some(((k as int) % (n as int)) as u64)
        } else {
            None
        },
        _ => None,
    }
}

/// The node a send of `key` is forwarded to, if another node owns it.
pub fn route(key: &str, node_id: &str, n: usize) -> (r: Option<u64>)
    ensures
        r == route_spec(key@, node_id@, n as nat),
        r matches Some(i) ==> i < n,
{
    let k = crate::text::parse_u64(key);
    let cs = chars_of(node_id);
    let nid = if cs.len() > 0 {
        proof {
            assert(cs@.subrange(1, cs@.len() as int) =~= node_id@.drop_first());
        }
        parse_u64_chars(&cs, 1, cs.len())
    } else {
        None
    };
    match (k, nid) {
        (Some(k), Some(nid)) => if n > 0 && k % (n as u64) != nid {
            Some(k % (n as u64))
        } else {
            None
        },
        _ => None,
    }
}

} // verus!
