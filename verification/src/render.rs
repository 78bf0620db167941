//! The view of the local DAG that a node shows: for each round held, from the newest down,
//! each vertex by author with its node number, its parents resolved to (round, node) and
//! marked weak when they skip a round, its solid-wave vertices resolved the same way, and its
//! fast-path status. Turning the lines into text is left to the caller.

use crate::committee::{position_of, Authority};
use crate::consensus::Consensus;
use crate::dag::{CommitStatus, State, StateView};
use crate::types::{Digest, PublicKey, Round};
use vstd::prelude::*;

verus! {

/// The node number of an authority: its position in the committee, 999 when it has none.
pub open spec fn node_of(auths: Seq<Authority>, a: PublicKey) -> usize {
    match position_of(auths, a) {
        Some(i) => i as usize,
        None => 999,
    }
}

/// The position that digest `d` (of a certificate or of a header) leads to, if any.
pub open spec fn lookup(s: StateView, d: Digest) -> Option<(Round, PublicKey)> {
    if s.digest_index.contains_key(d) {
        Some(s.digest_index[d])
    } else {
        None
    }
}

/// The parents of a vertex of `round`, resolved in order: a known parent as its round, node
/// and whether it skips a round; an unknown parent as nothing, and left out on round 1.
pub open spec fn parent_refs(s: StateView, auths: Seq<Authority>, round: Round, ps: Seq<Digest>) -> Seq<Option<(Round, usize, bool)>>
    decreases ps.len(),
{
    if ps.len() == 0 {
        Seq::empty()
    } else {
        let prev = parent_refs(s, auths, round, ps.drop_last());
        match lookup(s, ps.last()) {
            Some((r, a)) => prev.push(Some((r, node_of(auths, a), r + 1 != round))),
            None => if round != 1 {
                prev.push(None)
            } else {
                prev
            },
        }
    }
}

/// Digests resolved in order to their round and node, or nothing when unknown.
pub open spec fn vertex_refs(s: StateView, auths: Seq<Authority>, ds: Seq<Digest>) -> Seq<Option<(Round, usize)>>
    decreases ds.len(),
{
    if ds.len() == 0 {
        Seq::empty()
    } else {
        let prev = vertex_refs(s, auths, ds.drop_last());
        match lookup(s, ds.last()) {
            Some((r, a)) => prev.push(Some((r, node_of(auths, a)))),
            None => prev.push(None),
        }
    }
}

/// One vertex of the view.
#[derive(Debug)]
pub struct VertexLine {
    pub author: PublicKey,
    pub node: usize,
    pub parents: Vec<Option<(Round, usize, bool)>>,
    pub solid: Vec<Option<(Round, usize)>>,
    pub merged: Vec<Option<(Round, usize)>>,
    pub status: CommitStatus,
}

/// The mathematical value of a vertex line.
#[verifier::ext_equal]
pub struct VertexLineView {
    pub author: PublicKey,
    pub node: usize,
    pub parents: Seq<Option<(Round, usize, bool)>>,
    pub solid: Seq<Option<(Round, usize)>>,
    pub merged: Seq<Option<(Round, usize)>>,
    pub status: CommitStatus,
}

impl View for VertexLine {
    type V = VertexLineView;

    open spec fn view(&self) -> VertexLineView {
        VertexLineView {
            author: self.author,
            node: self.node,
            parents: self.parents@,
            solid: self.solid@,
            merged: self.merged@,
            status: self.status,
        }
    }
}

/// The line of the vertex of author `a` in `round`.
pub open spec fn vertex_line(s: StateView, auths: Seq<Authority>, round: Round, a: PublicKey) -> VertexLineView {
    let e = s.entry(round, a);
    VertexLineView {
        author: a,
        node: node_of(auths, a),
        parents: parent_refs(s, auths, round, e.certificate.header.parents),
        solid: vertex_refs(s, auths, e.certificate.header.solid_wave_vertices),
        merged: vertex_refs(s, auths, e.certificate.header.solid_wave_vertices_merged),
        status: e.status,
    }
}

/// The lines of one round.
#[derive(Debug)]
pub struct RoundLines {
    pub round: Round,
    pub vertices: Vec<VertexLine>,
}

/// The rounds of 1 to `current` that the DAG holds, from the newest down.
pub open spec fn shown_rounds(s: StateView, current: Round) -> Seq<Round>
    decreases current,
{
    if current == 0 {
        Seq::empty()
    } else {
        let rest = shown_rounds(s, (current - 1) as Round);
        if s.dag.contains_key(current) {
            seq![current] + rest
        } else {
            rest
        }
    }
}

/// `lines` shows `round`: one line per author of the round, by increasing author.
pub open spec fn shows_round(s: StateView, auths: Seq<Authority>, round: Round, lines: Seq<VertexLineView>) -> bool {
    &&& forall|i: int, j: int| 0 <= i < j < lines.len() ==> lines[i].author < lines[j].author
    &&& forall|a: PublicKey| #[trigger] s.has_pos(round, a) <==> exists|i: int| 0 <= i < lines.len() && #[trigger] lines[i].author == a
    &&& forall|i: int| 0 <= i < lines.len() ==> #[trigger] lines[i] == vertex_line(s, auths, round, lines[i].author)
}

/// The values of the lines of one round.
pub open spec fn vertex_views(v: Seq<VertexLine>) -> Seq<VertexLineView> {
    v.map_values(|l: VertexLine| l@)
}

impl Consensus {
    fn resolve(&self, state: &State, d: Digest) -> (r: Option<(Round, usize)>)
        ensures
            r == (match lookup(state@, d) {
                Some((rd, a)) => Some((rd, node_of(self.committee.authorities@, a))),
                None => None,
            }),
    {
        match state.find_digest(d) {
            Some((rd, a)) => {
                let node = match self.committee.authority_index(a) {
                    Some(i) => i,
                    None => 999,
                };
                Some((rd, node))
            },
            None => None,
        }
    }

    fn resolve_all(&self, state: &State, ds: &Vec<Digest>) -> (r: Vec<Option<(Round, usize)>>)
        ensures
            r@ == vertex_refs(state@, self.committee.authorities@, ds@),
    {
        let mut out: Vec<Option<(Round, usize)>> = Vec::new();
        let mut i: usize = 0;
        while i < ds.len()
            invariant
                i <= ds.len(),
                out@ == vertex_refs(state@, self.committee.authorities@, ds@.subrange(0, i as int)),
            decreases ds.len() - i,
        {
            proof {
                assert(ds@.subrange(0, i as int + 1).drop_last() =~= ds@.subrange(0, i as int));
            }
            out.push(self.resolve(state, ds[i]));
            i = i + 1;
        }
        assert(ds@.subrange(0, ds.len() as int) =~= ds@);
        out
    }

    fn resolve_parents(&self, state: &State, round: Round, ps: &Vec<Digest>) -> (r: Vec<Option<(Round, usize, bool)>>)
        requires
            round >= 1,
        ensures
            r@ == parent_refs(state@, self.committee.authorities@, round, ps@),
    {
        let mut out: Vec<Option<(Round, usize, bool)>> = Vec::new();
        let mut i: usize = 0;
        while i < ps.len()
            invariant
                i <= ps.len(),
                round >= 1,
                out@ == parent_refs(state@, self.committee.authorities@, round, ps@.subrange(0, i as int)),
            decreases ps.len() - i,
        {
            proof {
                assert(ps@.subrange(0, i as int + 1).drop_last() =~= ps@.subrange(0, i as int));
            }
            match self.resolve(state, ps[i]) {
                Some((rd, node)) => out.push(Some((rd, node, rd != round - 1))),
                None => {
                    if round != 1 {
                        out.push(None);
                    }
                },
            }
            i = i + 1;
        }
        assert(ps@.subrange(0, ps.len() as int) =~= ps@);
        out
    }

    /// The view of the DAG from round `current_round` down to round 1 (see `shown_rounds`,
    /// `shows_round` and `vertex_line`).
    pub fn dag_lines(&self, state: &State, current_round: Round) -> (r: Vec<RoundLines>)
        ensures
            r@.map_values(|l: RoundLines| l.round) == shown_rounds(state@, current_round),
            forall|i: int| 0 <= i < r@.len() ==> shows_round(
                state@,
                self.committee.authorities@,
                #[trigger] r@[i].round,
                vertex_views(r@[i].vertices@),
            ),
    {
        let mut out: Vec<RoundLines> = Vec::new();
        let mut round = current_round;
        let ghost auths = self.committee.authorities@;
        assert(out@.map_values(|l: RoundLines| l.round) + shown_rounds(state@, round) =~= shown_rounds(state@, current_round));
        while round > 0
            invariant
                auths == self.committee.authorities@,
                out@.map_values(|l: RoundLines| l.round) + shown_rounds(state@, round) == shown_rounds(state@, current_round),
                forall|i: int| 0 <= i < out@.len() ==> shows_round(state@, auths, #[trigger] out@[i].round, vertex_views(out@[i].vertices@)),
            decreases round,
        {
            let ghost before = out@;
            if state.round_len(round).is_some() {
                let vertices = self.round_lines(state, round);
                out.push(RoundLines { round, vertices });
                assert(out@.map_values(|l: RoundLines| l.round) =~= before.map_values(|l: RoundLines| l.round).push(round));
                assert(shown_rounds(state@, round) == seq![round] + shown_rounds(state@, (round - 1) as Round));
                assert(out@.map_values(|l: RoundLines| l.round) + shown_rounds(state@, (round - 1) as Round)
                    =~= before.map_values(|l: RoundLines| l.round) + shown_rounds(state@, round));
            }
            round = round - 1;
        }
        out
    }

    fn round_lines(&self, state: &State, round: Round) -> (r: Vec<VertexLine>)
        requires
            round >= 1,
        ensures
            shows_round(state@, self.committee.authorities@, round, vertex_views(r@)),
    {
        let present = state.round_authors(round);
        proof {
            assert forall|a: PublicKey| #[trigger] state@.has_pos(round, a) <==> present@.contains(a) by {
                if state@.dag.contains_key(round) {
                    assert(present@.to_set().contains(a) == state@.dag[round].dom().contains(a));
                }
            }
        }
        let authors = sort_authors(&present);
        let mut out: Vec<VertexLine> = Vec::new();
        let mut i: usize = 0;
        while i < authors.len()
            invariant
                round >= 1,
                i <= authors.len(),
                out@.len() == i,
                forall|a: int, b: int| 0 <= a < b < authors@.len() ==> authors@[a] < authors@[b],
                forall|a: PublicKey| #[trigger] state@.has_pos(round, a) <==> authors@.contains(a),
                forall|k: int| 0 <= k < i ==> #[trigger] vertex_views(out@)[k] == vertex_line(state@, self.committee.authorities@, round, authors@[k]),
            decreases authors.len() - i,
        {
            let a = authors[i];
            assert(authors@.contains(a));
            let entry = match state.get_entry(round, a) {
                Some(e) => e,
                None => {
                    assert(false);
                    return Vec::new();
                },
            };
            let node = match self.committee.authority_index(a) {
                Some(k) => k,
                None => 999,
            };
            let parents = self.resolve_parents(state, round, &entry.certificate.header.parents);
            let solid = self.resolve_all(state, &entry.certificate.header.solid_wave_vertices);
            let merged = self.resolve_all(state, &entry.certificate.header.solid_wave_vertices_merged);
            let ghost before = out@;
            let line = VertexLine { author: a, node, parents, solid, merged, status: entry.status };
            proof {
                assert(entry@ == state@.entry(round, a));
                assert(node == node_of(self.committee.authorities@, a));
                assert(line@ == vertex_line(state@, self.committee.authorities@, round, a));
            }
            out.push(line);
            assert(vertex_views(out@) =~= vertex_views(before).push(line@));
            assert forall|k: int| 0 <= k < i + 1 implies #[trigger] vertex_views(out@)[k] == vertex_line(state@, self.committee.authorities@, round, authors@[k]) by {
                if k < i {
                    assert(out@[k] == before[k]);
                }
            }
            i = i + 1;
        }
        proof {
            let vv = vertex_views(out@);
            assert forall|a: PublicKey| #[trigger] state@.has_pos(round, a) <==> exists|k: int| 0 <= k < vv.len() && #[trigger] vv[k].author == a by {
                if state@.has_pos(round, a) {
                    let k = choose|k: int| 0 <= k < authors@.len() && authors@[k] == a;
                    assert(vv[k].author == a);
                }
                if exists|k: int| 0 <= k < vv.len() && #[trigger] vv[k].author == a {
                    let k = choose|k: int| 0 <= k < vv.len() && #[trigger] vv[k].author == a;
                    assert(authors@[k] == a);
                    assert(authors@.contains(a));
                }
            }
        }
        out
    }
}

/// Sorts distinct authors increasingly.
fn sort_authors(v: &Vec<PublicKey>) -> (r: Vec<PublicKey>)
    requires
        v@.no_duplicates(),
    ensures
        forall|a: int, b: int| 0 <= a < b < r@.len() ==> r@[a] < r@[b],
        forall|x: PublicKey| r@.contains(x) <==> v@.contains(x),
{
    let mut out: Vec<PublicKey> = Vec::new();
    let mut i: usize = 0;
    while i < v.len()
        invariant
            i <= v.len(),
            v@.no_duplicates(),
            forall|a: int, b: int| 0 <= a < b < out@.len() ==> out@[a] < out@[b],
            forall|x: PublicKey| out@.contains(x) <==> v@.subrange(0, i as int).contains(x),
        decreases v.len() - i,
    {
        let x = v[i];
        let mut p: usize = 0;
        while p < out.len() && out[p] < x
            invariant
                p <= out@.len(),
                forall|a: int| 0 <= a < p ==> out@[a] < x,
            decreases out@.len() - p,
        {
            p = p + 1;
        }
        let ghost out0 = out@;
        proof {
            assert(!v@.subrange(0, i as int).contains(x)) by {
                if v@.subrange(0, i as int).contains(x) {
                    let k = choose|k: int| 0 <= k < i && v@.subrange(0, i as int)[k] == x;
                    assert(v@[k] == v@[i as int]);
                }
            }
            if p < out0.len() {
                assert(out0.contains(out0[p as int]));
                assert(out0[p as int] != x);
            }
        }
        out.insert(p, x);
        proof {
            out0.insert_ensures(p as int, x);
            assert forall|a: int, b: int| 0 <= a < b < out@.len() implies out@[a] < out@[b] by {
                if a < p && b > p {
                    assert(out@[a] == out0[a] && out@[b] == out0[b - 1]);
                } else if a == p {
                    assert(out@[b] == out0[b - 1]);
                    assert(out0[p as int] <= out0[b - 1]);
                } else if b == p {
                    assert(out@[a] == out0[a]);
                } else if a > p {
                    assert(out@[a] == out0[a - 1] && out@[b] == out0[b - 1]);
                } else {
                    assert(out@[a] == out0[a] && out@[b] == out0[b]);
                }
            }
            assert(v@.subrange(0, i as int + 1) =~= v@.subrange(0, i as int).push(x));
            assert forall|y: PublicKey| out@.contains(y) <==> v@.subrange(0, i as int + 1).contains(y) by {
                broadcast use vstd::seq_lib::group_seq_properties;
                if out@.contains(y) {
                    let k = choose|k: int| 0 <= k < out@.len() && out@[k] == y;
                    if k < p {
                        assert(out0[k] == y);
                    } else if k > p {
                        assert(out0[k - 1] == y);
                    }
                }
                if out0.contains(y) {
                    let k = choose|k: int| 0 <= k < out0.len() && out0[k] == y;
                    if k < p {
                        assert(out@[k] == y);
                    } else {
                        assert(out@[k + 1] == y);
                    }
                }
                if y == x {
                    assert(out@[p as int] == x);
                }
            }
        }
        i = i + 1;
    }
    assert(v@.subrange(0, v.len() as int) =~= v@);
    out
}

} // verus!
