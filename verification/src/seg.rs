//! The segmentation lattice: its mathematical model and the passes shared by
//! every lookup strategy.
//!
//! All indexing is in character-boundary units. The forward pass fills one
//! lattice cell per boundary; the backward pass follows the winning edges.
use vstd::prelude::*;

verus! {

/// Largest magnitude a piece score may have. Keeps every path sum inside `i64`.
pub const SCORE_LIMIT: i64 = 0x8000_0000;

/// Largest input length (in characters) `tokenize` accepts; with
/// `SCORE_LIMIT` this keeps every lattice score inside `i64`.
pub const MAX_TEXT_LEN: usize = 0x7FFF_FFFF;

/// Score recorded on a fallback edge for an unknown character: lower than any
/// sum of real piece scores.
pub const UNKNOWN_SCORE: i64 = i64::MIN;

/// The reserved word-boundary marker substituted for spaces.
pub const BOUNDARY_MARKER: char = '\u{2581}';

/// One edge of the segmentation lattice: the piece covering character
/// boundaries `[start, end)` of the normalized input.
#[derive(Clone, Copy, PartialEq, Eq, Structural, Debug)]
pub struct Node {
    pub score: i64,
    pub index: i32,
    pub start: usize,
    pub end: usize,
}

/// Score and id a vocabulary associates with one piece text.
pub ghost struct PieceData {
    pub score: int,
    pub index: int,
}

/// Mathematical edge: what a `Node` stands for.
pub ghost struct SpecEdge {
    pub score: int,
    pub index: int,
    pub start: int,
    pub end: int,
}

pub open spec fn edge_model(n: Node) -> SpecEdge {
    SpecEdge { score: n.score as int, index: n.index as int, start: n.start as int, end: n.end as int }
}

pub open spec fn opt_edge_model(o: Option<Node>) -> Option<SpecEdge> {
    match o {
        Some(n) => Some(edge_model(n)),
        None => None,
    }
}

pub open spec fn norm_char(c: char) -> char {
    if c == ' ' { BOUNDARY_MARKER } else { c }
}

pub open spec fn denorm_char(c: char) -> char {
    if c == BOUNDARY_MARKER { ' ' } else { c }
}

/// Word-boundary substitution: every space becomes the marker.
pub open spec fn normalize_spec(s: Seq<char>) -> Seq<char> {
    s.map_values(|c: char| norm_char(c))
}

/// Reverses the word-boundary substitution.
pub open spec fn denormalize_spec(s: Seq<char>) -> Seq<char> {
    s.map_values(|c: char| denorm_char(c))
}

/// The mapping a list of `(text, score, id)` entries builds, later entries
/// overwriting earlier ones.
pub open spec fn entries_map(es: Seq<(Seq<char>, int, int)>) -> Map<Seq<char>, PieceData>
    decreases es.len(),
{
    if es.len() == 0 {
        Map::empty()
    } else {
        entries_map(es.drop_last()).insert(
            es.last().0,
            PieceData { score: es.last().1, index: es.last().2 },
        )
    }
}

/// The vocabulary built from an ordered piece list, ids positional,
/// last entry winning on a repeated text.
pub open spec fn pieces_vmap(ps: Seq<(Seq<char>, int)>) -> Map<Seq<char>, PieceData>
    decreases ps.len(),
{
    if ps.len() == 0 {
        Map::empty()
    } else {
        pieces_vmap(ps.drop_last()).insert(
            ps.last().0,
            PieceData { score: ps.last().1, index: ps.len() - 1 },
        )
    }
}

/// Every piece is nonempty with a score within `SCORE_LIMIT`.
pub open spec fn vocab_bounded(v: Map<Seq<char>, PieceData>) -> bool {
    forall|k: Seq<char>| v.contains_key(k) ==> k.len() >= 1
        && -(SCORE_LIMIT as int) <= (#[trigger] v[k]).score <= SCORE_LIMIT as int
}

/// Best edge ending at `end` among candidate start boundaries `0 .. k`,
/// considered in increasing order; a later candidate wins only by a strictly
/// greater score. `lat` supplies the best score at each earlier boundary.
pub open spec fn scan(
    v: Map<Seq<char>, PieceData>,
    text: Seq<char>,
    lat: Seq<(int, Option<SpecEdge>)>,
    end: int,
    k: int,
) -> Option<SpecEdge>
    decreases k,
{
    if k <= 0 {
        None
    } else {
        let prior = scan(v, text, lat, end, k - 1);
        let s = k - 1;
        let piece = text.subrange(s, end);
        if 0 <= s && s < lat.len() && s < end && end <= text.len() && v.contains_key(piece) {
            let cand = SpecEdge {
                score: lat[s].0 + v[piece].score,
                index: v[piece].index,
                start: s,
                end: end,
            };
            match prior {
                None => Some(cand),
                Some(e) => if cand.score > e.score { Some(cand) } else { prior },
            }
        } else {
            prior
        }
    }
}

/// The lattice over boundaries `0 ..= n`: cell 0 is `(0, None)`; each later
/// cell holds the best edge ending there, or the fallback single-character
/// edge (score reset to 0) when no piece closes the boundary.
pub open spec fn lattice(
    v: Map<Seq<char>, PieceData>,
    text: Seq<char>,
    n: int,
) -> Seq<(int, Option<SpecEdge>)>
    decreases n,
{
    if n <= 0 {
        seq![(0int, None::<SpecEdge>)]
    } else {
        let prior = lattice(v, text, n - 1);
        match scan(v, text, prior, n, n) {
            Some(e) => prior.push((e.score, Some(e))),
            None => prior.push(
                (0int, Some(SpecEdge { score: UNKNOWN_SCORE as int, index: 0, start: n - 1, end: n })),
            ),
        }
    }
}

/// The winning edge sequence from boundary 0 to boundary `i`.
pub open spec fn path_from(lat: Seq<(int, Option<SpecEdge>)>, i: int) -> Seq<SpecEdge>
    decreases i,
{
    if i <= 0 || i >= lat.len() {
        Seq::empty()
    } else {
        match lat[i].1 {
            None => Seq::empty(),
            Some(e) => if 0 <= e.start && e.start < i {
                path_from(lat, e.start).push(e)
            } else {
                seq![e]
            },
        }
    }
}

/// What `tokenize` returns on a normalized input: the texts of the winning
/// edge sequence.
pub open spec fn spec_tokens(v: Map<Seq<char>, PieceData>, text: Seq<char>) -> Seq<Seq<char>> {
    path_from(lattice(v, text, text.len() as int), text.len() as int).map_values(
        |e: SpecEdge| text.subrange(e.start, e.end),
    )
}

/// Concatenation of a token sequence.
pub open spec fn concat_all(ts: Seq<Seq<char>>) -> Seq<char>
    decreases ts.len(),
{
    if ts.len() == 0 {
        Seq::empty()
    } else {
        concat_all(ts.drop_last()) + ts.last()
    }
}

pub proof fn lemma_lattice_len(v: Map<Seq<char>, PieceData>, text: Seq<char>, n: int)
    ensures
        lattice(v, text, n).len() == if n <= 0 { 1int } else { n + 1 },
    decreases n,
{
    if n > 0 {
        lemma_lattice_len(v, text, n - 1);
    }
}

/// A cell keeps its value as the lattice grows.
pub proof fn lemma_lattice_stable(v: Map<Seq<char>, PieceData>, text: Seq<char>, n: int, j: int)
    requires
        0 <= j <= n,
    ensures
        lattice(v, text, n)[j] == lattice(v, text, j)[j],
    decreases n,
{
    lemma_lattice_len(v, text, n);
    if j < n {
        lemma_lattice_len(v, text, n - 1);
        lemma_lattice_stable(v, text, n - 1, j);
    }
}

/// What a successful scan says of its result.
pub proof fn lemma_scan_props(
    v: Map<Seq<char>, PieceData>,
    text: Seq<char>,
    lat: Seq<(int, Option<SpecEdge>)>,
    end: int,
    k: int,
)
    ensures
        match scan(v, text, lat, end, k) {
            Some(e) => {
                &&& 0 <= e.start < k
                &&& e.start < lat.len()
                &&& e.end == end
                &&& e.start < end <= text.len()
                &&& v.contains_key(text.subrange(e.start, end))
                &&& e.score == lat[e.start].0 + v[text.subrange(e.start, end)].score
                &&& e.index == v[text.subrange(e.start, end)].index
            },
            None => true,
        },
    decreases k,
{
    if k > 0 {
        lemma_scan_props(v, text, lat, end, k - 1);
    }
}

/// Two score columns that agree below `k` give the same scan.
pub proof fn lemma_scan_agree(
    v: Map<Seq<char>, PieceData>,
    text: Seq<char>,
    lat1: Seq<(int, Option<SpecEdge>)>,
    lat2: Seq<(int, Option<SpecEdge>)>,
    end: int,
    k: int,
)
    requires
        k <= lat1.len(),
        k <= lat2.len(),
        forall|j: int| 0 <= j < k ==> (#[trigger] lat1[j]).0 == lat2[j].0,
    ensures
        scan(v, text, lat1, end, k) == scan(v, text, lat2, end, k),
    decreases k,
{
    if k > 0 {
        lemma_scan_agree(v, text, lat1, lat2, end, k - 1);
    }
}

/// Shape of every lattice cell: cell 0 is empty, every later cell holds an
/// edge ending there that starts strictly earlier.
pub proof fn lemma_lattice_wf(v: Map<Seq<char>, PieceData>, text: Seq<char>, n: int, j: int)
    requires
        0 <= j <= n,
        n <= text.len(),
    ensures
        lattice(v, text, n)[j].1 matches Some(e) ==> {
            &&& 0 <= e.start < j
            &&& e.end == j
            &&& j <= text.len()
        },
        j == 0 ==> lattice(v, text, n)[j].1 is None,
        j >= 1 ==> lattice(v, text, n)[j].1 is Some,
    decreases n,
{
    lemma_lattice_len(v, text, n);
    if n > 0 {
        if j < n {
            lemma_lattice_len(v, text, n - 1);
            lemma_lattice_wf(v, text, n - 1, j);
        } else {
            lemma_scan_props(v, text, lattice(v, text, n - 1), n, n);
        }
    }
}

/// Every lattice score is bounded by the boundary index times `SCORE_LIMIT`.
pub proof fn lemma_lattice_bound(v: Map<Seq<char>, PieceData>, text: Seq<char>, n: int)
    requires
        vocab_bounded(v),
        n <= text.len(),
    ensures
        forall|j: int| 0 <= j <= n && j < lattice(v, text, n).len()
            ==> -(j * (SCORE_LIMIT as int)) <= (#[trigger] lattice(v, text, n)[j]).0
                <= j * (SCORE_LIMIT as int),
    decreases n,
{
    lemma_lattice_len(v, text, n);
    if n <= 0 {
    } else {
        lemma_lattice_bound(v, text, n - 1);
        lemma_lattice_len(v, text, n - 1);
        let prior = lattice(v, text, n - 1);
        lemma_scan_props(v, text, prior, n, n);
        match scan(v, text, prior, n, n) {
            Some(e) => {
                assert(-((n - 1) * (SCORE_LIMIT as int)) <= prior[e.start].0
                    <= (n - 1) * (SCORE_LIMIT as int)) by (nonlinear_arith)
                    requires
                        0 <= e.start <= n - 1,
                        -(e.start * (SCORE_LIMIT as int)) <= prior[e.start].0
                            <= e.start * (SCORE_LIMIT as int),
                        SCORE_LIMIT as int > 0,
                {}
                assert(e.score == prior[e.start].0 + v[text.subrange(e.start, n)].score);
            },
            None => {},
        }
    }
}

/// A cell of the finished lattice is determined by a full scan against the
/// finished lattice itself: earlier cells never change afterwards.
pub proof fn lemma_cell_scan(v: Map<Seq<char>, PieceData>, text: Seq<char>, n: int, e: int)
    requires
        1 <= e <= n,
        n <= text.len(),
    ensures
        lattice(v, text, n)[e] == (match scan(v, text, lattice(v, text, n), e, e) {
            Some(se) => (se.score, Some(se)),
            None => (
                0int,
                Some(SpecEdge { score: UNKNOWN_SCORE as int, index: 0, start: e - 1, end: e }),
            ),
        }),
{
    lemma_lattice_stable(v, text, n, e);
    lemma_lattice_len(v, text, e);
    lemma_lattice_len(v, text, e - 1);
    lemma_lattice_len(v, text, n);
    assert forall|j: int| 0 <= j < e implies (#[trigger] lattice(v, text, e - 1)[j]).0 == lattice(
        v,
        text,
        n,
    )[j].0 by {
        lemma_lattice_stable(v, text, e - 1, j);
        lemma_lattice_stable(v, text, n, j);
    }
    lemma_scan_agree(v, text, lattice(v, text, e - 1), lattice(v, text, n), e, e);
}

/// The state of one lattice cell during a forward pass: the stored edge and
/// score agree with the given scan result.
pub open spec fn cell_state(res: Option<Node>, sc: i64, so: Option<SpecEdge>) -> bool {
    opt_edge_model(res) == so && (so matches Some(se) ==> sc as int == se.score)
}

/// View of an edge vector.
pub open spec fn edges_model(s: Seq<Node>) -> Seq<SpecEdge> {
    s.map_values(|nd: Node| edge_model(nd))
}

/// View of a token vector.
pub open spec fn strings_view(s: Seq<String>) -> Seq<Seq<char>> {
    s.map_values(|t: String| t@)
}

/// The backward pass reads only the edge column, so two lattices that agree
/// there give the same path.
pub proof fn lemma_path_agree(
    lat1: Seq<(int, Option<SpecEdge>)>,
    lat2: Seq<(int, Option<SpecEdge>)>,
    i: int,
)
    requires
        lat1.len() == lat2.len(),
        forall|j: int| 0 <= j < lat1.len() ==> (#[trigger] lat1[j]).1 == lat2[j].1,
    ensures
        path_from(lat1, i) == path_from(lat2, i),
    decreases i,
{
    if 0 < i && i < lat1.len() {
        match lat1[i].1 {
            None => {},
            Some(e) => {
                if 0 <= e.start && e.start < i {
                    lemma_path_agree(lat1, lat2, e.start);
                }
            },
        }
    }
}

/// Every edge on the winning path covers a nonempty range inside `[0, i]`.
pub proof fn lemma_path_edges_wf(lat: Seq<(int, Option<SpecEdge>)>, i: int)
    requires
        i < lat.len(),
        forall|j: int| 1 <= j < lat.len() ==> ((#[trigger] lat[j]).1 matches Some(e) ==> 0
            <= e.start < j && e.end == j),
    ensures
        forall|t: int| 0 <= t < path_from(lat, i).len() ==> 0 <= (#[trigger] path_from(
            lat,
            i,
        )[t]).start < path_from(lat, i)[t].end <= i,
    decreases i,
{
    if 0 < i && i < lat.len() {
        match lat[i].1 {
            None => {},
            Some(e) => {
                assert(0 <= e.start && e.start < i && e.end == i);
                lemma_path_edges_wf(lat, e.start);
                let p0 = path_from(lat, e.start);
                let p = path_from(lat, i);
                assert(p == p0.push(e));
                assert forall|t: int| 0 <= t < p.len() implies 0 <= (#[trigger] p[t]).start
                    < p[t].end <= i by {
                    if t < p0.len() {
                        assert(p[t] == p0[t]);
                    } else {
                        assert(p[t] == e);
                    }
                }
            },
        }
    }
}

/// The lattice model an edge vector stands for (scores are not read by the
/// backward pass, so the column is zero).
pub open spec fn lat_model(ns: Seq<Option<Node>>) -> Seq<(int, Option<SpecEdge>)> {
    ns.map_values(|o: Option<Node>| (0int, opt_edge_model(o)))
}

/// A well-formed edge vector: one cell per boundary, cell 0 empty, every
/// later cell an edge ending there that starts strictly earlier.
pub open spec fn wf_edges(ns: Seq<Option<Node>>) -> bool {
    &&& ns.len() >= 1
    &&& ns[0] is None
    &&& forall|j: int| 1 <= j < ns.len() ==> ((#[trigger] ns[j]) matches Some(nd)
        && nd.end == j && (nd.start as int) < j)
}

/// Relies on `String::push`: appends the given character to the string.
#[verifier::external_body]
fn push_char(s: &mut String, c: char)
    ensures
        final(s)@ == old(s)@.push(c),
{
    s.push(c)
}

/// Substitutes the word-boundary marker for every space.
pub fn normalize(text: &str) -> (r: String)
    ensures
        r@ == normalize_spec(text@),
{
    let n = text.unicode_len();
    let mut out = String::new();
    let mut i: usize = 0;
    while i < n
        invariant
            n == text@.len(),
            i <= n,
            out@ == normalize_spec(text@.subrange(0, i as int)),
        decreases n - i,
    {
        let c = text.get_char(i);
        push_char(&mut out, if c == ' ' { BOUNDARY_MARKER } else { c });
        proof {
            assert(normalize_spec(text@.subrange(0, i + 1)) =~= normalize_spec(
                text@.subrange(0, i as int),
            ).push(norm_char(text@[i as int])));
        }
        i += 1;
    }
    proof {
        assert(text@.subrange(0, n as int) =~= text@);
    }
    out
}

/// The backward pass: follows the winning edges from the last boundary back
/// to 0 and returns them in left-to-right order.
pub fn backward(nodes: &Vec<Option<Node>>) -> (r: Vec<Node>)
    requires
        wf_edges(nodes@),
    ensures
        edges_model(r@) == path_from(lat_model(nodes@), nodes@.len() - 1),
{
    let ghost lm = lat_model(nodes@);
    let n = nodes.len() - 1;
    let mut rev: Vec<Node> = Vec::new();
    let mut cur: usize = n;
    loop
        invariant
            wf_edges(nodes@),
            lm == lat_model(nodes@),
            n == nodes@.len() - 1,
            cur <= n,
            path_from(lm, n as int) == path_from(lm, cur as int) + rev@.map_values(
                |nd: Node| edge_model(nd),
            ).reverse(),
        ensures
            path_from(lm, n as int) == rev@.map_values(|nd: Node| edge_model(nd)).reverse(),
        decreases cur,
    {
        match nodes[cur] {
            None => {
                proof {
                    assert(cur == 0);
                    assert(path_from(lm, 0) == Seq::<SpecEdge>::empty());
                    assert(path_from(lm, n as int) =~= rev@.map_values(
                        |nd: Node| edge_model(nd),
                    ).reverse());
                }
                break;
            },
            Some(nd) => {
                proof {
                    assert(lm[cur as int].1 == Some(edge_model(nd)));
                    let em = edge_model(nd);
                    assert(path_from(lm, cur as int) == path_from(lm, em.start).push(em));
                    assert(rev@.push(nd).map_values(|x: Node| edge_model(x)) =~= rev@.map_values(
                        |x: Node| edge_model(x),
                    ).push(em));
                    assert(rev@.push(nd).map_values(|x: Node| edge_model(x)).reverse() =~= seq![em]
                        + rev@.map_values(|x: Node| edge_model(x)).reverse());
                    assert(path_from(lm, em.start) + (seq![em] + rev@.map_values(
                        |x: Node| edge_model(x),
                    ).reverse()) =~= path_from(lm, em.start).push(em) + rev@.map_values(
                        |x: Node| edge_model(x),
                    ).reverse());
                }
                rev.push(nd);
                cur = nd.start;
            },
        }
    }
    let m = rev.len();
    let mut out: Vec<Node> = Vec::new();
    let mut i: usize = 0;
    while i < m
        invariant
            m == rev@.len(),
            i <= m,
            out@.len() == i,
            forall|j: int| 0 <= j < i ==> out@[j] == rev@[m - 1 - j],
        decreases m - i,
    {
        out.push(rev[m - 1 - i]);
        i += 1;
    }
    proof {
        assert(out@ =~= rev@.reverse());
        assert(out@.map_values(|nd: Node| edge_model(nd)) =~= rev@.map_values(
            |nd: Node| edge_model(nd),
        ).reverse());
        assert(edges_model(out@) =~= out@.map_values(|nd: Node| edge_model(nd)));
    }
    out
}

pub proof fn lemma_concat_push(ts: Seq<Seq<char>>, t: Seq<char>)
    ensures
        concat_all(ts.push(t)) == concat_all(ts) + t,
{
    assert(ts.push(t).drop_last() =~= ts);
    assert(ts.push(t).last() == t);
}

/// The winning path from 0 to `i` tiles the prefix of the text exactly.
pub proof fn lemma_path_cover(v: Map<Seq<char>, PieceData>, text: Seq<char>, n: int, i: int)
    requires
        0 <= i <= n,
        n <= text.len(),
    ensures
        concat_all(
            path_from(lattice(v, text, n), i).map_values(
                |e: SpecEdge| text.subrange(e.start, e.end),
            ),
        ) == text.subrange(0, i),
    decreases i,
{
    let lat = lattice(v, text, n);
    lemma_lattice_len(v, text, n);
    lemma_lattice_wf(v, text, n, i);
    let f = |e: SpecEdge| text.subrange(e.start, e.end);
    if i == 0 {
        assert(path_from(lat, 0) == Seq::<SpecEdge>::empty());
        assert(path_from(lat, 0).map_values(f) =~= Seq::<Seq<char>>::empty());
        assert(text.subrange(0, 0) =~= Seq::<char>::empty());
    } else {
        let e = lat[i].1->Some_0;
        lemma_path_cover(v, text, n, e.start);
        assert(path_from(lat, i) == path_from(lat, e.start).push(e));
        assert(path_from(lat, e.start).push(e).map_values(f) =~= path_from(lat, e.start).map_values(
            f,
        ).push(f(e)));
        lemma_concat_push(path_from(lat, e.start).map_values(f), f(e));
        assert(text.subrange(0, e.start) + text.subrange(e.start, i) =~= text.subrange(0, i));
    }
}

/// Coverage: the tokens of any input concatenate back to that input exactly.
pub proof fn lemma_tokens_cover(v: Map<Seq<char>, PieceData>, text: Seq<char>)
    ensures
        concat_all(spec_tokens(v, text)) == text,
{
    lemma_path_cover(v, text, text.len() as int, text.len() as int);
    assert(text.subrange(0, text.len() as int) =~= text);
}

/// Idempotence: concatenating the tokens, undoing the word-boundary
/// substitution, and tokenizing again gives the same token sequence.
pub proof fn lemma_tokenize_idempotent(v: Map<Seq<char>, PieceData>, s: Seq<char>)
    ensures
        spec_tokens(
            v,
            normalize_spec(denormalize_spec(concat_all(spec_tokens(v, normalize_spec(s))))),
        ) == spec_tokens(v, normalize_spec(s)),
{
    let ns = normalize_spec(s);
    lemma_tokens_cover(v, ns);
    assert(normalize_spec(denormalize_spec(ns)) =~= ns) by {
        assert forall|i: int| 0 <= i < ns.len() implies normalize_spec(denormalize_spec(ns))[i]
            == ns[i] by {
            assert(ns[i] == norm_char(s[i]));
        }
    }
}

/// Strategy agreement: every lookup strategy returns the one token sequence
/// the lattice determines, so two strategies run against the same vocabulary
/// mapping and input return identical tokens.
pub proof fn lemma_strategies_agree(
    v: Map<Seq<char>, PieceData>,
    s: Seq<char>,
    r1: Seq<Seq<char>>,
    r2: Seq<Seq<char>>,
)
    requires
        r1 == spec_tokens(v, normalize_spec(s)),
        r2 == spec_tokens(v, normalize_spec(s)),
    ensures
        r1 == r2,
{
}

/// A segmentation of a prefix of the text into vocabulary pieces, given by
/// its cut boundaries.
pub open spec fn valid_segmentation(
    v: Map<Seq<char>, PieceData>,
    text: Seq<char>,
    cuts: Seq<int>,
) -> bool {
    &&& cuts.len() >= 1
    &&& cuts[0] == 0
    &&& cuts.last() <= text.len()
    &&& forall|t: int| 0 <= t < cuts.len() - 1 ==> (#[trigger] cuts[t]) < cuts[t + 1]
        && v.contains_key(text.subrange(cuts[t], cuts[t + 1]))
}

/// The total score of a segmentation.
pub open spec fn seg_score(v: Map<Seq<char>, PieceData>, text: Seq<char>, cuts: Seq<int>) -> int
    decreases cuts.len(),
{
    if cuts.len() <= 1 {
        0
    } else {
        seg_score(v, text, cuts.drop_last()) + v[text.subrange(
            cuts[cuts.len() - 2],
            cuts.last(),
        )].score
    }
}

/// A scan dominates every candidate it has considered.
proof fn lemma_scan_lower(
    v: Map<Seq<char>, PieceData>,
    text: Seq<char>,
    lat: Seq<(int, Option<SpecEdge>)>,
    end: int,
    k: int,
    s: int,
)
    requires
        0 <= s < k,
        s < lat.len(),
        s < end <= text.len(),
        v.contains_key(text.subrange(s, end)),
    ensures
        scan(v, text, lat, end, k) matches Some(e) && e.score >= lat[s].0 + v[text.subrange(
            s,
            end,
        )].score,
    decreases k,
{
    if s == k - 1 {
    } else {
        lemma_scan_lower(v, text, lat, end, k - 1, s);
    }
}

/// One half of the optimality of the forward pass: the lattice score at any
/// boundary is at least the score of every segmentation of that prefix into
/// vocabulary pieces.
pub proof fn lemma_dp_dominates(
    v: Map<Seq<char>, PieceData>,
    text: Seq<char>,
    n: int,
    cuts: Seq<int>,
)
    requires
        valid_segmentation(v, text, cuts),
        cuts.last() <= n <= text.len(),
    ensures
        lattice(v, text, n)[cuts.last()].0 >= seg_score(v, text, cuts),
    decreases cuts.len(),
{
    let lt = lattice(v, text, n);
    lemma_lattice_len(v, text, n);
    if cuts.len() == 1 {
        lemma_lattice_stable(v, text, n, 0);
    } else {
        let prev = cuts.drop_last();
        let s = cuts[cuts.len() - 2];
        let i = cuts.last();
        assert(valid_segmentation(v, text, prev)) by {
            assert(forall|t: int| 0 <= t < prev.len() ==> #[trigger] prev[t] == cuts[t]);
            assert(prev.last() < i);
        }
        lemma_dp_dominates(v, text, n, prev);
        assert(0 <= s) by {
            assert(forall|t: int| 0 <= t < cuts.len() - 1 ==> #[trigger] cuts[t] < cuts[t + 1]);
            lemma_cuts_ascending(cuts);
        }
        lemma_cell_scan(v, text, n, i);
        lemma_scan_lower(v, text, lt, i, i, s);
    }
}

/// Cut boundaries are at least 0 throughout.
proof fn lemma_cuts_ascending(cuts: Seq<int>)
    requires
        cuts.len() >= 1,
        cuts[0] == 0,
        forall|t: int| 0 <= t < cuts.len() - 1 ==> (#[trigger] cuts[t]) < cuts[t + 1],
    ensures
        forall|t: int| 0 <= t < cuts.len() ==> (#[trigger] cuts[t]) >= t,
    decreases cuts.len(),
{
    assert forall|t: int| 0 <= t < cuts.len() implies (#[trigger] cuts[t]) >= t by {
        lemma_cut_at_least(cuts, t);
    }
}

proof fn lemma_cut_at_least(cuts: Seq<int>, t: int)
    requires
        cuts.len() >= 1,
        cuts[0] == 0,
        forall|u: int| 0 <= u < cuts.len() - 1 ==> (#[trigger] cuts[u]) < cuts[u + 1],
        0 <= t < cuts.len(),
    ensures
        cuts[t] >= t,
    decreases t,
{
    if t > 0 {
        lemma_cut_at_least(cuts, t - 1);
        assert(cuts[t - 1] < cuts[t]);
    }
}

/// Whether the cell at boundary `j` was filled by the fallback rule.
pub open spec fn is_fallback_cell(lat: Seq<(int, Option<SpecEdge>)>, j: int) -> bool {
    lat[j].1 matches Some(e) && e.score == UNKNOWN_SCORE as int
}

/// The other half of the optimality of the forward pass: below the first
/// fallback cell, the lattice score at a boundary is achieved by an actual
/// segmentation into vocabulary pieces, so together with domination it is the
/// true maximum. Where the fallback rule has intentionally reset a score, no
/// such segmentation is claimed.
pub proof fn lemma_dp_achievable(v: Map<Seq<char>, PieceData>, text: Seq<char>, n: int, i: int)
    requires
        vocab_bounded(v),
        0 <= i <= n <= text.len(),
        n <= MAX_TEXT_LEN,
        forall|j: int| 1 <= j <= i ==> !is_fallback_cell(#[trigger] lattice(v, text, n), j),
    ensures
        exists|cuts: Seq<int>| #[trigger] valid_segmentation(v, text, cuts) && cuts.last() == i
            && seg_score(v, text, cuts) == lattice(v, text, n)[i].0,
    decreases i,
{
    let lt = lattice(v, text, n);
    lemma_lattice_len(v, text, n);
    lemma_lattice_bound(v, text, n);
    if i == 0 {
        let cuts: Seq<int> = seq![0int];
        lemma_lattice_stable(v, text, n, 0);
        assert(valid_segmentation(v, text, cuts) && cuts.last() == 0 && seg_score(v, text, cuts)
            == lt[0].0);
    } else {
        lemma_cell_scan(v, text, n, i);
        match scan(v, text, lt, i, i) {
            Some(e) => {
                lemma_scan_props(v, text, lt, i, i);
                let s = e.start;
                lemma_dp_achievable(v, text, n, s);
                let prev = choose|cuts: Seq<int>|
                    #[trigger] valid_segmentation(v, text, cuts) && cuts.last() == s && seg_score(
                        v,
                        text,
                        cuts,
                    ) == lt[s].0;
                let cuts = prev.push(i);
                assert(valid_segmentation(v, text, cuts)) by {
                    assert(forall|t: int| 0 <= t < prev.len() ==> #[trigger] cuts[t] == prev[t]);
                    assert(cuts[cuts.len() - 2] == s && cuts.last() == i);
                }
                assert(cuts.drop_last() =~= prev);
                assert(seg_score(v, text, cuts) == seg_score(v, text, prev) + v[text.subrange(
                    s,
                    i,
                )].score);
                assert(lt[i].0 == lt[s].0 + v[text.subrange(s, i)].score);
            },
            None => {
                assert(is_fallback_cell(lt, i));
            },
        }
    }
}

/// A scan that found nothing means no piece closes the boundary from any
/// considered start.
proof fn lemma_scan_none(
    v: Map<Seq<char>, PieceData>,
    text: Seq<char>,
    lat: Seq<(int, Option<SpecEdge>)>,
    end: int,
    k: int,
)
    requires
        scan(v, text, lat, end, k) is None,
    ensures
        forall|s: int| 0 <= s < k && s < lat.len() && s < end && end <= text.len()
            ==> !v.contains_key(#[trigger] text.subrange(s, end)),
    decreases k,
{
    if k > 0 {
        lemma_scan_none(v, text, lat, end, k - 1);
    }
}

/// A fallback cell holds score zero, and a non-fallback cell comes from a
/// successful scan; piece scores stay bounded, so a real edge never carries
/// the fallback sentinel.
proof fn lemma_fallback_cell(v: Map<Seq<char>, PieceData>, text: Seq<char>, n: int, i: int)
    requires
        vocab_bounded(v),
        1 <= i <= n <= text.len(),
        n <= MAX_TEXT_LEN as int,
    ensures
        is_fallback_cell(lattice(v, text, n), i) <==> scan(
            v,
            text,
            lattice(v, text, n),
            i,
            i,
        ) is None,
        is_fallback_cell(lattice(v, text, n), i) ==> lattice(v, text, n)[i].0 == 0,
{
    let lt = lattice(v, text, n);
    lemma_lattice_len(v, text, n);
    lemma_lattice_bound(v, text, n);
    lemma_cell_scan(v, text, n, i);
    match scan(v, text, lt, i, i) {
        Some(se) => {
            lemma_scan_props(v, text, lt, i, i);
            assert(-((i - 1) * (SCORE_LIMIT as int)) <= lt[se.start].0 <= (i - 1) * (SCORE_LIMIT
                as int)) by (nonlinear_arith)
                requires
                    0 <= se.start <= i - 1,
                    -(se.start * (SCORE_LIMIT as int)) <= lt[se.start].0 <= se.start * (SCORE_LIMIT
                        as int),
                    SCORE_LIMIT as int > 0,
            {}
            assert(se.score != UNKNOWN_SCORE as int);
        },
        None => {},
    }
}

/// A segmentation of a prefix into steps, each either a vocabulary piece or
/// a single-character fallback taken only at a boundary that no piece
/// closes (a fallback cell of the lattice).
pub open spec fn valid_mixed_segmentation(
    v: Map<Seq<char>, PieceData>,
    text: Seq<char>,
    n: int,
    cuts: Seq<int>,
) -> bool {
    &&& cuts.len() >= 1
    &&& cuts[0] == 0
    &&& cuts.last() <= n <= text.len()
    &&& forall|t: int| 0 <= t < cuts.len() - 1 ==> (#[trigger] cuts[t]) < cuts[t + 1] && (
        v.contains_key(text.subrange(cuts[t], cuts[t + 1])) || (cuts[t + 1] == cuts[t] + 1
            && is_fallback_cell(lattice(v, text, n), cuts[t + 1])))
}

/// The score of a mixed segmentation under the reset objective: a piece step
/// adds its score, a fallback step resets the running sum to zero.
pub open spec fn mixed_score(
    v: Map<Seq<char>, PieceData>,
    text: Seq<char>,
    cuts: Seq<int>,
) -> int
    decreases cuts.len(),
{
    if cuts.len() <= 1 {
        0
    } else {
        let piece = text.subrange(cuts[cuts.len() - 2], cuts.last());
        if v.contains_key(piece) {
            mixed_score(v, text, cuts.drop_last()) + v[piece].score
        } else {
            0
        }
    }
}

/// Domination over the mixed objective: the lattice score at any boundary is
/// at least the reset-objective score of every mixed segmentation of that
/// prefix.
pub proof fn lemma_dp_dominates_mixed(
    v: Map<Seq<char>, PieceData>,
    text: Seq<char>,
    n: int,
    cuts: Seq<int>,
)
    requires
        vocab_bounded(v),
        n <= MAX_TEXT_LEN as int,
        valid_mixed_segmentation(v, text, n, cuts),
    ensures
        lattice(v, text, n)[cuts.last()].0 >= mixed_score(v, text, cuts),
    decreases cuts.len(),
{
    let lt = lattice(v, text, n);
    lemma_lattice_len(v, text, n);
    if cuts.len() == 1 {
        lemma_lattice_stable(v, text, n, 0);
    } else {
        let prev = cuts.drop_last();
        let s = cuts[cuts.len() - 2];
        let i = cuts.last();
        assert(valid_mixed_segmentation(v, text, n, prev)) by {
            assert(forall|t: int| 0 <= t < prev.len() ==> #[trigger] prev[t] == cuts[t]);
            assert(prev.last() < i);
        }
        lemma_dp_dominates_mixed(v, text, n, prev);
        assert(0 <= s) by {
            assert(forall|t: int| 0 <= t < cuts.len() - 1 ==> #[trigger] cuts[t] < cuts[t + 1]);
            lemma_cut_at_least(cuts, cuts.len() - 2);
        }
        if v.contains_key(text.subrange(s, i)) {
            lemma_cell_scan(v, text, n, i);
            lemma_scan_lower(v, text, lt, i, i, s);
        } else {
            assert(is_fallback_cell(lt, i));
            lemma_fallback_cell(v, text, n, i);
        }
    }
}

/// Achievability over the mixed objective: at every boundary the lattice
/// score is the reset-objective score of an actual mixed segmentation, so
/// with domination it is the true maximum of that objective.
pub proof fn lemma_dp_achievable_mixed(
    v: Map<Seq<char>, PieceData>,
    text: Seq<char>,
    n: int,
    i: int,
)
    requires
        vocab_bounded(v),
        0 <= i <= n <= text.len(),
        n <= MAX_TEXT_LEN as int,
    ensures
        exists|cuts: Seq<int>| #[trigger] valid_mixed_segmentation(v, text, n, cuts)
            && cuts.last() == i && mixed_score(v, text, cuts) == lattice(v, text, n)[i].0,
    decreases i,
{
    let lt = lattice(v, text, n);
    lemma_lattice_len(v, text, n);
    if i == 0 {
        let cuts: Seq<int> = seq![0int];
        lemma_lattice_stable(v, text, n, 0);
        assert(valid_mixed_segmentation(v, text, n, cuts) && cuts.last() == 0 && mixed_score(
            v,
            text,
            cuts,
        ) == lt[0].0);
    } else {
        lemma_cell_scan(v, text, n, i);
        lemma_fallback_cell(v, text, n, i);
        match scan(v, text, lt, i, i) {
            Some(e) => {
                lemma_scan_props(v, text, lt, i, i);
                let s = e.start;
                lemma_dp_achievable_mixed(v, text, n, s);
                let prev = choose|cuts: Seq<int>|
                    #[trigger] valid_mixed_segmentation(v, text, n, cuts) && cuts.last() == s
                        && mixed_score(v, text, cuts) == lt[s].0;
                let cuts = prev.push(i);
                assert(valid_mixed_segmentation(v, text, n, cuts)) by {
                    assert(forall|t: int| 0 <= t < prev.len() ==> #[trigger] cuts[t] == prev[t]);
                    assert(cuts[cuts.len() - 2] == s && cuts.last() == i);
                }
                assert(cuts.drop_last() =~= prev);
                assert(mixed_score(v, text, cuts) == mixed_score(v, text, prev) + v[text.subrange(
                    s,
                    i,
                )].score);
            },
            None => {
                lemma_scan_none(v, text, lt, i, i);
                let s = i - 1;
                lemma_dp_achievable_mixed(v, text, n, s);
                let prev = choose|cuts: Seq<int>|
                    #[trigger] valid_mixed_segmentation(v, text, n, cuts) && cuts.last() == s
                        && mixed_score(v, text, cuts) == lt[s].0;
                let cuts = prev.push(i);
                assert(!v.contains_key(text.subrange(s, i)));
                assert(is_fallback_cell(lt, i));
                assert(valid_mixed_segmentation(v, text, n, cuts)) by {
                    assert(forall|t: int| 0 <= t < prev.len() ==> #[trigger] cuts[t] == prev[t]);
                    assert(cuts[cuts.len() - 2] == s && cuts.last() == i);
                }
                assert(cuts.drop_last() =~= prev);
                assert(mixed_score(v, text, cuts) == 0);
            },
        }
    }
}

/// Determinism: the token sequence is a function of the vocabulary and the
/// input alone, so two runs on the same model and input agree exactly.
pub proof fn lemma_tokenize_deterministic(
    v: Map<Seq<char>, PieceData>,
    s: Seq<char>,
    r1: Seq<Seq<char>>,
    r2: Seq<Seq<char>>,
)
    requires
        r1 == spec_tokens(v, s),
        r2 == spec_tokens(v, s),
    ensures
        r1 == r2,
{
}

} // verus!
