//! The model with an exact-match vocabulary and a per-character trie:
//! the direct-lookup forward pass and the trie-accelerated one.
use vstd::prelude::*;
use crate::seg::{
    PieceData, SpecEdge, edge_model, opt_edge_model, entries_map, pieces_vmap, vocab_bounded,
    scan, lattice, path_from, spec_tokens, normalize_spec, normalize, backward, wf_edges,
    lat_model, edges_model, strings_view, lemma_lattice_len, lemma_lattice_stable, lemma_lattice_wf,
    lemma_lattice_bound, lemma_scan_props, lemma_path_agree, lemma_path_edges_wf, lemma_cell_scan,
    cell_state, SCORE_LIMIT, MAX_TEXT_LEN, UNKNOWN_SCORE,
};

pub use crate::seg::Node;

verus! {

/// View of one vocabulary entry.
pub open spec fn entry_view(e: (String, i64, i32)) -> (Seq<char>, int, int) {
    (e.0@, e.1 as int, e.2 as int)
}

/// View of the whole entry list.
pub open spec fn entries_view(vs: Seq<(String, i64, i32)>) -> Seq<(Seq<char>, int, int)> {
    vs.map_values(|e: (String, i64, i32)| entry_view(e))
}

/// Exact-match lookup of the characters `[from, to)` of `text` among the
/// entries, searched from the last entry backward so that on a repeated text
/// the last entry wins.
pub(crate) fn assoc_lookup(
    vocab: &Vec<(String, i64, i32)>,
    text: &str,
    from: usize,
    to: usize,
) -> (r: Option<(i64, i32)>)
    requires
        from <= to <= text@.len(),
    ensures
        ({
            let key = text@.subrange(from as int, to as int);
            match r {
                Some(p) => entries_map(entries_view(vocab@)).contains_key(key) && entries_map(
                    entries_view(vocab@),
                )[key] == (PieceData { score: p.0 as int, index: p.1 as int }),
                None => !entries_map(entries_view(vocab@)).contains_key(key),
            }
        }),
{
    let sub = text.substring_char(from, to);
    let key = String::from_str(sub);
    let ghost es = entries_view(vocab@);
    let ghost k = text@.subrange(from as int, to as int);
    let mut i = vocab.len();
    proof {
        assert(es.subrange(0, es.len() as int) =~= es);
    }
    while i > 0
        invariant
            from <= to <= text@.len(),
            k == text@.subrange(from as int, to as int),
            key@ == k,
            i <= vocab@.len(),
            es == entries_view(vocab@),
            entries_map(es).contains_key(k) == entries_map(es.subrange(0, i as int)).contains_key(
                k,
            ),
            entries_map(es).contains_key(k) ==> entries_map(es)[k] == entries_map(
                es.subrange(0, i as int),
            )[k],
        decreases i,
    {
        i -= 1;
        proof {
            assert(es.subrange(0, i + 1).drop_last() =~= es.subrange(0, i as int));
            assert(es.subrange(0, i + 1).last() == es[i as int]);
        }
        if vocab[i].0 == key {
            proof {
                assert(es[i as int] == entry_view(vocab@[i as int]));
                assert(es[i as int].0 == k);
                assert(entries_map(es.subrange(0, i + 1)) == entries_map(
                    es.subrange(0, i as int),
                ).insert(es[i as int].0, PieceData {
                    score: es[i as int].1,
                    index: es[i as int].2,
                }));
                assert(entries_map(es.subrange(0, i + 1)).contains_key(k));
                assert(entries_map(es).contains_key(k));
                assert(entries_map(es)[k] == (PieceData {
                    score: es[i as int].1,
                    index: es[i as int].2,
                }));
            }
            return Some((vocab[i].1, vocab[i].2));
        }
        proof {
            assert(es[i as int] == entry_view(vocab@[i as int]));
            assert(es[i as int].0 != k);
        }
    }
    proof {
        assert(es.subrange(0, 0) =~= Seq::<(Seq<char>, int, int)>::empty());
    }
    None
}

/// One node of the per-character trie arena: the accumulated text on the
/// path from the root, its character length, the piece data when the path is
/// itself a piece, and the arena indices of the children.
pub struct DagNode {
    pub text: String,
    pub len: usize,
    pub score: i64,
    pub index: i32,
    pub leaf: bool,
    pub children: Vec<usize>,
}

impl DagNode {
    /// A fresh node for the given accumulated text, not yet a piece.
    pub fn new(text: String) -> (n: DagNode)
        ensures
            n.text@ == text@,
            n.len == text@.len(),
            n.score == 0,
            n.index == 0,
            !n.leaf,
            n.children@ == Seq::<usize>::empty(),
    {
        let len = text.unicode_len();
        let children: Vec<usize> = Vec::new();
        proof {
            assert(children@ =~= Seq::<usize>::empty());
        }
        DagNode { text, len, score: 0, index: 0, leaf: false, children }
    }
}

/// Whether some node of the arena has accumulated text `k`.
pub open spec fn has_node(ns: Seq<DagNode>, k: Seq<char>) -> bool {
    exists|i: int| 0 <= i < ns.len() && (#[trigger] ns[i]).text@ == k
}

/// Whether node `i` is listed among the children of a node holding its text
/// less the last character.
pub open spec fn has_parent(ns: Seq<DagNode>, i: int) -> bool {
    exists|h: int, c: int|
        #![trigger ns[h].children@[c]]
        0 <= h < ns.len() && 0 <= c < ns[h].children@.len() && ns[h].children@[c] == i
            && ns[h].text@ == ns[i].text@.drop_last()
}

/// Whether `x` is a prefix of `w`.
pub open spec fn seq_prefix(x: Seq<char>, w: Seq<char>) -> bool {
    x.len() <= w.len() && w.subrange(0, x.len() as int) == x
}

/// Whether `x` is a prefix of some key of `m`.
pub open spec fn prefix_of_key(m: Map<Seq<char>, PieceData>, x: Seq<char>) -> bool {
    exists|k: Seq<char>| #[trigger] m.contains_key(k) && seq_prefix(x, k)
}

/// The structural part of trie well-formedness: node 0 is the root with
/// empty text; a child extends its parent's text by one character; texts are
/// unique; every non-root node is linked from a parent; a node is marked a
/// piece exactly when its text is a vocabulary key, with the key's data; and
/// every vocabulary key has a node.
pub open spec fn trie_wf_core(ns: Seq<DagNode>, m: Map<Seq<char>, PieceData>) -> bool {
    &&& ns.len() >= 1
    &&& ns[0].text@ == Seq::<char>::empty()
    &&& forall|i: int| 0 <= i < ns.len() ==> (#[trigger] ns[i]).len == ns[i].text@.len()
    &&& forall|i: int, c: int|
        #![trigger ns[i].children@[c]]
        0 <= i < ns.len() && 0 <= c < ns[i].children@.len() ==> 0 <= ns[i].children@[c] < ns.len()
            && ns[ns[i].children@[c] as int].text@.len() == ns[i].text@.len() + 1
            && ns[ns[i].children@[c] as int].text@.drop_last() == ns[i].text@
    &&& forall|i1: int, i2: int|
        #![trigger ns[i1].text@, ns[i2].text@]
        0 <= i1 < ns.len() && 0 <= i2 < ns.len() && ns[i1].text@ == ns[i2].text@ ==> i1 == i2
    &&& forall|i: int| 1 <= i < ns.len() ==> #[trigger] has_parent(ns, i)
    &&& forall|i: int| 0 <= i < ns.len() ==> ((#[trigger] ns[i]).leaf <==> m.contains_key(
        ns[i].text@,
    ))
    &&& forall|i: int| 0 <= i < ns.len() && (#[trigger] ns[i]).leaf ==> m[ns[i].text@]
        == (PieceData { score: ns[i].score as int, index: ns[i].index as int })
    &&& forall|k: Seq<char>| #[trigger] m.contains_key(k) ==> has_node(ns, k)
}

/// Full trie well-formedness: the structure above, and a node exists only at
/// a prefix of some vocabulary piece.
pub open spec fn trie_wf(ns: Seq<DagNode>, m: Map<Seq<char>, PieceData>) -> bool {
    &&& trie_wf_core(ns, m)
    &&& forall|i: int| 1 <= i < ns.len() ==> #[trigger] prefix_of_key(m, ns[i].text@)
}

/// Every prefix of a node's text is itself a node's text.
proof fn lemma_trie_prefix(ns: Seq<DagNode>, m: Map<Seq<char>, PieceData>, i: int, d: int)
    requires
        trie_wf_core(ns, m),
        0 <= i < ns.len(),
        0 <= d <= ns[i].text@.len(),
    ensures
        has_node(ns, ns[i].text@.subrange(0, d)),
    decreases ns[i].text@.len() - d,
{
    if d == ns[i].text@.len() {
        assert(ns[i].text@.subrange(0, d) =~= ns[i].text@);
        assert((ns[i]).text@ == ns[i].text@.subrange(0, d));
    } else {
        assert(ns[i].text@.len() >= 1);
        assert(i != 0);
        assert(has_parent(ns, i));
        let (h, c) = choose|h: int, c: int|
            #![trigger ns[h].children@[c]]
            0 <= h < ns.len() && 0 <= c < ns[h].children@.len() && ns[h].children@[c] == i
                && ns[h].text@ == ns[i].text@.drop_last();
        assert(ns[h].text@.subrange(0, d) =~= ns[i].text@.subrange(0, d));
        lemma_trie_prefix(ns, m, h, d);
    }
}

/// The child of `cur` whose text extends it by `c`, if the trie has one.
fn find_child(ns: &Vec<DagNode>, cur: usize, c: char, m: Ghost<Map<Seq<char>, PieceData>>) -> (r:
    Option<usize>)
    requires
        trie_wf_core(ns@, m@),
        cur < ns@.len(),
    ensures
        match r {
            Some(j) => j < ns@.len() && ns@[j as int].text@ == ns@[cur as int].text@.push(c),
            None => forall|j: int| 0 <= j < ns@.len() ==> (#[trigger] ns@[j]).text@ != ns@[
                cur as int].text@.push(c),
        },
{
    let ccount = ns[cur].children.len();
    let mut ci: usize = 0;
    while ci < ccount
        invariant
            trie_wf_core(ns@, m@),
            cur < ns@.len(),
            ccount == ns@[cur as int].children@.len(),
            ci <= ccount,
            forall|t: int| 0 <= t < ci ==> ns@[#[trigger] ns@[cur as int].children@[t] as int].text@
                != ns@[cur as int].text@.push(c),
        decreases ccount - ci,
    {
        let j = ns[cur].children[ci];
        let cl = ns[j].len;
        proof {
            assert(ns@[j as int].text@.len() == ns@[cur as int].text@.len() + 1);
        }
        if ns[j].text.get_char(cl - 1) == c {
            proof {
                assert(ns@[j as int].text@ =~= ns@[cur as int].text@.push(c));
            }
            return Some(j);
        }
        proof {
            assert(ns@[j as int].text@ != ns@[cur as int].text@.push(c)) by {
                if ns@[j as int].text@ == ns@[cur as int].text@.push(c) {
                    assert(ns@[j as int].text@.last() == c);
                }
            }
        }
        ci += 1;
    }
    proof {
        assert forall|j: int| 0 <= j < ns@.len() implies (#[trigger] ns@[j]).text@ != ns@[
            cur as int].text@.push(c) by {
            if ns@[j].text@ == ns@[cur as int].text@.push(c) {
                assert(j != 0);
                assert(has_parent(ns@, j));
                let (h, ch) = choose|h: int, ch: int|
                    #![trigger ns@[h].children@[ch]]
                    0 <= h < ns@.len() && 0 <= ch < ns@[h].children@.len() && ns@[h].children@[ch]
                        == j && ns@[h].text@ == ns@[j].text@.drop_last();
                assert(ns@[j].text@.drop_last() =~= ns@[cur as int].text@);
                assert(h == cur);
                assert(ns@[#[trigger] ns@[cur as int].children@[ch] as int].text@ != ns@[
                    cur as int].text@.push(c));
            }
        }
    }
    None
}

/// Inserts one piece into the trie arena, creating the missing path nodes
/// and marking the terminal node with the piece's data.
fn trie_insert(
    ns: &mut Vec<DagNode>,
    word: &str,
    score: i64,
    index: i32,
    m: Ghost<Map<Seq<char>, PieceData>>,
)
    requires
        trie_wf(old(ns)@, m@),
        word@.len() >= 1,
    ensures
        trie_wf(final(ns)@, m@.insert(word@, PieceData { score: score as int, index: index as int })),
{
    let wl = word.unicode_len();
    let mut cur: usize = 0;
    let mut k: usize = 0;
    proof {
        assert(ns@[0].text@ =~= word@.subrange(0, 0));
    }
    while k < wl
        invariant
            trie_wf(ns@, m@),
            wl == word@.len(),
            cur < ns@.len(),
            k <= wl,
            ns@[cur as int].text@ == word@.subrange(0, k as int),
        ensures
            trie_wf(ns@, m@),
            wl == word@.len(),
            cur < ns@.len(),
            k <= wl,
            ns@[cur as int].text@ == word@.subrange(0, k as int),
            k < wl ==> forall|j: int| 0 <= j < ns@.len() ==> (#[trigger] ns@[j]).text@ != word@
                .subrange(0, k + 1),
        decreases wl - k,
    {
        let c = word.get_char(k);
        match find_child(ns, cur, c, m) {
            Some(j) => {
                proof {
                    assert(word@.subrange(0, k as int).push(c) =~= word@.subrange(0, k + 1));
                }
                cur = j;
                k += 1;
            },
            None => {
                proof {
                    assert(word@.subrange(0, k as int).push(c) =~= word@.subrange(0, k + 1));
                }
                break;
            },
        }
    }
    proof {
        assert forall|d: int, j: int|
            #![trigger ns@[j].text@, word@.subrange(0, d)]
            k < d <= wl && 0 <= j < ns@.len() implies ns@[j].text@ != word@.subrange(0, d) by {
            if ns@[j].text@ == word@.subrange(0, d) {
                lemma_trie_prefix(ns@, m@, j, k + 1);
                let h = choose|h: int| 0 <= h < ns@.len() && (#[trigger] ns@[h]).text@ == ns@[
                    j].text@.subrange(0, k + 1);
                assert(ns@[j].text@.subrange(0, k + 1) =~= word@.subrange(0, k + 1));
            }
        }
    }
    proof {
        assert forall|i: int| 1 <= i < ns@.len() implies #[trigger] prefix_of_key(
            m@,
            ns@[i].text@,
        ) || seq_prefix(ns@[i].text@, word@) by {}
    }
    while k < wl
        invariant
            trie_wf_core(ns@, m@),
            wl == word@.len(),
            cur < ns@.len(),
            k <= wl,
            ns@[cur as int].text@ == word@.subrange(0, k as int),
            forall|d: int, j: int|
                #![trigger ns@[j].text@, word@.subrange(0, d)]
                k < d <= wl && 0 <= j < ns@.len() ==> ns@[j].text@ != word@.subrange(0, d),
            forall|i: int| 1 <= i < ns@.len() ==> #[trigger] prefix_of_key(m@, ns@[i].text@)
                || seq_prefix(ns@[i].text@, word@),
        decreases wl - k,
    {
        let prefix = String::from_str(word.substring_char(0, k + 1));
        let node = DagNode::new(prefix);
        let idx = ns.len();
        let ghost before = ns@;
        ns.push(node);
        proof {
            assert(!m@.contains_key(word@.subrange(0, k + 1)));
        }
        let ghost oldch = ns@[cur as int].children@;
        ns[cur].children.push(idx);
        proof {
            let nsv = ns@;
            assert(nsv.len() == before.len() + 1);
            assert(nsv[idx as int].text@ == word@.subrange(0, k + 1));
            assert(nsv[cur as int].children@ =~= oldch.push(idx as usize));
            assert(forall|j: int| 0 <= j < before.len() && j != cur ==> nsv[j] == before[j]);
            assert(nsv[cur as int].text@ == before[cur as int].text@);
            assert(nsv[cur as int].leaf == before[cur as int].leaf);
            assert(nsv[cur as int].len == before[cur as int].len);
            assert(nsv[cur as int].score == before[cur as int].score);
            assert(nsv[cur as int].index == before[cur as int].index);
            assert(trie_wf_core(nsv, m@)) by {
                assert(nsv[0].text@ == Seq::<char>::empty());
                assert forall|i: int| 0 <= i < nsv.len() implies (#[trigger] nsv[i]).len
                    == nsv[i].text@.len() by {}
                assert forall|i: int, c: int|
                    #![trigger nsv[i].children@[c]]
                    0 <= i < nsv.len() && 0 <= c < nsv[i].children@.len() implies 0 <= nsv[
                    i].children@[c] < nsv.len() && nsv[nsv[i].children@[c] as int].text@.len() == nsv[
                    i].text@.len() + 1 && nsv[nsv[i].children@[c] as int].text@.drop_last() == nsv[
                    i].text@ by {
                    if i == cur && c == oldch.len() {
                        assert(nsv[i].children@[c] == idx);
                        assert(nsv[idx as int].text@.drop_last() =~= word@.subrange(0, k as int));
                    } else if i < before.len() {
                        assert(before[i].children@[c] == nsv[i].children@[c]);
                    }
                }
                assert forall|i1: int, i2: int|
                    #![trigger nsv[i1].text@, nsv[i2].text@]
                    0 <= i1 < nsv.len() && 0 <= i2 < nsv.len() && nsv[i1].text@ == nsv[i2].text@
                    implies i1 == i2 by {
                    if i1 != i2 {
                        if i1 == idx && i2 < before.len() {
                            assert(before[i2].text@ != word@.subrange(0, k + 1));
                        } else if i2 == idx && i1 < before.len() {
                            assert(before[i1].text@ != word@.subrange(0, k + 1));
                        }
                    }
                }
                assert forall|i: int| 1 <= i < nsv.len() implies #[trigger] has_parent(nsv, i)
                    by {
                    if i == idx {
                        assert(nsv[cur as int].children@[oldch.len() as int] == i);
                        assert(nsv[cur as int].text@ =~= nsv[i].text@.drop_last());
                        assert(nsv[cur as int].text@ == nsv[i].text@.drop_last());
                    } else {
                        let tv = before[i].text@;
                        assert(1 <= i < before.len());
                        assert(has_parent(before, i));
                        let (h, c) = choose|h: int, c: int|
                            #![trigger before[h].children@[c]]
                            0 <= h < before.len() && 0 <= c < before[h].children@.len() && before[
                            h].children@[c] == i && before[h].text@ == before[i].text@.drop_last();
                        assert(nsv[h].children@[c] == before[h].children@[c]);
                        assert(nsv[h].text@ == before[h].text@);
                        assert(nsv[i].text@ == before[i].text@);
                    }
                }
                assert forall|k2: Seq<char>| #[trigger] m@.contains_key(k2) implies has_node(
                    nsv,
                    k2,
                ) by {
                    assert(has_node(before, k2));
                    let i = choose|i: int| 0 <= i < before.len() && (#[trigger] before[i]).text@
                        == k2;
                    assert(nsv[i].text@ == k2);
                }
            }
            assert forall|i: int| 1 <= i < nsv.len() implies #[trigger] prefix_of_key(
                m@,
                nsv[i].text@,
            ) || seq_prefix(nsv[i].text@, word@) by {
                if i == idx {
                    assert(word@.subrange(0, k + 1).len() <= word@.len());
                    assert(word@.subrange(0, word@.subrange(0, k + 1).len() as int)
                        =~= word@.subrange(0, k + 1));
                    assert(seq_prefix(nsv[i].text@, word@));
                } else {
                    assert(nsv[i].text@ == before[i].text@);
                }
            }
        }
        cur = idx;
        k += 1;
    }
    proof {
        assert(word@.subrange(0, wl as int) =~= word@);
        assert(ns@[cur as int].text@ == word@);
    }
    let ghost before = ns@;
    ns[cur].leaf = true;
    ns[cur].score = score;
    ns[cur].index = index;
    proof {
        let nsv = ns@;
        let m2 = m@.insert(word@, PieceData { score: score as int, index: index as int });
        assert(nsv.len() == before.len());
        assert(forall|j: int| 0 <= j < nsv.len() && j != cur ==> nsv[j] == before[j]);
        assert(nsv[cur as int].text@ == before[cur as int].text@);
        assert(nsv[cur as int].children@ == before[cur as int].children@);
        assert(nsv[cur as int].len == before[cur as int].len);
        assert(nsv[cur as int].leaf);
        assert(nsv[cur as int].score == score);
        assert(nsv[cur as int].index == index);
        assert(trie_wf(nsv, m2)) by {
            assert(nsv[0].text@ == Seq::<char>::empty());
            assert forall|i: int, c: int|
                #![trigger nsv[i].children@[c]]
                0 <= i < nsv.len() && 0 <= c < nsv[i].children@.len() implies 0 <= nsv[
                i].children@[c] < nsv.len() && nsv[nsv[i].children@[c] as int].text@.len() == nsv[
                i].text@.len() + 1 && nsv[nsv[i].children@[c] as int].text@.drop_last() == nsv[i].text@ by {
                assert(before[i].children@[c] == nsv[i].children@[c]);
            }
            assert forall|i: int| 1 <= i < nsv.len() implies #[trigger] has_parent(nsv, i) by {
                let tv = before[i].text@;
                assert(1 <= i < before.len());
                assert(has_parent(before, i));
                let (h, c) = choose|h: int, c: int|
                    #![trigger before[h].children@[c]]
                    0 <= h < before.len() && 0 <= c < before[h].children@.len() && before[
                    h].children@[c] == i && before[h].text@ == before[i].text@.drop_last();
                assert(nsv[h].children@[c] == before[h].children@[c]);
                assert(nsv[h].text@ == before[h].text@);
                assert(nsv[i].text@ == before[i].text@);
            }
            assert forall|i: int| 0 <= i < nsv.len() implies ((#[trigger] nsv[i]).leaf
                <==> m2.contains_key(nsv[i].text@)) by {
                if i != cur {
                    assert(nsv[i].text@ != word@);
                }
            }
            assert forall|i: int| 0 <= i < nsv.len() && (#[trigger] nsv[i]).leaf implies m2[
                nsv[i].text@] == (PieceData { score: nsv[i].score as int, index: nsv[i].index
                as int }) by {
                if i != cur {
                    assert(nsv[i].text@ != word@);
                }
            }
            assert forall|k2: Seq<char>| #[trigger] m2.contains_key(k2) implies has_node(nsv, k2)
                by {
                if k2 == word@ {
                    assert(nsv[cur as int].text@ == k2);
                } else {
                    assert(has_node(before, k2));
                    let i = choose|i: int| 0 <= i < before.len() && (#[trigger] before[i]).text@
                        == k2;
                    assert(nsv[i].text@ == k2);
                }
            }
            assert forall|i: int| 1 <= i < nsv.len() implies #[trigger] prefix_of_key(
                m2,
                nsv[i].text@,
            ) by {
                assert(nsv[i].text@ == before[i].text@);
                if prefix_of_key(m@, before[i].text@) {
                    let kk = choose|kk: Seq<char>| #[trigger] m@.contains_key(kk) && seq_prefix(
                        before[i].text@,
                        kk,
                    );
                    assert(m2.contains_key(kk));
                } else {
                    assert(seq_prefix(before[i].text@, word@));
                    assert(m2.contains_key(word@));
                }
            }
        }
    }
}

/// A sentence-piece model: the piece vocabulary as an ordered entry list
/// (searched from the back, so a repeated text is won by the last entry),
/// beside the per-character trie over the piece texts.
pub struct SentencePieceModel {
    pub vocab: Vec<(String, i64, i32)>,
    pub nodes: Vec<DagNode>,
}

impl SentencePieceModel {
    /// The mapping from piece text to score and id this model holds.
    pub open spec fn vmap(self) -> Map<Seq<char>, PieceData> {
        entries_map(entries_view(self.vocab@))
    }

    /// Every entry is a nonempty text with a score within `SCORE_LIMIT`, and
    /// the trie holds exactly the vocabulary's pieces.
    pub open spec fn wf(self) -> bool {
        &&& forall|i: int| 0 <= i < self.vocab@.len() ==> (#[trigger] self.vocab@[i]).0@.len() >= 1
            && -SCORE_LIMIT <= self.vocab@[i].1 <= SCORE_LIMIT
        &&& trie_wf(self.nodes@, self.vmap())
    }

    proof fn lemma_bounded(self)
        requires
            self.wf(),
        ensures
            vocab_bounded(self.vmap()),
    {
        lemma_entries_bounded(entries_view(self.vocab@));
    }

    /// Builds a model from an ordered piece list; the id of each piece is its
    /// position, and on a repeated text the last entry wins.
    pub fn load(pieces: Vec<(String, i64)>) -> (m: SentencePieceModel)
        requires
            pieces@.len() <= 0x7FFF_FFFFusize,
            forall|i: int| 0 <= i < pieces@.len() ==> (#[trigger] pieces@[i]).0@.len() >= 1
                && -SCORE_LIMIT <= pieces@[i].1 <= SCORE_LIMIT,
        ensures
            m.wf(),
            m.vmap() == pieces_vmap(pieces@.map_values(|p: (String, i64)| (p.0@, p.1 as int))),
    {
        let ghost ps = pieces@.map_values(|p: (String, i64)| (p.0@, p.1 as int));
        let mut vocab: Vec<(String, i64, i32)> = Vec::new();
        let mut nodes: Vec<DagNode> = Vec::new();
        nodes.push(DagNode::new(String::new()));
        proof {
            assert(trie_wf(nodes@, pieces_vmap(ps.subrange(0, 0)))) by {
                assert(pieces_vmap(ps.subrange(0, 0)) =~= Map::<Seq<char>, PieceData>::empty()) by {
                    assert(ps.subrange(0, 0) =~= Seq::<(Seq<char>, int)>::empty());
                }
                assert(nodes@[0].text@ == Seq::<char>::empty());
                assert(nodes@.len() == 1);
            }
        }
        let mut i: usize = 0;
        while i < pieces.len()
            invariant
                i <= pieces@.len(),
                pieces@.len() <= 0x7FFF_FFFFusize,
                ps == pieces@.map_values(|p: (String, i64)| (p.0@, p.1 as int)),
                forall|j: int| 0 <= j < pieces@.len() ==> (#[trigger] pieces@[j]).0@.len() >= 1
                    && -SCORE_LIMIT <= pieces@[j].1 <= SCORE_LIMIT,
                vocab@.len() == i,
                forall|j: int| 0 <= j < i ==> (#[trigger] vocab@[j]).0@.len() >= 1
                    && -SCORE_LIMIT <= vocab@[j].1 <= SCORE_LIMIT,
                entries_map(entries_view(vocab@)) == pieces_vmap(ps.subrange(0, i as int)),
                trie_wf(nodes@, pieces_vmap(ps.subrange(0, i as int))),
            decreases pieces@.len() - i,
        {
            let text = pieces[i].0.clone();
            let score = pieces[i].1;
            proof {
                let old_es = entries_view(vocab@);
                let new_es = entries_view(vocab@.push((text, score, i as i32)));
                assert(new_es.drop_last() =~= old_es);
                assert(ps.subrange(0, i + 1).drop_last() =~= ps.subrange(0, i as int));
                assert(ps.subrange(0, i + 1).last() == (pieces@[i as int].0@, pieces@[i as int].1 as int));
            }
            vocab.push((text, score, i as i32));
            let ghost mcur = pieces_vmap(ps.subrange(0, i as int));
            trie_insert(&mut nodes, pieces[i].0.as_str(), score, i as i32, Ghost(mcur));
            proof {
                assert(mcur.insert(pieces@[i as int].0@, PieceData {
                    score: score as int,
                    index: i as int,
                }) == pieces_vmap(ps.subrange(0, i + 1)));
            }
            i += 1;
        }
        proof {
            assert(ps.subrange(0, ps.len() as int) =~= ps);
        }
        SentencePieceModel { vocab, nodes }
    }

    /// Exact-match lookup of the characters `[from, to)` of `text`, searched
    /// from the last entry backward.
    fn lookup(&self, text: &str, from: usize, to: usize) -> (r: Option<(i64, i32)>)
        requires
            from <= to <= text@.len(),
        ensures
            ({
                let key = text@.subrange(from as int, to as int);
                match r {
                    Some(p) => self.vmap().contains_key(key) && self.vmap()[key] == (PieceData {
                        score: p.0 as int,
                        index: p.1 as int,
                    }),
                    None => !self.vmap().contains_key(key),
                }
            }),
    {
        assoc_lookup(&self.vocab, text, from, to)
    }

    /// The direct-lookup forward pass: every boundary pair is tested against
    /// the vocabulary; the result is exactly the segmentation lattice.
    pub fn decode_forward(&self, text: &str) -> (r: Vec<Option<Node>>)
        requires
            self.wf(),
            text@.len() <= MAX_TEXT_LEN,
        ensures
            r@.len() == text@.len() + 1,
            forall|j: int| 0 <= j <= text@.len() ==> opt_edge_model(#[trigger] r@[j]) == lattice(
                self.vmap(),
                text@,
                text@.len() as int,
            )[j].1,
            wf_edges(r@),
    {
        let ghost v = self.vmap();
        proof {
            self.lemma_bounded();
        }
        let n = text.unicode_len();
        let mut results: Vec<Option<Node>> = Vec::new();
        let mut scores: Vec<i64> = Vec::new();
        results.push(None);
        scores.push(0);
        let mut end: usize = 1;
        while end <= n
            invariant
                self.wf(),
                v == self.vmap(),
                vocab_bounded(v),
                n == text@.len(),
                n <= MAX_TEXT_LEN,
                1 <= end <= n + 1,
                results@.len() == end,
                scores@.len() == end,
                forall|j: int| 0 <= j < end ==> opt_edge_model(#[trigger] results@[j]) == lattice(
                    v,
                    text@,
                    j,
                )[j].1,
                forall|j: int| 0 <= j < end ==> (#[trigger] scores@[j]) as int == lattice(
                    v,
                    text@,
                    j,
                )[j].0,
            decreases n + 1 - end,
        {
            let ghost prior = lattice(v, text@, end - 1);
            proof {
                lemma_lattice_len(v, text@, end - 1);
                lemma_lattice_bound(v, text@, end - 1);
                assert forall|j: int| 0 <= j < end implies (#[trigger] prior[j]).0 == scores@[j]
                    as int by {
                    lemma_lattice_stable(v, text@, end - 1, j);
                }
            }
            let mut best: Option<Node> = None;
            let mut start: usize = 0;
            while start < end
                invariant
                    self.wf(),
                    v == self.vmap(),
                    vocab_bounded(v),
                    n == text@.len(),
                    n <= MAX_TEXT_LEN,
                    1 <= end <= n,
                    start <= end,
                    scores@.len() == end,
                    prior == lattice(v, text@, end - 1),
                    prior.len() == end,
                    forall|j: int| 0 <= j < end ==> (#[trigger] prior[j]).0 == scores@[j] as int,
                    forall|j: int| 0 <= j < end ==> -(j * (SCORE_LIMIT as int)) <= (
                    #[trigger] prior[j]).0 <= j * (SCORE_LIMIT as int),
                    opt_edge_model(best) == scan(v, text@, prior, end as int, start as int),
                decreases end - start,
            {
                let ghost pre = scan(v, text@, prior, end as int, start as int);
                match self.lookup(text, start, end) {
                    Some((sc, idx)) => {
                        proof {
                            assert(v.contains_key(text@.subrange(start as int, end as int)));
                            assert(-(SCORE_LIMIT as int) <= sc as int <= SCORE_LIMIT as int);
                            assert((start as int) * (SCORE_LIMIT as int) + (SCORE_LIMIT as int)
                                <= 0x8000_0000int * 0x8000_0000int) by (nonlinear_arith)
                                requires
                                    0 <= start as int <= 0x7FFF_FFFFint,
                            {}
                        }
                        let cand = scores[start] + sc;
                        let nd = Node { score: cand, index: idx, start, end };
                        match best {
                            None => {
                                best = Some(nd);
                            },
                            Some(b) => {
                                if cand > b.score {
                                    best = Some(nd);
                                }
                            },
                        }
                    },
                    None => {},
                }
                proof {
                    assert(scan(v, text@, prior, end as int, start + 1) == opt_edge_model(best));
                }
                start += 1;
            }
            match best {
                Some(nd) => {
                    results.push(Some(nd));
                    scores.push(nd.score);
                },
                None => {
                    results.push(Some(Node { score: UNKNOWN_SCORE, index: 0, start: end - 1, end }));
                    scores.push(0);
                },
            }
            proof {
                assert(lattice(v, text@, end as int) == (match scan(v, text@, prior, end as int,
                    end as int) {
                    Some(e) => prior.push((e.score, Some(e))),
                    None => prior.push(
                        (0int, Some(SpecEdge {
                            score: UNKNOWN_SCORE as int,
                            index: 0,
                            start: end - 1,
                            end: end as int,
                        })),
                    ),
                }));
                lemma_scan_props(v, text@, prior, end as int, end as int);
                lemma_lattice_len(v, text@, end as int);
            }
            end += 1;
        }
        proof {
            assert forall|j: int| 0 <= j <= n implies opt_edge_model(#[trigger] results@[j])
                == lattice(v, text@, n as int)[j].1 by {
                lemma_lattice_stable(v, text@, n as int, j);
                lemma_lattice_len(v, text@, n as int);
            }
            lemma_lattice_len(v, text@, n as int);
            assert forall|j: int| 1 <= j < results@.len() implies ((#[trigger] results@[j])
                matches Some(nd) && nd.end == j && (nd.start as int) < j) by {
                lemma_lattice_wf(v, text@, n as int, j);
            }
            lemma_lattice_wf(v, text@, n as int, 0);
        }
        results
    }

    /// The backward pass over a completed lattice.
    pub fn decode_backward(&self, nodes: &Vec<Option<Node>>) -> (r: Vec<Node>)
        requires
            wf_edges(nodes@),
        ensures
            edges_model(r@) == path_from(lat_model(nodes@), nodes@.len() - 1),
    {
        backward(nodes)
    }

    /// Every vocabulary piece that is a prefix of `text`, in increasing
    /// length, as `(character length, score, id)` triples, read off the trie.
    pub fn common_prefix_search(&self, text: &str) -> (r: Vec<(usize, i64, i32)>)
        requires
            self.wf(),
        ensures
            forall|j: int| 0 <= j < r@.len() ==> 1 <= (#[trigger] r@[j]).0 <= text@.len()
                && self.vmap().contains_key(text@.subrange(0, r@[j].0 as int))
                && self.vmap()[text@.subrange(0, r@[j].0 as int)] == (PieceData {
                score: r@[j].1 as int,
                index: r@[j].2 as int,
            }),
            forall|k: int| 1 <= k <= text@.len() && self.vmap().contains_key(
                text@.subrange(0, k),
            ) ==> exists|j: int| 0 <= j < r@.len() && (#[trigger] r@[j]).0 == k,
            forall|j1: int, j2: int| 0 <= j1 < j2 < r@.len() ==> (#[trigger] r@[j1]).0 < (
            #[trigger] r@[j2]).0,
    {
        let ghost v = self.vmap();
        let n = text.unicode_len();
        let mut r: Vec<(usize, i64, i32)> = Vec::new();
        let mut cur: usize = 0;
        let mut k: usize = 0;
        proof {
            assert(self.nodes@[0].text@ =~= text@.subrange(0, 0));
        }
        while k < n
            invariant
                self.wf(),
                v == self.vmap(),
                n == text@.len(),
                cur < self.nodes@.len(),
                k <= n,
                self.nodes@[cur as int].text@ == text@.subrange(0, k as int),
                forall|j: int| 0 <= j < r@.len() ==> 1 <= (#[trigger] r@[j]).0 <= k
                    && v.contains_key(text@.subrange(0, r@[j].0 as int)) && v[text@.subrange(
                    0,
                    r@[j].0 as int,
                )] == (PieceData { score: r@[j].1 as int, index: r@[j].2 as int }),
                forall|d: int| 1 <= d <= k && v.contains_key(#[trigger] text@.subrange(0, d))
                    ==> exists|j: int| 0 <= j < r@.len() && (#[trigger] r@[j]).0 == d,
                forall|j1: int, j2: int| 0 <= j1 < j2 < r@.len() ==> (#[trigger] r@[j1]).0 < (
                #[trigger] r@[j2]).0,
            ensures
                forall|j: int| 0 <= j < r@.len() ==> 1 <= (#[trigger] r@[j]).0 <= n
                    && v.contains_key(text@.subrange(0, r@[j].0 as int)) && v[text@.subrange(
                    0,
                    r@[j].0 as int,
                )] == (PieceData { score: r@[j].1 as int, index: r@[j].2 as int }),
                forall|d: int| 1 <= d <= n && v.contains_key(#[trigger] text@.subrange(0, d))
                    ==> exists|j: int| 0 <= j < r@.len() && (#[trigger] r@[j]).0 == d,
                forall|j1: int, j2: int| 0 <= j1 < j2 < r@.len() ==> (#[trigger] r@[j1]).0 < (
                #[trigger] r@[j2]).0,
            decreases n - k,
        {
            let c = text.get_char(k);
            match find_child(&self.nodes, cur, c, Ghost(v)) {
                Some(j) => {
                    proof {
                        assert(text@.subrange(0, k as int).push(c) =~= text@.subrange(0, k + 1));
                    }
                    cur = j;
                    k += 1;
                    if self.nodes[cur].leaf {
                        let sc = self.nodes[cur].score;
                        let ix = self.nodes[cur].index;
                        proof {
                            assert(v.contains_key(text@.subrange(0, k as int)));
                            assert(v[text@.subrange(0, k as int)] == (PieceData {
                                score: sc as int,
                                index: ix as int,
                            }));
                        }
                        let ghost rold = r@;
                        r.push((k, sc, ix));
                        proof {
                            assert forall|d: int| 1 <= d <= k && v.contains_key(
                                #[trigger] text@.subrange(0, d),
                            ) implies exists|j2: int| 0 <= j2 < r@.len() && (#[trigger] r@[
                                j2
                            ]).0 == d by {
                                if d == k {
                                    assert((r@[r@.len() - 1]).0 == d);
                                } else {
                                    let j2 = choose|j2: int|
                                        0 <= j2 < rold.len() && (#[trigger] rold[j2]).0 == d;
                                    assert((r@[j2]).0 == d);
                                }
                            }
                        }
                    } else {
                        proof {
                            assert forall|d: int| 1 <= d <= k && v.contains_key(
                                #[trigger] text@.subrange(0, d),
                            ) implies exists|j2: int| 0 <= j2 < r@.len() && (#[trigger] r@[
                                j2
                            ]).0 == d by {
                                if d == k {
                                    assert(has_node(self.nodes@, text@.subrange(0, d)));
                                    let i = choose|i: int|
                                        0 <= i < self.nodes@.len() && (#[trigger] self.nodes@[
                                            i
                                        ]).text@ == text@.subrange(0, d);
                                    assert(i == cur);
                                    assert(self.nodes@[cur as int].leaf);
                                }
                            }
                        }
                    }
                },
                None => {
                    proof {
                        assert forall|d: int| 1 <= d <= n && v.contains_key(
                            #[trigger] text@.subrange(0, d),
                        ) implies exists|j2: int| 0 <= j2 < r@.len() && (#[trigger] r@[j2]).0
                            == d by {
                            if d > k {
                                assert(has_node(self.nodes@, text@.subrange(0, d)));
                                let i = choose|i: int|
                                    0 <= i < self.nodes@.len() && (#[trigger] self.nodes@[
                                        i
                                    ]).text@ == text@.subrange(0, d);
                                lemma_trie_prefix(self.nodes@, v, i, k + 1);
                                assert(self.nodes@[i].text@.subrange(0, k + 1) =~= text@.subrange(
                                    0,
                                    k + 1,
                                ));
                                let h = choose|h: int|
                                    0 <= h < self.nodes@.len() && (#[trigger] self.nodes@[
                                        h
                                    ]).text@ == text@.subrange(0, k + 1);
                                assert(text@.subrange(0, k as int).push(text@[k as int])
                                    =~= text@.subrange(0, k + 1));
                                assert(self.nodes@[h].text@ == self.nodes@[
                                    cur as int].text@.push(c));
                            }
                        }
                    }
                    break;
                },
            }
        }
        r
    }

    /// The trie-accelerated forward pass: one common-prefix query per start
    /// boundary; the result is exactly the segmentation lattice.
    pub fn decode_forward_dag(&self, text: &str) -> (r: Vec<Option<Node>>)
        requires
            self.wf(),
            text@.len() <= MAX_TEXT_LEN,
        ensures
            r@.len() == text@.len() + 1,
            forall|j: int| 0 <= j <= text@.len() ==> opt_edge_model(#[trigger] r@[j]) == lattice(
                self.vmap(),
                text@,
                text@.len() as int,
            )[j].1,
            wf_edges(r@),
    {
        let ghost v = self.vmap();
        let n = text.unicode_len();
        let ghost ni = n as int;
        let ghost lt = lattice(v, text@, ni);
        proof {
            self.lemma_bounded();
            lemma_lattice_len(v, text@, ni);
            lemma_lattice_bound(v, text@, ni);
            assert(lt[0] == lattice(v, text@, 0)[0]) by {
                lemma_lattice_stable(v, text@, ni, 0);
            }
        }
        let mut results: Vec<Option<Node>> = vec![None; n + 1];
        let mut scores: Vec<i64> = vec![0i64; n + 1];
        let mut s: usize = 0;
        while s < n
            invariant
                self.wf(),
                v == self.vmap(),
                vocab_bounded(v),
                n == text@.len(),
                n <= MAX_TEXT_LEN,
                ni == n as int,
                lt == lattice(v, text@, ni),
                lt.len() == ni + 1,
                s <= n,
                results@.len() == n + 1,
                scores@.len() == n + 1,
                forall|j: int| 0 <= j <= ni ==> -(j * (SCORE_LIMIT as int)) <= (#[trigger] lt[j]).0
                    <= j * (SCORE_LIMIT as int),
                forall|j: int| 0 <= j <= s ==> opt_edge_model(#[trigger] results@[j]) == lt[j].1
                    && scores@[j] as int == lt[j].0,
                forall|e: int| s < e <= ni ==> cell_state(
                    #[trigger] results@[e],
                    scores@[e],
                    scan(v, text@, lt, e, s as int),
                ),
            decreases n - s,
        {
            let suffix = text.substring_char(s, n);
            let matches = self.common_prefix_search(suffix);
            let ghost ms = matches@;
            proof {
                assert forall|d: int| 1 <= d <= ni - s implies suffix@.subrange(0, d)
                    =~= text@.subrange(s as int, s + d) by {}
            }
            let mut mi: usize = 0;
            while mi < matches.len()
                invariant
                    self.wf(),
                    v == self.vmap(),
                    vocab_bounded(v),
                    n == text@.len(),
                    n <= MAX_TEXT_LEN,
                    ni == n as int,
                    lt == lattice(v, text@, ni),
                    lt.len() == ni + 1,
                    s < n,
                    mi <= ms.len(),
                    ms == matches@,
                    suffix@ == text@.subrange(s as int, ni),
                    results@.len() == n + 1,
                    scores@.len() == n + 1,
                    forall|j: int| 0 <= j <= ni ==> -(j * (SCORE_LIMIT as int)) <= (
                    #[trigger] lt[j]).0 <= j * (SCORE_LIMIT as int),
                    forall|j: int| 0 <= j < ms.len() ==> 1 <= (#[trigger] ms[j]).0 <= ni - s
                        && v.contains_key(text@.subrange(s as int, s + ms[j].0)) && v[
                        text@.subrange(s as int, s + ms[j].0)] == (PieceData {
                        score: ms[j].1 as int,
                        index: ms[j].2 as int,
                    }),
                    forall|j1: int, j2: int| 0 <= j1 < j2 < ms.len() ==> (#[trigger] ms[j1]).0 < (
                    #[trigger] ms[j2]).0,
                    forall|j: int| 0 <= j <= s ==> opt_edge_model(#[trigger] results@[j])
                        == lt[j].1 && scores@[j] as int == lt[j].0,
                    forall|e: int| s < e <= ni ==> cell_state(
                        #[trigger] results@[e],
                        scores@[e],
                        scan(
                            v,
                            text@,
                            lt,
                            e,
                            if covered_len(ms, mi as int, e - s) { s + 1 } else { s as int },
                        ),
                    ),
                decreases ms.len() - mi,
            {
                let d = matches[mi].0;
                let sc = matches[mi].1;
                let idx = matches[mi].2;
                let e = s + d;
                proof {
                    assert(!covered_len(ms, mi as int, d as int)) by {
                        assert(forall|j: int| 0 <= j < mi ==> (#[trigger] ms[j]).0 < d);
                    }
                    assert(suffix@.subrange(0, d as int) =~= text@.subrange(s as int, e as int));
                    assert(cell_state(results@[e as int], scores@[e as int], scan(v, text@, lt,
                        e as int, s as int)));
                    assert(v.contains_key(text@.subrange(s as int, e as int)));
                    assert(v[text@.subrange(s as int, e as int)] == (PieceData {
                        score: sc as int,
                        index: idx as int,
                    }));
                    assert(opt_edge_model(results@[s as int]) == lt[s as int].1 && scores@[s
                        as int] as int == lt[s as int].0);
                    assert(-((s as int) * (SCORE_LIMIT as int)) <= lt[s as int].0 <= (s as int) * (
                    SCORE_LIMIT as int));
                    assert((s as int) * (SCORE_LIMIT as int) + (SCORE_LIMIT as int)
                        <= 0x8000_0000int * 0x8000_0000int) by (nonlinear_arith)
                        requires
                            0 <= s as int <= 0x7FFF_FFFFint,
                    {}
                    lemma_scan_props(v, text@, lt, e as int, s as int);
                }
                let cand = scores[s] + sc;
                let nd = Node { score: cand, index: idx, start: s, end: e };
                let cur = results[e];
                match cur {
                    None => {
                        results[e] = Some(nd);
                        scores[e] = cand;
                    },
                    Some(b) => {
                        if cand > b.score {
                            results[e] = Some(nd);
                            scores[e] = cand;
                        }
                    },
                }
                proof {
                    assert(cell_state(results@[e as int], scores@[e as int], scan(v, text@, lt,
                        e as int, s + 1)));
                    assert forall|e2: int| s < e2 <= ni && e2 != e implies #[trigger] covered_len(
                        ms,
                        mi + 1,
                        e2 - s,
                    ) == covered_len(ms, mi as int, e2 - s) by {
                        if covered_len(ms, mi + 1, e2 - s) {
                            let j = choose|j: int| 0 <= j < mi + 1 && (#[trigger] ms[j]).0 as int
                                == e2 - s;
                            assert(j < mi);
                        }
                    }
                    assert(covered_len(ms, mi + 1, e - s));
                }
                mi += 1;
            }
            proof {
                assert forall|e: int| s < e <= ni implies cell_state(
                    #[trigger] results@[e],
                    scores@[e],
                    scan(v, text@, lt, e, s + 1),
                ) by {
                    if !covered_len(ms, ms.len() as int, e - s) {
                        assert(!v.contains_key(text@.subrange(s as int, e))) by {
                            if v.contains_key(text@.subrange(s as int, e)) {
                                assert(suffix@.subrange(0, e - s) =~= text@.subrange(s as int, e));
                                assert(v.contains_key(suffix@.subrange(0, e - s)));
                                let j = choose|j: int| 0 <= j < ms.len() && (#[trigger] ms[j]).0
                                    == e - s;
                                assert(covered_len(ms, ms.len() as int, e - s));
                            }
                        }
                        assert(scan(v, text@, lt, e, s + 1) == scan(v, text@, lt, e, s as int));
                    }
                }
                lemma_cell_scan(v, text@, ni, s + 1);
            }
            let nxt = results[s + 1];
            match nxt {
                None => {
                    results[s + 1] = Some(Node {
                        score: UNKNOWN_SCORE,
                        index: 0,
                        start: s,
                        end: s + 1,
                    });
                    scores[s + 1] = 0;
                },
                Some(_) => {},
            }
            proof {
                assert(opt_edge_model(results@[s + 1]) == lt[s + 1].1 && scores@[s + 1] as int
                    == lt[s + 1].0);
            }
            s += 1;
        }
        proof {
            assert forall|j: int| 1 <= j < results@.len() implies ((#[trigger] results@[j])
                matches Some(nd) && nd.end == j && (nd.start as int) < j) by {
                lemma_lattice_wf(v, text@, ni, j);
            }
            lemma_lattice_wf(v, text@, ni, 0);
        }
        results
    }

    /// Tokenizes with the trie-accelerated strategy: substitutes the
    /// word-boundary marker, runs the forward and backward passes, and
    /// returns the winning piece texts.
    pub fn tokenize_dag(&self, text: &str) -> (r: Vec<String>)
        requires
            self.wf(),
            text@.len() <= MAX_TEXT_LEN,
        ensures
            strings_view(r@) == spec_tokens(self.vmap(), normalize_spec(text@)),
    {
        let ghost v = self.vmap();
        let norm = normalize(text);
        let ghost nt = norm@;
        let lat = self.decode_forward_dag(norm.as_str());
        let edges = self.decode_backward(&lat);
        let ghost n = nt.len() as int;
        let ghost latspec = lattice(v, nt, n);
        let ghost p = path_from(latspec, n);
        proof {
            lemma_lattice_len(v, nt, n);
            assert forall|j: int| 0 <= j < latspec.len() implies (#[trigger] lat_model(
                lat@,
            )[j]).1 == latspec[j].1 by {
                assert(lat_model(lat@)[j].1 == opt_edge_model(lat@[j]));
            }
            lemma_path_agree(lat_model(lat@), latspec, n);
            assert forall|j: int| 1 <= j < latspec.len() implies ((#[trigger] latspec[j]).1
                matches Some(e) ==> 0 <= e.start < j && e.end == j) by {
                lemma_lattice_wf(v, nt, n, j);
            }
            lemma_path_edges_wf(latspec, n);
            assert(edges_model(edges@) == p);
        }
        let mut out: Vec<String> = Vec::new();
        let mut idx: usize = 0;
        while idx < edges.len()
            invariant
                nt == norm@,
                edges_model(edges@) == p,
                forall|t: int| 0 <= t < p.len() ==> 0 <= (#[trigger] p[t]).start < p[t].end
                    <= nt.len(),
                idx <= edges@.len(),
                out@.len() == idx,
                forall|t: int| 0 <= t < idx ==> (#[trigger] out@[t])@ == nt.subrange(
                    p[t].start,
                    p[t].end,
                ),
            decreases edges@.len() - idx,
        {
            let e = edges[idx];
            proof {
                assert(edges_model(edges@)[idx as int] == edge_model(edges@[idx as int]));
            }
            let piece = norm.as_str().substring_char(e.start, e.end);
            out.push(piece.to_owned());
            idx += 1;
        }
        proof {
            assert(strings_view(out@) =~= p.map_values(|e: SpecEdge| nt.subrange(e.start, e.end)));
            assert(strings_view(out@) =~= spec_tokens(v, nt));
        }
        out
    }

    /// Tokenizes with the direct-lookup strategy: substitutes the
    /// word-boundary marker, runs the forward and backward passes, and
    /// returns the winning piece texts.
    pub fn tokenize(&self, text: &str) -> (r: Vec<String>)
        requires
            self.wf(),
            text@.len() <= MAX_TEXT_LEN,
        ensures
            strings_view(r@) == spec_tokens(self.vmap(), normalize_spec(text@)),
    {
        let ghost v = self.vmap();
        let norm = normalize(text);
        let ghost nt = norm@;
        let lat = self.decode_forward(norm.as_str());
        let edges = self.decode_backward(&lat);
        let ghost n = nt.len() as int;
        let ghost latspec = lattice(v, nt, n);
        let ghost p = path_from(latspec, n);
        proof {
            lemma_lattice_len(v, nt, n);
            assert forall|j: int| 0 <= j < latspec.len() implies (#[trigger] lat_model(
                lat@,
            )[j]).1 == latspec[j].1 by {
                assert(lat_model(lat@)[j].1 == opt_edge_model(lat@[j]));
            }
            lemma_path_agree(lat_model(lat@), latspec, n);
            assert forall|j: int| 1 <= j < latspec.len() implies ((#[trigger] latspec[j]).1
                matches Some(e) ==> 0 <= e.start < j && e.end == j) by {
                lemma_lattice_wf(v, nt, n, j);
            }
            lemma_path_edges_wf(latspec, n);
            assert(edges_model(edges@) == p);
        }
        let mut out: Vec<String> = Vec::new();
        let mut idx: usize = 0;
        while idx < edges.len()
            invariant
                nt == norm@,
                edges_model(edges@) == p,
                forall|t: int| 0 <= t < p.len() ==> 0 <= (#[trigger] p[t]).start < p[t].end
                    <= nt.len(),
                idx <= edges@.len(),
                out@.len() == idx,
                forall|t: int| 0 <= t < idx ==> (#[trigger] out@[t])@ == nt.subrange(
                    p[t].start,
                    p[t].end,
                ),
            decreases edges@.len() - idx,
        {
            let e = edges[idx];
            proof {
                assert(edges_model(edges@)[idx as int] == edge_model(edges@[idx as int]));
            }
            let piece = norm.as_str().substring_char(e.start, e.end);
            out.push(piece.to_owned());
            idx += 1;
        }
        proof {
            assert(strings_view(out@) =~= p.map_values(|e: SpecEdge| nt.subrange(e.start, e.end)));
            assert(strings_view(out@) =~= spec_tokens(v, nt));
        }
        out
    }
}

/// Whether one of the first `m` matches has character length `d`.
pub open spec fn covered_len(ms: Seq<(usize, i64, i32)>, m: int, d: int) -> bool {
    exists|j: int| 0 <= j < m && (#[trigger] ms[j]).0 as int == d
}

pub(crate) proof fn lemma_entries_bounded(es: Seq<(Seq<char>, int, int)>)
    requires
        forall|i: int| 0 <= i < es.len() ==> (#[trigger] es[i]).0.len() >= 1
            && -(SCORE_LIMIT as int) <= es[i].1 <= SCORE_LIMIT as int,
    ensures
        vocab_bounded(entries_map(es)),
    decreases es.len(),
{
    if es.len() > 0 {
        lemma_entries_bounded(es.drop_last());
        assert(forall|i: int| 0 <= i < es.len() - 1 ==> #[trigger] es.drop_last()[i] == es[i]);
        assert(es.last().0.len() >= 1 && -(SCORE_LIMIT as int) <= es.last().1 <= SCORE_LIMIT as int);
        assert(entries_map(es) == entries_map(es.drop_last()).insert(
            es.last().0,
            PieceData { score: es.last().1, index: es.last().2 },
        ));
        assert forall|k: Seq<char>| entries_map(es).contains_key(k) implies k.len() >= 1
            && -(SCORE_LIMIT as int) <= entries_map(es)[k].score <= SCORE_LIMIT as int by {
            if k != es.last().0 {
                assert(entries_map(es.drop_last()).contains_key(k));
                assert(entries_map(es.drop_last())[k] == entries_map(es)[k]);
            }
        }
    }
}

} // verus!
