//! The model backed by a compressed (double-array) trie from the `darts`
//! crate: the trie answers which pieces are a prefix of a suffix, and the
//! vocabulary resolves each match back to its score and id.
use vstd::prelude::*;
use darts::DoubleArrayTrie;
use crate::basic::{assoc_lookup, entry_view, entries_view};
use crate::seg::{
    PieceData, SpecEdge, edge_model, opt_edge_model, entries_map, pieces_vmap, vocab_bounded,
    scan, lattice, path_from, spec_tokens, normalize_spec, normalize, backward, wf_edges,
    lat_model, edges_model, strings_view, lemma_lattice_len, lemma_lattice_stable, lemma_lattice_wf,
    lemma_lattice_bound, lemma_scan_props, lemma_path_agree, lemma_path_edges_wf, lemma_cell_scan,
    cell_state, SCORE_LIMIT, MAX_TEXT_LEN, UNKNOWN_SCORE,
};

pub use crate::seg::Node;

verus! {

#[verifier::external_type_specification]
#[verifier::external_body]
pub struct ExDoubleArrayTrie(DoubleArrayTrie);

/// The set of piece texts a double-array trie holds.
pub uninterp spec fn dart_keys(d: DoubleArrayTrie) -> Set<Seq<char>>;

/// Code-point lexicographic order, a prefix ordered before its extensions.
pub open spec fn lex_le(a: Seq<char>, b: Seq<char>) -> bool
    decreases a.len(),
{
    if a.len() == 0 {
        true
    } else if b.len() == 0 {
        false
    } else if (a[0] as u32) == (b[0] as u32) {
        lex_le(a.drop_first(), b.drop_first())
    } else {
        (a[0] as u32) < (b[0] as u32)
    }
}

proof fn lemma_lex_refl(a: Seq<char>)
    ensures
        lex_le(a, a),
    decreases a.len(),
{
    if a.len() > 0 {
        lemma_lex_refl(a.drop_first());
    }
}

proof fn lemma_lex_total(a: Seq<char>, b: Seq<char>)
    ensures
        lex_le(a, b) || lex_le(b, a),
    decreases a.len(),
{
    if a.len() > 0 && b.len() > 0 && (a[0] as u32) == (b[0] as u32) {
        lemma_lex_total(a.drop_first(), b.drop_first());
    }
}

proof fn lemma_lex_trans(a: Seq<char>, b: Seq<char>, c: Seq<char>)
    requires
        lex_le(a, b),
        lex_le(b, c),
    ensures
        lex_le(a, c),
    decreases a.len(),
{
    if a.len() > 0 && b.len() > 0 && c.len() > 0 && (a[0] as u32) == (b[0] as u32) && (b[0] as u32)
        == (c[0] as u32) {
        lemma_lex_trans(a.drop_first(), b.drop_first(), c.drop_first());
    }
}

/// Whether some element of `vs` has view `x`.
pub open spec fn has_text(vs: Seq<String>, x: Seq<char>) -> bool {
    exists|j: int| 0 <= j < vs.len() && (#[trigger] vs[j])@ == x
}

/// Whether every character of `x` has a code point the double-array trie
/// builder can place: when a sibling group does not fit, the builder grows
/// its arrays by one multiplicative step, at least 5% of the current
/// allocation and so at least 55,705 slots of the initial `char::MAX` ones,
/// without checking that the step covers the group's largest code. Code
/// points below U+D800 (the Basic Multilingual Plane up to the surrogate
/// range) keep every group's spread below that floor; larger ones can reach
/// past the grown arrays.
pub open spec fn fits_trie(x: Seq<char>) -> bool {
    forall|i: int| 0 <= i < x.len() ==> ((#[trigger] x[i]) as u32) < 0xD800
}

/// Code-point comparison of two strings.
fn lex_le_exec(a: &str, b: &str) -> (r: bool)
    ensures
        r == lex_le(a@, b@),
{
    let an = a.unicode_len();
    let bn = b.unicode_len();
    let mut i: usize = 0;
    proof {
        assert(a@.skip(0) =~= a@);
        assert(b@.skip(0) =~= b@);
    }
    loop
        invariant
            an == a@.len(),
            bn == b@.len(),
            i <= an,
            i <= bn,
            lex_le(a@, b@) == lex_le(a@.skip(i as int), b@.skip(i as int)),
        ensures
            ({
                let r = lex_le(a@, b@);
                (i >= an && r) || (i < an && i >= bn && !r) || (i < an && i < bn && (a@[i as int]
                    as u32) != (b@[i as int] as u32) && r == ((a@[i as int] as u32) < (b@[i
                    as int] as u32)))
            }),
        decreases an - i,
    {
        if i >= an {
            proof {
                assert(a@.skip(i as int) =~= Seq::<char>::empty());
            }
            break;
        }
        if i >= bn {
            proof {
                assert(b@.skip(i as int) =~= Seq::<char>::empty());
                assert(a@.skip(i as int).len() > 0);
            }
            break;
        }
        let ca = a.get_char(i);
        let cb = b.get_char(i);
        proof {
            assert(a@.skip(i as int)[0] == a@[i as int]);
            assert(b@.skip(i as int)[0] == b@[i as int]);
        }
        if (ca as u32) != (cb as u32) {
            break;
        }
        proof {
            assert(a@.skip(i as int).drop_first() =~= a@.skip(i + 1));
            assert(b@.skip(i as int).drop_first() =~= b@.skip(i + 1));
        }
        i += 1;
    }
    if i >= an {
        true
    } else if i >= bn {
        false
    } else {
        (a.get_char(i) as u32) < (b.get_char(i) as u32)
    }
}

/// Sorts the records by code-point order, keeping the same texts.
fn sort_records(v: &mut Vec<String>)
    ensures
        final(v)@.len() == old(v)@.len(),
        forall|a: int, b: int| 0 <= a < b < final(v)@.len() ==> lex_le(
            (#[trigger] final(v)@[a])@,
            (#[trigger] final(v)@[b])@,
        ),
        forall|x: Seq<char>| has_text(final(v)@, x) <==> has_text(old(v)@, x),
{
    let ghost orig = v@;
    let n = v.len();
    let mut i: usize = 0;
    while i < n
        invariant
            n == v@.len(),
            i <= n,
            forall|x: Seq<char>| has_text(v@, x) <==> has_text(orig, x),
            forall|a: int, b: int| 0 <= a < b < n && a < i ==> lex_le(
                (#[trigger] v@[a])@,
                (#[trigger] v@[b])@,
            ),
        decreases n - i,
    {
        let mut m: usize = i;
        let mut t: usize = i + 1;
        proof {
            lemma_lex_refl((v@[i as int])@);
        }
        while t < n
            invariant
                n == v@.len(),
                i < n,
                i <= m < n,
                i < t <= n,
                m < t,
                forall|u: int| i <= u < t ==> lex_le((v@[m as int])@, (#[trigger] v@[u])@),
            decreases n - t,
        {
            if lex_le_exec(v[t].as_str(), v[m].as_str()) {
                proof {
                    assert forall|u: int| i <= u < t + 1 implies lex_le(
                        (v@[t as int])@,
                        (#[trigger] v@[u])@,
                    ) by {
                        if u < t {
                            lemma_lex_trans((v@[t as int])@, (v@[m as int])@, (v@[u])@);
                        } else {
                            lemma_lex_refl((v@[t as int])@);
                        }
                    }
                }
                m = t;
            } else {
                proof {
                    lemma_lex_total((v@[t as int])@, (v@[m as int])@);
                }
            }
            t += 1;
        }
        if m != i {
            let ghost before = v@;
            let a = v[i].clone();
            let b = v[m].clone();
            v[i] = b;
            v[m] = a;
            proof {
                assert((v@[i as int])@ == (before[m as int])@);
                assert((v@[m as int])@ == (before[i as int])@);
                assert(forall|u: int| 0 <= u < n && u != i && u != m ==> (#[trigger] v@[u])@
                    == (before[u])@);
                assert forall|x: Seq<char>| has_text(v@, x) implies has_text(before, x) by {
                    let j = choose|j: int| 0 <= j < v@.len() && (#[trigger] v@[j])@ == x;
                    if j == i {
                        assert((before[m as int])@ == x);
                    } else if j == m {
                        assert((before[i as int])@ == x);
                    } else {
                        assert((before[j])@ == x);
                    }
                }
                assert forall|x: Seq<char>| has_text(before, x) implies has_text(v@, x) by {
                    let j = choose|j: int| 0 <= j < before.len() && (#[trigger] before[j])@ == x;
                    if j == i {
                        assert((v@[m as int])@ == x);
                    } else if j == m {
                        assert((v@[i as int])@ == x);
                    } else {
                        assert((v@[j])@ == x);
                    }
                }
            }
        }
        i += 1;
    }
}

/// Relies on `darts::DoubleArrayTrieBuilder::build`: constructs a
/// double-array trie holding exactly the given keys. The builder walks the
/// keys as character sequences, asserts they arrive sorted, uses the NUL
/// character as its internal terminator, asserts a nonempty sibling list (so
/// an empty key set panics), and grows its arrays only by the step
/// `fits_trie` describes, so the keys must be sorted, nonempty, free of NUL,
/// within the placeable code points, and at least one.
#[verifier::external_body]
fn dart_build(records: &Vec<String>) -> (d: DoubleArrayTrie)
    requires
        records@.len() >= 1,
        forall|a: int, b: int| 0 <= a < b < records@.len() ==> lex_le(
            (#[trigger] records@[a])@,
            (#[trigger] records@[b])@,
        ),
        forall|a: int| 0 <= a < records@.len() ==> (#[trigger] records@[a])@.len() >= 1
            && !records@[a]@.contains('\u{0}') && fits_trie(records@[a]@),
    ensures
        forall|x: Seq<char>| dart_keys(d).contains(x) <==> has_text(records@, x),
{
    let refs: Vec<&str> = records.iter().map(|s| s.as_str()).collect();
    darts::DoubleArrayTrieBuilder::new().build(&refs)
}

/// Relies on `darts::DoubleArrayTrie::common_prefix_search`: yields, in
/// increasing length, the byte end of every stored key that is a prefix of
/// the query; each byte end is converted to the matching character count.
/// The walk indexes its arrays by code point and the final arrays reserve
/// `char::MAX` slots past the last used base, so the walk is in bounds only
/// for query codes below U+10FFFE: the query is cut at the first character
/// past that, and no match is lost by the cut because every stored key stays
/// below it. A stored empty key would be reported as a match of length zero,
/// so the keys must be nonempty.
#[verifier::external_body]
fn dart_prefix_lens(d: &DoubleArrayTrie, text: &str) -> (r: Vec<usize>)
    requires
        forall|x: Seq<char>| #[trigger] dart_keys(*d).contains(x) ==> x.len() >= 1 && fits_trie(
            x,
        ),
    ensures
        forall|j: int| 0 <= j < r@.len() ==> 1 <= #[trigger] r@[j] <= text@.len() && dart_keys(
            *d,
        ).contains(text@.subrange(0, r@[j] as int)),
        forall|k: int| 1 <= k <= text@.len() && dart_keys(*d).contains(text@.subrange(0, k))
            ==> exists|j: int| 0 <= j < r@.len() && #[trigger] r@[j] == k,
        forall|j1: int, j2: int| 0 <= j1 < j2 < r@.len() ==> r@[j1] < r@[j2],
{
    let cut = text
        .char_indices()
        .find(|&(_, c)| c as u32 >= 0x10FFFE)
        .map_or(text.len(), |(i, _)| i);
    match d.common_prefix_search(&text[..cut]) {
        Some(ends) => ends.into_iter().map(|(e, _)| text[..e].chars().count()).collect(),
        None => Vec::new(),
    }
}

proof fn lemma_entries_dom_fwd(es: Seq<(Seq<char>, int, int)>, x: Seq<char>)
    requires
        entries_map(es).contains_key(x),
    ensures
        exists|i: int| 0 <= i < es.len() && (#[trigger] es[i]).0 == x,
    decreases es.len(),
{
    if es.len() > 0 {
        if x == es.last().0 {
            assert((es[es.len() - 1]).0 == x);
        } else {
            lemma_entries_dom_fwd(es.drop_last(), x);
            let i = choose|i: int|
                0 <= i < es.drop_last().len() && (#[trigger] es.drop_last()[i]).0 == x;
            assert(es.drop_last()[i] == es[i]);
            assert((es[i]).0 == x);
        }
    }
}

proof fn lemma_entries_dom_rev(es: Seq<(Seq<char>, int, int)>, x: Seq<char>, i: int)
    requires
        0 <= i < es.len(),
        es[i].0 == x,
    ensures
        entries_map(es).contains_key(x),
    decreases es.len(),
{
    if i == es.len() - 1 {
    } else {
        assert(es.drop_last()[i] == es[i]);
        lemma_entries_dom_rev(es.drop_last(), x, i);
    }
}

/// One prefix match: the matched piece text, its character length, and the
/// piece's score and id.
pub struct Prefix {
    pub text: String,
    pub len: usize,
    pub score: i64,
    pub index: i32,
}

/// A sentence-piece model holding a compressed trie over the piece texts
/// beside the vocabulary entry list.
pub struct SentencePieceModel {
    pub dart: DoubleArrayTrie,
    pub vocab: Vec<(String, i64, i32)>,
}

impl SentencePieceModel {
    /// The mapping from piece text to score and id this model holds.
    pub open spec fn vmap(self) -> Map<Seq<char>, PieceData> {
        entries_map(entries_view(self.vocab@))
    }

    /// The entries are nonempty NUL-free texts within the trie builder's
    /// placeable code points, with bounded scores, and the trie holds
    /// exactly the vocabulary's texts.
    pub open spec fn wf(self) -> bool {
        &&& forall|i: int| 0 <= i < self.vocab@.len() ==> (#[trigger] self.vocab@[i]).0@.len() >= 1
            && -SCORE_LIMIT <= self.vocab@[i].1 <= SCORE_LIMIT && fits_trie(self.vocab@[i].0@)
        &&& forall|x: Seq<char>| #[trigger] dart_keys(self.dart).contains(x)
            <==> self.vmap().contains_key(x)
    }

    proof fn lemma_bounded(self)
        requires
            self.wf(),
        ensures
            vocab_bounded(self.vmap()),
    {
        crate::basic::lemma_entries_bounded(entries_view(self.vocab@));
    }

    /// Builds a model from an ordered piece list: the vocabulary keeps the
    /// order (ids positional, last entry winning on a repeated text) and the
    /// trie is built from the piece texts sorted by code point. The trie
    /// needs at least one piece, and texts free of its NUL terminator whose
    /// characters stay below U+D800, the bound its builder can always place;
    /// a vocabulary that is empty or holds pieces with supplementary-plane
    /// characters is served by the exact-match model instead.
    pub fn load(pieces: Vec<(String, i64)>) -> (m: SentencePieceModel)
        requires
            1 <= pieces@.len() <= 0x7FFF_FFFFusize,
            forall|i: int| 0 <= i < pieces@.len() ==> (#[trigger] pieces@[i]).0@.len() >= 1
                && -SCORE_LIMIT <= pieces@[i].1 <= SCORE_LIMIT && !pieces@[i].0@.contains(
                '\u{0}',
            ) && fits_trie(pieces@[i].0@),
        ensures
            m.wf(),
            m.vmap() == pieces_vmap(pieces@.map_values(|p: (String, i64)| (p.0@, p.1 as int))),
    {
        let ghost ps = pieces@.map_values(|p: (String, i64)| (p.0@, p.1 as int));
        let mut vocab: Vec<(String, i64, i32)> = Vec::new();
        let mut records: Vec<String> = Vec::new();
        let mut i: usize = 0;
        while i < pieces.len()
            invariant
                i <= pieces@.len(),
                pieces@.len() <= 0x7FFF_FFFFusize,
                ps == pieces@.map_values(|p: (String, i64)| (p.0@, p.1 as int)),
                forall|j: int| 0 <= j < pieces@.len() ==> (#[trigger] pieces@[j]).0@.len() >= 1
                    && -SCORE_LIMIT <= pieces@[j].1 <= SCORE_LIMIT && !pieces@[j].0@.contains(
                    '\u{0}',
                ) && fits_trie(pieces@[j].0@),
                vocab@.len() == i,
                records@.len() == i,
                forall|j: int| 0 <= j < i ==> (#[trigger] vocab@[j]).0@.len() >= 1 && -SCORE_LIMIT
                    <= vocab@[j].1 <= SCORE_LIMIT && fits_trie(vocab@[j].0@),
                forall|j: int| 0 <= j < i ==> (#[trigger] records@[j])@ == vocab@[j].0@,
                forall|j: int| 0 <= j < i ==> (#[trigger] records@[j])@ == pieces@[j].0@,
                entries_map(entries_view(vocab@)) == pieces_vmap(ps.subrange(0, i as int)),
            decreases pieces@.len() - i,
        {
            let text = pieces[i].0.clone();
            let score = pieces[i].1;
            records.push(pieces[i].0.clone());
            proof {
                let old_es = entries_view(vocab@);
                let new_es = entries_view(vocab@.push((text, score, i as i32)));
                assert(new_es.drop_last() =~= old_es);
                assert(ps.subrange(0, i + 1).drop_last() =~= ps.subrange(0, i as int));
                assert(ps.subrange(0, i + 1).last() == (pieces@[i as int].0@, pieces@[i as int].1
                    as int));
            }
            vocab.push((text, score, i as i32));
            i += 1;
        }
        proof {
            assert(ps.subrange(0, ps.len() as int) =~= ps);
        }
        let ghost unsorted = records@;
        sort_records(&mut records);
        proof {
            assert forall|a: int| 0 <= a < records@.len() implies (#[trigger] records@[a])@.len()
                >= 1 && !records@[a]@.contains('\u{0}') && fits_trie(records@[a]@) by {
                assert(has_text(records@, records@[a]@));
                let u = choose|u: int| 0 <= u < unsorted.len() && (#[trigger] unsorted[u])@
                    == records@[a]@;
                assert(unsorted[u]@ == pieces@[u].0@);
            }
        }
        let dart = dart_build(&records);
        let m = SentencePieceModel { dart, vocab };
        proof {
            let es = entries_view(m.vocab@);
            assert forall|x: Seq<char>| #[trigger] dart_keys(m.dart).contains(x)
                <==> m.vmap().contains_key(x) by {
                if dart_keys(m.dart).contains(x) {
                    assert(has_text(records@, x));
                    assert(has_text(unsorted, x));
                    let u = choose|u: int| 0 <= u < unsorted.len() && (#[trigger] unsorted[u])@
                        == x;
                    assert(es[u] == entry_view(m.vocab@[u]));
                    assert((es[u]).0 == x);
                    lemma_entries_dom_rev(es, x, u);
                }
                if m.vmap().contains_key(x) {
                    lemma_entries_dom_fwd(es, x);
                    let u = choose|u: int| 0 <= u < es.len() && (#[trigger] es[u]).0 == x;
                    assert(es[u] == entry_view(m.vocab@[u]));
                    assert((unsorted[u])@ == x);
                    assert(has_text(unsorted, x));
                    assert(has_text(records@, x));
                }
            }
        }
        m
    }

    /// Every vocabulary piece that is a prefix of `text`, in increasing
    /// length: the trie supplies where matches end, the vocabulary resolves
    /// each match to its score and id.
    pub fn common_prefix_search(&self, text: &str) -> (r: Vec<Prefix>)
        requires
            self.wf(),
        ensures
            forall|j: int| 0 <= j < r@.len() ==> 1 <= (#[trigger] r@[j]).len <= text@.len()
                && r@[j].text@ == text@.subrange(0, r@[j].len as int) && self.vmap().contains_key(
                text@.subrange(0, r@[j].len as int),
            ) && self.vmap()[text@.subrange(0, r@[j].len as int)] == (PieceData {
                score: r@[j].score as int,
                index: r@[j].index as int,
            }),
            forall|k: int| 1 <= k <= text@.len() && self.vmap().contains_key(
                text@.subrange(0, k),
            ) ==> exists|j: int| 0 <= j < r@.len() && (#[trigger] r@[j]).len == k,
            forall|j1: int, j2: int| 0 <= j1 < j2 < r@.len() ==> (#[trigger] r@[j1]).len < (
            #[trigger] r@[j2]).len,
    {
        proof {
            let es = entries_view(self.vocab@);
            assert forall|x: Seq<char>| #[trigger] dart_keys(self.dart).contains(x) implies x.len()
                >= 1 && fits_trie(x) by {
                assert(self.vmap().contains_key(x));
                lemma_entries_dom_fwd(es, x);
                let u = choose|u: int| 0 <= u < es.len() && (#[trigger] es[u]).0 == x;
                assert(es[u] == entry_view(self.vocab@[u]));
            }
        }
        let lens = dart_prefix_lens(&self.dart, text);
        let mut r: Vec<Prefix> = Vec::new();
        let mut j: usize = 0;
        while j < lens.len()
            invariant
                self.wf(),
                forall|t: int| 0 <= t < lens@.len() ==> 1 <= #[trigger] lens@[t] <= text@.len()
                    && dart_keys(self.dart).contains(text@.subrange(0, lens@[t] as int)),
                forall|t1: int, t2: int| 0 <= t1 < t2 < lens@.len() ==> lens@[t1] < lens@[t2],
                j <= lens@.len(),
                r@.len() == j,
                forall|t: int| 0 <= t < j ==> (#[trigger] r@[t]).len == lens@[t],
                forall|t: int| 0 <= t < j ==> (#[trigger] r@[t]).text@ == text@.subrange(
                    0,
                    lens@[t] as int,
                ) && self.vmap().contains_key(text@.subrange(0, lens@[t] as int))
                    && self.vmap()[text@.subrange(0, lens@[t] as int)] == (PieceData {
                    score: r@[t].score as int,
                    index: r@[t].index as int,
                }),
            decreases lens@.len() - j,
        {
            let klen = lens[j];
            proof {
                assert(dart_keys(self.dart).contains(text@.subrange(0, klen as int)));
            }
            let (sc, idx) = match assoc_lookup(&self.vocab, text, 0, klen) {
                Some(p) => p,
                None => {
                    proof {
                        assert(false);
                    }
                    (0i64, 0i32)
                },
            };
            let ptext = text.substring_char(0, klen).to_owned();
            r.push(Prefix { text: ptext, len: klen, score: sc, index: idx });
            j += 1;
        }
        proof {
            assert forall|k: int| 1 <= k <= text@.len() && self.vmap().contains_key(
                text@.subrange(0, k),
            ) implies exists|t: int| 0 <= t < r@.len() && (#[trigger] r@[t]).len == k by {
                assert(dart_keys(self.dart).contains(text@.subrange(0, k)));
                let t = choose|t: int| 0 <= t < lens@.len() && #[trigger] lens@[t] == k;
                assert((r@[t]).len == k);
            }
        }
        r
    }

    /// The trie-accelerated forward pass: one common-prefix query per start
    /// boundary; the result is exactly the segmentation lattice.
    pub fn decode_forward(&self, text: &str) -> (r: Vec<Option<Node>>)
        requires
            self.wf(),
            text@.len() <= MAX_TEXT_LEN,
        ensures
            r@.len() == text@.len() + 1,
            forall|j: int| 0 <= j <= text@.len() ==> opt_edge_model(#[trigger] r@[j]) == lattice(
                self.vmap(),
                text@,
                text@.len() as int,
            )[j].1,
            wf_edges(r@),
    {
        let ghost v = self.vmap();
        let n = text.unicode_len();
        let ghost ni = n as int;
        let ghost lt = lattice(v, text@, ni);
        proof {
            self.lemma_bounded();
            lemma_lattice_len(v, text@, ni);
            lemma_lattice_bound(v, text@, ni);
            assert(lt[0] == lattice(v, text@, 0)[0]) by {
                lemma_lattice_stable(v, text@, ni, 0);
            }
        }
        let mut results: Vec<Option<Node>> = vec![None; n + 1];
        let mut scores: Vec<i64> = vec![0i64; n + 1];
        let mut s: usize = 0;
        while s < n
            invariant
                self.wf(),
                v == self.vmap(),
                vocab_bounded(v),
                n == text@.len(),
                n <= MAX_TEXT_LEN,
                ni == n as int,
                lt == lattice(v, text@, ni),
                lt.len() == ni + 1,
                s <= n,
                results@.len() == n + 1,
                scores@.len() == n + 1,
                forall|j: int| 0 <= j <= ni ==> -(j * (SCORE_LIMIT as int)) <= (#[trigger] lt[j]).0
                    <= j * (SCORE_LIMIT as int),
                forall|j: int| 0 <= j <= s ==> opt_edge_model(#[trigger] results@[j]) == lt[j].1
                    && scores@[j] as int == lt[j].0,
                forall|e: int| s < e <= ni ==> cell_state(
                    #[trigger] results@[e],
                    scores@[e],
                    scan(v, text@, lt, e, s as int),
                ),
            decreases n - s,
        {
            let suffix = text.substring_char(s, n);
            let matches = self.common_prefix_search(suffix);
            let ghost ms = matches@;
            proof {
                assert forall|d: int| 1 <= d <= ni - s implies suffix@.subrange(0, d)
                    =~= text@.subrange(s as int, s + d) by {}
            }
            let mut mi: usize = 0;
            while mi < matches.len()
                invariant
                    self.wf(),
                    v == self.vmap(),
                    vocab_bounded(v),
                    n == text@.len(),
                    n <= MAX_TEXT_LEN,
                    ni == n as int,
                    lt == lattice(v, text@, ni),
                    lt.len() == ni + 1,
                    s < n,
                    mi <= ms.len(),
                    ms == matches@,
                    suffix@ == text@.subrange(s as int, ni),
                    results@.len() == n + 1,
                    scores@.len() == n + 1,
                    forall|j: int| 0 <= j <= ni ==> -(j * (SCORE_LIMIT as int)) <= (
                    #[trigger] lt[j]).0 <= j * (SCORE_LIMIT as int),
                    forall|j: int| 0 <= j < ms.len() ==> 1 <= (#[trigger] ms[j]).len <= ni - s
                        && v.contains_key(text@.subrange(s as int, s + ms[j].len)) && v[
                        text@.subrange(s as int, s + ms[j].len)] == (PieceData {
                        score: ms[j].score as int,
                        index: ms[j].index as int,
                    }),
                    forall|j1: int, j2: int| 0 <= j1 < j2 < ms.len() ==> (#[trigger] ms[j1]).len
                        < (#[trigger] ms[j2]).len,
                    forall|j: int| 0 <= j <= s ==> opt_edge_model(#[trigger] results@[j])
                        == lt[j].1 && scores@[j] as int == lt[j].0,
                    forall|e: int| s < e <= ni ==> cell_state(
                        #[trigger] results@[e],
                        scores@[e],
                        scan(
                            v,
                            text@,
                            lt,
                            e,
                            if covered(ms, mi as int, e - s) { s + 1 } else { s as int },
                        ),
                    ),
                decreases ms.len() - mi,
            {
                let d = matches[mi].len;
                let sc = matches[mi].score;
                let idx = matches[mi].index;
                let e = s + d;
                proof {
                    assert(!covered(ms, mi as int, d as int)) by {
                        assert(forall|j: int| 0 <= j < mi ==> (#[trigger] ms[j]).len < d);
                    }
                    assert(suffix@.subrange(0, d as int) =~= text@.subrange(s as int, e as int));
                    assert(cell_state(results@[e as int], scores@[e as int], scan(v, text@, lt,
                        e as int, s as int)));
                    assert(v.contains_key(text@.subrange(s as int, e as int)));
                    assert(v[text@.subrange(s as int, e as int)] == (PieceData {
                        score: sc as int,
                        index: idx as int,
                    }));
                    assert(opt_edge_model(results@[s as int]) == lt[s as int].1 && scores@[s
                        as int] as int == lt[s as int].0);
                    assert(-((s as int) * (SCORE_LIMIT as int)) <= lt[s as int].0 <= (s as int) * (
                    SCORE_LIMIT as int));
                    assert((s as int) * (SCORE_LIMIT as int) + (SCORE_LIMIT as int)
                        <= 0x8000_0000int * 0x8000_0000int) by (nonlinear_arith)
                        requires
                            0 <= s as int <= 0x7FFF_FFFFint,
                    {}
                    lemma_scan_props(v, text@, lt, e as int, s as int);
                }
                let cand = scores[s] + sc;
                let nd = Node { score: cand, index: idx, start: s, end: e };
                let cur = results[e];
                match cur {
                    None => {
                        results[e] = Some(nd);
                        scores[e] = cand;
                    },
                    Some(b) => {
                        if cand > b.score {
                            results[e] = Some(nd);
                            scores[e] = cand;
                        }
                    },
                }
                proof {
                    assert(cell_state(results@[e as int], scores@[e as int], scan(v, text@, lt,
                        e as int, s + 1)));
                    assert forall|e2: int| s < e2 <= ni && e2 != e implies #[trigger] covered(
                        ms,
                        mi + 1,
                        e2 - s,
                    ) == covered(ms, mi as int, e2 - s) by {
                        if covered(ms, mi + 1, e2 - s) {
                            let j = choose|j: int| 0 <= j < mi + 1 && (#[trigger] ms[j]).len as int
                                == e2 - s;
                            assert(j < mi);
                        }
                    }
                    assert(covered(ms, mi + 1, e - s));
                }
                mi += 1;
            }
            proof {
                assert forall|e: int| s < e <= ni implies cell_state(
                    #[trigger] results@[e],
                    scores@[e],
                    scan(v, text@, lt, e, s + 1),
                ) by {
                    if !covered(ms, ms.len() as int, e - s) {
                        assert(!v.contains_key(text@.subrange(s as int, e))) by {
                            if v.contains_key(text@.subrange(s as int, e)) {
                                assert(suffix@.subrange(0, e - s) =~= text@.subrange(s as int, e));
                                assert(v.contains_key(suffix@.subrange(0, e - s)));
                                let j = choose|j: int| 0 <= j < ms.len() && (#[trigger] ms[j]).len
                                    == e - s;
                                assert(covered(ms, ms.len() as int, e - s));
                            }
                        }
                        assert(scan(v, text@, lt, e, s + 1) == scan(v, text@, lt, e, s as int));
                    }
                }
                lemma_cell_scan(v, text@, ni, s + 1);
            }
            let nxt = results[s + 1];
            match nxt {
                None => {
                    results[s + 1] = Some(Node { score: UNKNOWN_SCORE, index: 0, start: s, end: s + 1 });
                    scores[s + 1] = 0;
                },
                Some(_) => {},
            }
            proof {
                assert(opt_edge_model(results@[s + 1]) == lt[s + 1].1 && scores@[s + 1] as int
                    == lt[s + 1].0);
            }
            s += 1;
        }
        proof {
            assert forall|j: int| 1 <= j < results@.len() implies ((#[trigger] results@[j])
                matches Some(nd) && nd.end == j && (nd.start as int) < j) by {
                lemma_lattice_wf(v, text@, ni, j);
            }
            lemma_lattice_wf(v, text@, ni, 0);
        }
        results
    }

    /// The backward pass over a completed lattice.
    pub fn decode_backward(&self, nodes: &Vec<Option<Node>>) -> (r: Vec<Node>)
        requires
            wf_edges(nodes@),
        ensures
            edges_model(r@) == path_from(lat_model(nodes@), nodes@.len() - 1),
    {
        backward(nodes)
    }

    /// Tokenizes with the trie-accelerated strategy: substitutes the
    /// word-boundary marker, runs the forward and backward passes, and
    /// returns the winning piece texts.
    pub fn tokenize_dag(&self, text: &str) -> (r: Vec<String>)
        requires
            self.wf(),
            text@.len() <= MAX_TEXT_LEN,
        ensures
            strings_view(r@) == spec_tokens(self.vmap(), normalize_spec(text@)),
    {
        let ghost v = self.vmap();
        let norm = normalize(text);
        let ghost nt = norm@;
        let lat = self.decode_forward(norm.as_str());
        let edges = self.decode_backward(&lat);
        let ghost n = nt.len() as int;
        let ghost latspec = lattice(v, nt, n);
        let ghost p = path_from(latspec, n);
        proof {
            lemma_lattice_len(v, nt, n);
            assert forall|j: int| 0 <= j < latspec.len() implies (#[trigger] lat_model(
                lat@,
            )[j]).1 == latspec[j].1 by {
                assert(lat_model(lat@)[j].1 == opt_edge_model(lat@[j]));
            }
            lemma_path_agree(lat_model(lat@), latspec, n);
            assert forall|j: int| 1 <= j < latspec.len() implies ((#[trigger] latspec[j]).1
                matches Some(e) ==> 0 <= e.start < j && e.end == j) by {
                lemma_lattice_wf(v, nt, n, j);
            }
            lemma_path_edges_wf(latspec, n);
            assert(edges_model(edges@) == p);
        }
        let mut out: Vec<String> = Vec::new();
        let mut idx: usize = 0;
        while idx < edges.len()
            invariant
                nt == norm@,
                edges_model(edges@) == p,
                forall|t: int| 0 <= t < p.len() ==> 0 <= (#[trigger] p[t]).start < p[t].end
                    <= nt.len(),
                idx <= edges@.len(),
                out@.len() == idx,
                forall|t: int| 0 <= t < idx ==> (#[trigger] out@[t])@ == nt.subrange(
                    p[t].start,
                    p[t].end,
                ),
            decreases edges@.len() - idx,
        {
            let e = edges[idx];
            proof {
                assert(edges_model(edges@)[idx as int] == edge_model(edges@[idx as int]));
            }
            let piece = norm.as_str().substring_char(e.start, e.end);
            out.push(piece.to_owned());
            idx += 1;
        }
        proof {
            assert(strings_view(out@) =~= p.map_values(|e: SpecEdge| nt.subrange(e.start, e.end)));
            assert(strings_view(out@) =~= spec_tokens(v, nt));
        }
        out
    }
}

/// Whether one of the first `m` matches has character length `d`.
pub open spec fn covered(ms: Seq<Prefix>, m: int, d: int) -> bool {
    exists|j: int| 0 <= j < m && (#[trigger] ms[j]).len as int == d
}

} // verus!
