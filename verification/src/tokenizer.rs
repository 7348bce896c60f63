use vstd::prelude::*;
use std::collections::BTreeMap;

verus! {

broadcast use {vstd::std_specs::btree::group_btree_axioms, vstd::laws_cmp::group_laws_cmp};

// ---------------------------------------------------------------------------
// Specification of greedy longest-prefix tokenization
// ---------------------------------------------------------------------------

/// The largest `l` with `1 <= l <= n` such that `s[i..i + l]` is a word of `vocab`,
/// or 0 when there is none.
pub open spec fn match_len(vocab: Map<Seq<u8>, u32>, s: Seq<u8>, i: int, n: nat) -> nat
    decreases n,
{
    if n == 0 {
        0
    } else if vocab.contains_key(s.subrange(i, i + n)) {
        n
    } else {
        match_len(vocab, s, i, (n - 1) as nat)
    }
}

/// A match is never longer than the bytes it may use.
pub proof fn lemma_match_len_bound(vocab: Map<Seq<u8>, u32>, s: Seq<u8>, i: int, n: nat)
    ensures
        match_len(vocab, s, i, n) <= n,
        match_len(vocab, s, i, n) > 0 ==> vocab.contains_key(
            s.subrange(i, i + match_len(vocab, s, i, n)),
        ),
    decreases n,
{
    if n > 0 {
        lemma_match_len_bound(vocab, s, i, (n - 1) as nat);
    }
}

proof fn lemma_match_len_is(vocab: Map<Seq<u8>, u32>, s: Seq<u8>, i: int, n: nat, l: nat)
    requires
        l <= n,
        l == 0 || vocab.contains_key(s.subrange(i, i + l)),
        forall|m: int| l < m <= n ==> !vocab.contains_key(#[trigger] s.subrange(i, i + m)),
    ensures
        match_len(vocab, s, i, n) == l,
    decreases n,
{
    if n > l {
        assert(!vocab.contains_key(s.subrange(i, i + n)));
        lemma_match_len_is(vocab, s, i, (n - 1) as nat, l);
    }
}

/// Greedy longest-prefix tokenization of `s[i..]`: at each position the longest
/// word of `vocab` that starts there gives its id and is skipped; where no word
/// starts, `unk` is emitted and one byte is skipped.
pub open spec fn encode_from(vocab: Map<Seq<u8>, u32>, unk: u32, s: Seq<u8>, i: int) -> Seq<u32>
    decreases s.len() - i,
{
    if i >= s.len() || i < 0 {
        seq![]
    } else {
        let l = match_len(vocab, s, i, (s.len() - i) as nat);
        proof {
            lemma_match_len_bound(vocab, s, i, (s.len() - i) as nat);
        }
        if l > 0 {
            seq![vocab[s.subrange(i, i + l)]] + encode_from(vocab, unk, s, i + l)
        } else {
            seq![unk] + encode_from(vocab, unk, s, i + 1)
        }
    }
}

/// The tokenization of `s[i..]` emits no unknown token: a word of `vocab` starts at
/// every position that greedy tokenization reaches.
pub open spec fn covered_from(vocab: Map<Seq<u8>, u32>, s: Seq<u8>, i: int) -> bool
    decreases s.len() - i,
{
    if i >= s.len() || i < 0 {
        true
    } else {
        let l = match_len(vocab, s, i, (s.len() - i) as nat);
        proof {
            lemma_match_len_bound(vocab, s, i, (s.len() - i) as nat);
        }
        l > 0 && covered_from(vocab, s, i + l)
    }
}

/// The bytes of the tokens `ids`, concatenated; ids without bytes contribute nothing.
pub open spec fn decode_bytes(token_bytes: Map<u32, Seq<u8>>, ids: Seq<u32>) -> Seq<u8>
    decreases ids.len(),
{
    if ids.len() == 0 {
        seq![]
    } else {
        let id = ids.last();
        decode_bytes(token_bytes, ids.drop_last()) + if token_bytes.contains_key(id) {
            token_bytes[id]
        } else {
            seq![]
        }
    }
}

/// Every word of `vocab` is decoded back to itself by `token_bytes`.
pub open spec fn ids_match_words(vocab: Map<Seq<u8>, u32>, token_bytes: Map<u32, Seq<u8>>) -> bool {
    forall|w: Seq<u8>|
        #[trigger] vocab.contains_key(w) ==> token_bytes.contains_key(vocab[w])
            && token_bytes[vocab[w]] == w
}

proof fn lemma_decode_bytes_append(token_bytes: Map<u32, Seq<u8>>, a: Seq<u32>, b: Seq<u32>)
    ensures
        decode_bytes(token_bytes, a + b) == decode_bytes(token_bytes, a) + decode_bytes(token_bytes, b),
    decreases b.len(),
{
    if b.len() == 0 {
        assert(a + b =~= a);
        assert(decode_bytes(token_bytes, a) + seq![] =~= decode_bytes(token_bytes, a));
    } else {
        lemma_decode_bytes_append(token_bytes, a, b.drop_last());
        assert((a + b).drop_last() =~= a + b.drop_last());
        assert((a + b).last() == b.last());
        let t = if token_bytes.contains_key(b.last()) {
            token_bytes[b.last()]
        } else {
            seq![]
        };
        assert(decode_bytes(token_bytes, a) + decode_bytes(token_bytes, b.drop_last()) + t
            =~= decode_bytes(token_bytes, a) + (decode_bytes(token_bytes, b.drop_last()) + t));
    }
}

proof fn lemma_decode_encode_bytes(
    vocab: Map<Seq<u8>, u32>,
    token_bytes: Map<u32, Seq<u8>>,
    unk: u32,
    s: Seq<u8>,
    i: int,
)
    requires
        0 <= i <= s.len(),
        covered_from(vocab, s, i),
        ids_match_words(vocab, token_bytes),
    ensures
        decode_bytes(token_bytes, encode_from(vocab, unk, s, i)) == s.subrange(i, s.len() as int),
    decreases s.len() - i,
{
    if i == s.len() {
        assert(decode_bytes(token_bytes, encode_from(vocab, unk, s, i)) =~= s.subrange(i, i));
    } else {
        let l = match_len(vocab, s, i, (s.len() - i) as nat);
        lemma_match_len_bound(vocab, s, i, (s.len() - i) as nat);
        let w = s.subrange(i, i + l);
        lemma_decode_encode_bytes(vocab, token_bytes, unk, s, i + l);
        let rest = encode_from(vocab, unk, s, i + l);
        lemma_decode_bytes_append(token_bytes, seq![vocab[w]], rest);
        assert(seq![vocab[w]].drop_last() =~= Seq::<u32>::empty());
        assert(vocab.contains_key(w));
        assert(token_bytes.contains_key(vocab[w]) && token_bytes[vocab[w]] == w);
        assert(decode_bytes(token_bytes, Seq::<u32>::empty()) == Seq::<u8>::empty());
        assert(Seq::<u8>::empty() + w =~= w);
        assert(decode_bytes(token_bytes, seq![vocab[w]]) =~= w);
        assert(w + s.subrange(i + l, s.len() as int) =~= s.subrange(i, s.len() as int));
    }
}

/// Decoding the tokens of a text gives the text back, when greedy matching
/// finds a word at every position it reaches and each word's id decodes to
/// that word.
pub proof fn lemma_decode_encode(
    vocab: Map<Seq<u8>, u32>,
    token_bytes: Map<u32, Seq<u8>>,
    unk: u32,
    text: Seq<char>,
)
    requires
        covered_from(vocab, vstd::utf8::encode_utf8(text), 0),
        ids_match_words(vocab, token_bytes),
    ensures
        vstd::utf8::valid_utf8(
            decode_bytes(token_bytes, encode_from(vocab, unk, vstd::utf8::encode_utf8(text), 0)),
        ),
        vstd::utf8::decode_utf8(
            decode_bytes(token_bytes, encode_from(vocab, unk, vstd::utf8::encode_utf8(text), 0)),
        ) == text,
{
    let s = vstd::utf8::encode_utf8(text);
    lemma_decode_encode_bytes(vocab, token_bytes, unk, s, 0);
    assert(s.subrange(0, s.len() as int) =~= s);
    vstd::utf8::encode_utf8_valid_utf8(text);
    vstd::utf8::encode_utf8_decode_utf8(text);
}

proof fn lemma_match_len_single(vocab: Map<Seq<u8>, u32>, s: Seq<u8>, i: int, n: nat)
    requires
        n >= 1,
        vocab.contains_key(s.subrange(i, i + 1)),
    ensures
        match_len(vocab, s, i, n) >= 1,
    decreases n,
{
    if n > 1 && !vocab.contains_key(s.subrange(i, i + n)) {
        lemma_match_len_single(vocab, s, i, (n - 1) as nat);
    }
}

proof fn lemma_bytes_cover(vocab: Map<Seq<u8>, u32>, s: Seq<u8>, i: int)
    requires
        0 <= i <= s.len(),
        forall|j: int| 0 <= j < s.len() ==> vocab.contains_key(#[trigger] s.subrange(j, j + 1)),
    ensures
        covered_from(vocab, s, i),
    decreases s.len() - i,
{
    if i < s.len() {
        let n = (s.len() - i) as nat;
        assert(vocab.contains_key(s.subrange(i, i + 1)));
        lemma_match_len_single(vocab, s, i, n);
        lemma_match_len_bound(vocab, s, i, n);
        lemma_bytes_cover(vocab, s, i + match_len(vocab, s, i, n));
    }
}

/// Decoding the tokens of a text gives the text back when each of its bytes
/// is a word on its own (so no position falls back to the unknown token) and
/// each word's id decodes to that word (no id was given to two words).
pub proof fn lemma_decode_encode_with_byte_words(
    vocab: Map<Seq<u8>, u32>,
    token_bytes: Map<u32, Seq<u8>>,
    unk: u32,
    text: Seq<char>,
)
    requires
        forall|j: int|
            0 <= j < vstd::utf8::encode_utf8(text).len() ==> vocab.contains_key(
                #[trigger] vstd::utf8::encode_utf8(text).subrange(j, j + 1),
            ),
        ids_match_words(vocab, token_bytes),
    ensures
        vstd::utf8::decode_utf8(
            decode_bytes(token_bytes, encode_from(vocab, unk, vstd::utf8::encode_utf8(text), 0)),
        ) == text,
{
    lemma_bytes_cover(vocab, vstd::utf8::encode_utf8(text), 0);
    lemma_decode_encode(vocab, token_bytes, unk, text);
}

/// A whole text just added under `id` encodes to that id alone, and that id
/// decodes back to the text: with the vocabulary and the byte map of a
/// tokenizer after `add_token(text, id)` (a nonempty text), greedy matching
/// takes the whole text as one word.
pub proof fn lemma_added_text_round_trip(
    vocab: Map<Seq<u8>, u32>,
    token_bytes: Map<u32, Seq<u8>>,
    unk: u32,
    text: Seq<char>,
    id: u32,
)
    requires
        vstd::utf8::encode_utf8(text).len() > 0,
    ensures
        encode_from(vocab.insert(vstd::utf8::encode_utf8(text), id), unk, vstd::utf8::encode_utf8(text), 0)
            == seq![id],
        decode_bytes(token_bytes.insert(id, vstd::utf8::encode_utf8(text)), seq![id])
            == vstd::utf8::encode_utf8(text),
        vstd::utf8::valid_utf8(decode_bytes(token_bytes.insert(id, vstd::utf8::encode_utf8(text)), seq![id])),
        vstd::utf8::decode_utf8(decode_bytes(token_bytes.insert(id, vstd::utf8::encode_utf8(text)), seq![id]))
            == text,
{
    let s = vstd::utf8::encode_utf8(text);
    let v = vocab.insert(s, id);
    let tb = token_bytes.insert(id, s);
    let n = s.len();
    assert(s.subrange(0, n as int) =~= s);
    assert(v.contains_key(s.subrange(0, 0 + n as int)));
    assert(match_len(v, s, 0, n) == n);
    assert(encode_from(v, unk, s, n as int) == Seq::<u32>::empty());
    assert(v[s.subrange(0, 0 + n as int)] == id);
    assert(encode_from(v, unk, s, 0) =~= seq![id]);
    assert(seq![id].drop_last() =~= Seq::<u32>::empty());
    assert(decode_bytes(tb, Seq::<u32>::empty()) == Seq::<u8>::empty());
    assert(decode_bytes(tb, seq![id]) =~= s);
    vstd::utf8::encode_utf8_valid_utf8(text);
    vstd::utf8::encode_utf8_decode_utf8(text);
}

/// What `String::from_utf8_lossy` makes of `bytes`.
pub uninterp spec fn utf8_lossy(bytes: Seq<u8>) -> Seq<char>;

/// Calls `String::from_utf8_lossy` and takes its result as an owned `String`.
/// Trusted: the text is `utf8_lossy` of the bytes, and, as std documents, the
/// text the bytes encode when they are valid UTF-8. What replaces an invalid
/// sequence is left unstated.
#[verifier::external_body]
fn string_from_utf8_lossy(bytes: &[u8]) -> (r: String)
    ensures
        r@ == utf8_lossy(bytes@),
        vstd::utf8::valid_utf8(bytes@) ==> r@ == vstd::utf8::decode_utf8(bytes@),
{
    String::from_utf8_lossy(bytes).into_owned()
}

// ---------------------------------------------------------------------------
// The trie
// ---------------------------------------------------------------------------

/// A trie node. The nodes live in one vector and a child is named by its index
/// there: a spec function that recursed through nested maps of child nodes would
/// have no termination measure (a map's values do not decrease from the map), and
/// `BTreeMap` offers no mutable lookup to walk down such nodes in place.
struct TrieNode {
    children: Vec<(u8, usize)>,
    token_id: Option<u32>,
}

/// Tokenizer that matches the longest vocabulary word at each position, with the
/// vocabulary held in a byte trie.
pub struct TrieTokenizer {
    nodes: Vec<TrieNode>,
    id_to_token: BTreeMap<u32, Vec<u8>>,
    pub vocab_size: u32,
    pub unk_token: u32,
    paths: Ghost<Map<Seq<u8>, usize>>,
}

impl TrieTokenizer {
    spec fn node_of(&self, p: Seq<u8>) -> TrieNode {
        self.nodes@[self.paths@[p] as int]
    }

    spec fn has_child(&self, n: int, b: u8, c: usize) -> bool {
        exists|k: int|
            0 <= k < self.nodes@[n].children@.len() && #[trigger] self.nodes@[n].children@[k] == (
            b,
            c,
        )
    }

    /// The trie is well formed: every path of bytes leading from the root to a node
    /// is recorded, and the recorded paths match the nodes' children.
    pub closed spec fn wf(&self) -> bool {
        let paths = self.paths@;
        let nodes = self.nodes@;
        &&& nodes.len() >= 1
        &&& paths.contains_key(Seq::<u8>::empty())
        &&& paths[Seq::<u8>::empty()] == 0
        &&& forall|p: Seq<u8>| #[trigger] paths.contains_key(p) ==> paths[p] < nodes.len()
        &&& forall|p: Seq<u8>, q: Seq<u8>|
            #[trigger] paths.contains_key(p) && #[trigger] paths.contains_key(q) && paths[p]
                == paths[q] ==> p == q
        &&& forall|p: Seq<u8>|
            #[trigger] paths.contains_key(p) && p.len() > 0 ==> paths.contains_key(p.drop_last())
        &&& forall|p: Seq<u8>, k: int|
            #[trigger] paths.contains_key(p) && 0 <= k < nodes[paths[p] as int].children@.len()
                ==> {
                let e = #[trigger] nodes[paths[p] as int].children@[k];
                paths.contains_key(p.push(e.0)) && paths[p.push(e.0)] == e.1
            }
        &&& forall|p: Seq<u8>, b: u8|
            #[trigger] paths.contains_key(p.push(b)) ==> self.has_child(
                paths[p] as int,
                b,
                paths[p.push(b)],
            )
        &&& forall|n: int, k1: int, k2: int|
            0 <= n < nodes.len() && 0 <= k1 < k2 < nodes[n].children@.len() ==> (
            #[trigger] nodes[n].children@[k1]).0 != (#[trigger] nodes[n].children@[k2]).0
        &&& forall|n: int, k: int|
            0 <= n < nodes.len() && 0 <= k < nodes[n].children@.len() ==> (
            #[trigger] nodes[n].children@[k]).1 < nodes.len()
    }

    /// The vocabulary: each nonempty word with the id it was last added with.
    pub closed spec fn vocab(&self) -> Map<Seq<u8>, u32> {
        Map::new(
            |p: Seq<u8>|
                p.len() > 0 && self.paths@.contains_key(p) && self.node_of(p).token_id is Some,
            |p: Seq<u8>| self.node_of(p).token_id.unwrap(),
        )
    }

    /// The bytes of each token id, as last added.
    pub closed spec fn token_bytes(&self) -> Map<u32, Seq<u8>> {
        Map::new(
            |id: u32| self.id_to_token@.contains_key(id),
            |id: u32| self.id_to_token@[id]@,
        )
    }

    /// The id emitted where no word starts.
    pub closed spec fn spec_unk_token(&self) -> u32 {
        self.unk_token
    }

    /// One more than the largest id added so far (0 for an empty vocabulary).
    pub closed spec fn spec_vocab_size(&self) -> u32 {
        self.vocab_size
    }

    pub fn new(unk_token: u32) -> (r: Self)
        ensures
            r.wf(),
            r.vocab() == Map::<Seq<u8>, u32>::empty(),
            r.token_bytes() == Map::<u32, Seq<u8>>::empty(),
            r.spec_vocab_size() == 0,
            r.spec_unk_token() == unk_token,
    {
        let mut nodes: Vec<TrieNode> = Vec::new();
        nodes.push(TrieNode { children: Vec::new(), token_id: None });
        let r = Self {
            nodes,
            id_to_token: BTreeMap::new(),
            vocab_size: 0,
            unk_token,
            paths: Ghost(Map::empty().insert(Seq::<u8>::empty(), 0usize)),
        };
        assert(r.nodes@[0].children@.len() == 0);
        assert forall|p: Seq<u8>| #[trigger] r.paths@.contains_key(p) implies p == Seq::<u8>::empty() by {}
        assert forall|p: Seq<u8>, b: u8| !(#[trigger] r.paths@.contains_key(p.push(b))) by {
            if r.paths@.contains_key(p.push(b)) {
                assert(p.push(b).len() > 0);
            }
        }
        assert(r.vocab() =~= Map::<Seq<u8>, u32>::empty());
        assert(r.token_bytes() =~= Map::<u32, Seq<u8>>::empty());
        r
    }

    proof fn lemma_prefix_closed(&self, p: Seq<u8>, m: int)
        requires
            self.wf(),
            self.paths@.contains_key(p),
            0 <= m <= p.len(),
        ensures
            self.paths@.contains_key(p.subrange(0, m)),
        decreases p.len() - m,
    {
        if m < p.len() {
            self.lemma_prefix_closed(p.drop_last(), m);
            assert(p.drop_last().subrange(0, m) =~= p.subrange(0, m));
        } else {
            assert(p.subrange(0, m) =~= p);
        }
    }

    /// The child of the node reached by `p` along byte `b`, if there is one.
    fn find_child(&self, cur: usize, b: u8, Ghost(p): Ghost<Seq<u8>>) -> (r: Option<usize>)
        requires
            self.wf(),
            self.paths@.contains_key(p),
            self.paths@[p] == cur,
        ensures
            r is Some <==> self.paths@.contains_key(p.push(b)),
            r is Some ==> self.paths@[p.push(b)] == r->0,
    {
        let children = &self.nodes[cur].children;
        let mut k: usize = 0;
        while k < children.len()
            invariant
                self.wf(),
                self.paths@.contains_key(p),
                self.paths@[p] == cur,
                cur < self.nodes@.len(),
                children == self.nodes@[cur as int].children,
                k <= children@.len(),
                forall|j: int| 0 <= j < k ==> (#[trigger] children@[j]).0 != b,
            decreases children.len() - k,
        {
            if children[k].0 == b {
                let c = children[k].1;
                proof {
                    let e = self.nodes@[self.paths@[p] as int].children@[k as int];
                    assert(self.paths@.contains_key(p.push(e.0)));
                }
                return Some(c);
            }
            k += 1;
        }
        proof {
            if self.paths@.contains_key(p.push(b)) {
                assert(self.has_child(self.paths@[p] as int, b, self.paths@[p.push(b)]));
                let j = choose|j: int|
                    0 <= j < self.nodes@[cur as int].children@.len()
                        && #[trigger] self.nodes@[cur as int].children@[j] == (
                        b,
                        self.paths@[p.push(b)],
                    );
                assert(children@[j].0 == b);
            }
        }
        None
    }

    /// Adds a childless node below the node reached by `p`, along byte `b`.
    fn add_child(&mut self, cur: usize, b: u8, Ghost(p): Ghost<Seq<u8>>) -> (r: usize)
        requires
            old(self).wf(),
            old(self).paths@.contains_key(p),
            old(self).paths@[p] == cur,
            !old(self).paths@.contains_key(p.push(b)),
        ensures
            final(self).wf(),
            final(self).paths@ == old(self).paths@.insert(p.push(b), r),
            final(self).vocab() == old(self).vocab(),
            final(self).id_to_token == old(self).id_to_token,
            final(self).vocab_size == old(self).vocab_size,
            final(self).unk_token == old(self).unk_token,
    {
        let ghost old_nodes = self.nodes@;
        let ghost old_paths = self.paths@;
        let ghost q = p.push(b);
        proof {
            // no child of `cur` carries `b`
            assert forall|k: int| 0 <= k < old_nodes[cur as int].children@.len() implies (
            #[trigger] old_nodes[cur as int].children@[k]).0 != b by {
                let e = old_nodes[old_paths[p] as int].children@[k];
                assert(old_paths.contains_key(p.push(e.0)));
            }
        }
        let n = self.nodes.len();
        self.nodes.push(TrieNode { children: Vec::new(), token_id: None });
        self.nodes[cur].children.push((b, n));
        self.paths = Ghost(old_paths.insert(q, n));
        proof {
            let nodes = self.nodes@;
            let paths = self.paths@;
            assert(q.drop_last() =~= p);
            assert forall|n2: int| 0 <= n2 < old_nodes.len() && n2 != cur implies #[trigger] nodes[n2]
                == old_nodes[n2] by {}
            assert(nodes[cur as int].children@ == old_nodes[cur as int].children@.push((b, n)));
            assert(nodes[n as int].children@.len() == 0);
            assert forall|x: Seq<u8>, y: Seq<u8>|
                #[trigger] paths.contains_key(x) && #[trigger] paths.contains_key(y) && paths[x]
                    == paths[y] implies x == y by {
                if x != q && y != q {
                } else if x == q && y != q {
                    assert(old_paths[y] < old_nodes.len());
                } else if x != q && y == q {
                    assert(old_paths[x] < old_nodes.len());
                }
            }
            assert forall|x: Seq<u8>| #[trigger] paths.contains_key(x) && x.len() > 0 implies paths.contains_key(
                x.drop_last(),
            ) by {}
            assert forall|x: Seq<u8>, k: int|
                #[trigger] paths.contains_key(x) && 0 <= k < nodes[paths[x] as int].children@.len()
                    implies {
                let e = #[trigger] nodes[paths[x] as int].children@[k];
                paths.contains_key(x.push(e.0)) && paths[x.push(e.0)] == e.1
            } by {
                if x == q {
                } else if old_paths[x] == cur {
                    assert(x == p);
                    if k < old_nodes[cur as int].children@.len() {
                        let e = old_nodes[old_paths[x] as int].children@[k];
                        assert(old_paths.contains_key(x.push(e.0)));
                    }
                } else {
                    let e = old_nodes[old_paths[x] as int].children@[k];
                    assert(old_paths.contains_key(x.push(e.0)));
                }
            }
            assert forall|x: Seq<u8>, c: u8| #[trigger] paths.contains_key(x.push(c)) implies self.has_child(
                paths[x] as int,
                c,
                paths[x.push(c)],
            ) by {
                if x.push(c) == q {
                    assert(x =~= x.push(c).drop_last());
                    assert(c == x.push(c).last());
                    let k = old_nodes[cur as int].children@.len() as int;
                    assert(nodes[cur as int].children@[k] == (b, n));
                } else {
                    assert(old_paths.contains_key(x.push(c)));
                    assert(x.push(c).drop_last() =~= x);
                    assert(old_paths.contains_key(x));
                    let m = old_paths[x] as int;
                    assert(old(self).has_child(m, c, old_paths[x.push(c)]));
                    let k = choose|k: int|
                        0 <= k < old_nodes[m].children@.len()
                            && #[trigger] old_nodes[m].children@[k] == (c, old_paths[x.push(c)]);
                    if m == cur {
                        assert(nodes[m].children@[k] == old_nodes[m].children@[k]);
                    } else {
                        assert(nodes[m] == old_nodes[m]);
                    }
                    assert(nodes[m].children@[k] == (c, paths[x.push(c)]));
                }
            }
            assert forall|n2: int, k1: int, k2: int|
                0 <= n2 < nodes.len() && 0 <= k1 < k2 < nodes[n2].children@.len() implies (
            #[trigger] nodes[n2].children@[k1]).0 != (#[trigger] nodes[n2].children@[k2]).0 by {
                if n2 == cur {
                    let len = old_nodes[cur as int].children@.len();
                    if k2 == len {
                        assert(old_nodes[cur as int].children@[k1].0 != b);
                    } else {
                        assert(old_nodes[n2].children@[k1] == nodes[n2].children@[k1]);
                        assert(old_nodes[n2].children@[k2] == nodes[n2].children@[k2]);
                    }
                }
            }
            assert forall|n2: int, k: int| 0 <= n2 < nodes.len() && 0 <= k < nodes[n2].children@.len() implies (
            #[trigger] nodes[n2].children@[k]).1 < nodes.len() by {
                if n2 == cur && k < old_nodes[cur as int].children@.len() {
                    assert(old_nodes[n2].children@[k] == nodes[n2].children@[k]);
                }
            }
            assert(self.vocab() =~= old(self).vocab()) by {
                assert forall|x: Seq<u8>| paths.contains_key(x) && x != q implies #[trigger] self.node_of(x).token_id
                    == old(self).node_of(x).token_id by {
                    assert(old_paths[x] < old_nodes.len());
                }
            }
        }
        n
    }

    /// Adds `text` to the vocabulary under `id`. A word added again takes the new
    /// id; the empty word is stored but never matched.
    /// The id emitted where no word starts (the `unk_token` field).
    pub fn get_unk_token(&self) -> (r: u32)
        ensures
            r == self.spec_unk_token(),
    {
        self.unk_token
    }

    /// One more than the largest id added so far (the `vocab_size` field).
    pub fn get_vocab_size(&self) -> (r: u32)
        ensures
            r == self.spec_vocab_size(),
    {
        self.vocab_size
    }

    pub fn add_token(&mut self, text: &[u8], id: u32)
        requires
            old(self).wf(),
            id < u32::MAX,
        ensures
            final(self).wf(),
            final(self).vocab() == (if text@.len() > 0 {
                old(self).vocab().insert(text@, id)
            } else {
                old(self).vocab()
            }),
            final(self).token_bytes() == old(self).token_bytes().insert(id, text@),
            final(self).spec_vocab_size() == (if id >= old(self).spec_vocab_size() {
                (id + 1) as u32
            } else {
                old(self).spec_vocab_size()
            }),
            final(self).spec_unk_token() == old(self).spec_unk_token(),
    {
        let mut cur: usize = 0;
        let mut j: usize = 0;
        proof {
            assert(text@.subrange(0, 0) =~= Seq::<u8>::empty());
        }
        while j < text.len()
            invariant
                self.wf(),
                j <= text@.len(),
                self.paths@.contains_key(text@.subrange(0, j as int)),
                self.paths@[text@.subrange(0, j as int)] == cur,
                self.vocab() == old(self).vocab(),
                self.id_to_token == old(self).id_to_token,
                self.vocab_size == old(self).vocab_size,
                self.unk_token == old(self).unk_token,
            decreases text.len() - j,
        {
            let b = text[j];
            let ghost p = text@.subrange(0, j as int);
            proof {
                assert(text@.subrange(0, j + 1) =~= p.push(b));
            }
            match self.find_child(cur, b, Ghost(p)) {
                Some(c) => {
                    cur = c;
                },
                None => {
                    cur = self.add_child(cur, b, Ghost(p));
                },
            }
            j += 1;
        }
        let ghost old_nodes = self.nodes@;
        let ghost paths = self.paths@;
        let ghost before = *self;
        proof {
            assert(text@.subrange(0, text@.len() as int) =~= text@);
        }
        self.nodes[cur].token_id = Some(id);
        proof {
            let nodes = self.nodes@;
            assert forall|n: int| 0 <= n < nodes.len() implies #[trigger] nodes[n].children
                == old_nodes[n].children by {}
            assert forall|x: Seq<u8>, c: u8| #[trigger] paths.contains_key(x.push(c)) implies self.has_child(
                paths[x] as int,
                c,
                paths[x.push(c)],
            ) by {
                assert(x.push(c).drop_last() =~= x);
                let m = paths[x] as int;
                assert(before.has_child(m, c, paths[x.push(c)]));
                let k = choose|k: int|
                    0 <= k < old_nodes[m].children@.len()
                        && #[trigger] old_nodes[m].children@[k] == (c, paths[x.push(c)]);
                assert(nodes[m].children@[k] == (c, paths[x.push(c)]));
            }
            assert(self.wf());
            let want = if text@.len() > 0 {
                old(self).vocab().insert(text@, id)
            } else {
                old(self).vocab()
            };
            assert forall|x: Seq<u8>| paths.contains_key(x) && x != text@ implies #[trigger] self.node_of(x).token_id
                == before.node_of(x).token_id by {}
            assert(self.vocab() =~= want);
        }
        self.id_to_token.insert(id, vstd::slice::slice_to_vec(text));
        if id >= self.vocab_size {
            self.vocab_size = id + 1;
        }
        proof {
            assert(self.token_bytes() =~= old(self).token_bytes().insert(id, text@));
        }
    }

    /// The longest word of the vocabulary that starts at `bytes[i]`: its id and
    /// its length, or `None` and 0.
    fn longest_match(&self, bytes: &[u8], i: usize) -> (r: (Option<u32>, usize))
        requires
            self.wf(),
            i < bytes@.len(),
        ensures
            r.1 == match_len(self.vocab(), bytes@, i as int, (bytes@.len() - i) as nat),
            r.0 is Some <==> r.1 > 0,
            r.0 is Some ==> r.0->0 == self.vocab()[bytes@.subrange(i as int, i + r.1)],
    {
        let ghost s = bytes@;
        let ghost vocab = self.vocab();
        let mut cur: usize = 0;
        let mut best: Option<u32> = None;
        let mut best_len: usize = 0;
        let mut j: usize = i;
        proof {
            assert(s.subrange(i as int, i as int) =~= Seq::<u8>::empty());
        }
        while j < bytes.len()
            invariant_except_break
                self.wf(),
                vocab == self.vocab(),
                s == bytes@,
                i <= j <= s.len(),
                self.paths@.contains_key(s.subrange(i as int, j as int)),
                self.paths@[s.subrange(i as int, j as int)] == cur,
                best_len <= j - i,
                best is Some <==> best_len > 0,
                best is Some ==> vocab.contains_key(s.subrange(i as int, i + best_len)) && best->0
                    == vocab[s.subrange(i as int, i + best_len)],
                forall|m: int|
                    best_len < m <= j - i ==> !vocab.contains_key(#[trigger] s.subrange(i as int, i + m)),
            ensures
                best_len <= s.len() - i,
                best is Some <==> best_len > 0,
                best is Some ==> vocab.contains_key(s.subrange(i as int, i + best_len)) && best->0
                    == vocab[s.subrange(i as int, i + best_len)],
                forall|m: int|
                    best_len < m <= s.len() - i ==> !vocab.contains_key(#[trigger] s.subrange(i as int, i + m)),
            decreases bytes.len() - j,
        {
            let ghost p = s.subrange(i as int, j as int);
            proof {
                assert(s.subrange(i as int, j + 1) =~= p.push(s[j as int]));
            }
            match self.find_child(cur, bytes[j], Ghost(p)) {
                None => {
                    proof {
                        assert forall|m: int| best_len < m <= s.len() - i implies !vocab.contains_key(
                            #[trigger] s.subrange(i as int, i + m),
                        ) by {
                            if m > j - i && vocab.contains_key(s.subrange(i as int, i + m)) {
                                self.lemma_prefix_closed(s.subrange(i as int, i + m), j - i + 1);
                                assert(s.subrange(i as int, i + m).subrange(0, j - i + 1) =~= p.push(
                                    s[j as int],
                                ));
                            }
                        }
                    }
                    break;
                },
                Some(c) => {
                    cur = c;
                    j += 1;
                    match self.nodes[cur].token_id {
                        Some(id) => {
                            best = Some(id);
                            best_len = j - i;
                        },
                        None => {},
                    }
                },
            }
        }
        proof {
            lemma_match_len_is(vocab, s, i as int, (s.len() - i) as nat, best_len as nat);
        }
        (best, best_len)
    }

    /// Tokenizes `text` by greedy longest-prefix matching of its UTF-8 bytes.
    pub fn encode(&self, text: &str) -> (r: Vec<u32>)
        requires
            self.wf(),
        ensures
            r@ == encode_from(self.vocab(), self.spec_unk_token(), vstd::utf8::encode_utf8(text@), 0),
    {
        let bytes = text.as_bytes();
        let ghost s = bytes@;
        let ghost vocab = self.vocab();
        let ghost unk = self.spec_unk_token();
        let mut tokens: Vec<u32> = Vec::new();
        let mut i: usize = 0;
        while i < bytes.len()
            invariant
                self.wf(),
                vocab == self.vocab(),
                unk == self.unk_token,
                s == bytes@,
                s == vstd::utf8::encode_utf8(text@),
                i <= s.len(),
                encode_from(vocab, unk, s, 0) == tokens@ + encode_from(vocab, unk, s, i as int),
            decreases bytes.len() - i,
        {
            let (best, best_len) = self.longest_match(bytes, i);
            proof {
                lemma_match_len_bound(vocab, s, i as int, (s.len() - i) as nat);
            }
            match best {
                Some(id) => {
                    tokens.push(id);
                    i += best_len;
                },
                None => {
                    tokens.push(self.unk_token);
                    i += 1;
                },
            }
            proof {
                assert(encode_from(vocab, unk, s, 0) == tokens@ + encode_from(vocab, unk, s, i as int));
            }
        }
        proof {
            assert(encode_from(vocab, unk, s, i as int) =~= Seq::<u32>::empty());
            assert(tokens@ + Seq::<u32>::empty() =~= tokens@);
        }
        tokens
    }

    /// Concatenates the bytes of the known ids in `tokens` (unknown ids give
    /// nothing) and reads them as UTF-8, replacing invalid sequences.
    pub fn decode(&self, tokens: &[u32]) -> (r: String)
        ensures
            r@ == utf8_lossy(decode_bytes(self.token_bytes(), tokens@)),
            vstd::utf8::valid_utf8(decode_bytes(self.token_bytes(), tokens@)) ==> r@
                == vstd::utf8::decode_utf8(decode_bytes(self.token_bytes(), tokens@)),
    {
        let ghost tb = self.token_bytes();
        let mut bytes: Vec<u8> = Vec::new();
        let mut k: usize = 0;
        proof {
            assert(tokens@.take(0) =~= Seq::<u32>::empty());
        }
        while k < tokens.len()
            invariant
                tb == self.token_bytes(),
                k <= tokens@.len(),
                bytes@ == decode_bytes(tb, tokens@.take(k as int)),
            decreases tokens.len() - k,
        {
            let id = tokens[k];
            let ghost base = bytes@;
            proof {
                assert(tokens@.take(k + 1).drop_last() =~= tokens@.take(k as int));
                assert(tokens@.take(k + 1).last() == id);
            }
            match self.id_to_token.get(&id) {
                Some(word) => {
                    let mut q: usize = 0;
                    while q < word.len()
                        invariant
                            q <= word@.len(),
                            bytes@ == base + word@.take(q as int),
                        decreases word.len() - q,
                    {
                        bytes.push(word[q]);
                        q += 1;
                        proof {
                            assert(base + word@.take(q as int) =~= (base + word@.take(q - 1)).push(
                                word@[q - 1],
                            ));
                        }
                    }
                    proof {
                        assert(word@.take(word@.len() as int) =~= word@);
                    }
                },
                None => {
                    proof {
                        assert(base + seq![] =~= base);
                    }
                },
            }
            k += 1;
        }
        proof {
            assert(tokens@.take(tokens@.len() as int) =~= tokens@);
        }
        string_from_utf8_lossy(bytes.as_slice())
    }
}

} // verus!
